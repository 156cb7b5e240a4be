//! The diameter of a tree whose edges have weights: a longest path, found
//! by two traversals, one from any vertex to a farthest vertex and one from
//! there to a vertex farthest from it.

use vstd::prelude::*;
use std::collections::VecDeque;
use crate::graph::{
    Tree,
    Index,
    targets_below,
    weights_fit,
    has_edge,
    is_walk,
    reaches,
    symmetric,
    walk_weighs,
    found_by,
    found_from,
    targets_seen,
    lemma_cap,
    traversal_witness,
    is_traversal_distance,
    unseen,
    lemma_unseen_mark,
    lemma_unseen_bound,
};
use crate::weight::Weight;

verus! {

/// A longest path of a tree: its weight, its two ends and its vertices.
pub struct Diameter<W> {
    /// The weight of the path.
    pub dist: W,
    src: u32,
    dst: u32,
    /// The vertices of the path, from the one end to the other.
    pub path: Vec<u32>,
}

impl<W> Diameter<W> {
    /// The two ends of the path.
    pub closed spec fn ends(&self) -> (u32, u32) {
        (self.src, self.dst)
    }

    /// The weight of the path.
    pub closed spec fn length(&self) -> W {
        self.dist
    }

    /// The vertices of the path.
    pub closed spec fn way(&self) -> Seq<int> {
        Seq::new(self.path@.len(), |i: int| self.path@[i] as int)
    }

    /// The two ends of the path.
    pub fn furthest_vertex_pair(&self) -> (pair: (u32, u32))
        ensures
            pair == self.ends(),
    {
        (self.src, self.dst)
    }
}

/// Whether the traversal found `v` on an edge from `u`.
pub open spec fn found_via<W: Weight>(
    lists: Seq<Seq<(Index, W)>>,
    dist: Seq<W>,
    reached: Seq<bool>,
    order: Seq<nat>,
    u: int,
    v: int,
) -> bool {
    exists|e: int| found_by(lists, dist, reached, order, u, e, v)
}

/// Whether a walk leads from `s` to every vertex.
pub open spec fn connected_from<W>(lists: Seq<Seq<(Index, W)>>, s: int) -> bool {
    forall|v: int| 0 <= v < lists.len() ==> #[trigger] reaches(lists, s, v)
}

/// Whether `r` is the last place of the greatest of the weights.
pub open spec fn is_last_max<W: Weight>(dist: Seq<W>, r: int) -> bool {
    &&& 0 <= r < dist.len()
    &&& forall|i: int| 0 <= i < dist.len() ==> (#[trigger] dist[i]).value() <= dist[r].value()
    &&& forall|i: int| r < i < dist.len() ==> (#[trigger] dist[i]).value() < dist[r].value()
}

/// Whether `src`, `dst`, `length` and `way` are what two traversals give: a
/// traversal from the vertex 0 finds `src` farthest, a traversal from `src`
/// finds `dst` farthest, at the distance `length`, and `way` is a walk from
/// the one to the other of that weight.
pub open spec fn is_farthest_pair<W: Weight>(
    lists: Seq<Seq<(Index, W)>>,
    src: int,
    dst: int,
    length: W,
    way: Seq<int>,
) -> bool {
    exists|first: Seq<W>, second: Seq<W>|
        {
            &&& #[trigger] is_traversal_distance(lists, 0, first)
            &&& is_last_max(first, src)
            &&& #[trigger] is_traversal_distance(lists, src, second)
            &&& is_last_max(second, dst)
            &&& length == second[dst]
            &&& walk_weighs(lists, way, length.value())
            &&& way[0] == src
            &&& way.last() == dst
        }
}

/// A traversal finds every vertex to which a walk leads from its start.
proof fn lemma_traversal_reaches<W: Weight>(
    lists: Seq<Seq<(Index, W)>>,
    src: int,
    dist: Seq<W>,
    reached: Seq<bool>,
    order: Seq<nat>,
    walk: Seq<int>,
)
    requires
        traversal_witness(lists, src, dist, reached, order),
        is_walk(lists, walk),
        walk[0] == src,
    ensures
        reached[walk.last()],
    decreases walk.len(),
{
    if walk.len() > 1 {
        let shorter = walk.drop_last();
        assert(is_walk(lists, shorter)) by {
            assert forall|i: int| 0 <= i < shorter.len() - 1 implies #[trigger] has_edge(
                lists,
                shorter[i],
                shorter[i + 1],
            ) by {
                assert(has_edge(lists, walk[i], walk[i + 1]));
            }
        }
        lemma_traversal_reaches(lists, src, dist, reached, order, shorter);
        let u = walk[walk.len() - 2];
        assert(has_edge(lists, walk[walk.len() - 2], walk[walk.len() - 2 + 1]));
        let e = choose|e: int| 0 <= e < lists[u].len() && (#[trigger] lists[u][e]).0 == walk.last();
        assert(shorter.last() == u);
        assert(targets_seen(lists, reached, u, lists[u].len() as int));
    }
}

/// In a graph with an edge back for every edge, a walk can be walked back.
proof fn lemma_walk_back<W>(lists: Seq<Seq<(Index, W)>>, walk: Seq<int>) -> (back: Seq<int>)
    requires
        symmetric(lists),
        is_walk(lists, walk),
    ensures
        is_walk(lists, back),
        back[0] == walk.last(),
        back.last() == walk[0],
{
    let back = Seq::new(walk.len(), |i: int| walk[walk.len() - 1 - i]);
    assert forall|i: int| 0 <= i < back.len() - 1 implies #[trigger] has_edge(
        lists,
        back[i],
        back[i + 1],
    ) by {
        let k = walk.len() - 2 - i;
        assert(has_edge(lists, walk[k], walk[k + 1]));
        let e = choose|e: int| 0 <= e < lists[walk[k]].len() && (#[trigger] lists[walk[k]][e]).0 == walk[k + 1];
        assert(has_edge(lists, lists[walk[k]][e].0 as int, walk[k]));
    }
    back
}

/// Two walks, the second from where the first ends, make one walk.
proof fn lemma_walk_join<W>(lists: Seq<Seq<(Index, W)>>, a: Seq<int>, b: Seq<int>) -> (joined: Seq<int>)
    requires
        is_walk(lists, a),
        is_walk(lists, b),
        a.last() == b[0],
    ensures
        is_walk(lists, joined),
        joined[0] == a[0],
        joined.last() == b.last(),
{
    let joined = a + b.skip(1);
    assert forall|i: int| 0 <= i < joined.len() - 1 implies #[trigger] has_edge(
        lists,
        joined[i],
        joined[i + 1],
    ) by {
        if i < a.len() - 1 {
            assert(has_edge(lists, a[i], a[i + 1]));
        } else {
            let k = i - (a.len() - 1);
            assert(has_edge(lists, b[k], b[k + 1]));
        }
    }
    joined
}

/// In a graph with an edge back for every edge in which a walk leads from
/// the vertex 0 to every vertex, a walk leads from every vertex to every
/// vertex.
proof fn lemma_connected_from<W>(lists: Seq<Seq<(Index, W)>>, s: int)
    requires
        symmetric(lists),
        connected_from(lists, 0),
        0 <= s < lists.len(),
    ensures
        connected_from(lists, s),
{
    assert forall|v: int| 0 <= v < lists.len() implies #[trigger] reaches(lists, s, v) by {
        assert(reaches(lists, 0, s));
        assert(reaches(lists, 0, v));
        let to_s = choose|walk: Seq<int>| #[trigger] is_walk(lists, walk) && walk[0] == 0 && walk.last() == s;
        let to_v = choose|walk: Seq<int>| #[trigger] is_walk(lists, walk) && walk[0] == 0 && walk.last() == v;
        let back = lemma_walk_back(lists, to_s);
        let joined = lemma_walk_join(lists, back, to_v);
        assert(is_walk(lists, joined) && joined[0] == s && joined.last() == v);
    }
}

/// The weight of the path that the vertices named by `prev` make from the
/// start of a traversal to a vertex: the distance of the vertex.
proof fn lemma_way_weighs<W: Weight>(
    lists: Seq<Seq<(Index, W)>>,
    src: int,
    dist: Seq<W>,
    reached: Seq<bool>,
    order: Seq<nat>,
    path: Seq<int>,
    i: int,
)
    requires
        0 <= src < lists.len(),
        dist[src].value() == 0,
        0 <= i < path.len(),
        path[0] == src,
        forall|k: int|
            1 <= k < path.len() ==> #[trigger] found_via(
                lists,
                dist,
                reached,
                order,
                path[k - 1],
                path[k],
            ),
    ensures
        walk_weighs(lists, path.take(i + 1), dist[path[i]].value()),
    decreases i,
{
    let walk = path.take(i + 1);
    if i > 0 {
        lemma_way_weighs(lists, src, dist, reached, order, path, i - 1);
        let a = path[i - 1];
        let b = path[i];
        assert(found_via(lists, dist, reached, order, path[i - 1], path[i]));
        let e = choose|e: int| found_by(lists, dist, reached, order, a, e, b);
        assert(walk.drop_last() =~= path.take(i));
        assert(walk[walk.len() - 2] == path[i - 1]);
        assert(lists[path[i - 1]][e].0 == walk.last());
    }
}

/// A traversal of `tree` from `src`: for each vertex the weight of the way
/// on which it is found, and the vertex from which it is found.
#[verifier::rlimit(40)]
fn traverse<G: Tree>(tree: &G, src: Index) -> (res: (
    Vec<G::Weight>,
    Vec<u32>,
    Ghost<Seq<bool>>,
    Ghost<Seq<nat>>,
)) where G::Weight: Weight
    requires
        tree.wf(),
        src < tree.lists().len(),
        weights_fit(tree.lists()),
    ensures
        traversal_witness(tree.lists(), src as int, res.0@, res.2@, res.3@),
        res.1.len() == tree.lists().len(),
        forall|x: int|
            0 <= x < tree.lists().len() && x != src && #[trigger] res.2@[x] ==> res.1[x]
                < tree.lists().len() && found_via(
                tree.lists(),
                res.0@,
                res.2@,
                res.3@,
                res.1[x] as int,
                x,
            ),
{
        let n: usize = tree.size() as usize;
        let ghost lists = tree.lists();
        let mut dist: Vec<G::Weight> = Vec::new();
        let mut seen: Vec<bool> = Vec::new();
        let mut prev: Vec<u32> = Vec::new();
        let mut i: usize = 0;
        while i < n
            invariant
                i <= n,
                seen.len() == i,
                dist.len() == i,
                prev.len() == i,
                forall|v: int| 0 <= v < i ==> !#[trigger] seen[v],
                forall|v: int| 0 <= v < i ==> (#[trigger] dist[v]).value() == 0,
            decreases n - i,
        {
            seen.push(false);
            prev.push(u32::MAX);
            dist.push(<G::Weight as Weight>::zero());
            i += 1;
        }
        let mut q: VecDeque<Index> = VecDeque::new();
        let ghost mut done: Seq<bool> = Seq::new(n as nat, |v: int| false);
        let ghost mut order: Seq<nat> = Seq::new(n as nat, |v: int| 0nat);
        let ghost mut clock: nat = 1;
        let ghost cap = <G::Weight as Weight>::limit() / (n as int);
        proof {
            tree.lemma_wf();
            lemma_unseen_bound(seen@, n as int);
            lemma_unseen_mark(seen@, src as int);
            assert(unseen(seen@.update(src as int, true), n as int) + 1 == unseen(seen@, n as int));
            dist[0].lemma_range();
            lemma_cap(<G::Weight as Weight>::limit(), n as int, 0);
        }
        q.push_front(src);
        seen[src as usize] = true;
        proof {
            assert(q@[0] == src);
        }
        while q.len() > 0
            invariant
                tree.wf(),
                n == tree.lists().len(),
                lists == tree.lists(),
                targets_below(lists, n as int),
                weights_fit(lists),
                n >= 1,
                cap == <G::Weight as Weight>::limit() / (n as int),
                cap >= 0,
                src < n,
                seen.len() == n,
                dist.len() == n,
                done.len() == n,
                order.len() == n,
                prev.len() == n,
                forall|x: int|
                    0 <= x < n && x != src && #[trigger] seen[x] ==> found_via(
                        lists,
                        dist@,
                        seen@,
                        order,
                        prev[x] as int,
                        x,
                    ),
                seen[src as int],
                dist[src as int].value() == 0,
                forall|v: int| 0 <= v < n && !#[trigger] seen[v] ==> dist[v].value() == 0,
                forall|v: int| 0 <= v < n && #[trigger] seen[v] ==> order[v] < clock,
                forall|i: int| 0 <= i < q.len() ==> (#[trigger] q@[i]) < n,
                forall|i: int| 0 <= i < q.len() ==> seen[(#[trigger] q@[i]) as int],
                forall|v: int| 0 <= v < n && seen[v] && !#[trigger] done[v] ==> q@.contains(v as Index),
                forall|v: int| 0 <= v < n && #[trigger] done[v] ==> seen[v],
                forall|u: int|
                    0 <= u < n && #[trigger] done[u] ==> targets_seen(lists, seen@, u, lists[u].len() as int),
                forall|v: int|
                    0 <= v < n && #[trigger] seen[v] ==> dist[v].value() <= (n - unseen(seen@, n as int)
                        - 1) * cap,
                unseen(seen@, n as int) < n,
            decreases unseen(seen@, n as int) + q.len(),
        {
            let ghost q0 = q@;
            let ghost budget = unseen(seen@, n as int) + q0.len();
            let front = q.pop_front();
            let u: Index = front.unwrap();
            let d: G::Weight = dist[u as usize];
            let list = tree.adjacent(u);
            let mut e: usize = 0;
            proof {
                assert(q0[0] == u);
                assert forall|i: int| 0 <= i < q.len() implies #[trigger] q@[i] == q0[i + 1] by {}
                assert forall|v: int| 0 <= v < n && seen[v] && !#[trigger] done[v] && v != u implies q@.contains(
                    v as Index,
                ) by {
                    let k = choose|k: int| 0 <= k < q0.len() && q0[k] == v as Index;
                    if k > 0 {
                        assert(q@[k - 1] == v as Index);
                    }
                }
            }
            while e < list.len()
                invariant
                    tree.wf(),
                    n == tree.lists().len(),
                    lists == tree.lists(),
                    targets_below(lists, n as int),
                    weights_fit(lists),
                    n >= 1,
                    cap == <G::Weight as Weight>::limit() / (n as int),
                    cap >= 0,
                    src < n,
                    u < n,
                    list@ == lists[u as int],
                    e <= list.len(),
                    seen.len() == n,
                    dist.len() == n,
                    done.len() == n,
                    order.len() == n,
                    prev.len() == n,
                    forall|x: int|
                        0 <= x < n && x != src && #[trigger] seen[x] ==> found_via(
                            lists,
                            dist@,
                            seen@,
                            order,
                            prev[x] as int,
                            x,
                        ),
                prev.len() == n,
                forall|x: int|
                    0 <= x < n && x != src && #[trigger] seen[x] ==> found_via(
                        lists,
                        dist@,
                        seen@,
                        order,
                        prev[x] as int,
                        x,
                    ),
                    d == dist[u as int],
                    seen[u as int],
                    seen[src as int],
                    dist[src as int].value() == 0,
                    forall|v: int| 0 <= v < n && !#[trigger] seen[v] ==> dist[v].value() == 0,
                    forall|v: int| 0 <= v < n && #[trigger] seen[v] ==> order[v] < clock,
                    forall|i: int| 0 <= i < q.len() ==> (#[trigger] q@[i]) < n,
                    forall|i: int| 0 <= i < q.len() ==> seen[(#[trigger] q@[i]) as int],
                    forall|v: int|
                        0 <= v < n && seen[v] && !#[trigger] done[v] && v != u ==> q@.contains(v as Index),
                    forall|v: int| 0 <= v < n && #[trigger] done[v] ==> seen[v],
                    forall|w: int|
                        0 <= w < n && #[trigger] done[w] ==> targets_seen(
                            lists,
                            seen@,
                            w,
                            lists[w].len() as int,
                        ),
                    targets_seen(lists, seen@, u as int, e as int),
                    forall|v: int|
                        0 <= v < n && #[trigger] seen[v] ==> dist[v].value() <= (n - unseen(
                            seen@,
                            n as int,
                        ) - 1) * cap,
                    unseen(seen@, n as int) < n,
                    unseen(seen@, n as int) + q.len() + 1 <= budget,
                decreases list.len() - e,
            {
                let v: Index = list[e].0;
                let w: G::Weight = list[e].1;
                proof {
                    assert(lists[u as int][e as int] == (v, w));
                }
                if !seen[v as usize] {
                    let ghost dist0 = dist@;
                    let ghost seen0 = seen@;
                    let ghost order0 = order;
                    let ghost q1 = q@;
                    let ghost prev0 = prev@;
                    let ghost count = n - unseen(seen@, n as int);
                    proof {
                        lemma_unseen_mark(seen@, v as int);
                        assert(unseen(seen@.update(v as int, true), n as int) + 1 == unseen(
                            seen@,
                            n as int,
                        ));
                        w.lemma_range();
                        lemma_cap(
                            <G::Weight as Weight>::limit(),
                            n as int,
                            w.value(),
                        );
                        assert((count - 1) * cap + cap == count * cap) by (nonlinear_arith);
                        assert(count * cap <= n * cap) by (nonlinear_arith)
                            requires
                                count <= n,
                                cap >= 0,
                        ;
                    }
                    q.push_front(v);
                    seen[v as usize] = true;
                    dist[v as usize] = d.plus(w);
                    prev[v as usize] = u;
                    proof {
                        order = order.update(v as int, clock);
                        clock = clock + 1;
                        assert forall|x: int| 0 <= x < n && x != src && #[trigger] seen[x] implies found_via(
                            lists,
                            dist@,
                            seen@,
                            order,
                            prev[x] as int,
                            x,
                        ) by {
                            if x == v {
                                assert(found_by(lists, dist@, seen@, order, u as int, e as int, x));
                            } else {
                                assert(found_via(lists, dist0, seen0, order0, prev0[x] as int, x));
                                let b = choose|b: int|
                                    found_by(lists, dist0, seen0, order0, prev0[x] as int, b, x);
                                assert(found_by(lists, dist@, seen@, order, prev[x] as int, b, x));
                            }
                        }
                        assert forall|i: int| 0 <= i < q.len() implies #[trigger] q@[i] == if i == 0 {
                            v
                        } else {
                            q1[i - 1]
                        } by {}
                        assert forall|x: int| 0 <= x < n && seen[x] && !#[trigger] done[x] && x != u implies q@.contains(
                            x as Index,
                        ) by {
                            if x == v {
                                assert(q@[0] == v);
                            } else {
                                let k = choose|k: int| 0 <= k < q1.len() && q1[k] == x as Index;
                                assert(q@[k + 1] == x as Index);
                            }
                        }
                        assert forall|y: int| 0 <= y < n && #[trigger] done[y] implies targets_seen(
                            lists,
                            seen@,
                            y,
                            lists[y].len() as int,
                        ) by {
                            assert(targets_seen(lists, seen0, y, lists[y].len() as int));
                        }
                        assert(targets_seen(lists, seen0, u as int, e as int));
                        assert forall|x: int| 0 <= x < n && #[trigger] seen[x] implies dist[x].value() <= (
                        n - unseen(seen@, n as int) - 1) * cap by {
                            if x != v {
                                assert(seen0[x]);
                                assert((count - 1) * cap <= count * cap) by (nonlinear_arith)
                                    requires
                                        cap >= 0,
                                ;
                            }
                        }
                    }
                }
                proof {
                    assert(targets_seen(lists, seen@, u as int, e + 1));
                }
                e += 1;
            }
            proof {
                done = done.update(u as int, true);
            }
        }
        proof {
            assert forall|u: int| 0 <= u < n && #[trigger] seen[u] implies targets_seen(
                lists,
                seen@,
                u,
                lists[u].len() as int,
            ) by {
                if !done[u] {
                    assert(q@.contains(u as Index));
                }
            }
            assert forall|x: int| 0 <= x < n && x != src && #[trigger] seen[x] implies found_from(
                lists,
                dist@,
                seen@,
                order,
                x,
            ) by {
                assert(found_via(lists, dist@, seen@, order, prev[x] as int, x));
                let b = choose|b: int| found_by(lists, dist@, seen@, order, prev[x] as int, b, x);
            }
            assert(traversal_witness(lists, src as int, dist@, seen@, order));
        }
        proof {
            assert forall|x: int| 0 <= x < n && x != src && #[trigger] seen[x] implies prev[x] < n by {
                assert(found_via(lists, dist@, seen@, order, prev[x] as int, x));
            }
        }
        (dist, prev, Ghost(seen@), Ghost(order))
}

/// The place of the last of the greatest weights.
fn last_max<W: Weight>(dist: &Vec<W>) -> (r: usize)
    requires
        dist.len() >= 1,
    ensures
        is_last_max(dist@, r as int),
{
    let mut best: usize = 0;
    let mut i: usize = 1;
    while i < dist.len()
        invariant
            1 <= i <= dist.len(),
            best < i,
            forall|k: int| 0 <= k < i ==> (#[trigger] dist[k]).value() <= dist[best as int].value(),
            forall|k: int| best < k < i ==> (#[trigger] dist[k]).value() < dist[best as int].value(),
        decreases dist.len() - i,
    {
        if dist[best].not_above(dist[i]) {
            best = i;
        }
        i += 1;
    }
    best
}

/// The vertices of a path as integers.
pub open spec fn as_walk(path: Seq<u32>) -> Seq<int> {
    Seq::new(path.len(), |i: int| path[i] as int)
}

/// The way from the start of a traversal to the vertex `to`, by the
/// vertices from which the traversal found each vertex.
fn trace_back<W: Weight>(
    prev: &Vec<u32>,
    from: u32,
    to: u32,
    Ghost(lists): Ghost<Seq<Seq<(Index, W)>>>,
    Ghost(dist): Ghost<Seq<W>>,
    Ghost(reached): Ghost<Seq<bool>>,
    Ghost(order): Ghost<Seq<nat>>,
) -> (path: Vec<u32>)
    requires
        from < lists.len(),
        to < lists.len(),
        prev.len() == lists.len(),
        order.len() == lists.len(),
        dist.len() == lists.len(),
        reached.len() == lists.len(),
        dist[from as int].value() == 0,
        forall|x: int| 0 <= x < lists.len() ==> #[trigger] reached[x],
        forall|x: int|
            0 <= x < lists.len() && x != from && #[trigger] reached[x] ==> prev[x] < lists.len()
                && found_via(lists, dist, reached, order, prev[x] as int, x),
    ensures
        walk_weighs(lists, as_walk(path@), dist[to as int].value()),
        as_walk(path@)[0] == from,
        as_walk(path@).last() == to,
{
    let ghost n = lists.len() as int;
    let mut back: Vec<u32> = Vec::new();
    back.push(to);
    let mut v: u32 = to;
    while v != from
        invariant
            n == lists.len(),
            from < n,
            to < n,
            v < n,
            prev.len() == n,
            order.len() == n,
            dist.len() == n,
            reached.len() == n,
            forall|x: int| 0 <= x < n ==> #[trigger] reached[x],
            forall|x: int|
                0 <= x < n && x != from && #[trigger] reached[x] ==> prev[x] < n && found_via(
                    lists,
                    dist,
                    reached,
                    order,
                    prev[x] as int,
                    x,
                ),
            back.len() >= 1,
            back[0] == to,
            back[back.len() - 1] == v,
            forall|k: int| 0 <= k < back.len() ==> (#[trigger] back[k]) < n,
            forall|k: int|
                0 <= k < back.len() - 1 ==> #[trigger] found_via(
                    lists,
                    dist,
                    reached,
                    order,
                    back[k + 1] as int,
                    back[k] as int,
                ),
        decreases order[v as int],
    {
        proof {
            assert(reached[v as int]);
            assert(found_via(lists, dist, reached, order, prev[v as int] as int, v as int));
            let e = choose|e: int| found_by(lists, dist, reached, order, prev[v as int] as int, e, v as int);
        }
        let ghost before = back@;
        let last = v;
        v = prev[v as usize];
        back.push(v);
        proof {
            assert forall|k: int| 0 <= k < back.len() - 1 implies #[trigger] found_via(
                lists,
                dist,
                reached,
                order,
                back[k + 1] as int,
                back[k] as int,
            ) by {
                if k < before.len() - 1 {
                    assert(found_via(
                        lists,
                        dist,
                        reached,
                        order,
                        before[k + 1] as int,
                        before[k] as int,
                    ));
                } else {
                    assert(found_via(lists, dist, reached, order, v as int, last as int));
                }
            }
        }
    }
    let mut path: Vec<u32> = Vec::new();
    let mut k: usize = back.len();
    while k > 0
        invariant
            k <= back.len(),
            path.len() == back.len() - k,
            forall|i: int| 0 <= i < path.len() ==> #[trigger] path[i] == back[back.len() - 1 - i],
        decreases k,
    {
        k -= 1;
        path.push(back[k]);
    }
    proof {
        let walk = as_walk(path@);
        assert forall|i: int| 1 <= i < walk.len() implies #[trigger] found_via(
            lists,
            dist,
            reached,
            order,
            walk[i - 1],
            walk[i],
        ) by {
            let j = back.len() - 1 - i;
            assert(found_via(lists, dist, reached, order, back[j + 1] as int, back[j] as int));
            assert(walk[i - 1] == back[j + 1] as int);
            assert(walk[i] == back[j] as int);
        }
        lemma_way_weighs(lists, from as int, dist, reached, order, walk, walk.len() - 1);
        assert(walk.take(walk.len() as int) =~= walk);
    }
    path
}

/// In a graph with an edge back for every edge in which a walk leads from
/// the vertex 0 to every vertex, a traversal finds every vertex.
proof fn lemma_all_reached<W: Weight>(
    lists: Seq<Seq<(Index, W)>>,
    s: int,
    dist: Seq<W>,
    reached: Seq<bool>,
    order: Seq<nat>,
)
    requires
        symmetric(lists),
        connected_from(lists, 0),
        0 <= s < lists.len(),
        traversal_witness(lists, s, dist, reached, order),
    ensures
        forall|v: int| 0 <= v < lists.len() ==> #[trigger] reached[v],
{
    lemma_connected_from(lists, s);
    assert forall|v: int| 0 <= v < lists.len() implies #[trigger] reached[v] by {
        assert(reaches(lists, s, v));
        let walk = choose|walk: Seq<int>|
            #[trigger] is_walk(lists, walk) && walk[0] == s && walk.last() == v;
        lemma_traversal_reaches(lists, s, dist, reached, order, walk);
    }
}

/// A longest path of `tree`, by two traversals.
pub fn tree_diameter<G: Tree>(tree: &G) -> (diameter: Diameter<G::Weight>) where G::Weight: Weight
    requires
        tree.wf(),
        tree.lists().len() >= 1,
        weights_fit(tree.lists()),
        symmetric(tree.lists()),
        connected_from(tree.lists(), 0),
    ensures
        is_farthest_pair(
            tree.lists(),
            diameter.ends().0 as int,
            diameter.ends().1 as int,
            diameter.length(),
            diameter.way(),
        ),
{
    let ghost lists = tree.lists();
    proof {
        tree.lemma_wf();
    }
    let (first, _, Ghost(reached1), Ghost(order1)) = traverse(tree, 0);
    let r1: u32 = last_max(&first) as u32;
    let (second, prev, Ghost(reached), Ghost(order)) = traverse(tree, r1);
    let r2: u32 = last_max(&second) as u32;
    let dist = second[r2 as usize];
    proof {
        lemma_all_reached(lists, r1 as int, second@, reached, order);
    }
    let path = trace_back::<G::Weight>(
        &prev,
        r1,
        r2,
        Ghost(lists),
        Ghost(second@),
        Ghost(reached),
        Ghost(order),
    );
    let diameter = Diameter { dist, src: r1, dst: r2, path };
    proof {
        assert(diameter.way() =~= as_walk(path@));
        assert(is_traversal_distance(lists, 0, first@));
        assert(is_traversal_distance(lists, r1 as int, second@));
    }
    diameter
}

} // verus!

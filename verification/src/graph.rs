//! Graphs on the vertices `0..n`, as adjacency lists and in compressed row
//! storage, and the traits that the graph algorithms take them by.

use vstd::prelude::*;
use std::collections::VecDeque;
use crate::weight::Weight as _;

verus! {

/// Vertices are numbered by `u32`.
pub type Index = u32;

/// A directed graph as adjacency lists.
pub type DirectedAdjGraph<W> = AdjGraph<Directed, W>;

/// An undirected graph as adjacency lists.
pub type UndirectedAdjGraph<W> = AdjGraph<Undirected, W>;

/// Whether every edge of the lists leads to a vertex below `size`.
pub open spec fn targets_below<W>(lists: Seq<Seq<(Index, W)>>, size: int) -> bool {
    forall|v: int, e: int|
        0 <= v < lists.len() && 0 <= e < lists[v].len() ==> (#[trigger] lists[v][e]).0 < size
}

/// A graph on the vertices `0..n`, each with the list of the edges that
/// leave it.
pub trait Graph {
    /// The weight of an edge.
    type Weight;

    /// For each vertex the edges that leave it, each as its target and its
    /// weight.
    spec fn lists(&self) -> Seq<Seq<(Index, Self::Weight)>>;

    /// Whether the edges have a direction.
    spec fn directed(&self) -> bool;

    /// Every edge leads to a vertex of the graph.
    spec fn wf(&self) -> bool;

    /// What `wf` says.
    proof fn lemma_wf(&self)
        requires
            self.wf(),
        ensures
            self.lists().len() <= Index::MAX,
            targets_below(self.lists(), self.lists().len() as int),
    ;

    /// Whether the edges have a direction.
    fn is_directed_edge(&self) -> (b: bool)
        ensures
            b == self.directed(),
    ;

    /// The number of vertices.
    fn size(&self) -> (n: Index)
        requires
            self.wf(),
        ensures
            n == self.lists().len(),
    ;

    /// The edges that leave `v`.
    fn adjacent(&self, v: Index) -> (list: &[(Index, Self::Weight)])
        requires
            self.wf(),
            v < self.lists().len(),
        ensures
            list@ == self.lists()[v as int],
    ;

    /// For each vertex the least number of edges of a walk from `src` to
    /// it, by breadth-first search; `Index::MAX` for a vertex that no walk
    /// from `src` reaches.
    fn bfs(&self, src: Index) -> (dist: Vec<Index>) where Self: Sized
        requires
            self.wf(),
            src < self.lists().len(),
        ensures
            is_bfs_distance(self.lists(), src as int, dist@),
    {
        let size = self.size();
        let n: usize = size as usize;
        let ghost lists = self.lists();
        proof {
            self.lemma_wf();
        }
        let mut seen: Vec<bool> = Vec::new();
        let mut dist: Vec<Index> = Vec::new();
        let mut i: usize = 0;
        while i < n
            invariant
                i <= n,
                seen.len() == i,
                dist.len() == i,
                forall|v: int| 0 <= v < i ==> !#[trigger] seen[v],
                forall|v: int| 0 <= v < i ==> #[trigger] dist[v] == Index::MAX,
            decreases n - i,
        {
            seen.push(false);
            dist.push(Index::MAX);
            i += 1;
        }
        let mut q: VecDeque<Index> = VecDeque::new();
        let ghost mut done: Seq<bool> = Seq::new(n as nat, |v: int| false);
        proof {
            lemma_unseen_bound(seen@, n as int);
            lemma_unseen_mark(seen@, src as int);
        }
        dist[src as usize] = 0;
        seen[src as usize] = true;
        q.push_front(src);
        proof {
            assert(q@[0] == src);
        }
        while q.len() > 0
            invariant
                self.wf(),
                n == self.lists().len(),
                lists == self.lists(),
                targets_below(lists, n as int),
                n <= Index::MAX,
                src < n,
                seen.len() == n,
                dist.len() == n,
                done.len() == n,
                forall|v: int| 0 <= v < n ==> (#[trigger] seen[v] <==> dist[v] != Index::MAX),
                seen[src as int],
                dist[src as int] == 0,
                forall|i: int| 0 <= i < q.len() ==> (#[trigger] q@[i]) < n,
                forall|i: int| 0 <= i < q.len() ==> seen[(#[trigger] q@[i]) as int],
                forall|i: int| 0 <= i < q.len() ==> !done[(#[trigger] q@[i]) as int],
                forall|i: int, j: int| 0 <= i < j < q.len() ==> q@[i] != q@[j],
                forall|v: int| 0 <= v < n && seen[v] && !#[trigger] done[v] ==> q@.contains(v as Index),
                forall|v: int| 0 <= v < n && #[trigger] done[v] ==> seen[v],
                forall|i: int, j: int| 0 <= i <= j < q.len() ==> dist[q@[i] as int] <= dist[q@[j] as int],
                forall|i: int| 0 <= i < q.len() ==> dist[(#[trigger] q@[i]) as int] <= dist[q@[0] as int] + 1,
                forall|v: int|
                    0 <= v < n && #[trigger] seen[v] && q.len() > 0 ==> dist[v] <= dist[q@[0] as int] + 1,
                forall|v: int| 0 <= v < n && #[trigger] done[v] && q.len() > 0 ==> dist[v] <= dist[q@[0] as int],
                forall|v: int|
                    0 <= v < n && v != src && #[trigger] seen[v] ==> reached_from(lists, dist@, v),
                forall|u: int| 0 <= u < n && #[trigger] done[u] ==> edges_relaxed(lists, dist@, u, lists[u].len() as int),
                forall|v: int| 0 <= v < n && #[trigger] seen[v] ==> dist[v] < n - unseen(seen@, n as int),
                unseen(seen@, n as int) < n,
            decreases unseen(seen@, n as int) + q.len(),
        {
            let ghost q0 = q@;
            let ghost budget = unseen(seen@, n as int) + q0.len();
            let front = q.pop_front();
            let u: Index = front.unwrap();
            let d: Index = dist[u as usize];
            let list = self.adjacent(u);
            let mut e: usize = 0;
            proof {
                assert(q0[0] == u);
                assert forall|i: int| 0 <= i < q.len() implies #[trigger] q@[i] == q0[i + 1] by {}
                assert forall|v: int| 0 <= v < n && seen[v] && !#[trigger] done[v] && v != u implies q@.contains(
                    v as Index,
                ) by {
                    let k = choose|k: int| 0 <= k < q0.len() && q0[k] == v as Index;
                    assert(q@[k - 1] == v as Index);
                }
            }
            while e < list.len()
                invariant
                    self.wf(),
                    n == self.lists().len(),
                lists == self.lists(),
                targets_below(lists, n as int),
                    n <= Index::MAX,
                    src < n,
                    u < n,
                    list@ == lists[u as int],
                    e <= list.len(),
                    seen.len() == n,
                    dist.len() == n,
                    done.len() == n,
                    d == dist[u as int],
                    seen[u as int],
                    !done[u as int],
                    forall|v: int| 0 <= v < n ==> (#[trigger] seen[v] <==> dist[v] != Index::MAX),
                    seen[src as int],
                    dist[src as int] == 0,
                    forall|i: int| 0 <= i < q.len() ==> (#[trigger] q@[i]) < n,
                    forall|i: int| 0 <= i < q.len() ==> seen[(#[trigger] q@[i]) as int],
                    forall|i: int| 0 <= i < q.len() ==> !done[(#[trigger] q@[i]) as int],
                    forall|i: int| 0 <= i < q.len() ==> (#[trigger] q@[i]) != u,
                    forall|i: int, j: int| 0 <= i < j < q.len() ==> q@[i] != q@[j],
                    forall|v: int|
                        0 <= v < n && seen[v] && !#[trigger] done[v] && v != u ==> q@.contains(v as Index),
                    forall|v: int| 0 <= v < n && #[trigger] done[v] ==> seen[v],
                    forall|i: int, j: int|
                        0 <= i <= j < q.len() ==> dist[q@[i] as int] <= dist[q@[j] as int],
                    forall|i: int| 0 <= i < q.len() ==> d <= dist[(#[trigger] q@[i]) as int] <= d + 1,
                    forall|v: int| 0 <= v < n && #[trigger] seen[v] ==> dist[v] <= d + 1,
                    forall|v: int| 0 <= v < n && #[trigger] done[v] ==> dist[v] <= d,
                    forall|v: int|
                        0 <= v < n && v != src && #[trigger] seen[v] ==> reached_from(lists, dist@, v),
                    forall|w: int|
                        0 <= w < n && #[trigger] done[w] ==> edges_relaxed(lists, dist@, w, lists[w].len() as int),
                    edges_relaxed(lists, dist@, u as int, e as int),
                    forall|v: int| 0 <= v < n && #[trigger] seen[v] ==> dist[v] < n - unseen(seen@, n as int),
                    unseen(seen@, n as int) < n,
                    unseen(seen@, n as int) + q.len() + 1 <= budget,
                decreases list.len() - e,
            {
                let nxt: Index = list[e].0;
                proof {
                    assert(lists[u as int][e as int].0 == nxt);
                }
                if !seen[nxt as usize] {
                    let ghost dist0 = dist@;
                    let ghost seen0 = seen@;
                    let ghost q1 = q@;
                    proof {
                        lemma_unseen_mark(seen@, nxt as int);
                        assert(unseen(seen@.update(nxt as int, true), n as int) + 1 == unseen(
                            seen@,
                            n as int,
                        ));
                    }
                    dist[nxt as usize] = d + 1;
                    seen[nxt as usize] = true;
                    q.push_back(nxt);
                    proof {
                        assert forall|i: int| 0 <= i < q.len() implies #[trigger] q@[i] == if i < q1.len() {
                            q1[i]
                        } else {
                            nxt
                        } by {}
                        assert forall|v: int| 0 <= v < n && seen[v] && !#[trigger] done[v] && v != u implies q@.contains(
                            v as Index,
                        ) by {
                            if v == nxt {
                                assert(q@[q1.len() as int] == nxt);
                            } else {
                                let k = choose|k: int| 0 <= k < q1.len() && q1[k] == v as Index;
                                assert(q@[k] == v as Index);
                            }
                        }
                        assert forall|v: int| 0 <= v < n && v != src && #[trigger] seen[v] implies reached_from(
                            lists,
                            dist@,
                            v,
                        ) by {
                            if v == nxt {
                                assert(edge_reaches(lists, dist@, u as int, e as int, v));
                            } else {
                                lemma_reached_kept(lists, dist0, dist@, v);
                            }
                        }
                        assert forall|w: int| 0 <= w < n && #[trigger] done[w] implies edges_relaxed(
                            lists,
                            dist@,
                            w,
                            lists[w].len() as int,
                        ) by {
                            lemma_relaxed_kept(lists, dist0, dist@, w, lists[w].len() as int);
                        }
                        lemma_relaxed_kept(lists, dist0, dist@, u as int, e as int);
                    }
                }
                proof {
                    assert(seen[nxt as int]);
                    assert(dist[nxt as int] <= d + 1);
                    assert(edges_relaxed(lists, dist@, u as int, e + 1));
                }
                e += 1;
            }
            proof {
                done = done.update(u as int, true);
                assert forall|v: int| 0 <= v < n && seen[v] && !#[trigger] done[v] implies q@.contains(
                    v as Index,
                ) by {}
            }
        }
        proof {
            assert forall|u: int| 0 <= u < n && #[trigger] dist[u] != Index::MAX implies edges_relaxed(
                lists,
                dist@,
                u,
                lists[u].len() as int,
            ) by {
                assert(seen[u]);
                if !done[u] {
                    assert(q@.contains(u as Index));
                }
            }
            assert forall|v: int|
                0 <= v < n && v != src && #[trigger] dist[v] != Index::MAX implies reached_from(
                lists,
                dist@,
                v,
            ) by {
                assert(seen[v]);
            }
        }
        dist
    }
}

/// Whether edge `e` of `u` leads to `v` and `u` has a distance one less
/// than that of `v`.
pub open spec fn edge_reaches<W>(
    lists: Seq<Seq<(Index, W)>>,
    dist: Seq<Index>,
    u: int,
    e: int,
    v: int,
) -> bool {
    &&& 0 <= u < lists.len()
    &&& 0 <= e < lists[u].len()
    &&& lists[u][e].0 == v
    &&& dist[u] != Index::MAX
    &&& dist[u] + 1 == dist[v]
}

/// Whether some edge leads to `v` from a vertex whose distance is one less
/// than that of `v`.
pub open spec fn reached_from<W>(lists: Seq<Seq<(Index, W)>>, dist: Seq<Index>, v: int) -> bool {
    exists|u: int, e: int| edge_reaches(lists, dist, u, e, v)
}

/// Whether each of the first `upto` edges of `u` leads to a vertex with a
/// distance, at most one more than the distance of `u`.
pub open spec fn edges_relaxed<W>(
    lists: Seq<Seq<(Index, W)>>,
    dist: Seq<Index>,
    u: int,
    upto: int,
) -> bool {
    forall|e: int|
        0 <= e < upto ==> dist[(#[trigger] lists[u][e]).0 as int] != Index::MAX
            && dist[lists[u][e].0 as int] <= dist[u] + 1
}

/// Whether `dist` holds the distances from `src`: `src` has the distance
/// zero; every other vertex with a distance is one edge away from a vertex
/// with a distance one less; and every edge from a vertex with a distance
/// leads to a vertex with a distance at most one more. A vertex without a
/// distance has the entry `Index::MAX`.
pub open spec fn is_bfs_distance<W>(lists: Seq<Seq<(Index, W)>>, src: int, dist: Seq<Index>) -> bool {
    &&& dist.len() == lists.len()
    &&& dist[src] == 0
    &&& forall|v: int|
        0 <= v < lists.len() && v != src && #[trigger] dist[v] != Index::MAX ==> reached_from(
            lists,
            dist,
            v,
        )
    &&& forall|u: int|
        0 <= u < lists.len() && #[trigger] dist[u] != Index::MAX ==> edges_relaxed(
            lists,
            dist,
            u,
            lists[u].len() as int,
        )
}

/// Whether an edge leads from `u` to `v`.
pub open spec fn has_edge<W>(lists: Seq<Seq<(Index, W)>>, u: int, v: int) -> bool {
    exists|e: int| 0 <= e < lists[u].len() && (#[trigger] lists[u][e]).0 == v
}

/// Whether `walk` is a walk in the graph: a sequence of vertices, not empty,
/// with an edge from each to the next.
pub open spec fn is_walk<W>(lists: Seq<Seq<(Index, W)>>, walk: Seq<int>) -> bool {
    &&& walk.len() >= 1
    &&& forall|i: int| 0 <= i < walk.len() ==> 0 <= #[trigger] walk[i] < lists.len()
    &&& forall|i: int|
        0 <= i < walk.len() - 1 ==> #[trigger] has_edge(lists, walk[i], walk[i + 1])
}

/// Whether a walk leads from `a` to `b`. A vertex reaches itself.
pub open spec fn reaches<W>(lists: Seq<Seq<(Index, W)>>, a: int, b: int) -> bool {
    exists|walk: Seq<int>| #[trigger] is_walk(lists, walk) && walk[0] == a && walk.last() == b
}

/// A vertex reaches itself.
pub proof fn lemma_reaches_self<W>(lists: Seq<Seq<(Index, W)>>, a: int)
    requires
        0 <= a < lists.len(),
    ensures
        reaches(lists, a, a),
{
    let walk = seq![a];
    assert(is_walk(lists, walk));
    assert(walk[0] == a && walk.last() == a);
}

/// A vertex reaches what a vertex that it reaches reaches.
pub proof fn lemma_reaches_trans<W>(lists: Seq<Seq<(Index, W)>>, a: int, b: int, c: int)
    requires
        reaches(lists, a, b),
        reaches(lists, b, c),
    ensures
        reaches(lists, a, c),
{
    let first = choose|walk: Seq<int>| #[trigger] is_walk(lists, walk) && walk[0] == a && walk.last() == b;
    let second = choose|walk: Seq<int>| #[trigger] is_walk(lists, walk) && walk[0] == b && walk.last() == c;
    let walk = first + second.skip(1);
    assert forall|i: int| 0 <= i < walk.len() - 1 implies #[trigger] has_edge(
        lists,
        walk[i],
        walk[i + 1],
    ) by {
        if i < first.len() - 1 {
            assert(has_edge(lists, first[i], first[i + 1]));
        } else {
            let t = i - (first.len() - 1);
            assert(has_edge(lists, second[t], second[t + 1]));
        }
    }
    assert(is_walk(lists, walk));
    assert(walk[0] == a && walk.last() == c);
}

/// A vertex reaches the target of each of its edges.
pub proof fn lemma_reaches_edge<W>(lists: Seq<Seq<(Index, W)>>, a: int, b: int)
    requires
        0 <= a < lists.len(),
        0 <= b < lists.len(),
        has_edge(lists, a, b),
    ensures
        reaches(lists, a, b),
{
    let walk = seq![a, b];
    assert(has_edge(lists, walk[0], walk[1]));
    assert(is_walk(lists, walk));
    assert(walk[0] == a && walk.last() == b);
}

/// Whether the graph has, with every edge, an edge back.
pub open spec fn symmetric<W>(lists: Seq<Seq<(Index, W)>>) -> bool {
    forall|u: int, e: int|
        0 <= u < lists.len() && 0 <= e < lists[u].len() ==> has_edge(
            lists,
            (#[trigger] lists[u][e]).0 as int,
            u,
        )
}

/// Adding an edge and the edge back keeps that every edge has an edge
/// back.
pub proof fn lemma_symmetric_with_edge<W>(lists: Seq<Seq<(Index, W)>>, u: Index, v: Index, w: W)
    requires
        symmetric(lists),
        targets_below(lists, lists.len() as int),
        u < lists.len(),
        v < lists.len(),
    ensures
        symmetric(with_edge(lists, false, u, v, w)),
        targets_below(with_edge(lists, false, u, v, w), lists.len() as int),
        with_edge(lists, false, u, v, w).len() == lists.len(),
{
    let after = with_edge(lists, false, u, v, w);
    let forth = lists.update(u as int, lists[u as int].push((v, w)));
    assert(forth.len() == lists.len() && after.len() == lists.len());
    assert forall|x: int, e: int| 0 <= x < lists.len() && 0 <= e < lists[x].len() implies e
        < after[x].len() && #[trigger] after[x][e] == lists[x][e] by {
        assert(e < forth[x].len() && forth[x][e] == lists[x][e]);
    }
    assert forall|x: int, y: int| 0 <= x < lists.len() && has_edge(lists, x, y) implies has_edge(after, x, y) by {
        let e = choose|e: int| 0 <= e < lists[x].len() && (#[trigger] lists[x][e]).0 == y;
        assert(after[x][e] == lists[x][e]);
    }
    let at_u = lists[u as int].len() as int;
    let at_v = forth[v as int].len() as int;
    assert(forth[u as int][at_u].0 == v);
    assert(after[u as int][at_u].0 == v);
    assert(after[v as int][at_v].0 == u);
    assert(has_edge(after, u as int, v as int));
    assert(has_edge(after, v as int, u as int));
    assert forall|x: int, e: int| 0 <= x < after.len() && 0 <= e < after[x].len() implies has_edge(
        after,
        (#[trigger] after[x][e]).0 as int,
        x,
    ) && after[x][e].0 < lists.len() by {
        if e < lists[x].len() {
            assert(after[x][e] == lists[x][e]);
            assert(has_edge(lists, lists[x][e].0 as int, x));
            assert(lists[x][e].0 < lists.len());
        } else if x == u && e == at_u {
        } else {
            assert(x == v && e == at_v);
        }
    }
}

/// A graph that is built by adding edges, each with the edge back, to a
/// graph in which every edge has an edge back is such a graph.
pub proof fn lemma_symmetric_with_edges<W>(lists: Seq<Seq<(Index, W)>>, edges: Seq<(Index, Index, W)>)
    requires
        symmetric(lists),
        targets_below(lists, lists.len() as int),
        forall|i: int| 0 <= i < edges.len() ==> (#[trigger] edges[i]).0 < lists.len() && edges[i].1 < lists.len(),
    ensures
        symmetric(with_edges(lists, false, edges)),
        targets_below(with_edges(lists, false, edges), lists.len() as int),
        with_edges(lists, false, edges).len() == lists.len(),
    decreases edges.len(),
{
    if edges.len() > 0 {
        let last = edges.last();
        lemma_symmetric_with_edges(lists, edges.drop_last());
        lemma_symmetric_with_edge(with_edges(lists, false, edges.drop_last()), last.0, last.1, last.2);
    }
}

/// No walk from `src` to a vertex has fewer edges than the distance of the
/// vertex says, and a vertex that a walk from `src` reaches has a distance.
pub proof fn lemma_bfs_at_most<W>(
    lists: Seq<Seq<(Index, W)>>,
    src: int,
    dist: Seq<Index>,
    walk: Seq<int>,
)
    requires
        is_bfs_distance(lists, src, dist),
        0 <= src < lists.len(),
        is_walk(lists, walk),
        walk[0] == src,
    ensures
        dist[walk.last()] != Index::MAX,
        dist[walk.last()] <= walk.len() - 1,
    decreases walk.len(),
{
    if walk.len() > 1 {
        let shorter = walk.drop_last();
        assert(is_walk(lists, shorter)) by {
            assert forall|i: int| 0 <= i < shorter.len() - 1 implies #[trigger] has_edge(
                lists,
                shorter[i],
                shorter[i + 1],
            ) by {
                assert(has_edge(lists, walk[i], walk[i + 1]));
            }
        }
        lemma_bfs_at_most(lists, src, dist, shorter);
        let u = walk[walk.len() - 2];
        assert(has_edge(lists, walk[walk.len() - 2], walk[walk.len() - 2 + 1]));
        let e = choose|e: int| 0 <= e < lists[u].len() && (#[trigger] lists[u][e]).0 == walk.last();
        assert(shorter.last() == u);
        assert(edges_relaxed(lists, dist, u, lists[u].len() as int));
    }
}

/// A vertex with a distance is reached by a walk from `src` with as many
/// edges as the distance says.
pub proof fn lemma_bfs_walk<W>(lists: Seq<Seq<(Index, W)>>, src: int, dist: Seq<Index>, v: int) -> (walk:
    Seq<int>)
    requires
        is_bfs_distance(lists, src, dist),
        0 <= src < lists.len(),
        0 <= v < lists.len(),
        dist[v] != Index::MAX,
    ensures
        is_walk(lists, walk),
        walk[0] == src,
        walk.last() == v,
        walk.len() == dist[v] + 1,
    decreases dist[v],
{
    if v == src {
        seq![src]
    } else {
        let (u, e) = choose|u: int, e: int| edge_reaches(lists, dist, u, e, v);
        let before = lemma_bfs_walk(lists, src, dist, u);
        let walk = before.push(v);
        assert forall|i: int| 0 <= i < walk.len() - 1 implies #[trigger] has_edge(
            lists,
            walk[i],
            walk[i + 1],
        ) by {
            if i < before.len() - 1 {
                assert(has_edge(lists, before[i], before[i + 1]));
            } else {
                assert(lists[u][e].0 == v);
            }
        }
        walk
    }
}

/// Whether `walk` is a walk in the graph whose edges weigh `total`
/// together: a sequence of vertices, not empty, with an edge from each to
/// the next.
pub open spec fn walk_weighs<W: crate::weight::Weight>(lists: Seq<Seq<(Index, W)>>, walk: Seq<int>, total: int) -> bool
    decreases walk.len(),
{
    if walk.len() <= 1 {
        walk.len() == 1 && total == 0 && 0 <= walk[0] < lists.len()
    } else {
        let p = walk[walk.len() - 2];
        0 <= p < lists.len() && exists|e: int|
            0 <= e < lists[p].len() && (#[trigger] lists[p][e]).0 == walk.last() && walk_weighs(
                lists,
                walk.drop_last(),
                total - lists[p][e].1.value(),
            )
    }
}

/// The number of entries below `upto` that are not set.
pub open spec fn unseen(seen: Seq<bool>, upto: int) -> nat
    decreases upto,
{
    if upto <= 0 {
        0
    } else {
        unseen(seen, upto - 1) + if seen[upto - 1] {
            0nat
        } else {
            1nat
        }
    }
}

/// There are no more unset entries than entries.
pub proof fn lemma_unseen_bound(seen: Seq<bool>, upto: int)
    requires
        0 <= upto,
    ensures
        unseen(seen, upto) <= upto,
    decreases upto,
{
    if upto > 0 {
        lemma_unseen_bound(seen, upto - 1);
    }
}

/// Setting an unset entry leaves one unset entry less.
pub proof fn lemma_unseen_mark(seen: Seq<bool>, v: int)
    requires
        0 <= v < seen.len(),
        !seen[v],
    ensures
        forall|upto: int|
            v < upto <= seen.len() ==> #[trigger] unseen(seen.update(v, true), upto) + 1 == unseen(
                seen,
                upto,
            ),
        forall|upto: int|
            0 <= upto <= v ==> #[trigger] unseen(seen.update(v, true), upto) == unseen(seen, upto),
{
    assert forall|upto: int| 0 <= upto <= seen.len() implies #[trigger] unseen(
        seen.update(v, true),
        upto,
    ) + (if v < upto {
        1int
    } else {
        0int
    }) == unseen(seen, upto) by {
        lemma_unseen_mark_upto(seen, v, upto);
    }
}

proof fn lemma_unseen_mark_upto(seen: Seq<bool>, v: int, upto: int)
    requires
        0 <= v < seen.len(),
        !seen[v],
        0 <= upto <= seen.len(),
    ensures
        unseen(seen.update(v, true), upto) + (if v < upto {
            1int
        } else {
            0int
        }) == unseen(seen, upto),
    decreases upto,
{
    if upto > 0 {
        lemma_unseen_mark_upto(seen, v, upto - 1);
    }
}

/// A vertex that was reached stays reached when vertices without a
/// distance get one.
proof fn lemma_reached_kept<W>(
    lists: Seq<Seq<(Index, W)>>,
    before: Seq<Index>,
    after: Seq<Index>,
    v: int,
)
    requires
        reached_from(lists, before, v),
        before.len() == after.len() == lists.len(),
        0 <= v < lists.len(),
        before[v] == after[v],
        forall|x: int| 0 <= x < before.len() && before[x] != Index::MAX ==> after[x] == before[x],
    ensures
        reached_from(lists, after, v),
{
    let (u, e) = choose|u: int, e: int| edge_reaches(lists, before, u, e, v);
    assert(edge_reaches(lists, after, u, e, v));
}

/// Edges that were relaxed stay relaxed when vertices without a distance
/// get one.
proof fn lemma_relaxed_kept<W>(
    lists: Seq<Seq<(Index, W)>>,
    before: Seq<Index>,
    after: Seq<Index>,
    u: int,
    upto: int,
)
    requires
        targets_below(lists, lists.len() as int),
        edges_relaxed(lists, before, u, upto),
        before.len() == after.len() == lists.len(),
        0 <= u < lists.len(),
        0 <= upto <= lists[u].len(),
        before[u] != Index::MAX,
        forall|x: int| 0 <= x < before.len() && before[x] != Index::MAX ==> after[x] == before[x],
    ensures
        edges_relaxed(lists, after, u, upto),
{
    assert forall|e: int| 0 <= e < upto implies after[(#[trigger] lists[u][e]).0 as int]
        != Index::MAX && after[lists[u][e].0 as int] <= after[u] + 1 by {
        let t = lists[u][e].0 as int;
        assert(before[t] != Index::MAX);
    }
}

/// A graph whose edges have a direction.
pub trait DirectedGraph: Graph {

}

/// A graph whose edges have no direction.
pub trait UndirectedGraph: Graph {

}

/// An undirected graph that is a tree.
pub trait Tree: Graph {
    /// For each vertex the weight of the way on which a traversal from
    /// `src` finds it; zero for a vertex that it does not find. In a tree
    /// that is the weight of the one path from `src` to the vertex.
    fn dist(&self, src: Index) -> (dist: Vec<Self::Weight>) where
        Self: Sized,
        Self::Weight: crate::weight::Weight,

        requires
            self.wf(),
            src < self.lists().len(),
            weights_fit(self.lists()),
        ensures
            is_traversal_distance(self.lists(), src as int, dist@),
    {
        let n: usize = self.size() as usize;
        let ghost lists = self.lists();
        let mut dist: Vec<Self::Weight> = Vec::new();
        let mut seen: Vec<bool> = Vec::new();
        let mut i: usize = 0;
        while i < n
            invariant
                i <= n,
                seen.len() == i,
                dist.len() == i,
                forall|v: int| 0 <= v < i ==> !#[trigger] seen[v],
                forall|v: int| 0 <= v < i ==> (#[trigger] dist[v]).value() == 0,
            decreases n - i,
        {
            seen.push(false);
            dist.push(<Self::Weight as crate::weight::Weight>::zero());
            i += 1;
        }
        let mut q: VecDeque<Index> = VecDeque::new();
        let ghost mut done: Seq<bool> = Seq::new(n as nat, |v: int| false);
        let ghost mut order: Seq<nat> = Seq::new(n as nat, |v: int| 0nat);
        let ghost mut clock: nat = 1;
        let ghost cap = <Self::Weight as crate::weight::Weight>::limit() / (n as int);
        proof {
            self.lemma_wf();
            lemma_unseen_bound(seen@, n as int);
            lemma_unseen_mark(seen@, src as int);
            assert(unseen(seen@.update(src as int, true), n as int) + 1 == unseen(seen@, n as int));
            dist[0].lemma_range();
            lemma_cap(<Self::Weight as crate::weight::Weight>::limit(), n as int, 0);
        }
        q.push_front(src);
        seen[src as usize] = true;
        proof {
            assert(q@[0] == src);
        }
        while q.len() > 0
            invariant
                self.wf(),
                n == self.lists().len(),
                lists == self.lists(),
                targets_below(lists, n as int),
                weights_fit(lists),
                n >= 1,
                cap == <Self::Weight as crate::weight::Weight>::limit() / (n as int),
                cap >= 0,
                src < n,
                seen.len() == n,
                dist.len() == n,
                done.len() == n,
                order.len() == n,
                seen[src as int],
                dist[src as int].value() == 0,
                forall|v: int| 0 <= v < n && !#[trigger] seen[v] ==> dist[v].value() == 0,
                forall|v: int| 0 <= v < n && #[trigger] seen[v] ==> order[v] < clock,
                forall|i: int| 0 <= i < q.len() ==> (#[trigger] q@[i]) < n,
                forall|i: int| 0 <= i < q.len() ==> seen[(#[trigger] q@[i]) as int],
                forall|v: int| 0 <= v < n && seen[v] && !#[trigger] done[v] ==> q@.contains(v as Index),
                forall|v: int| 0 <= v < n && #[trigger] done[v] ==> seen[v],
                forall|v: int|
                    0 <= v < n && v != src && #[trigger] seen[v] ==> found_from(lists, dist@, seen@, order, v),
                forall|u: int|
                    0 <= u < n && #[trigger] done[u] ==> targets_seen(lists, seen@, u, lists[u].len() as int),
                forall|v: int|
                    0 <= v < n && #[trigger] seen[v] ==> dist[v].value() <= (n - unseen(seen@, n as int)
                        - 1) * cap,
                unseen(seen@, n as int) < n,
            decreases unseen(seen@, n as int) + q.len(),
        {
            let ghost q0 = q@;
            let ghost budget = unseen(seen@, n as int) + q0.len();
            let front = q.pop_front();
            let u: Index = front.unwrap();
            let d: Self::Weight = dist[u as usize];
            let list = self.adjacent(u);
            let mut e: usize = 0;
            proof {
                assert(q0[0] == u);
                assert forall|i: int| 0 <= i < q.len() implies #[trigger] q@[i] == q0[i + 1] by {}
                assert forall|v: int| 0 <= v < n && seen[v] && !#[trigger] done[v] && v != u implies q@.contains(
                    v as Index,
                ) by {
                    let k = choose|k: int| 0 <= k < q0.len() && q0[k] == v as Index;
                    if k > 0 {
                        assert(q@[k - 1] == v as Index);
                    }
                }
            }
            while e < list.len()
                invariant
                    self.wf(),
                    n == self.lists().len(),
                    lists == self.lists(),
                    targets_below(lists, n as int),
                    weights_fit(lists),
                    n >= 1,
                    cap == <Self::Weight as crate::weight::Weight>::limit() / (n as int),
                    cap >= 0,
                    src < n,
                    u < n,
                    list@ == lists[u as int],
                    e <= list.len(),
                    seen.len() == n,
                    dist.len() == n,
                    done.len() == n,
                    order.len() == n,
                    d == dist[u as int],
                    seen[u as int],
                    seen[src as int],
                    dist[src as int].value() == 0,
                    forall|v: int| 0 <= v < n && !#[trigger] seen[v] ==> dist[v].value() == 0,
                    forall|v: int| 0 <= v < n && #[trigger] seen[v] ==> order[v] < clock,
                    forall|i: int| 0 <= i < q.len() ==> (#[trigger] q@[i]) < n,
                    forall|i: int| 0 <= i < q.len() ==> seen[(#[trigger] q@[i]) as int],
                    forall|v: int|
                        0 <= v < n && seen[v] && !#[trigger] done[v] && v != u ==> q@.contains(v as Index),
                    forall|v: int| 0 <= v < n && #[trigger] done[v] ==> seen[v],
                    forall|v: int|
                        0 <= v < n && v != src && #[trigger] seen[v] ==> found_from(
                            lists,
                            dist@,
                            seen@,
                            order,
                            v,
                        ),
                    forall|w: int|
                        0 <= w < n && #[trigger] done[w] ==> targets_seen(
                            lists,
                            seen@,
                            w,
                            lists[w].len() as int,
                        ),
                    targets_seen(lists, seen@, u as int, e as int),
                    forall|v: int|
                        0 <= v < n && #[trigger] seen[v] ==> dist[v].value() <= (n - unseen(
                            seen@,
                            n as int,
                        ) - 1) * cap,
                    unseen(seen@, n as int) < n,
                    unseen(seen@, n as int) + q.len() + 1 <= budget,
                decreases list.len() - e,
            {
                let v: Index = list[e].0;
                let w: Self::Weight = list[e].1;
                proof {
                    assert(lists[u as int][e as int] == (v, w));
                }
                if !seen[v as usize] {
                    let ghost dist0 = dist@;
                    let ghost seen0 = seen@;
                    let ghost order0 = order;
                    let ghost q1 = q@;
                    let ghost count = n - unseen(seen@, n as int);
                    proof {
                        lemma_unseen_mark(seen@, v as int);
                        assert(unseen(seen@.update(v as int, true), n as int) + 1 == unseen(
                            seen@,
                            n as int,
                        ));
                        w.lemma_range();
                        lemma_cap(
                            <Self::Weight as crate::weight::Weight>::limit(),
                            n as int,
                            w.value(),
                        );
                        assert((count - 1) * cap + cap == count * cap) by (nonlinear_arith);
                        assert(count * cap <= n * cap) by (nonlinear_arith)
                            requires
                                count <= n,
                                cap >= 0,
                        ;
                    }
                    q.push_front(v);
                    seen[v as usize] = true;
                    dist[v as usize] = d.plus(w);
                    proof {
                        order = order.update(v as int, clock);
                        clock = clock + 1;
                        assert forall|i: int| 0 <= i < q.len() implies #[trigger] q@[i] == if i == 0 {
                            v
                        } else {
                            q1[i - 1]
                        } by {}
                        assert forall|x: int| 0 <= x < n && seen[x] && !#[trigger] done[x] && x != u implies q@.contains(
                            x as Index,
                        ) by {
                            if x == v {
                                assert(q@[0] == v);
                            } else {
                                let k = choose|k: int| 0 <= k < q1.len() && q1[k] == x as Index;
                                assert(q@[k + 1] == x as Index);
                            }
                        }
                        assert forall|x: int| 0 <= x < n && x != src && #[trigger] seen[x] implies found_from(
                            lists,
                            dist@,
                            seen@,
                            order,
                            x,
                        ) by {
                            if x == v {
                                assert(found_by(lists, dist@, seen@, order, u as int, e as int, x));
                            } else {
                                let (a, b) = choose|a: int, b: int|
                                    found_by(lists, dist0, seen0, order0, a, b, x);
                                assert(found_by(lists, dist@, seen@, order, a, b, x));
                            }
                        }
                        assert forall|y: int| 0 <= y < n && #[trigger] done[y] implies targets_seen(
                            lists,
                            seen@,
                            y,
                            lists[y].len() as int,
                        ) by {
                            assert(targets_seen(lists, seen0, y, lists[y].len() as int));
                        }
                        assert(targets_seen(lists, seen0, u as int, e as int));
                        assert forall|x: int| 0 <= x < n && #[trigger] seen[x] implies dist[x].value() <= (
                        n - unseen(seen@, n as int) - 1) * cap by {
                            if x != v {
                                assert(seen0[x]);
                                assert((count - 1) * cap <= count * cap) by (nonlinear_arith)
                                    requires
                                        cap >= 0,
                                ;
                            }
                        }
                    }
                }
                proof {
                    assert(targets_seen(lists, seen@, u as int, e + 1));
                }
                e += 1;
            }
            proof {
                done = done.update(u as int, true);
            }
        }
        proof {
            assert forall|u: int| 0 <= u < n && #[trigger] seen[u] implies targets_seen(
                lists,
                seen@,
                u,
                lists[u].len() as int,
            ) by {
                if !done[u] {
                    assert(q@.contains(u as Index));
                }
            }
            assert(traversal_witness(lists, src as int, dist@, seen@, order));
        }
        dist
    }
}

/// Whether each weight, taken once for each vertex, stays within the limit
/// of the type: then no sum of weights along a path overflows.
pub open spec fn weights_fit<W: crate::weight::Weight>(lists: Seq<Seq<(Index, W)>>) -> bool {
    forall|v: int, e: int|
        0 <= v < lists.len() && 0 <= e < lists[v].len() ==> (#[trigger] lists[v][e]).1.value()
            * lists.len() <= W::limit()
}

/// Whether edge `e` of `u` is the edge on which the traversal found `v`.
pub open spec fn found_by<W: crate::weight::Weight>(
    lists: Seq<Seq<(Index, W)>>,
    dist: Seq<W>,
    reached: Seq<bool>,
    order: Seq<nat>,
    u: int,
    e: int,
    v: int,
) -> bool {
    &&& 0 <= u < lists.len()
    &&& 0 <= e < lists[u].len()
    &&& lists[u][e].0 == v
    &&& reached[u]
    &&& order[u] < order[v]
    &&& dist[v].value() == dist[u].value() + lists[u][e].1.value()
}

/// Whether the traversal found `v` on an edge from a vertex that it had
/// found before.
pub open spec fn found_from<W: crate::weight::Weight>(
    lists: Seq<Seq<(Index, W)>>,
    dist: Seq<W>,
    reached: Seq<bool>,
    order: Seq<nat>,
    v: int,
) -> bool {
    exists|u: int, e: int| found_by(lists, dist, reached, order, u, e, v)
}

/// Whether each of the first `upto` edges of `u` leads to a vertex that the
/// traversal found.
pub open spec fn targets_seen<W>(
    lists: Seq<Seq<(Index, W)>>,
    reached: Seq<bool>,
    u: int,
    upto: int,
) -> bool {
    forall|e: int| 0 <= e < upto ==> reached[(#[trigger] lists[u][e]).0 as int]
}

/// Whether `reached` and `order` tell of a traversal from `src` that gives
/// the distances `dist`: `src` is found with distance zero; every other
/// vertex that is found was found on an edge from a vertex found before it,
/// and its distance is the distance of that vertex and the weight of the
/// edge; every edge from a vertex that is found leads to one that is found;
/// a vertex that is not found has distance zero.
pub open spec fn traversal_witness<W: crate::weight::Weight>(
    lists: Seq<Seq<(Index, W)>>,
    src: int,
    dist: Seq<W>,
    reached: Seq<bool>,
    order: Seq<nat>,
) -> bool {
    &&& dist.len() == lists.len()
    &&& reached.len() == lists.len()
    &&& order.len() == lists.len()
    &&& reached[src]
    &&& dist[src].value() == 0
    &&& forall|v: int| 0 <= v < lists.len() && !#[trigger] reached[v] ==> dist[v].value() == 0
    &&& forall|v: int|
        0 <= v < lists.len() && v != src && #[trigger] reached[v] ==> found_from(
            lists,
            dist,
            reached,
            order,
            v,
        )
    &&& forall|u: int|
        0 <= u < lists.len() && #[trigger] reached[u] ==> targets_seen(
            lists,
            reached,
            u,
            lists[u].len() as int,
        )
}

/// Whether `dist` holds the distances that some traversal from `src` gives.
pub open spec fn is_traversal_distance<W: crate::weight::Weight>(
    lists: Seq<Seq<(Index, W)>>,
    src: int,
    dist: Seq<W>,
) -> bool {
    exists|reached: Seq<bool>, order: Seq<nat>|
        traversal_witness(lists, src, dist, reached, order)
}

/// A weight that fits `n` times in the limit is at most the `n`-th part of
/// the limit.
pub proof fn lemma_cap(limit: int, n: int, w: int)
    requires
        n >= 1,
        limit >= 0,
        0 <= w,
        w * n <= limit,
    ensures
        w <= limit / n,
        0 <= limit / n,
        n * (limit / n) <= limit,
{
    vstd::arithmetic::div_mod::lemma_fundamental_div_mod(limit, n);
    vstd::arithmetic::div_mod::lemma_div_pos_is_pos(limit, n);
    let q = limit / n;
    assert(w <= q) by (nonlinear_arith)
        requires
            w * n <= limit,
            limit == n * q + limit % n,
            0 <= limit % n < n,
            n >= 1,
    ;
}

/// Tells whether the edges of a graph have a direction: `Directed` or
/// `Undirected`.
pub trait Orientation {
    /// Whether this is the orientation of directed graphs.
    spec fn directed() -> bool;

    /// Whether this is the orientation of directed graphs.
    fn is_directed_edge() -> (b: bool)
        ensures
            b == Self::directed(),
    ;
}

/// The orientation of directed graphs.
pub struct Directed;

impl Orientation for Directed {
    open spec fn directed() -> bool {
        true
    }

    fn is_directed_edge() -> (b: bool) {
        true
    }
}

/// The orientation of undirected graphs.
pub struct Undirected;

impl Orientation for Undirected {
    open spec fn directed() -> bool {
        false
    }

    fn is_directed_edge() -> (b: bool) {
        false
    }
}

/// A graph as adjacency lists. Its view is the sequence of the lists, one
/// for each vertex.
pub struct AdjGraph<O: Orientation, W> {
    size: Index,
    adj: Vec<Vec<(Index, W)>>,
    _marker: std::marker::PhantomData<O>,
}

impl<O: Orientation, W> View for AdjGraph<O, W> {
    type V = Seq<Seq<(Index, W)>>;

    closed spec fn view(&self) -> Seq<Seq<(Index, W)>> {
        Seq::new(self.adj.len() as nat, |v: int| self.adj[v]@)
    }
}

impl<O: Orientation, W: Copy> AdjGraph<O, W> {
    /// There is a list for each vertex, and every edge leads to a vertex.
    pub closed spec fn wf(&self) -> bool {
        &&& self.adj.len() == self.size
        &&& targets_below(self@, self.size as int)
    }

    /// The graph of `size` vertices without edges.
    pub fn new(size: Index) -> (graph: Self)
        ensures
            graph.wf(),
            graph@ == Seq::new(size as nat, |v: int| Seq::<(Index, W)>::empty()),
    {
        let mut adj: Vec<Vec<(Index, W)>> = Vec::new();
        let mut i: Index = 0;
        while i < size
            invariant
                i <= size,
                adj.len() == i,
                forall|v: int| 0 <= v < i ==> (#[trigger] adj[v])@ == Seq::<(Index, W)>::empty(),
            decreases size - i,
        {
            adj.push(Vec::new());
            i += 1;
        }
        let graph = Self { size, adj, _marker: std::marker::PhantomData };
        proof {
            assert(graph@ =~= Seq::new(size as nat, |v: int| Seq::<(Index, W)>::empty()));
        }
        graph
    }

    /// Adds an edge of weight `w` from `u` to `v`, and in an undirected
    /// graph also one from `v` to `u`.
    pub fn add_edge(&mut self, u: Index, v: Index, w: W)
        requires
            old(self).wf(),
            u < old(self)@.len(),
            v < old(self)@.len(),
        ensures
            final(self).wf(),
            final(self)@ == with_edge(old(self)@, O::directed(), u, v, w),
    {
        let ghost before = self@;
        if O::is_directed_edge() {
            self.adj[u as usize].push((v, w));
        } else {
            self.adj[u as usize].push((v, w));
            self.adj[v as usize].push((u, w));
        }
        proof {
            assert(self@ =~= with_edge(before, O::directed(), u, v, w));
            assert forall|x: int, e: int|
                0 <= x < self@.len() && 0 <= e < self@[x].len() implies (#[trigger] self@[x][e]).0
                < self.size as int by {
                if e < before[x].len() {
                    assert(self@[x][e] == before[x][e]);
                }
            }
        }
    }

    /// The edges that leave `v`.
    pub fn adjacent(&self, v: Index) -> (list: &[(Index, W)])
        requires
            v < self@.len(),
        ensures
            list@ == self@[v as int],
    {
        self.adj[v as usize].as_slice()
    }

    /// The graph of `size` vertices with the edges of `edges`, each given
    /// as its source, its target and its weight, added in their order.
    pub fn from_edges(size: Index, edges: &[(Index, Index, W)]) -> (graph: Self)
        requires
            forall|i: int| 0 <= i < edges.len() ==> (#[trigger] edges[i]).0 < size && edges[i].1 < size,
        ensures
            graph.wf(),
            graph@ == with_edges(
                Seq::new(size as nat, |v: int| Seq::<(Index, W)>::empty()),
                O::directed(),
                edges@,
            ),
    {
        let mut graph = Self::new(size);
        let mut i: usize = 0;
        let ghost empty = graph@;
        proof {
            assert(edges@.take(0) =~= Seq::<(Index, Index, W)>::empty());
        }
        while i < edges.len()
            invariant
                i <= edges.len(),
                graph.wf(),
                graph@.len() == size,
                forall|i: int|
                    0 <= i < edges.len() ==> (#[trigger] edges[i]).0 < size && edges[i].1 < size,
                graph@ == with_edges(empty, O::directed(), edges@.take(i as int)),
            decreases edges.len() - i,
        {
            let (u, v, w) = edges[i];
            graph.add_edge(u, v, w);
            proof {
                assert(edges@.take(i + 1).drop_last() =~= edges@.take(i as int));
            }
            i += 1;
        }
        proof {
            assert(edges@.take(edges.len() as int) =~= edges@);
        }
        graph
    }

    /// The same graph in compressed row storage.
    pub fn to_crs(self) -> (crs: CRSGraph<O, W>)
        requires
            self.wf(),
        ensures
            crs.wf(),
            crs@ == self@,
    {
        let mut crs: Vec<(Index, W)> = Vec::new();
        let mut ptr: Vec<usize> = Vec::new();
        ptr.push(0);
        let mut i: usize = 0;
        while i < self.adj.len()
            invariant
                i <= self.adj.len(),
                self.wf(),
                ptr.len() == i + 1,
                ptr[0] == 0,
                ptr[i as int] == crs.len(),
                forall|v: int| 0 <= v < i ==> #[trigger] ptr[v] <= ptr[v + 1] <= crs.len(),
                forall|v: int|
                    0 <= v < i ==> crs@.subrange(ptr[v] as int, ptr[v + 1] as int) == (
                    #[trigger] self.adj[v])@,
            decreases self.adj.len() - i,
        {
            let ghost before = crs@;
            let mut e: usize = 0;
            let list = &self.adj[i];
            while e < list.len()
                invariant
                    e <= list.len(),
                    crs@ == before + list@.take(e as int),
                decreases list.len() - e,
            {
                crs.push(list[e]);
                proof {
                    assert(crs@ =~= before + list@.take(e + 1));
                }
                e += 1;
            }
            ptr.push(crs.len());
            proof {
                assert(list@.take(list.len() as int) =~= list@);
                assert(crs@.subrange(ptr[i as int] as int, ptr[i + 1] as int) =~= list@);
                assert forall|v: int| 0 <= v < i implies crs@.subrange(
                    ptr[v] as int,
                    ptr[v + 1] as int,
                ) == (#[trigger] self.adj[v])@ by {
                    assert(crs@.subrange(ptr[v] as int, ptr[v + 1] as int) =~= before.subrange(
                        ptr[v] as int,
                        ptr[v + 1] as int,
                    ));
                }
            }
            i += 1;
        }
        let out = CRSGraph { size: self.size, crs, ptr, _marker: std::marker::PhantomData };
        proof {
            assert(out@ =~= self@);
        }
        out
    }

    /// The number of vertices.
    pub fn size(&self) -> (n: Index)
        requires
            self.wf(),
        ensures
            n == self@.len(),
    {
        self.size
    }

    /// Whether the edges have a direction.
    pub fn is_directed_edge(&self) -> (b: bool)
        ensures
            b == O::directed(),
    {
        O::is_directed_edge()
    }
}

/// The lists with an edge of weight `w` from `u` to `v` added at the end of
/// the list of `u`, and, in an undirected graph, then one from `v` to `u` at
/// the end of the list of `v`.
pub open spec fn with_edge<W>(
    lists: Seq<Seq<(Index, W)>>,
    directed: bool,
    u: Index,
    v: Index,
    w: W,
) -> Seq<Seq<(Index, W)>> {
    let forth = lists.update(u as int, lists[u as int].push((v, w)));
    if directed {
        forth
    } else {
        forth.update(v as int, forth[v as int].push((u, w)))
    }
}

/// The lists with the given edges added one after the other.
pub open spec fn with_edges<W>(
    lists: Seq<Seq<(Index, W)>>,
    directed: bool,
    edges: Seq<(Index, Index, W)>,
) -> Seq<Seq<(Index, W)>>
    decreases edges.len(),
{
    if edges.len() == 0 {
        lists
    } else {
        let last = edges.last();
        with_edge(with_edges(lists, directed, edges.drop_last()), directed, last.0, last.1, last.2)
    }
}

/// The edges of `edges`, each with the weight `()`.
pub open spec fn unit_weighted(edges: Seq<(Index, Index)>) -> Seq<(Index, Index, ())> {
    Seq::new(edges.len(), |i: int| (edges[i].0, edges[i].1, ()))
}

impl<O: Orientation> AdjGraph<O, ()> {
    /// The graph of `size` vertices with the edges of `edges`, each given
    /// as its source and its target, added in their order.
    pub fn from_edges_no_weight(size: Index, edges: &[(Index, Index)]) -> (graph: Self)
        requires
            forall|i: int| 0 <= i < edges.len() ==> (#[trigger] edges[i]).0 < size && edges[i].1 < size,
        ensures
            graph.wf(),
            graph@ == with_edges(
                Seq::new(size as nat, |v: int| Seq::<(Index, ())>::empty()),
                O::directed(),
                unit_weighted(edges@),
            ),
    {
        let mut graph = Self::new(size);
        let mut i: usize = 0;
        let ghost empty = graph@;
        proof {
            assert(unit_weighted(edges@.take(0)) =~= Seq::<(Index, Index, ())>::empty());
        }
        while i < edges.len()
            invariant
                i <= edges.len(),
                graph.wf(),
                graph@.len() == size,
                forall|i: int|
                    0 <= i < edges.len() ==> (#[trigger] edges[i]).0 < size && edges[i].1 < size,
                graph@ == with_edges(empty, O::directed(), unit_weighted(edges@.take(i as int))),
            decreases edges.len() - i,
        {
            let (u, v) = edges[i];
            graph.add_edge(u, v, ());
            proof {
                assert(unit_weighted(edges@.take(i + 1)).drop_last() =~= unit_weighted(
                    edges@.take(i as int),
                ));
            }
            i += 1;
        }
        proof {
            assert(edges@.take(edges.len() as int) =~= edges@);
        }
        graph
    }
}

impl<O: Orientation, W: Copy> Graph for AdjGraph<O, W> {
    type Weight = W;

    open spec fn lists(&self) -> Seq<Seq<(Index, W)>> {
        self@
    }

    open spec fn directed(&self) -> bool {
        O::directed()
    }

    open spec fn wf(&self) -> bool {
        self.wf()
    }

    proof fn lemma_wf(&self) {
    }

    fn is_directed_edge(&self) -> (b: bool) {
        O::is_directed_edge()
    }

    fn size(&self) -> (n: Index) {
        self.size
    }

    fn adjacent(&self, v: Index) -> (list: &[(Index, W)]) {
        self.adj[v as usize].as_slice()
    }
}

impl<W: Copy> DirectedGraph for AdjGraph<Directed, W> {

}

impl<W: Copy> UndirectedGraph for AdjGraph<Undirected, W> {

}

impl<W: Copy> Tree for AdjGraph<Undirected, W> {

}

/// A graph in compressed row storage: the lists of all vertices one after
/// the other, and for each vertex where its list starts. Its view is the
/// sequence of the lists, one for each vertex.
pub struct CRSGraph<O: Orientation, W> {
    size: Index,
    crs: Vec<(Index, W)>,
    ptr: Vec<usize>,
    _marker: std::marker::PhantomData<O>,
}

impl<O: Orientation, W> View for CRSGraph<O, W> {
    type V = Seq<Seq<(Index, W)>>;

    closed spec fn view(&self) -> Seq<Seq<(Index, W)>> {
        Seq::new(
            self.size as nat,
            |v: int| self.crs@.subrange(self.ptr[v] as int, self.ptr[v + 1] as int),
        )
    }
}

impl<O: Orientation, W: Copy> CRSGraph<O, W> {
    /// The starts of the lists ascend from zero to the number of edges,
    /// and every edge leads to a vertex.
    pub closed spec fn wf(&self) -> bool {
        &&& self.ptr.len() == self.size + 1
        &&& forall|v: int| 0 <= v < self.size ==> #[trigger] self.ptr[v] <= self.ptr[v + 1]
            <= self.crs.len()
        &&& targets_below(self@, self.size as int)
    }

    /// The edges that leave `v`.
    pub fn adjacent(&self, v: Index) -> (list: &[(Index, W)])
        requires
            self.wf(),
            v < self@.len(),
        ensures
            list@ == self@[v as int],
    {
        let from = self.ptr[v as usize];
        let to = self.ptr[v as usize + 1];
        vstd::slice::slice_subrange(self.crs.as_slice(), from, to)
    }

    /// The number of vertices.
    pub fn size(&self) -> (n: Index)
        ensures
            n == self@.len(),
    {
        self.size
    }

    /// Whether the edges have a direction.
    pub fn is_directed_edge(&self) -> (b: bool)
        ensures
            b == O::directed(),
    {
        O::is_directed_edge()
    }
}

impl<O: Orientation, W: Copy> Graph for CRSGraph<O, W> {
    type Weight = W;

    open spec fn lists(&self) -> Seq<Seq<(Index, W)>> {
        self@
    }

    open spec fn directed(&self) -> bool {
        O::directed()
    }

    open spec fn wf(&self) -> bool {
        self.wf()
    }

    proof fn lemma_wf(&self) {
    }

    fn is_directed_edge(&self) -> (b: bool) {
        O::is_directed_edge()
    }

    fn size(&self) -> (n: Index) {
        self.size
    }

    fn adjacent(&self, v: Index) -> (list: &[(Index, W)]) {
        let from = self.ptr[v as usize];
        let to = self.ptr[v as usize + 1];
        vstd::slice::slice_subrange(self.crs.as_slice(), from, to)
    }
}

impl<W: Copy> DirectedGraph for CRSGraph<Directed, W> {

}

impl<W: Copy> UndirectedGraph for CRSGraph<Undirected, W> {

}

impl<W: Copy> Tree for CRSGraph<Undirected, W> {

}

} // verus!

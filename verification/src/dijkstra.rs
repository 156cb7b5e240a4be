//! Shortest ways in a graph whose edges have weights, none negative, by
//! Dijkstra's algorithm.

use vstd::prelude::*;
use vstd::multiset::Multiset;
use crate::graph::{
    Graph,
    Index,
    targets_below,
    weights_fit,
    walk_weighs,
    unseen,
    lemma_unseen_mark,
};
use crate::min_heap::MinHeap;
use crate::weight::Weight;

verus! {

broadcast use vstd::multiset::group_multiset_axioms;

/// The distance of a vertex from the source.
#[derive(PartialEq, Eq, Hash, Clone, Copy, Debug)]
pub enum Dist<W> {
    /// The vertex cannot be reached.
    UNREACHABLE,
    /// The vertex can be reached, and this is the least weight of a way
    /// there.
    VALUE(W),
}

/// The distances of all vertices from the source. Its view gives for each
/// vertex its distance, or nothing if the vertex cannot be reached.
pub struct DijkstraResult<W> {
    seen: Vec<bool>,
    dist: Vec<W>,
}

/// For each vertex the number that its entry stands for, if the vertex was
/// reached.
pub open spec fn found_distances<W: Weight>(seen: Seq<bool>, dist: Seq<W>) -> Seq<Option<int>> {
    Seq::new(
        seen.len(),
        |v: int|
            if seen[v] {
                Some(dist[v].value())
            } else {
                None
            },
    )
}

impl<W: Weight> View for DijkstraResult<W> {
    type V = Seq<Option<int>>;

    closed spec fn view(&self) -> Seq<Option<int>> {
        found_distances(self.seen@, self.dist@)
    }
}

impl<W: Weight> DijkstraResult<W> {
    /// There is an entry for each vertex.
    pub closed spec fn wf(&self) -> bool {
        self.seen.len() == self.dist.len()
    }

    /// The distance of the vertex `i`.
    pub fn get(&self, i: u32) -> (d: Dist<W>)
        requires
            self.wf(),
            i < self@.len(),
        ensures
            match d {
                Dist::VALUE(w) => self@[i as int] == Some(w.value()),
                Dist::UNREACHABLE => self@[i as int] is None,
            },
    {
        if self.seen[i as usize] {
            Dist::VALUE(self.dist[i as usize])
        } else {
            Dist::UNREACHABLE
        }
    }
}

/// Whether edge `e` of `u` is a last step of a shortest way to `v`: it
/// leads to `v`, `u` was settled before `v`, and the distance of `v` is the
/// distance of `u` and the weight of the edge.
pub open spec fn last_step<W: Weight>(
    lists: Seq<Seq<(Index, W)>>,
    found: Seq<Option<int>>,
    order: Seq<nat>,
    u: int,
    e: int,
    v: int,
) -> bool {
    &&& 0 <= u < lists.len()
    &&& 0 <= e < lists[u].len()
    &&& lists[u][e].0 == v
    &&& found[u] is Some
    &&& found[v] is Some
    &&& order[u] < order[v]
    &&& found[v].unwrap() == found[u].unwrap() + lists[u][e].1.value()
}

/// Whether some edge is a last step of a shortest way to `v`.
pub open spec fn has_last_step<W: Weight>(
    lists: Seq<Seq<(Index, W)>>,
    found: Seq<Option<int>>,
    order: Seq<nat>,
    v: int,
) -> bool {
    exists|u: int, e: int| last_step(lists, found, order, u, e, v)
}

/// Whether each of the first `upto` edges of `u` leads to a vertex with a
/// distance, at most the distance of `u` and the weight of the edge.
pub open spec fn steps_relaxed<W: Weight>(
    lists: Seq<Seq<(Index, W)>>,
    found: Seq<Option<int>>,
    u: int,
    upto: int,
) -> bool {
    forall|e: int|
        0 <= e < upto ==> found[(#[trigger] lists[u][e]).0 as int] is Some && found[lists[u][e].0 as int].unwrap()
            <= found[u].unwrap() + lists[u][e].1.value()
}

/// Whether `found` holds the distances from `src`, with `order` the order
/// in which the vertices were settled: `src` has the distance zero; every
/// other vertex with a distance has a last step from a vertex settled
/// before it; and no edge from a vertex with a distance leads to a vertex
/// without one or with one greater than the edge allows.
pub open spec fn distances_witness<W: Weight>(
    lists: Seq<Seq<(Index, W)>>,
    src: int,
    found: Seq<Option<int>>,
    order: Seq<nat>,
) -> bool {
    &&& found.len() == lists.len()
    &&& order.len() == lists.len()
    &&& found[src] == Some(0int)
    &&& forall|v: int|
        0 <= v < lists.len() && v != src && (#[trigger] found[v]) is Some ==> has_last_step(
            lists,
            found,
            order,
            v,
        )
    &&& forall|u: int|
        0 <= u < lists.len() && (#[trigger] found[u]) is Some ==> steps_relaxed(
            lists,
            found,
            u,
            lists[u].len() as int,
        )
}

/// Whether `found` holds the distances from `src`.
pub open spec fn is_shortest_distances<W: Weight>(
    lists: Seq<Seq<(Index, W)>>,
    src: int,
    found: Seq<Option<int>>,
) -> bool {
    exists|order: Seq<nat>| distances_witness(lists, src, found, order)
}

/// The state of the search: which vertices are settled and in what order,
/// and the best distance known of each vertex, the limit of the type for a
/// vertex of which none is known.
spec fn search_state<W: Weight>(
    lists: Seq<Seq<(Index, W)>>,
    src: int,
    seen: Seq<bool>,
    dist: Seq<W>,
    order: Seq<nat>,
    settled: int,
) -> bool {
    let n = lists.len() as int;
    let cap = W::limit() / n;
    &&& seen.len() == n
    &&& dist.len() == n
    &&& order.len() == n
    &&& 0 <= src < n
    &&& settled == n - unseen(seen, n)
    &&& dist[src].value() == 0
    &&& forall|v: int|
        0 <= v < n && #[trigger] seen[v] ==> dist[v].value() <= order[v] * cap && order[v] < settled
    &&& forall|v: int|
        0 <= v < n && !#[trigger] seen[v] ==> dist[v].value() == W::limit() || dist[v].value()
            <= settled * cap
    &&& forall|x: int, v: int|
        0 <= x < n && 0 <= v < n && #[trigger] seen[x] && !#[trigger] seen[v] ==> dist[x].value()
            <= dist[v].value()
    &&& forall|v: int|
        0 <= v < n && v != src && (#[trigger] dist[v]).value() < W::limit() ==> has_way(
            lists,
            seen,
            dist,
            order,
            v,
        )
}

/// Whether edge `e` of the settled vertex `u` gives `v` its best distance
/// known.
spec fn way_by<W: Weight>(
    lists: Seq<Seq<(Index, W)>>,
    seen: Seq<bool>,
    dist: Seq<W>,
    order: Seq<nat>,
    u: int,
    e: int,
    v: int,
) -> bool {
    &&& 0 <= u < lists.len()
    &&& 0 <= e < lists[u].len()
    &&& lists[u][e].0 == v
    &&& seen[u]
    &&& seen[v] ==> order[u] < order[v]
    &&& dist[v].value() == dist[u].value() + lists[u][e].1.value()
}

/// Whether an edge of a settled vertex gives `v` its best distance known.
spec fn has_way<W: Weight>(
    lists: Seq<Seq<(Index, W)>>,
    seen: Seq<bool>,
    dist: Seq<W>,
    order: Seq<nat>,
    v: int,
) -> bool {
    exists|u: int, e: int| way_by(lists, seen, dist, order, u, e, v)
}

/// Whether the best distance known of the target of each of the first
/// `upto` edges of `u` is at most the distance of `u` and the weight of the
/// edge.
spec fn ways_relaxed<W: Weight>(lists: Seq<Seq<(Index, W)>>, dist: Seq<W>, u: int, upto: int) -> bool {
    forall|e: int|
        0 <= e < upto ==> dist[(#[trigger] lists[u][e]).0 as int].value() <= dist[u].value()
            + lists[u][e].1.value()
}

/// What the queue holds: for each vertex that is not settled and of which a
/// distance is known an entry with that distance; and no entry lighter
/// than the distance known of its vertex or than the distance of a settled
/// vertex.
spec fn queue_state<W: Weight>(
    n: int,
    seen: Seq<bool>,
    dist: Seq<W>,
    queue: Multiset<(W, u32)>,
) -> bool {
    &&& forall|e: (W, u32)|
        #[trigger] queue.count(e) > 0 ==> e.1 < n && dist[e.1 as int].value() <= e.0.value()
            < W::limit()
    &&& forall|e: (W, u32), x: int|
        #[trigger] queue.count(e) > 0 && 0 <= x < n && #[trigger] seen[x] ==> dist[x].value()
            <= e.0.value()
    &&& forall|v: int|
        0 <= v < n && !#[trigger] seen[v] && dist[v].value() < W::limit() ==> queue.count(
            (dist[v], v as u32),
        ) > 0
}

/// With weights that fit, a way of fewer edges than there are vertices
/// weighs less than the limit, and one edge more does not overflow.
proof fn lemma_way_bound(limit: int, n: int, steps: int, w: int, d: int)
    requires
        n >= 1,
        limit >= 1,
        0 <= steps < n,
        0 <= w,
        w * n <= limit,
        0 <= d <= steps * (limit / n),
    ensures
        d + w <= (steps + 1) * (limit / n),
        (steps + 1) * (limit / n) <= limit,
        steps < n - 1 ==> d + w < limit,
        d < limit,
{
    let cap = limit / n;
    vstd::arithmetic::div_mod::lemma_fundamental_div_mod(limit, n);
    vstd::arithmetic::div_mod::lemma_div_pos_is_pos(limit, n);
    assert(w <= cap) by (nonlinear_arith)
        requires
            w * n <= limit,
            limit == n * cap + limit % n,
            0 <= limit % n < n,
            n >= 1,
    ;
    assert((steps + 1) * cap == steps * cap + cap) by (nonlinear_arith);
    assert((steps + 1) * cap <= n * cap) by (nonlinear_arith)
        requires
            steps + 1 <= n,
            cap >= 0,
    ;
    if steps < n - 1 {
        assert((steps + 1) * cap <= (n - 1) * cap) by (nonlinear_arith)
            requires
                steps + 1 <= n - 1,
                cap >= 0,
        ;
        assert((n - 1) * cap == n * cap - cap) by (nonlinear_arith);
        if cap == 0 {
            assert((steps + 1) * cap == 0) by (nonlinear_arith)
                requires
                    cap == 0,
            ;
        }
    }
    if steps < n - 1 || d < steps * cap {
    }
    assert(steps * cap <= (n - 1) * cap) by (nonlinear_arith)
        requires
            steps <= n - 1,
            cap >= 0,
    ;
    assert((n - 1) * cap == n * cap - cap) by (nonlinear_arith);
    if cap == 0 {
        assert(steps * cap == 0) by (nonlinear_arith)
            requires
                cap == 0,
        ;
    }
}

/// Whether the distances of the settled vertices are at most that of `u`.
spec fn settled_below<W: Weight>(n: int, seen: Seq<bool>, dist: Seq<W>, u: int) -> bool {
    forall|x: int| 0 <= x < n && #[trigger] seen[x] ==> dist[x].value() <= dist[u].value()
}

/// Whether the edges of every settled vertex are relaxed, those of `u` up
/// to the edge `upto`.
spec fn all_relaxed<W: Weight>(
    lists: Seq<Seq<(Index, W)>>,
    seen: Seq<bool>,
    dist: Seq<W>,
    u: int,
    upto: int,
) -> bool {
    forall|x: int|
        0 <= x < lists.len() && #[trigger] seen[x] ==> ways_relaxed(
            lists,
            dist,
            x,
            if x == u {
                upto
            } else {
                lists[x].len() as int
            },
        )
}

/// The state of the search with its queue, while the edges of the settled
/// vertex `u` are relaxed up to the edge `upto`; with `u` no vertex and
/// `upto` zero, between two vertices.
spec fn state<W: Weight>(
    lists: Seq<Seq<(Index, W)>>,
    src: int,
    seen: Seq<bool>,
    dist: Seq<W>,
    order: Seq<nat>,
    settled: int,
    queue: Multiset<(W, u32)>,
    u: int,
    upto: int,
) -> bool {
    &&& 1 <= lists.len() <= u32::MAX
    &&& W::limit() >= 1
    &&& targets_below(lists, lists.len() as int)
    &&& weights_fit(lists)
    &&& 0 <= settled <= lists.len()
    &&& search_state(lists, src, seen, dist, order, settled)
    &&& queue_state(lists.len() as int, seen, dist, queue)
    &&& all_relaxed(lists, seen, dist, u, upto)
}

/// The state at the start: nothing is settled, the source has the distance
/// zero and is in the queue.
proof fn lemma_start<W: Weight>(
    lists: Seq<Seq<(Index, W)>>,
    src: int,
    seen: Seq<bool>,
    dist: Seq<W>,
    zero: W,
)
    requires
        1 <= lists.len() <= u32::MAX,
        W::limit() >= 1,
        targets_below(lists, lists.len() as int),
        weights_fit(lists),
        0 <= src < lists.len(),
        seen.len() == lists.len(),
        dist.len() == lists.len(),
        zero.value() == 0,
        dist[src] == zero,
        forall|v: int| 0 <= v < lists.len() ==> !#[trigger] seen[v],
        forall|v: int| 0 <= v < lists.len() && v != src ==> (#[trigger] dist[v]).value() == W::limit(),
    ensures
        state(
            lists,
            src,
            seen,
            dist,
            Seq::new(lists.len(), |v: int| 0nat),
            0,
            Multiset::<(W, u32)>::empty().insert((zero, src as u32)),
            -1,
            0,
        ),
{
    let n = lists.len() as int;
    lemma_unseen_all(seen, n);
    vstd::arithmetic::div_mod::lemma_div_pos_is_pos(W::limit(), n);
    assert(0 * (W::limit() / n) == 0) by (nonlinear_arith);
}

/// The vertex that comes out of the queue as the lightest entry, if it is
/// not settled, has the least distance known among the vertices that are
/// not settled, and no settled vertex has a greater distance.
proof fn lemma_top<W: Weight>(
    lists: Seq<Seq<(Index, W)>>,
    src: int,
    seen: Seq<bool>,
    dist: Seq<W>,
    order: Seq<nat>,
    settled: int,
    queue: Multiset<(W, u32)>,
    top: (W, u32),
)
    requires
        state(lists, src, seen, dist, order, settled, queue, -1, 0),
        queue.count(top) > 0,
        forall|e: (W, u32)| queue.count(e) > 0 ==> top.0.value() <= (#[trigger] e.0.value()),
        top.1 < lists.len() ==> !seen[top.1 as int],
    ensures
        top.1 < lists.len(),
        settled < lists.len(),
        0 <= dist[top.1 as int].value() < W::limit(),
        top.0.value() == dist[top.1 as int].value(),
        dist[top.1 as int].value() <= settled * (W::limit() / (lists.len() as int)),
        unseen(seen.update(top.1 as int, true), lists.len() as int) + 1 == unseen(
            seen,
            lists.len() as int,
        ),
        forall|v: int|
            0 <= v < lists.len() && !seen[v] ==> dist[top.1 as int].value() <= (
            #[trigger] dist[v]).value(),
        forall|v: int|
            0 <= v < lists.len() && seen[v] ==> (#[trigger] dist[v]).value() <= dist[top.1 as int].value(),
{
    let n = lists.len() as int;
    let u = top.1 as int;
    let limit = W::limit();
    lemma_unseen_mark(seen, u);
    assert(unseen(seen.update(u, true), n) + 1 == unseen(seen, n));
    dist[u].lemma_range();
    assert(dist[u].value() <= top.0.value() < limit);
    assert(queue.count((dist[u], u as u32)) > 0);
    assert(top.0.value() <= dist[u].value());
    assert forall|v: int| 0 <= v < n && !seen[v] implies dist[u].value() <= (#[trigger] dist[v]).value() by {
        if dist[v].value() < limit {
            assert(queue.count((dist[v], v as u32)) > 0);
        }
    }
}

/// The state after a vertex that is not settled has come out of the queue
/// as the lightest entry: it is settled.
proof fn lemma_settle<W: Weight>(
    lists: Seq<Seq<(Index, W)>>,
    src: int,
    seen: Seq<bool>,
    dist: Seq<W>,
    order: Seq<nat>,
    settled: int,
    queue: Multiset<(W, u32)>,
    top: (W, u32),
)
    requires
        state(lists, src, seen, dist, order, settled, queue, -1, 0),
        queue.count(top) > 0,
        forall|e: (W, u32)| queue.count(e) > 0 ==> top.0.value() <= (#[trigger] e.0.value()),
        top.1 < lists.len() ==> !seen[top.1 as int],
    ensures
        top.1 < lists.len(),
        settled < lists.len(),
        dist[top.1 as int].value() < W::limit(),
        unseen(seen.update(top.1 as int, true), lists.len() as int) + 1 == unseen(
            seen,
            lists.len() as int,
        ),
        state(
            lists,
            src,
            seen.update(top.1 as int, true),
            dist,
            order.update(top.1 as int, settled as nat),
            settled + 1,
            queue.remove(top),
            top.1 as int,
            0,
        ),
        settled_below(lists.len() as int, seen.update(top.1 as int, true), dist, top.1 as int),
{
    let n = lists.len() as int;
    let u = top.1 as int;
    lemma_top(lists, src, seen, dist, order, settled, queue, top);
    lemma_settle_search(lists, src, seen, dist, order, settled, u);
    lemma_settle_queue(lists, seen, dist, queue, top);
    let seen1 = seen.update(u, true);
    assert forall|x: int| 0 <= x < n && #[trigger] seen1[x] implies ways_relaxed(
        lists,
        dist,
        x,
        if x == u {
            0
        } else {
            lists[x].len() as int
        },
    ) by {
        if x != u {
            assert(seen[x]);
        }
    }
}

/// The search after the vertex `u`, of least distance known among those
/// not settled, is settled.
proof fn lemma_settle_search<W: Weight>(
    lists: Seq<Seq<(Index, W)>>,
    src: int,
    seen: Seq<bool>,
    dist: Seq<W>,
    order: Seq<nat>,
    settled: int,
    u: int,
)
    requires
        1 <= lists.len(),
        W::limit() >= 1,
        search_state(lists, src, seen, dist, order, settled),
        0 <= u < lists.len(),
        !seen[u],
        0 <= settled < lists.len(),
        dist[u].value() <= settled * (W::limit() / (lists.len() as int)),
        unseen(seen.update(u, true), lists.len() as int) + 1 == unseen(seen, lists.len() as int),
        forall|v: int|
            0 <= v < lists.len() && !seen[v] ==> dist[u].value() <= (#[trigger] dist[v]).value(),
    ensures
        search_state(
            lists,
            src,
            seen.update(u, true),
            dist,
            order.update(u, settled as nat),
            settled + 1,
        ),
{
    let n = lists.len() as int;
    let limit = W::limit();
    let cap = limit / n;
    let seen1 = seen.update(u, true);
    let order1 = order.update(u, settled as nat);
    vstd::arithmetic::div_mod::lemma_div_pos_is_pos(limit, n);
    assert((settled + 1) * cap == settled * cap + cap) by (nonlinear_arith);
    assert forall|v: int| 0 <= v < n && v != src && (#[trigger] dist[v]).value() < limit implies has_way(
        lists,
        seen1,
        dist,
        order1,
        v,
    ) by {
        assert(has_way(lists, seen, dist, order, v));
        lemma_way_kept(lists, seen, dist, order1, u, settled, v);
    }
    assert forall|v: int| 0 <= v < n && #[trigger] seen1[v] implies dist[v].value() <= order1[v]
        * cap && order1[v] < settled + 1 by {
        if v != u {
            assert(seen[v]);
        }
    }
    assert forall|v: int| 0 <= v < n && !#[trigger] seen1[v] implies dist[v].value() == limit
        || dist[v].value() <= (settled + 1) * cap by {
        assert(!seen[v]);
    }
    assert forall|x: int, v: int|
        0 <= x < n && 0 <= v < n && #[trigger] seen1[x] && !#[trigger] seen1[v] implies dist[x].value()
        <= dist[v].value() by {
        assert(!seen[v]);
        if x != u {
            assert(seen[x]);
        }
    }
}

/// The queue after the lightest entry, of a vertex that is not settled, has
/// come out of it and the vertex is settled.
proof fn lemma_settle_queue<W: Weight>(
    lists: Seq<Seq<(Index, W)>>,
    seen: Seq<bool>,
    dist: Seq<W>,
    queue: Multiset<(W, u32)>,
    top: (W, u32),
)
    requires
        1 <= lists.len() <= u32::MAX,
        seen.len() == lists.len(),
        queue_state(lists.len() as int, seen, dist, queue),
        queue.count(top) > 0,
        forall|e: (W, u32)| queue.count(e) > 0 ==> top.0.value() <= (#[trigger] e.0.value()),
        top.1 < lists.len(),
        !seen[top.1 as int],
        top.0.value() == dist[top.1 as int].value(),
    ensures
        queue_state(lists.len() as int, seen.update(top.1 as int, true), dist, queue.remove(top)),
{
    let n = lists.len() as int;
    let u = top.1 as int;
    let seen1 = seen.update(u, true);
    let queue1 = queue.remove(top);
    assert forall|e: (W, u32)| #[trigger] queue1.count(e) > 0 implies queue.count(e) > 0 by {}
    assert forall|e: (W, u32), x: int|
        #[trigger] queue1.count(e) > 0 && 0 <= x < n && #[trigger] seen1[x] implies dist[x].value()
        <= e.0.value() by {
        assert(queue.count(e) > 0);
        if x != u {
            assert(seen[x]);
        }
    }
    assert forall|v: int|
        0 <= v < n && !#[trigger] seen1[v] && dist[v].value() < W::limit() implies queue1.count(
        (dist[v], v as u32),
    ) > 0 by {
        assert(!seen[v]);
        assert(queue.count((dist[v], v as u32)) > 0);
    }
}

/// The state after a settled vertex has come out of the queue: the state
/// that was, with one entry less.
proof fn lemma_skip<W: Weight>(
    lists: Seq<Seq<(Index, W)>>,
    src: int,
    seen: Seq<bool>,
    dist: Seq<W>,
    order: Seq<nat>,
    settled: int,
    queue: Multiset<(W, u32)>,
    top: (W, u32),
)
    requires
        state(lists, src, seen, dist, order, settled, queue, -1, 0),
        queue.count(top) > 0,
        seen[top.1 as int],
    ensures
        state(lists, src, seen, dist, order, settled, queue.remove(top), -1, 0),
{
    let queue1 = queue.remove(top);
    assert forall|e: (W, u32)| #[trigger] queue1.count(e) > 0 implies queue.count(e) > 0 by {}
    assert forall|v: int|
        0 <= v < lists.len() && !#[trigger] seen[v] && dist[v].value() < W::limit() implies queue1.count(
        (dist[v], v as u32),
    ) > 0 by {
        assert(queue.count((dist[v], v as u32)) > 0);
    }
}

/// The state when the edges of the settled vertex are all relaxed.
proof fn lemma_relaxed_all<W: Weight>(
    lists: Seq<Seq<(Index, W)>>,
    src: int,
    seen: Seq<bool>,
    dist: Seq<W>,
    order: Seq<nat>,
    settled: int,
    queue: Multiset<(W, u32)>,
    u: int,
)
    requires
        0 <= u < lists.len(),
        state(lists, src, seen, dist, order, settled, queue, u, lists[u].len() as int),
    ensures
        state(lists, src, seen, dist, order, settled, queue, -1, 0),
{
}

/// What is known of the edge `e` of the settled vertex `u` before it is
/// relaxed: its weight can be added to the distance of `u`, and if its
/// target is settled, the edge is relaxed.
proof fn lemma_edge<W: Weight>(
    lists: Seq<Seq<(Index, W)>>,
    src: int,
    seen: Seq<bool>,
    dist: Seq<W>,
    order: Seq<nat>,
    settled: int,
    queue: Multiset<(W, u32)>,
    u: int,
    e: int,
)
    requires
        0 <= u < lists.len(),
        0 <= e < lists[u].len(),
        seen[u],
        order[u] == settled - 1,
        settled < lists.len(),
        state(lists, src, seen, dist, order, settled, queue, u, e),
        settled_below(lists.len() as int, seen, dist, u),
    ensures
        lists[u][e].0 < lists.len(),
        0 <= dist[u].value() + lists[u][e].1.value() < W::limit(),
        dist[u].value() + lists[u][e].1.value() <= settled * (W::limit() / (lists.len() as int)),
        seen[lists[u][e].0 as int] ==> state(
            lists,
            src,
            seen,
            dist,
            order,
            settled,
            queue,
            u,
            e + 1,
        ),
{
    let n = lists.len() as int;
    let w = lists[u][e].1;
    let v = lists[u][e].0 as int;
    w.lemma_range();
    dist[u].lemma_range();
    lemma_way_bound(W::limit(), n, settled - 1, w.value(), dist[u].value());
    if seen[v] {
        assert forall|x: int| 0 <= x < n && #[trigger] seen[x] implies ways_relaxed(
            lists,
            dist,
            x,
            if x == u {
                e + 1
            } else {
                lists[x].len() as int
            },
        ) by {
            assert(ways_relaxed(
                lists,
                dist,
                x,
                if x == u {
                    e
                } else {
                    lists[x].len() as int
                },
            ));
        }
    }
}

/// The state after the edge `e` of the settled vertex `u` is relaxed, where
/// its target is not settled: the target has the better of the distance
/// that was known of it and the distance by the edge, and in the second
/// case a new entry in the queue.
proof fn lemma_relax<W: Weight>(
    lists: Seq<Seq<(Index, W)>>,
    src: int,
    seen: Seq<bool>,
    dist: Seq<W>,
    order: Seq<nat>,
    settled: int,
    queue: Multiset<(W, u32)>,
    u: int,
    e: int,
    dv: W,
)
    requires
        0 <= u < lists.len(),
        0 <= e < lists[u].len(),
        seen[u],
        order[u] == settled - 1,
        settled < lists.len(),
        state(lists, src, seen, dist, order, settled, queue, u, e),
        settled_below(lists.len() as int, seen, dist, u),
        !seen[lists[u][e].0 as int],
        dv.value() == dist[u].value() + lists[u][e].1.value(),
    ensures
        dist[lists[u][e].0 as int].value() <= dv.value() ==> state(
            lists,
            src,
            seen,
            dist,
            order,
            settled,
            queue,
            u,
            e + 1,
        ),
        dist[lists[u][e].0 as int].value() > dv.value() ==> state(
            lists,
            src,
            seen,
            dist.update(lists[u][e].0 as int, dv),
            order,
            settled,
            queue.insert((dv, lists[u][e].0)),
            u,
            e + 1,
        ) && settled_below(
            lists.len() as int,
            seen,
            dist.update(lists[u][e].0 as int, dv),
            u,
        ),
{
    let n = lists.len() as int;
    let limit = W::limit();
    let v = lists[u][e].0 as int;
    lemma_edge(lists, src, seen, dist, order, settled, queue, u, e);
    if dist[v].value() <= dv.value() {
        assert forall|x: int| 0 <= x < n && #[trigger] seen[x] implies ways_relaxed(
            lists,
            dist,
            x,
            if x == u {
                e + 1
            } else {
                lists[x].len() as int
            },
        ) by {
            assert(ways_relaxed(
                lists,
                dist,
                x,
                if x == u {
                    e
                } else {
                    lists[x].len() as int
                },
            ));
        }
    } else {
        let dist1 = dist.update(v, dv);
        let queue1 = queue.insert((dv, v as u32));
        assert(v != src) by {
            if v == src {
                dist[u].lemma_range();
                lists[u][e].1.lemma_range();
            }
        }
        assert forall|x: int| 0 <= x < n && x != src && (#[trigger] dist1[x]).value() < limit implies has_way(
            lists,
            seen,
            dist1,
            order,
            x,
        ) by {
            if x == v {
                assert(way_by(lists, seen, dist1, order, u, e, v));
            } else {
                assert(dist[x].value() < limit);
                let (a, b) = choose|a: int, b: int| way_by(lists, seen, dist, order, a, b, x);
                assert(way_by(lists, seen, dist1, order, a, b, x));
            }
        }
        assert forall|x: int| 0 <= x < n && #[trigger] seen[x] implies ways_relaxed(
            lists,
            dist1,
            x,
            if x == u {
                e + 1
            } else {
                lists[x].len() as int
            },
        ) by {
            assert(ways_relaxed(
                lists,
                dist,
                x,
                if x == u {
                    e
                } else {
                    lists[x].len() as int
                },
            ));
        }
        assert forall|q: (W, u32)| #[trigger] queue1.count(q) > 0 implies q.1 < n && dist1[q.1 as int].value()
            <= q.0.value() < limit by {
            if q != (dv, v as u32) {
                assert(queue.count(q) > 0);
            }
        }
        assert forall|q: (W, u32), x: int|
            #[trigger] queue1.count(q) > 0 && 0 <= x < n && #[trigger] seen[x] implies dist1[x].value()
            <= q.0.value() by {
            if q != (dv, v as u32) {
                assert(queue.count(q) > 0);
            } else {
                lists[u][e].1.lemma_range();
            }
        }
        assert forall|x: int|
            0 <= x < n && !#[trigger] seen[x] && dist1[x].value() < limit implies queue1.count(
            (dist1[x], x as u32),
        ) > 0 by {
            if x != v {
                assert(queue.count((dist[x], x as u32)) > 0);
            }
        }
        assert forall|x: int, y: int|
            0 <= x < n && 0 <= y < n && #[trigger] seen[x] && !#[trigger] seen[y] implies dist1[x].value()
            <= dist1[y].value() by {
            if y == v {
                lists[u][e].1.lemma_range();
            }
        }
    }
}

/// At the end every vertex of which a distance is known is settled, and
/// the distances are the shortest.
proof fn lemma_finish<W: Weight>(
    lists: Seq<Seq<(Index, W)>>,
    src: int,
    seen: Seq<bool>,
    dist: Seq<W>,
    order: Seq<nat>,
    settled: int,
    queue: Multiset<(W, u32)>,
)
    requires
        state(lists, src, seen, dist, order, settled, queue, -1, 0),
        settled == lists.len() || queue.len() == 0,
    ensures
        distances_witness(lists, src, found_distances(seen, dist), order),
{
    let n = lists.len() as int;
    let limit = W::limit();
    let found = found_distances(seen, dist);
    assert forall|v: int| 0 <= v < n && dist[v].value() < limit implies #[trigger] seen[v] by {
        if !seen[v] {
            if settled == n {
                lemma_unseen_none(seen, n, v);
            } else {
                assert(queue.count((dist[v], v as u32)) > 0);
            }
        }
    }
    vstd::arithmetic::div_mod::lemma_div_pos_is_pos(limit, n);
    assert forall|v: int| 0 <= v < n && #[trigger] seen[v] implies 0 <= dist[v].value() < limit by {
        dist[v].lemma_range();
        assert(dist[v].value() <= order[v] * (limit / n) && order[v] < settled);
        assert(0 * n == 0);
        lemma_way_bound(limit, n, order[v] as int, 0, dist[v].value());
    }
    assert(seen[src]);
    assert forall|v: int| 0 <= v < n && v != src && (#[trigger] found[v]) is Some implies has_last_step(
        lists,
        found,
        order,
        v,
    ) by {
        assert(seen[v]);
        let (a, b) = choose|a: int, b: int| way_by(lists, seen, dist, order, a, b, v);
        assert(last_step(lists, found, order, a, b, v));
    }
    assert forall|u: int| 0 <= u < n && (#[trigger] found[u]) is Some implies steps_relaxed(
        lists,
        found,
        u,
        lists[u].len() as int,
    ) by {
        assert(seen[u]);
        assert(ways_relaxed(lists, dist, u, lists[u].len() as int));
        assert forall|e: int| 0 <= e < lists[u].len() implies found[(#[trigger] lists[u][e]).0 as int] is Some
            && found[lists[u][e].0 as int].unwrap() <= found[u].unwrap() + lists[u][e].1.value() by {
            let t = lists[u][e].0 as int;
            lists[u][e].1.lemma_range();
            dist[u].lemma_range();
            if settled == n {
                lemma_unseen_none(seen, n, t);
            } else {
                assert(order[u] < settled);
                lemma_way_bound(
                    limit,
                    n,
                    order[u] as int,
                    lists[u][e].1.value(),
                    dist[u].value(),
                );
                assert(dist[t].value() < limit);
            }
            assert(seen[t]);
        }
    }
}

/// Relaxes the edges of the vertex `u`, just settled.
fn relax_edges<G: Graph>(
    graph: &G,
    u: u32,
    seen: &Vec<bool>,
    dist: &mut Vec<G::Weight>,
    hq: &mut MinHeap<G::Weight, u32>,
    Ghost(src): Ghost<int>,
    Ghost(order): Ghost<Seq<nat>>,
    Ghost(settled): Ghost<int>,
) where G::Weight: Weight
    requires
        graph.wf(),
        u < graph.lists().len(),
        seen[u as int],
        order[u as int] == settled - 1,
        settled < graph.lists().len(),
        old(hq).wf(),
        state(graph.lists(), src, seen@, old(dist)@, order, settled, old(hq)@, u as int, 0),
        settled_below(graph.lists().len() as int, seen@, old(dist)@, u as int),
    ensures
        final(hq).wf(),
        state(graph.lists(), src, seen@, final(dist)@, order, settled, final(hq)@, -1, 0),
{
    let ghost lists = graph.lists();
    let ghost n = lists.len() as int;
    let list = graph.adjacent(u);
    let du = dist[u as usize];
    let mut e: usize = 0;
    while e < list.len()
        invariant
            lists == graph.lists(),
            n == lists.len(),
            u < n,
            list@ == lists[u as int],
            e <= list.len(),
            seen[u as int],
            du == dist[u as int],
            order[u as int] == settled - 1,
            settled < n,
            hq.wf(),
            state(lists, src, seen@, dist@, order, settled, hq@, u as int, e as int),
            settled_below(n, seen@, dist@, u as int),
        decreases list.len() - e,
    {
        let v: u32 = list[e].0;
        let w: G::Weight = list[e].1;
        proof {
            assert(lists[u as int][e as int] == (v, w));
            lemma_edge(lists, src, seen@, dist@, order, settled, hq@, u as int, e as int);
        }
        if !seen[v as usize] {
            let dv = du.plus(w);
            proof {
                lemma_relax(lists, src, seen@, dist@, order, settled, hq@, u as int, e as int, dv);
            }
            if !dist[v as usize].not_above(dv) {
                dist[v as usize] = dv;
                hq.push(dv, v);
            }
        }
        e += 1;
    }
    proof {
        lemma_relaxed_all(lists, src, seen@, dist@, order, settled, hq@, u as int);
    }
}

/// The distances from `src` to all vertices of `graph`.
pub fn dijkstras_algorithm<G: Graph>(graph: &G, src: u32) -> (result: DijkstraResult<G::Weight>) where
    G::Weight: Weight,

    requires
        graph.wf(),
        src < graph.lists().len(),
        weights_fit(graph.lists()),
        <G::Weight as Weight>::limit() >= 1,
    ensures
        result.wf(),
        is_shortest_distances(graph.lists(), src as int, result@),
{
    let size = graph.size();
    let ghost lists = graph.lists();
    let ghost n = size as int;
    let mut hq: MinHeap<G::Weight, u32> = MinHeap::new();
    let mut seen: Vec<bool> = Vec::new();
    let mut dist: Vec<G::Weight> = Vec::new();
    let mut i: u32 = 0;
    while i < size
        invariant
            i <= size,
            seen.len() == i,
            dist.len() == i,
            forall|v: int| 0 <= v < i ==> !#[trigger] seen[v],
            forall|v: int|
                0 <= v < i ==> (#[trigger] dist[v]).value() == <G::Weight as Weight>::limit(),
        decreases size - i,
    {
        seen.push(false);
        dist.push(<G::Weight as Weight>::max_value());
        i += 1;
    }
    let mut seen_cnt: u32 = 0;
    let zero = <G::Weight as Weight>::zero();
    hq.push(zero, src);
    dist[src as usize] = zero;
    let ghost mut order: Seq<nat> = Seq::new(n as nat, |v: int| 0nat);
    let mut all_seen: bool = false;
    proof {
        graph.lemma_wf();
        lemma_start(lists, src as int, seen@, dist@, zero);
    }
    while !all_seen && hq.len() > 0
        invariant
            graph.wf(),
            lists == graph.lists(),
            n == lists.len(),
            n == size,
            hq.wf(),
            seen.len() == n,
            dist.len() == n,
            state(lists, src as int, seen@, dist@, order, seen_cnt as int, hq@, -1, 0),
            all_seen ==> seen_cnt == n,
        decreases unseen(seen@, n), hq@.len(),
    {
        let ghost queue0 = hq@;
        let top = hq.pop();
        let u: u32 = top.unwrap().1;
        proof {
            assert(queue0.count(top.unwrap()) > 0);
            assert(u < n);
        }
        if !seen[u as usize] {
            proof {
                lemma_settle(
                    lists,
                    src as int,
                    seen@,
                    dist@,
                    order,
                    seen_cnt as int,
                    queue0,
                    top.unwrap(),
                );
                order = order.update(u as int, seen_cnt as nat);
            }
            seen[u as usize] = true;
            seen_cnt += 1;
            if seen_cnt == size {
                all_seen = true;
                proof {
                    lemma_relaxed_none(
                        lists,
                        src as int,
                        seen@,
                        dist@,
                        order,
                        seen_cnt as int,
                        hq@,
                        u as int,
                    );
                }
            } else {
                relax_edges(
                    graph,
                    u,
                    &seen,
                    &mut dist,
                    &mut hq,
                    Ghost(src as int),
                    Ghost(order),
                    Ghost(seen_cnt as int),
                );
            }
        } else {
            proof {
                lemma_skip(
                    lists,
                    src as int,
                    seen@,
                    dist@,
                    order,
                    seen_cnt as int,
                    queue0,
                    top.unwrap(),
                );
            }
        }
    }
    proof {
        lemma_finish(lists, src as int, seen@, dist@, order, seen_cnt as int, hq@);
    }
    DijkstraResult { seen, dist }
}

/// Where every vertex is settled, every edge is relaxed.
proof fn lemma_relaxed_none<W: Weight>(
    lists: Seq<Seq<(Index, W)>>,
    src: int,
    seen: Seq<bool>,
    dist: Seq<W>,
    order: Seq<nat>,
    settled: int,
    queue: Multiset<(W, u32)>,
    u: int,
)
    requires
        0 <= u < lists.len(),
        settled == lists.len(),
        state(lists, src, seen, dist, order, settled, queue, u, 0),
        settled_below(lists.len() as int, seen, dist, u),
    ensures
        state(lists, src, seen, dist, order, settled, queue, -1, 0),
{
    let n = lists.len() as int;
    assert forall|x: int| 0 <= x < n && #[trigger] seen[x] implies ways_relaxed(
        lists,
        dist,
        x,
        lists[x].len() as int,
    ) by {
        if x == u {
            assert forall|e: int| 0 <= e < lists[u].len() implies dist[(#[trigger] lists[u][e]).0 as int].value()
                <= dist[u].value() + lists[u][e].1.value() by {
                let t = lists[u][e].0 as int;
                lemma_unseen_none(seen, n, t);
                lists[u][e].1.lemma_range();
            }
        }
    }
}

/// Where no entry is set, all entries are unset.
proof fn lemma_unseen_all(seen: Seq<bool>, upto: int)
    requires
        0 <= upto <= seen.len(),
        forall|v: int| 0 <= v < upto ==> !seen[v],
    ensures
        unseen(seen, upto) == upto,
    decreases upto,
{
    if upto > 0 {
        lemma_unseen_all(seen, upto - 1);
    }
}

/// Where no entry is unset, every entry is set.
proof fn lemma_unseen_none(seen: Seq<bool>, upto: int, v: int)
    requires
        0 <= v < upto <= seen.len(),
        unseen(seen, upto) == 0,
    ensures
        seen[v],
    decreases upto,
{
    if v < upto - 1 {
        lemma_unseen_none(seen, upto - 1, v);
    }
}

/// A vertex keeps its way when the vertex `u` is settled as the next in
/// the order.
proof fn lemma_way_kept<W: Weight>(
    lists: Seq<Seq<(Index, W)>>,
    seen0: Seq<bool>,
    dist: Seq<W>,
    order: Seq<nat>,
    u: int,
    settled: int,
    v: int,
)
    requires
        0 <= u < seen0.len(),
        0 <= v < seen0.len(),
        seen0.len() == lists.len(),
        order.len() == lists.len(),
        !seen0[u],
        order[u] == settled,
        forall|x: int| 0 <= x < seen0.len() && #[trigger] seen0[x] ==> order[x] < settled,
        exists|old_order: Seq<nat>|
            old_order.len() == order.len() && order == old_order.update(u, settled as nat)
                && has_way(lists, seen0, dist, old_order, v),
    ensures
        has_way(lists, seen0.update(u, true), dist, order, v),
{
    let old_order = choose|old_order: Seq<nat>|
        old_order.len() == order.len() && order == old_order.update(u, settled as nat) && has_way(
            lists,
            seen0,
            dist,
            old_order,
            v,
        );
    let (a, b) = choose|a: int, b: int| way_by(lists, seen0, dist, old_order, a, b, v);
    assert(way_by(lists, seen0.update(u, true), dist, order, a, b, v));
}

/// No walk from `src` to a vertex weighs less than the distance of the
/// vertex, and a vertex that a walk from `src` reaches has a distance.
pub proof fn lemma_shortest_at_most<W: Weight>(
    lists: Seq<Seq<(Index, W)>>,
    src: int,
    found: Seq<Option<int>>,
    walk: Seq<int>,
    total: int,
)
    requires
        is_shortest_distances(lists, src, found),
        targets_below(lists, lists.len() as int),
        0 <= src < lists.len(),
        walk_weighs(lists, walk, total),
        walk[0] == src,
    ensures
        0 <= walk.last() < lists.len(),
        found[walk.last()] is Some,
        found[walk.last()].unwrap() <= total,
    decreases walk.len(),
{
    let order = choose|order: Seq<nat>| distances_witness(lists, src, found, order);
    if walk.len() > 1 {
        let p = walk[walk.len() - 2];
        let e = choose|e: int|
            0 <= e < lists[p].len() && (#[trigger] lists[p][e]).0 == walk.last() && walk_weighs(
                lists,
                walk.drop_last(),
                total - lists[p][e].1.value(),
            );
        lemma_shortest_at_most(lists, src, found, walk.drop_last(), total - lists[p][e].1.value());
        assert(walk.drop_last().last() == p);
        assert(steps_relaxed(lists, found, p, lists[p].len() as int));
    }
}

/// A vertex with a distance is reached by a walk from `src` that weighs
/// what the distance says.
pub proof fn lemma_shortest_walk<W: Weight>(
    lists: Seq<Seq<(Index, W)>>,
    src: int,
    found: Seq<Option<int>>,
    order: Seq<nat>,
    v: int,
) -> (walk: Seq<int>)
    requires
        distances_witness(lists, src, found, order),
        0 <= src < lists.len(),
        0 <= v < lists.len(),
        found[v] is Some,
    ensures
        walk_weighs(lists, walk, found[v].unwrap()),
        walk[0] == src,
        walk.last() == v,
    decreases order[v],
{
    if v == src {
        seq![src]
    } else {
        let (u, e) = choose|u: int, e: int| last_step(lists, found, order, u, e, v);
        let before = lemma_shortest_walk(lists, src, found, order, u);
        let walk = before.push(v);
        assert(walk.drop_last() =~= before);
        assert(lists[u][e].0 == walk.last());
        walk
    }
}

/// Whether an edge of the settled vertex `u` gives `v` its best distance
/// known.
spec fn has_way_from<W: Weight>(
    lists: Seq<Seq<(Index, W)>>,
    seen: Seq<bool>,
    dist: Seq<W>,
    order: Seq<nat>,
    u: int,
    v: int,
) -> bool {
    exists|e: int| way_by(lists, seen, dist, order, u, e, v)
}

/// Whether each vertex of which a distance is known, the source aside, has
/// it by an edge from the vertex that `prev` names.
spec fn prev_ok<W: Weight>(
    lists: Seq<Seq<(Index, W)>>,
    src: int,
    seen: Seq<bool>,
    dist: Seq<W>,
    order: Seq<nat>,
    prev: Seq<u32>,
) -> bool {
    &&& prev.len() == lists.len()
    &&& forall|v: int|
        0 <= v < lists.len() && v != src && (#[trigger] dist[v]).value() < W::limit() ==> has_way_from(lists, seen, dist, order, prev[v] as int, v)
}

/// Settling a vertex keeps what `prev` names.
proof fn lemma_prev_settle<W: Weight>(
    lists: Seq<Seq<(Index, W)>>,
    src: int,
    seen: Seq<bool>,
    dist: Seq<W>,
    order: Seq<nat>,
    prev: Seq<u32>,
    settled: int,
    u: int,
)
    requires
        seen.len() == lists.len(),
        order.len() == lists.len(),
        0 <= u < lists.len(),
        !seen[u],
        forall|x: int| 0 <= x < seen.len() && #[trigger] seen[x] ==> order[x] < settled,
        prev_ok(lists, src, seen, dist, order, prev),
    ensures
        prev_ok(lists, src, seen.update(u, true), dist, order.update(u, settled as nat), prev),
{
    let seen1 = seen.update(u, true);
    let order1 = order.update(u, settled as nat);
    assert forall|v: int|
        0 <= v < lists.len() && v != src && (#[trigger] dist[v]).value() < W::limit() implies has_way_from(lists, seen1, dist, order1, prev[v] as int, v) by {
        let e = choose|e: int| way_by(lists, seen, dist, order, prev[v] as int, e, v);
        assert(way_by(lists, seen1, dist, order1, prev[v] as int, e, v));
    }
}

/// Relaxing an edge to a better distance of its target makes the source of
/// the edge what `prev` names for the target.
proof fn lemma_prev_relax<W: Weight>(
    lists: Seq<Seq<(Index, W)>>,
    src: int,
    seen: Seq<bool>,
    dist: Seq<W>,
    order: Seq<nat>,
    prev: Seq<u32>,
    u: int,
    e: int,
    dv: W,
)
    requires
        seen.len() == lists.len(),
        dist.len() == lists.len(),
        0 <= u < lists.len() <= u32::MAX,
        0 <= e < lists[u].len(),
        lists[u][e].0 < lists.len(),
        seen[u],
        !seen[lists[u][e].0 as int],
        dv.value() == dist[u].value() + lists[u][e].1.value(),
        prev_ok(lists, src, seen, dist, order, prev),
    ensures
        prev_ok(
            lists,
            src,
            seen,
            dist.update(lists[u][e].0 as int, dv),
            order,
            prev.update(lists[u][e].0 as int, u as u32),
        ),
{
    let v = lists[u][e].0 as int;
    let dist1 = dist.update(v, dv);
    let prev1 = prev.update(v, u as u32);
    assert forall|x: int|
        0 <= x < lists.len() && x != src && (#[trigger] dist1[x]).value() < W::limit() implies has_way_from(lists, seen, dist1, order, prev1[x] as int, x) by {
        if x == v {
            assert(way_by(lists, seen, dist1, order, u, e, v));
        } else {
            let f = choose|f: int| way_by(lists, seen, dist, order, prev[x] as int, f, x);
            assert(way_by(lists, seen, dist1, order, prev1[x] as int, f, x));
        }
    }
}

/// While the search runs, no walk from the source to a settled vertex
/// weighs less than the distance of the vertex, and none to a vertex that
/// is not settled weighs less than the distance of any settled vertex.
proof fn lemma_walk_bound<W: Weight>(
    lists: Seq<Seq<(Index, W)>>,
    src: int,
    seen: Seq<bool>,
    dist: Seq<W>,
    order: Seq<nat>,
    settled: int,
    queue: Multiset<(W, u32)>,
    u: int,
    walk: Seq<int>,
    total: int,
)
    requires
        state(lists, src, seen, dist, order, settled, queue, u, 0),
        0 <= u < lists.len() ==> seen[u] && settled_below(lists.len() as int, seen, dist, u),
        walk_weighs(lists, walk, total),
        walk[0] == src,
    ensures
        0 <= walk.last() < lists.len(),
        0 <= total,
        seen[walk.last()] ==> dist[walk.last()].value() <= total,
        !seen[walk.last()] ==> forall|y: int|
            0 <= y < lists.len() && #[trigger] seen[y] ==> dist[y].value() <= total,
    decreases walk.len(),
{
    let n = lists.len() as int;
    if walk.len() > 1 {
        let p = walk[walk.len() - 2];
        let e = choose|e: int|
            0 <= e < lists[p].len() && (#[trigger] lists[p][e]).0 == walk.last() && walk_weighs(
                lists,
                walk.drop_last(),
                total - lists[p][e].1.value(),
            );
        let w = lists[p][e].1;
        let x = walk.last();
        w.lemma_range();
        lemma_walk_bound(
            lists,
            src,
            seen,
            dist,
            order,
            settled,
            queue,
            u,
            walk.drop_last(),
            total - w.value(),
        );
        assert(walk.drop_last().last() == p);
        if seen[p] && p != u {
            assert(ways_relaxed(lists, dist, p, lists[p].len() as int));
            assert(dist[x].value() <= dist[p].value() + w.value());
        }
    }
}

/// The weight of the path that the vertices named by `prev` make from the
/// source to a settled vertex: the distance of the vertex.
proof fn lemma_path_weighs<W: Weight>(
    lists: Seq<Seq<(Index, W)>>,
    src: int,
    seen: Seq<bool>,
    dist: Seq<W>,
    order: Seq<nat>,
    path: Seq<int>,
    i: int,
)
    requires
        0 <= src < lists.len(),
        dist[src].value() == 0,
        0 <= i < path.len(),
        path[0] == src,
        forall|k: int|
            1 <= k < path.len() ==> #[trigger] has_way_from(lists, seen, dist, order, path[k - 1], path[k]),
    ensures
        walk_weighs(lists, path.take(i + 1), dist[path[i]].value()),
    decreases i,
{
    let walk = path.take(i + 1);
    if i > 0 {
        lemma_path_weighs(lists, src, seen, dist, order, path, i - 1);
        let a = path[i - 1];
        let b = path[i];
        assert(has_way_from(lists, seen, dist, order, path[i - 1], path[i]));
        let e = choose|e: int| way_by(lists, seen, dist, order, a, e, b);
        assert(walk.drop_last() =~= path.take(i));
        assert(walk[walk.len() - 2] == path[i - 1]);
        assert(lists[path[i - 1]][e].0 == walk.last());
    }
}

/// Relaxes the edges of the vertex `u`, just settled, and keeps in `prev`
/// from which vertex each vertex has its distance.
fn relax_edges_from<G: Graph>(
    graph: &G,
    u: u32,
    seen: &Vec<bool>,
    dist: &mut Vec<G::Weight>,
    prev: &mut Vec<u32>,
    hq: &mut MinHeap<G::Weight, u32>,
    Ghost(src): Ghost<int>,
    Ghost(order): Ghost<Seq<nat>>,
    Ghost(settled): Ghost<int>,
) where G::Weight: Weight
    requires
        graph.wf(),
        u < graph.lists().len(),
        seen[u as int],
        order[u as int] == settled - 1,
        settled < graph.lists().len(),
        old(hq).wf(),
        seen.len() == graph.lists().len(),
        old(dist).len() == graph.lists().len(),
        state(graph.lists(), src, seen@, old(dist)@, order, settled, old(hq)@, u as int, 0),
        settled_below(graph.lists().len() as int, seen@, old(dist)@, u as int),
        prev_ok(graph.lists(), src, seen@, old(dist)@, order, old(prev)@),
    ensures
        final(hq).wf(),
        final(dist).len() == graph.lists().len(),
        state(graph.lists(), src, seen@, final(dist)@, order, settled, final(hq)@, -1, 0),
        prev_ok(graph.lists(), src, seen@, final(dist)@, order, final(prev)@),
{
    let ghost lists = graph.lists();
    let ghost n = lists.len() as int;
    let list = graph.adjacent(u);
    let du = dist[u as usize];
    let mut e: usize = 0;
    while e < list.len()
        invariant
            lists == graph.lists(),
            n == lists.len(),
            u < n,
            list@ == lists[u as int],
            e <= list.len(),
            seen[u as int],
            seen.len() == n,
            dist.len() == n,
            du == dist[u as int],
            order[u as int] == settled - 1,
            settled < n,
            hq.wf(),
            state(lists, src, seen@, dist@, order, settled, hq@, u as int, e as int),
            settled_below(n, seen@, dist@, u as int),
            prev_ok(lists, src, seen@, dist@, order, prev@),
        decreases list.len() - e,
    {
        let v: u32 = list[e].0;
        let w: G::Weight = list[e].1;
        proof {
            assert(lists[u as int][e as int] == (v, w));
            lemma_edge(lists, src, seen@, dist@, order, settled, hq@, u as int, e as int);
        }
        if !seen[v as usize] {
            let dv = du.plus(w);
            proof {
                lemma_relax(lists, src, seen@, dist@, order, settled, hq@, u as int, e as int, dv);
            }
            if !dist[v as usize].not_above(dv) {
                proof {
                    lemma_prev_relax(lists, src, seen@, dist@, order, prev@, u as int, e as int, dv);
                }
                dist[v as usize] = dv;
                hq.push(dv, v);
                prev[v as usize] = u;
            }
        }
        e += 1;
    }
    proof {
        lemma_relaxed_all(lists, src, seen@, dist@, order, settled, hq@, u as int);
    }
}

/// Whether `answer` tells the distance from `src` to `dst` and a shortest
/// way: if `dst` cannot be reached, no distance and the empty path; else a
/// walk from `src` to `dst` and its weight, with no walk between the two of
/// less weight.
pub open spec fn is_shortest_way<W: Weight>(
    lists: Seq<Seq<(Index, W)>>,
    src: int,
    dst: int,
    answer: (Dist<W>, Seq<u32>),
) -> bool {
    let path = Seq::new(answer.1.len(), |i: int| answer.1[i] as int);
    match answer.0 {
        Dist::UNREACHABLE => {
            &&& path.len() == 0
            &&& forall|walk: Seq<int>, total: int|
                #[trigger] walk_weighs(lists, walk, total) && walk[0] == src ==> walk.last() != dst
        },
        Dist::VALUE(d) => {
            &&& walk_weighs(lists, path, d.value())
            &&& path[0] == src
            &&& path.last() == dst
            &&& forall|walk: Seq<int>, total: int|
                #[trigger] walk_weighs(lists, walk, total) && walk[0] == src && walk.last() == dst
                    ==> d.value() <= total
        },
    }
}

/// The distance from `src` to `dst` in `graph`, and a shortest way.
pub fn dijkstras_algorithm_restore_path<G: Graph>(graph: &G, src: u32, dst: u32) -> (answer: (
    Dist<G::Weight>,
    Vec<u32>,
)) where G::Weight: Weight
    requires
        graph.wf(),
        src < graph.lists().len(),
        dst < graph.lists().len(),
        weights_fit(graph.lists()),
        <G::Weight as Weight>::limit() >= 1,
    ensures
        is_shortest_way(graph.lists(), src as int, dst as int, (answer.0, answer.1@)),
{
    let size = graph.size();
    let ghost lists = graph.lists();
    let ghost n = size as int;
    let mut hq: MinHeap<G::Weight, u32> = MinHeap::new();
    let mut seen: Vec<bool> = Vec::new();
    let mut dist: Vec<G::Weight> = Vec::new();
    let mut prev: Vec<u32> = Vec::new();
    let mut i: u32 = 0;
    while i < size
        invariant
            i <= size,
            seen.len() == i,
            dist.len() == i,
            prev.len() == i,
            forall|v: int| 0 <= v < i ==> !#[trigger] seen[v],
            forall|v: int|
                0 <= v < i ==> (#[trigger] dist[v]).value() == <G::Weight as Weight>::limit(),
        decreases size - i,
    {
        seen.push(false);
        dist.push(<G::Weight as Weight>::max_value());
        prev.push(u32::MAX);
        i += 1;
    }
    let zero = <G::Weight as Weight>::zero();
    hq.push(zero, src);
    dist[src as usize] = zero;
    let ghost mut order: Seq<nat> = Seq::new(n as nat, |v: int| 0nat);
    let ghost mut settled: int = 0;
    let mut arrived: bool = false;
    proof {
        graph.lemma_wf();
        lemma_start(lists, src as int, seen@, dist@, zero);
    }
    while !arrived && hq.len() > 0
        invariant
            graph.wf(),
            lists == graph.lists(),
            n == lists.len(),
            n == size,
            dst < n,
            hq.wf(),
            seen.len() == n,
            dist.len() == n,
            state(
                lists,
                src as int,
                seen@,
                dist@,
                order,
                settled,
                hq@,
                if arrived {
                    dst as int
                } else {
                    -1
                },
                0,
            ),
            arrived ==> seen[dst as int] && settled_below(n, seen@, dist@, dst as int),
            !arrived ==> !seen[dst as int],
            prev_ok(lists, src as int, seen@, dist@, order, prev@),
        decreases unseen(seen@, n), hq@.len(),
    {
        let ghost queue0 = hq@;
        let top = hq.pop();
        let u: u32 = top.unwrap().1;
        proof {
            assert(queue0.count(top.unwrap()) > 0);
            assert(u < n);
        }
        if !seen[u as usize] {
            proof {
                lemma_settle(lists, src as int, seen@, dist@, order, settled, queue0, top.unwrap());
                lemma_prev_settle(lists, src as int, seen@, dist@, order, prev@, settled, u as int);
                order = order.update(u as int, settled as nat);
                settled = settled + 1;
            }
            seen[u as usize] = true;
            if u == dst {
                arrived = true;
            } else {
                proof {
                    if settled == n {
                        lemma_unseen_none(seen@, n, dst as int);
                    }
                }
                relax_edges_from(
                    graph,
                    u,
                    &seen,
                    &mut dist,
                    &mut prev,
                    &mut hq,
                    Ghost(src as int),
                    Ghost(order),
                    Ghost(settled),
                );
            }
        } else {
            proof {
                lemma_skip(lists, src as int, seen@, dist@, order, settled, queue0, top.unwrap());
            }
        }
    }
    if !seen[dst as usize] {
        proof {
            lemma_finish(lists, src as int, seen@, dist@, order, settled, hq@);
            let found = found_distances(seen@, dist@);
            assert forall|walk: Seq<int>, total: int|
                #[trigger] walk_weighs(lists, walk, total) && walk[0] == src implies walk.last()
                != dst by {
                lemma_shortest_at_most(lists, src as int, found, walk, total);
            }
        }
        let none: Vec<u32> = Vec::new();
        proof {
            assert(Seq::new(none@.len(), |i: int| none@[i] as int) =~= Seq::<int>::empty());
        }
        return (Dist::UNREACHABLE, none);
    }
    let ghost hole = if arrived {
        dst as int
    } else {
        -1
    };
    let mut back: Vec<u32> = Vec::new();
    back.push(dst);
    let mut v: u32 = dst;
    while v != src
        invariant
            lists == graph.lists(),
            n == lists.len(),
            src < n,
            dst < n,
            v < n,
            seen.len() == n,
            dist.len() == n,
            prev.len() == n,
            state(lists, src as int, seen@, dist@, order, settled, hq@, hole, 0),
            prev_ok(lists, src as int, seen@, dist@, order, prev@),
            seen[v as int],
            back.len() >= 1,
            back[0] == dst,
            back[back.len() - 1] == v,
            forall|k: int| 0 <= k < back.len() ==> (#[trigger] back[k]) < n,
            forall|k: int|
                0 <= k < back.len() - 1 ==> #[trigger] has_way_from(lists, seen@, dist@, order, back[k + 1] as int, back[k] as int),
        decreases order[v as int],
    {
        proof {
            dist[v as int].lemma_range();
            vstd::arithmetic::div_mod::lemma_div_pos_is_pos(<G::Weight as Weight>::limit(), n);
            lemma_way_bound(
                <G::Weight as Weight>::limit(),
                n,
                order[v as int] as int,
                0,
                dist[v as int].value(),
            );
            assert(has_way_from(lists, seen@, dist@, order, prev[v as int] as int, v as int));
            let e = choose|e: int| way_by(lists, seen@, dist@, order, prev[v as int] as int, e, v as int);
        }
        let ghost before = back@;
        let from = v;
        v = prev[v as usize];
        back.push(v);
        proof {
            assert forall|k: int| 0 <= k < back.len() - 1 implies #[trigger] has_way_from(lists, seen@, dist@, order, back[k + 1] as int, back[k] as int) by {
                if k < before.len() - 1 {
                    assert(has_way_from(
                        lists,
                        seen@,
                        dist@,
                        order,
                        before[k + 1] as int,
                        before[k] as int,
                    ));
                } else {
                    assert(has_way_from(lists, seen@, dist@, order, v as int, from as int));
                }
            }
        }
    }
    let mut path: Vec<u32> = Vec::new();
    let mut k: usize = back.len();
    while k > 0
        invariant
            k <= back.len(),
            path.len() == back.len() - k,
            forall|i: int| 0 <= i < path.len() ==> #[trigger] path[i] == back[back.len() - 1 - i],
        decreases k,
    {
        k -= 1;
        path.push(back[k]);
    }
    proof {
        let walk = Seq::new(path@.len(), |i: int| path@[i] as int);
        assert forall|i: int| 1 <= i < walk.len() implies #[trigger] has_way_from(lists, seen@, dist@, order, walk[i - 1], walk[i]) by {
            let j = back.len() - 1 - i;
            assert(has_way_from(lists, seen@, dist@, order, back[j + 1] as int, back[j] as int));
            assert(walk[i - 1] == back[j + 1] as int);
            assert(walk[i] == back[j] as int);
        }
        lemma_path_weighs(lists, src as int, seen@, dist@, order, walk, walk.len() - 1);
        assert(walk.take(walk.len() as int) =~= walk);
        assert forall|other: Seq<int>, total: int|
            #[trigger] walk_weighs(lists, other, total) && other[0] == src && other.last()
                == dst implies dist[dst as int].value() <= total by {
            lemma_walk_bound(lists, src as int, seen@, dist@, order, settled, hq@, hole, other, total);
        }
    }
    (Dist::VALUE(dist[dst as usize]), path)
}

} // verus!

//! The strongly connected components of a directed graph, by two rounds of
//! depth-first search: one on the graph, which lists the vertices in the
//! order in which it leaves them, and one on the graph with every edge
//! turned round, from the vertices in the opposite of that order.

use vstd::prelude::*;
use crate::graph::{
    DirectedAdjGraph,
    DirectedGraph,
    Graph,
    Index,
    has_edge,
    is_walk,
    reaches,
    lemma_reaches_self,
    lemma_reaches_trans,
    lemma_reaches_edge,
    targets_below,
    with_edge,
    unseen,
    lemma_unseen_mark,
    lemma_unseen_bound,
};

verus! {

/// Whether `a` and `b` lie in one strongly connected component: a walk
/// leads from each to the other.
pub open spec fn strongly_connected<W>(lists: Seq<Seq<(Index, W)>>, a: int, b: int) -> bool {
    reaches(lists, a, b) && reaches(lists, b, a)
}

/// Whether some vertex has the number `k`.
pub open spec fn numbers(id: Seq<u32>, k: int) -> bool {
    exists|v: int| 0 <= v < id.len() && #[trigger] id[v] == k
}

/// Whether `id` numbers the strongly connected components: two vertices
/// have the same number exactly if they lie in one component, no edge
/// leads to a lesser number, and the numbers are used from zero without a
/// gap.
pub open spec fn is_component_numbering<W>(lists: Seq<Seq<(Index, W)>>, id: Seq<u32>) -> bool {
    &&& id.len() == lists.len()
    &&& forall|a: int, b: int|
        0 <= a < id.len() && 0 <= b < id.len() ==> ((#[trigger] id[a]) == (#[trigger] id[b])
            <==> strongly_connected(lists, a, b))
    &&& forall|a: int, b: int|
        0 <= a < id.len() && 0 <= b < id.len() && #[trigger] has_edge(lists, a, b) ==> id[a]
            <= id[b]
    &&& forall|v: int, k: int| 0 <= v < id.len() && 0 <= k < #[trigger] id[v] ==> #[trigger] numbers(id, k)
}

/// Whether `turned` has the vertices of `lists` and its edges, each turned
/// round.
pub open spec fn is_turned<W, V>(lists: Seq<Seq<(Index, W)>>, turned: Seq<Seq<(Index, V)>>) -> bool {
    &&& turned.len() == lists.len()
    &&& forall|a: int, b: int|
        #![trigger has_edge(turned, a, b)]
        #![trigger has_edge(lists, b, a)]
        0 <= a < lists.len() && 0 <= b < lists.len() ==> (has_edge(turned, a, b) <==> has_edge(
            lists,
            b,
            a,
        ))
}

/// A walk of the graph with every edge turned round is a walk of the
/// graph, read from its end.
pub proof fn lemma_turned_reaches<W, V>(
    lists: Seq<Seq<(Index, W)>>,
    turned: Seq<Seq<(Index, V)>>,
    a: int,
    b: int,
)
    requires
        is_turned(lists, turned),
        reaches(turned, a, b),
    ensures
        reaches(lists, b, a),
{
    let walk = choose|walk: Seq<int>| #[trigger] is_walk(turned, walk) && walk[0] == a && walk.last() == b;
    let m = walk.len() as int;
    let back = Seq::new(walk.len(), |i: int| walk[m - 1 - i]);
    assert forall|i: int| 0 <= i < back.len() - 1 implies #[trigger] has_edge(
        lists,
        back[i],
        back[i + 1],
    ) by {
        assert(has_edge(turned, walk[m - 2 - i], walk[m - 2 - i + 1]));
    }
    assert(is_walk(lists, back));
    assert(back[0] == b && back.last() == a);
}

/// Whether every edge of `x` leads to a vertex that is set in `seen`.
spec fn leads_to_seen<W>(lists: Seq<Seq<(Index, W)>>, seen: Seq<bool>, x: int) -> bool {
    forall|e: int| 0 <= e < lists[x].len() ==> seen[(#[trigger] lists[x][e]).0 as int]
}

/// Whether `x` stands in `order` at a place from `lo` up to, but not
/// including, `hi`.
spec fn within(order: Seq<Index>, lo: int, hi: int, x: int) -> bool {
    exists|i: int| lo <= i < hi && 0 <= i < order.len() && #[trigger] order[i] == x
}

/// Whether no edge of the vertex at the place `i` of `order` leads to a
/// vertex at a place from `start[j]` up to `j`.
spec fn edges_avoid<W>(
    lists: Seq<Seq<(Index, W)>>,
    order: Seq<Index>,
    start: Seq<int>,
    i: int,
    j: int,
) -> bool {
    forall|e: int|
        0 <= e < lists[order[i] as int].len() ==> !within(
            order,
            start[j],
            j + 1,
            (#[trigger] lists[order[i] as int][e]).0 as int,
        )
}

/// What holds of a depth-first search that has entered the vertices of
/// `seen` and left those of `order`, in that order, where `start[j]` is the
/// number of vertices that it had left when it entered the vertex at the
/// place `j`.
///
/// It has entered what it has left, and left no vertex twice. Every edge
/// of a vertex that it has left leads to a vertex that it has entered. A
/// vertex reaches each vertex that the search left while it was in that
/// vertex, and no edge leads to such a vertex from one that the search left
/// before it entered that vertex.
spec fn searched<W>(
    lists: Seq<Seq<(Index, W)>>,
    seen: Seq<bool>,
    order: Seq<Index>,
    start: Seq<int>,
) -> bool {
    &&& seen.len() == lists.len()
    &&& start.len() == order.len()
    &&& targets_below(lists, lists.len() as int)
    &&& forall|i: int|
        0 <= i < order.len() ==> (#[trigger] order[i]) < lists.len() && seen[order[i] as int] && 0
            <= start[i] <= i
    &&& forall|i: int, j: int| 0 <= i < j < order.len() ==> (#[trigger] order[i]) != (#[trigger] order[j])
    &&& forall|i: int| 0 <= i < order.len() ==> leads_to_seen(lists, seen, (#[trigger] order[i]) as int)
    &&& forall|j: int, i: int|
        0 <= j < order.len() && start[j] <= i <= j ==> reaches(
            lists,
            (#[trigger] order[j]) as int,
            (#[trigger] order[i]) as int,
        )
    &&& forall|j: int, i: int|
        0 <= j < order.len() && 0 <= i < start[j] ==> #[trigger] edges_avoid(lists, order, start, i, j)
}

/// Whether `longer` starts with `order`.
spec fn extends(longer: Seq<Index>, order: Seq<Index>) -> bool {
    &&& order.len() <= longer.len()
    &&& forall|i: int| 0 <= i < order.len() ==> #[trigger] longer[i] == order[i]
}

/// Entering a vertex keeps what holds of the search.
proof fn lemma_enter<W>(
    lists: Seq<Seq<(Index, W)>>,
    seen: Seq<bool>,
    order: Seq<Index>,
    start: Seq<int>,
    v: int,
)
    requires
        searched(lists, seen, order, start),
        0 <= v < lists.len(),
    ensures
        searched(lists, seen.update(v, true), order, start),
{
    let after = seen.update(v, true);
    assert forall|i: int| 0 <= i < order.len() implies leads_to_seen(
        lists,
        after,
        (#[trigger] order[i]) as int,
    ) by {
        assert(leads_to_seen(lists, seen, order[i] as int));
    }
}

/// Leaving the vertex `v` keeps what holds of the search, where the search
/// had left `entered` vertices and entered those of `before` when it
/// entered `v`.
proof fn lemma_leave<W>(
    lists: Seq<Seq<(Index, W)>>,
    before: Seq<bool>,
    entered: int,
    seen: Seq<bool>,
    order: Seq<Index>,
    start: Seq<int>,
    v: Index,
)
    requires
        searched(lists, seen, order, start),
        0 <= entered <= order.len(),
        before.len() == lists.len(),
        v < lists.len(),
        seen[v as int],
        !before[v as int],
        forall|i: int| 0 <= i < entered ==> leads_to_seen(lists, before, (#[trigger] order[i]) as int),
        forall|i: int| entered <= i < order.len() ==> !before[(#[trigger] order[i]) as int],
        forall|i: int| 0 <= i < order.len() ==> (#[trigger] order[i]) != v,
        forall|i: int|
            entered <= i < order.len() ==> reaches(lists, v as int, (#[trigger] order[i]) as int),
        leads_to_seen(lists, seen, v as int),
    ensures
        searched(lists, seen, order.push(v), start.push(entered)),
{
    let order2 = order.push(v);
    let start2 = start.push(entered);
    let last = order.len() as int;
    lemma_reaches_self(lists, v as int);
    assert forall|i: int| 0 <= i < order2.len() implies leads_to_seen(
        lists,
        seen,
        (#[trigger] order2[i]) as int,
    ) by {
        if i < last {
            assert(leads_to_seen(lists, seen, order[i] as int));
        }
    }
    assert forall|j: int, i: int| 0 <= j < order2.len() && start2[j] <= i <= j implies reaches(
        lists,
        (#[trigger] order2[j]) as int,
        (#[trigger] order2[i]) as int,
    ) by {
        if j < last {
            assert(reaches(lists, order[j] as int, order[i] as int));
        } else if i < last {
            assert(reaches(lists, v as int, order[i] as int));
        }
    }
    assert forall|j: int, i: int| 0 <= j < order2.len() && 0 <= i < start2[j] implies #[trigger] edges_avoid(
        lists,
        order2,
        start2,
        i,
        j,
    ) by {
        if j < last {
            assert(order[j] < lists.len() && start[j] <= j);
        }
        let x = order2[i] as int;
        assert(x == order[i]);
        assert forall|e: int| 0 <= e < lists[x].len() implies !within(
            order2,
            start2[j],
            j + 1,
            (#[trigger] lists[x][e]).0 as int,
        ) by {
            let t = lists[x][e].0 as int;
            if j < last {
                assert(edges_avoid(lists, order, start, i, j));
                assert(!within(order, start[j], j + 1, t));
                if within(order2, start2[j], j + 1, t) {
                    let p = choose|p: int|
                        start2[j] <= p < j + 1 && 0 <= p < order2.len() && #[trigger] order2[p] == t;
                    assert(order[p] == t);
                }
            } else {
                assert(leads_to_seen(lists, before, order[i] as int));
                assert(before[t]);
                if within(order2, start2[j], j + 1, t) {
                    let p = choose|p: int|
                        start2[j] <= p < j + 1 && 0 <= p < order2.len() && #[trigger] order2[p] == t;
                    if p < last {
                        assert(!before[order[p] as int]);
                    }
                }
            }
        }
    }
}

/// The state of a depth-first search: which vertices it has entered, and
/// the vertices that it has left, in the order in which it left them.
struct Search {
    seen: Vec<bool>,
    stop: Vec<u32>,
    /// The vertices that the search left before those of `stop`.
    done: Ghost<Seq<u32>>,
    /// For each vertex that the search has left, the number of vertices
    /// that it had left when it entered that vertex.
    start: Ghost<Seq<int>>,
}

impl Search {
    /// All the vertices that the search has left, in the order in which it
    /// left them.
    spec fn order(&self) -> Seq<u32> {
        self.done@ + self.stop@
    }

    spec fn inv<W>(&self, lists: Seq<Seq<(Index, W)>>) -> bool {
        searched(lists, self.seen@, self.order(), self.start@)
    }

    /// A search of a graph of `size` vertices that has entered none.
    fn new(size: Index) -> (search: Self)
        ensures
            search.seen.len() == size,
            search.stop@.len() == 0,
            search.done@.len() == 0,
            search.start@.len() == 0,
            forall|x: int| 0 <= x < size ==> !search.seen[x],
    {
        let mut seen: Vec<bool> = Vec::new();
        let mut i: Index = 0;
        while i < size
            invariant
                i <= size,
                seen.len() == i,
                forall|x: int| 0 <= x < i ==> !#[trigger] seen[x],
            decreases size - i,
        {
            seen.push(false);
            i += 1;
        }
        Self { seen, stop: Vec::new(), done: Ghost(Seq::empty()), start: Ghost(Seq::empty()) }
    }

    /// Forgets the vertices of `stop`: the search has still left them.
    fn forget(&mut self)
        ensures
            final(self).seen == old(self).seen,
            final(self).order() == old(self).order(),
            final(self).start == old(self).start,
            final(self).stop@.len() == 0,
    {
        proof {
            self.done@ = self.done@ + self.stop@;
        }
        self.stop.clear();
        proof {
            assert(self.order() =~= old(self).order());
        }
    }

    /// Searches from `v`, a vertex that the search has not entered.
    fn dfs<G: Graph>(&mut self, v: u32, graph: &G)
        requires
            graph.wf(),
            old(self).inv(graph.lists()),
            v < graph.lists().len(),
            !old(self).seen[v as int],
        ensures
            final(self).inv(graph.lists()),
            final(self).done@ == old(self).done@,
            extends(final(self).order(), old(self).order()),
            final(self).order().len() > old(self).order().len(),
            final(self).order().last() == v,
            final(self).start@.last() == old(self).order().len(),
            forall|i: int|
                old(self).order().len() <= i < final(self).order().len() ==> !old(self).seen[(
                #[trigger] final(self).order()[i]) as int],
            forall|x: int|
                0 <= x < graph.lists().len() ==> (#[trigger] final(self).seen[x] <==> old(
                    self,
                ).seen[x] || within(
                    final(self).order(),
                    old(self).order().len() as int,
                    final(self).order().len() as int,
                    x,
                )),
            unseen(final(self).seen@, graph.lists().len() as int) < unseen(
                old(self).seen@,
                graph.lists().len() as int,
            ),
        decreases unseen(old(self).seen@, graph.lists().len() as int),
    {
        let ghost lists = graph.lists();
        let ghost n = lists.len() as int;
        let ghost before = self.seen@;
        let ghost order0 = self.order();
        let ghost entered = order0.len() as int;
        proof {
            graph.lemma_wf();
            lemma_unseen_mark(self.seen@, v as int);
            assert(unseen(self.seen@.update(v as int, true), n) + 1 == unseen(self.seen@, n));
            lemma_enter(lists, self.seen@, self.order(), self.start@, v as int);
            assert forall|i: int| 0 <= i < entered implies leads_to_seen(
                lists,
                before,
                (#[trigger] order0[i]) as int,
            ) by {}
        }
        self.seen[v as usize] = true;
        let list = graph.adjacent(v);
        let mut e: usize = 0;
        while e < list.len()
            invariant
                graph.wf(),
                lists == graph.lists(),
                n == lists.len(),
                v < n,
                list@ == lists[v as int],
                e <= list.len(),
                self.inv(lists),
                self.done@ == old(self).done@,
                before == old(self).seen@,
                before.len() == n,
                order0 == old(self).order(),
                entered == order0.len(),
                extends(self.order(), order0),
                self.seen[v as int],
                !before[v as int],
                forall|i: int|
                    0 <= i < entered ==> leads_to_seen(lists, before, (#[trigger] order0[i]) as int),
                forall|x: int|
                    0 <= x < n ==> (#[trigger] self.seen[x] <==> before[x] || x == v || within(
                        self.order(),
                        entered,
                        self.order().len() as int,
                        x,
                    )),
                forall|i: int|
                    entered <= i < self.order().len() ==> !before[(#[trigger] self.order()[i]) as int],
                forall|i: int| 0 <= i < self.order().len() ==> (#[trigger] self.order()[i]) != v,
                forall|i: int|
                    entered <= i < self.order().len() ==> reaches(
                        lists,
                        v as int,
                        (#[trigger] self.order()[i]) as int,
                    ),
                forall|f: int| 0 <= f < e ==> self.seen[(#[trigger] lists[v as int][f]).0 as int],
                unseen(self.seen@, n) < unseen(before, n),
            decreases list.len() - e,
        {
            let u: u32 = list[e].0;
            proof {
                assert(lists[v as int][e as int].0 == u);
            }
            if !self.seen[u as usize] {
                let ghost seen1 = self.seen@;
                let ghost order1 = self.order();
                self.dfs(u, graph);
                proof {
                    lemma_return(
                        lists,
                        before,
                        entered,
                        v,
                        u,
                        seen1,
                        order1,
                        self.seen@,
                        self.order(),
                        self.start@,
                    );
                }
            }
            e += 1;
        }
        proof {
            assert forall|i: int| 0 <= i < entered implies leads_to_seen(
                lists,
                before,
                (#[trigger] self.order()[i]) as int,
            ) by {
                assert(self.order()[i] == order0[i]);
            }
            lemma_leave(lists, before, entered, self.seen@, self.order(), self.start@, v);
        }
        let ghost order2 = self.order();
        self.stop.push(v);
        proof {
            self.start@ = self.start@.push(entered);
            assert(self.order() =~= order2.push(v));
            assert forall|x: int| 0 <= x < n implies (#[trigger] self.seen[x] <==> before[x] || within(
                self.order(),
                entered,
                self.order().len() as int,
                x,
            )) by {
                if x == v {
                    assert(self.order()[order2.len() as int] == v);
                }
                if within(order2, entered, order2.len() as int, x) {
                    let p = choose|p: int|
                        entered <= p < order2.len() && 0 <= p < order2.len() && #[trigger] order2[p] == x;
                    assert(self.order()[p] == x);
                }
                if within(self.order(), entered, self.order().len() as int, x) {
                    let p = choose|p: int|
                        entered <= p < self.order().len() && 0 <= p < self.order().len()
                            && #[trigger] self.order()[p] == x;
                    if p < order2.len() {
                        assert(order2[p] == x);
                    }
                }
            }
        }
    }
}

/// What the search from `v` knows after it has searched from `u`, the
/// target of an edge of `v`.
proof fn lemma_return<W>(
    lists: Seq<Seq<(Index, W)>>,
    before: Seq<bool>,
    entered: int,
    v: Index,
    u: Index,
    seen1: Seq<bool>,
    order1: Seq<Index>,
    seen2: Seq<bool>,
    order2: Seq<Index>,
    start2: Seq<int>,
)
    requires
        searched(lists, seen2, order2, start2),
        before.len() == lists.len(),
        seen1.len() == lists.len(),
        0 <= entered <= order1.len(),
        v < lists.len(),
        u < lists.len(),
        has_edge(lists, v as int, u as int),
        seen1[v as int],
        forall|x: int|
            0 <= x < lists.len() ==> (#[trigger] seen1[x] <==> before[x] || x == v || within(
                order1,
                entered,
                order1.len() as int,
                x,
            )),
        forall|i: int| entered <= i < order1.len() ==> !before[(#[trigger] order1[i]) as int],
        forall|i: int| 0 <= i < order1.len() ==> (#[trigger] order1[i]) != v,
        forall|i: int|
            entered <= i < order1.len() ==> reaches(lists, v as int, (#[trigger] order1[i]) as int),
        extends(order2, order1),
        order2.len() > order1.len(),
        order2.last() == u,
        start2.last() == order1.len(),
        forall|i: int| order1.len() <= i < order2.len() ==> !seen1[(#[trigger] order2[i]) as int],
        forall|x: int|
            0 <= x < lists.len() ==> (#[trigger] seen2[x] <==> seen1[x] || within(
                order2,
                order1.len() as int,
                order2.len() as int,
                x,
            )),
    ensures
        forall|x: int|
            0 <= x < lists.len() ==> (#[trigger] seen2[x] <==> before[x] || x == v || within(
                order2,
                entered,
                order2.len() as int,
                x,
            )),
        forall|i: int| entered <= i < order2.len() ==> !before[(#[trigger] order2[i]) as int],
        forall|i: int| 0 <= i < order2.len() ==> (#[trigger] order2[i]) != v,
        forall|i: int|
            entered <= i < order2.len() ==> reaches(lists, v as int, (#[trigger] order2[i]) as int),
{
    let len1 = order1.len() as int;
    let len2 = order2.len() as int;
    assert forall|x: int| 0 <= x < lists.len() implies (#[trigger] seen2[x] <==> before[x] || x == v
        || within(order2, entered, len2, x)) by {
        if within(order1, entered, len1, x) {
            let p = choose|p: int| entered <= p < len1 && 0 <= p < order1.len() && #[trigger] order1[p] == x;
            assert(order2[p] == x);
        }
        if within(order2, entered, len2, x) {
            let p = choose|p: int| entered <= p < len2 && 0 <= p < order2.len() && #[trigger] order2[p] == x;
            if p < len1 {
                assert(order1[p] == x);
            }
        }
    }
    assert forall|i: int| entered <= i < len2 implies !before[(#[trigger] order2[i]) as int] by {
        if i < len1 {
            assert(order2[i] == order1[i]);
        } else {
            assert(order2[i] < lists.len());
            assert(!seen1[order2[i] as int]);
        }
    }
    assert forall|i: int| 0 <= i < len2 implies (#[trigger] order2[i]) != v by {
        if i < len1 {
            assert(order2[i] == order1[i]);
        } else {
            assert(!seen1[order2[i] as int]);
        }
    }
    lemma_reaches_edge(lists, v as int, u as int);
    assert forall|i: int| entered <= i < len2 implies reaches(
        lists,
        v as int,
        (#[trigger] order2[i]) as int,
    ) by {
        if i < len1 {
            assert(order2[i] == order1[i]);
        } else {
            assert(reaches(lists, order2[len2 - 1] as int, order2[i] as int));
            lemma_reaches_trans(lists, v as int, u as int, order2[i] as int);
        }
    }
}

/// Whether the search has left every vertex that it has entered.
spec fn settled(seen: Seq<bool>, order: Seq<Index>) -> bool {
    forall|x: int| 0 <= x < seen.len() && #[trigger] seen[x] ==> within(order, 0, order.len() as int, x)
}

/// Whether every one of the first `n` vertices stands in `order`.
spec fn covers(order: Seq<Index>, n: int) -> bool {
    forall|x: int| 0 <= x < n ==> #[trigger] within(order, 0, order.len() as int, x)
}

/// Searches the whole graph, from each vertex that no earlier search has
/// entered, in the order of the vertices.
fn leaving_order<G: Graph>(graph: &G) -> (search: Search)
    requires
        graph.wf(),
    ensures
        search.inv(graph.lists()),
        search.done@.len() == 0,
        covers(search.order(), graph.lists().len() as int),
{
    let size = graph.size();
    let ghost lists = graph.lists();
    let mut search = Search::new(size);
    let mut i: Index = 0;
    proof {
        graph.lemma_wf();
    }
    while i < size
        invariant
            graph.wf(),
            lists == graph.lists(),
            size == lists.len(),
            i <= size,
            search.inv(lists),
            search.done@.len() == 0,
            settled(search.seen@, search.order()),
            forall|x: int| 0 <= x < i ==> #[trigger] search.seen[x],
        decreases size - i,
    {
        if !search.seen[i as usize] {
            let ghost seen0 = search.seen@;
            let ghost order0 = search.order();
            search.dfs(i, graph);
            proof {
                lemma_settled(seen0, order0, search.seen@, search.order());
            }
        }
        i += 1;
    }
    proof {
        assert forall|x: int| 0 <= x < size implies #[trigger] within(
            search.order(),
            0,
            search.order().len() as int,
            x,
        ) by {
            assert(search.seen[x]);
        }
    }
    search
}

/// A search that had left every vertex that it had entered has done so
/// again when it has left the vertices that it has entered since.
proof fn lemma_settled(seen0: Seq<bool>, order0: Seq<Index>, seen: Seq<bool>, order: Seq<Index>)
    requires
        settled(seen0, order0),
        seen.len() == seen0.len(),
        extends(order, order0),
        forall|x: int|
            0 <= x < seen.len() ==> (#[trigger] seen[x] <==> seen0[x] || within(
                order,
                order0.len() as int,
                order.len() as int,
                x,
            )),
    ensures
        settled(seen, order),
        forall|x: int| 0 <= x < seen.len() && seen0[x] ==> #[trigger] seen[x],
{
    assert forall|x: int| 0 <= x < seen.len() && #[trigger] seen[x] implies within(
        order,
        0,
        order.len() as int,
        x,
    ) by {
        if seen0[x] {
            let p = choose|p: int| 0 <= p < order0.len() && 0 <= p < order0.len() && #[trigger] order0[p] == x;
            assert(order[p] == x);
        }
    }
}

/// Whether an edge leads from `b` to `a` that stands before the place `e`
/// of the list of the vertex `i`.
spec fn edge_before<W>(lists: Seq<Seq<(Index, W)>>, b: int, a: int, i: int, e: int) -> bool {
    ||| (b < i && has_edge(lists, b, a))
    ||| (b == i && exists|f: int| 0 <= f < e && f < lists[i].len() && (#[trigger] lists[i][f]).0 == a)
}

/// The edges of the lists with one added edge are their edges and that
/// edge.
proof fn lemma_with_edge<W>(lists: Seq<Seq<(Index, W)>>, u: Index, v: Index, w: W, a: int, b: int)
    requires
        u < lists.len(),
        0 <= a < lists.len(),
    ensures
        has_edge(with_edge(lists, true, u, v, w), a, b) <==> has_edge(lists, a, b) || (a == u && b
            == v),
{
    let after = with_edge(lists, true, u, v, w);
    if has_edge(lists, a, b) {
        let e = choose|e: int| 0 <= e < lists[a].len() && (#[trigger] lists[a][e]).0 == b;
        assert(after[a][e].0 == b);
    }
    if a == u && b == v {
        assert(after[a][lists[a].len() as int].0 == b);
    }
    if has_edge(after, a, b) {
        let e = choose|e: int| 0 <= e < after[a].len() && (#[trigger] after[a][e]).0 == b;
        if a == u && e == lists[a].len() {
        } else {
            assert(lists[a][e].0 == b);
        }
    }
}

/// The graph with every edge turned round.
fn turned_round<G: Graph>(graph: &G) -> (turned: DirectedAdjGraph<()>)
    requires
        graph.wf(),
    ensures
        turned.wf(),
        is_turned(graph.lists(), turned@),
{
    let size = graph.size();
    let ghost lists = graph.lists();
    let mut turned: DirectedAdjGraph<()> = DirectedAdjGraph::new(size);
    let mut i: Index = 0;
    proof {
        graph.lemma_wf();
        assert forall|a: int, b: int| 0 <= a < size && 0 <= b < size implies !has_edge(turned@, a, b) by {}
    }
    while i < size
        invariant
            graph.wf(),
            lists == graph.lists(),
            size == lists.len(),
            targets_below(lists, size as int),
            i <= size,
            turned.wf(),
            turned@.len() == size,
            forall|a: int, b: int|
                0 <= a < size && 0 <= b < size ==> (#[trigger] has_edge(turned@, a, b) <==> edge_before(
                    lists,
                    b,
                    a,
                    i as int,
                    0,
                )),
        decreases size - i,
    {
        let list = graph.adjacent(i);
        let mut e: usize = 0;
        while e < list.len()
            invariant
                lists == graph.lists(),
                size == lists.len(),
                targets_below(lists, size as int),
                i < size,
                list@ == lists[i as int],
                e <= list.len(),
                turned.wf(),
                turned@.len() == size,
                forall|a: int, b: int|
                    0 <= a < size && 0 <= b < size ==> (#[trigger] has_edge(turned@, a, b)
                        <==> edge_before(lists, b, a, i as int, e as int)),
            decreases list.len() - e,
        {
            let u: u32 = list[e].0;
            let ghost prior = turned@;
            proof {
                assert(lists[i as int][e as int].0 == u);
            }
            turned.add_edge(u, i, ());
            proof {
                assert forall|a: int, b: int| 0 <= a < size && 0 <= b < size implies (#[trigger] has_edge(
                    turned@,
                    a,
                    b,
                ) <==> edge_before(lists, b, a, i as int, e + 1)) by {
                    lemma_with_edge(prior, u, i, (), a, b);
                    assert(has_edge(prior, a, b) <==> edge_before(lists, b, a, i as int, e as int));
                    if b == i && a == u {
                        assert(lists[i as int][e as int].0 == a);
                    }
                    if edge_before(lists, b, a, i as int, e + 1) && b == i {
                        let f = choose|f: int|
                            0 <= f < e + 1 && f < lists[i as int].len() && (#[trigger] lists[i as int][f]).0
                                == a;
                        if f < e {
                            assert(edge_before(lists, b, a, i as int, e as int));
                        }
                    }
                }
            }
            e += 1;
        }
        proof {
            assert forall|a: int, b: int| 0 <= a < size && 0 <= b < size implies (#[trigger] has_edge(
                turned@,
                a,
                b,
            ) <==> edge_before(lists, b, a, i + 1, 0)) by {
                assert(has_edge(turned@, a, b) <==> edge_before(lists, b, a, i as int, e as int));
            }
        }
        i += 1;
    }
    proof {
        assert forall|a: int, b: int|
            #![trigger has_edge(turned@, a, b)]
            #![trigger has_edge(lists, b, a)]
            0 <= a < size && 0 <= b < size implies (has_edge(turned@, a, b) <==> has_edge(lists, b, a)) by {
            assert(has_edge(turned@, a, b) <==> edge_before(lists, b, a, size as int, 0));
        }
    }
    turned
}

/// In a search of the turned graph that has left every vertex that it has
/// entered, no walk of the graph leads from a vertex that the search has
/// not entered to one that it has.
proof fn lemma_closed<W, V>(
    lists: Seq<Seq<(Index, W)>>,
    turned: Seq<Seq<(Index, V)>>,
    seen: Seq<bool>,
    order: Seq<Index>,
    start: Seq<int>,
    walk: Seq<int>,
    t: int,
)
    requires
        is_turned(lists, turned),
        searched(turned, seen, order, start),
        settled(seen, order),
        is_walk(lists, walk),
        !seen[walk[0]],
        0 <= t < walk.len(),
    ensures
        !seen[walk[t]],
    decreases t,
{
    if t > 0 {
        lemma_closed(lists, turned, seen, order, start, walk, t - 1);
        if seen[walk[t]] {
            let p = choose|p: int| 0 <= p < order.len() && 0 <= p < order.len() && #[trigger] order[p] == walk[t];
            assert(leads_to_seen(turned, seen, order[p] as int));
            assert(has_edge(lists, walk[t - 1], walk[t - 1 + 1]));
            assert(has_edge(turned, walk[t], walk[t - 1]));
            let e = choose|e: int|
                0 <= e < turned[walk[t]].len() && (#[trigger] turned[walk[t]][e]).0 == walk[t - 1];
            assert(seen[turned[walk[t]][e].0 as int]);
        }
    }
}

/// A walk to the vertex at the place `j` of the order, through vertices
/// that the search left no later than that vertex, leads through vertices
/// that the search left while it was in that vertex.
proof fn lemma_back<W>(
    lists: Seq<Seq<(Index, W)>>,
    seen: Seq<bool>,
    order: Seq<Index>,
    start: Seq<int>,
    j: int,
    walk: Seq<int>,
    t: int,
)
    requires
        searched(lists, seen, order, start),
        0 <= j < order.len(),
        is_walk(lists, walk),
        walk.last() == order[j],
        forall|s: int| 0 <= s < walk.len() ==> within(order, 0, j + 1, #[trigger] walk[s]),
        0 <= t < walk.len(),
    ensures
        within(order, start[j], j + 1, walk[t]),
    decreases walk.len() - t,
{
    assert(order[j] < lists.len() && 0 <= start[j] <= j);
    if t < walk.len() - 1 {
        lemma_back(lists, seen, order, start, j, walk, t + 1);
        let q = choose|q: int| start[j] <= q < j + 1 && 0 <= q < order.len() && #[trigger] order[q] == walk[t + 1];
        assert(within(order, 0, j + 1, walk[t]));
        let p = choose|p: int| 0 <= p < j + 1 && 0 <= p < order.len() && #[trigger] order[p] == walk[t];
        if p < start[j] {
            assert(edges_avoid(lists, order, start, p, j));
            assert(has_edge(lists, walk[t], walk[t + 1]));
            let e = choose|e: int| 0 <= e < lists[walk[t]].len() && (#[trigger] lists[walk[t]][e]).0 == walk[t + 1];
            assert(!within(order, start[j], j + 1, lists[order[p] as int][e].0 as int));
            assert(false);
        }
    }
}

/// A vertex that the second search enters from the vertex at the place `k`
/// of the first order, the last of that order that it had not entered,
/// lies in the component of that vertex.
proof fn lemma_component<W, V>(
    lists: Seq<Seq<(Index, W)>>,
    turned: Seq<Seq<(Index, V)>>,
    seen1: Seq<bool>,
    order1: Seq<Index>,
    start1: Seq<int>,
    k: int,
    seen2: Seq<bool>,
    order2: Seq<Index>,
    start2: Seq<int>,
    x: int,
)
    requires
        searched(lists, seen1, order1, start1),
        covers(order1, lists.len() as int),
        is_turned(lists, turned),
        searched(turned, seen2, order2, start2),
        settled(seen2, order2),
        0 <= k < order1.len(),
        forall|i: int| k < i < order1.len() ==> seen2[(#[trigger] order1[i]) as int],
        0 <= x < lists.len(),
        !seen2[x],
        reaches(turned, order1[k] as int, x),
    ensures
        strongly_connected(lists, order1[k] as int, x),
{
    let r = order1[k] as int;
    lemma_turned_reaches(lists, turned, r, x);
    let walk = choose|walk: Seq<int>| #[trigger] is_walk(lists, walk) && walk[0] == x && walk.last() == r;
    assert forall|s: int| 0 <= s < walk.len() implies within(order1, 0, k + 1, #[trigger] walk[s]) by {
        lemma_closed(lists, turned, seen2, order2, start2, walk, s);
        assert(within(order1, 0, order1.len() as int, walk[s]));
        let p = choose|p: int| 0 <= p < order1.len() && 0 <= p < order1.len() && #[trigger] order1[p] == walk[s];
        if p > k {
            assert(seen2[order1[p] as int]);
        }
    }
    lemma_back(lists, seen1, order1, start1, k, walk, 0);
    let p = choose|p: int| start1[k] <= p < k + 1 && 0 <= p < order1.len() && #[trigger] order1[p] == x;
    assert(reaches(lists, order1[k] as int, order1[p] as int));
}

/// Whether some vertex that is set in `seen` has the number `k`.
spec fn numbers_seen(seen: Seq<bool>, id: Seq<u32>, k: int) -> bool {
    exists|v: int| 0 <= v < id.len() && seen[v] && #[trigger] id[v] == k
}

/// Whether `id` numbers the components of the vertices of `seen` with the
/// numbers below `cnt`, and every edge to one of these vertices comes from
/// one of them with no greater number.
spec fn numbered<W>(lists: Seq<Seq<(Index, W)>>, seen: Seq<bool>, id: Seq<u32>, cnt: int) -> bool {
    &&& id.len() == lists.len()
    &&& seen.len() == lists.len()
    &&& forall|x: int| 0 <= x < id.len() && seen[x] ==> #[trigger] id[x] < cnt
    &&& forall|a: int, b: int|
        0 <= a < id.len() && 0 <= b < id.len() && seen[a] && seen[b] ==> ((#[trigger] id[a]) == (
        #[trigger] id[b]) <==> strongly_connected(lists, a, b))
    &&& forall|a: int, b: int|
        0 <= a < id.len() && 0 <= b < id.len() && #[trigger] has_edge(lists, a, b) && seen[b]
            ==> seen[a] && id[a] <= id[b]
    &&& forall|k: int| 0 <= k < cnt ==> #[trigger] numbers_seen(seen, id, k)
}

/// One round of the second search: it enters, from the last vertex of the
/// first order that it had not entered, the component of that vertex, whose
/// vertices get the next number.
proof fn lemma_round<W, V>(
    lists: Seq<Seq<(Index, W)>>,
    turned: Seq<Seq<(Index, V)>>,
    seen1: Seq<bool>,
    order1: Seq<Index>,
    start1: Seq<int>,
    k: int,
    seen2: Seq<bool>,
    order2: Seq<Index>,
    start2: Seq<int>,
    seen3: Seq<bool>,
    order3: Seq<Index>,
    start3: Seq<int>,
    id2: Seq<u32>,
    id3: Seq<u32>,
    cnt: int,
)
    requires
        searched(lists, seen1, order1, start1),
        covers(order1, lists.len() as int),
        is_turned(lists, turned),
        searched(turned, seen2, order2, start2),
        settled(seen2, order2),
        numbered(lists, seen2, id2, cnt),
        0 <= k < order1.len(),
        !seen2[order1[k] as int],
        forall|i: int| k < i < order1.len() ==> seen2[(#[trigger] order1[i]) as int],
        searched(turned, seen3, order3, start3),
        extends(order3, order2),
        order3.len() > order2.len(),
        order3.last() == order1[k],
        start3.last() == order2.len(),
        forall|i: int| order2.len() <= i < order3.len() ==> !seen2[(#[trigger] order3[i]) as int],
        forall|x: int|
            0 <= x < lists.len() ==> (#[trigger] seen3[x] <==> seen2[x] || within(
                order3,
                order2.len() as int,
                order3.len() as int,
                x,
            )),
        id3.len() == lists.len(),
        forall|x: int| 0 <= x < lists.len() && seen2[x] ==> #[trigger] id3[x] == id2[x],
        forall|x: int| 0 <= x < lists.len() && !seen2[x] && seen3[x] ==> #[trigger] id3[x] == cnt,
    ensures
        numbered(lists, seen3, id3, cnt + 1),
        settled(seen3, order3),
        forall|i: int| k <= i < order1.len() ==> seen3[(#[trigger] order1[i]) as int],
{
    let n = lists.len() as int;
    let r = order1[k] as int;
    let len2 = order2.len() as int;
    let len3 = order3.len() as int;
    lemma_settled(seen2, order2, seen3, order3);
    assert(order1[k] < n);
    assert(order3[len3 - 1] == r);
    assert(within(order3, len2, len3, r));
    assert(seen3[r]);
    assert forall|i: int| k <= i < order1.len() implies seen3[(#[trigger] order1[i]) as int] by {
        if i > k {
            assert(seen2[order1[i] as int]);
        }
    }
    assert forall|x: int| 0 <= x < n && seen3[x] && !seen2[x] implies strongly_connected(lists, r, x) by {
        let p = choose|p: int| len2 <= p < len3 && 0 <= p < order3.len() && #[trigger] order3[p] == x;
        assert(reaches(turned, order3[len3 - 1] as int, order3[p] as int));
        lemma_component(lists, turned, seen1, order1, start1, k, seen2, order2, start2, x);
    }
    assert forall|a: int, b: int| 0 <= a < n && 0 <= b < n && !seen2[a] && seen2[b] implies !reaches(
        lists,
        a,
        b,
    ) by {
        if reaches(lists, a, b) {
            let walk = choose|walk: Seq<int>| #[trigger] is_walk(lists, walk) && walk[0] == a && walk.last() == b;
            lemma_closed(lists, turned, seen2, order2, start2, walk, walk.len() - 1);
        }
    }
    assert forall|a: int, b: int| 0 <= a < n && 0 <= b < n && seen3[a] && seen3[b] implies ((
    #[trigger] id3[a]) == (#[trigger] id3[b]) <==> strongly_connected(lists, a, b)) by {
        if seen2[a] && seen2[b] {
            assert(id2[a] == id2[b] <==> strongly_connected(lists, a, b));
        } else if !seen2[a] && !seen2[b] {
            assert(strongly_connected(lists, r, a));
            assert(strongly_connected(lists, r, b));
            lemma_reaches_trans(lists, a, r, b);
            lemma_reaches_trans(lists, b, r, a);
        } else if seen2[a] {
            assert(!reaches(lists, b, a));
            assert(id2[a] < cnt);
        } else {
            assert(!reaches(lists, a, b));
            assert(id2[b] < cnt);
        }
    }
    assert forall|a: int, b: int|
        0 <= a < n && 0 <= b < n && #[trigger] has_edge(lists, a, b) && seen3[b] implies seen3[a]
        && id3[a] <= id3[b] by {
        if seen2[b] {
            assert(seen2[a] && id2[a] <= id2[b]);
        } else {
            let p = choose|p: int| len2 <= p < len3 && 0 <= p < order3.len() && #[trigger] order3[p] == b;
            assert(leads_to_seen(turned, seen3, order3[p] as int));
            assert(has_edge(turned, b, a));
            let e = choose|e: int| 0 <= e < turned[b].len() && (#[trigger] turned[b][e]).0 == a;
            assert(seen3[turned[b][e].0 as int]);
            if seen2[a] {
                assert(id2[a] < cnt);
            }
        }
    }
    assert forall|c: int| 0 <= c < cnt + 1 implies #[trigger] numbers_seen(seen3, id3, c) by {
        if c < cnt {
            assert(numbers_seen(seen2, id2, c));
            let v = choose|v: int| 0 <= v < id2.len() && seen2[v] && #[trigger] id2[v] == c;
            assert(seen3[v] && id3[v] == c);
        } else {
            assert(id3[r] == c);
        }
    }
    assert forall|x: int| 0 <= x < id3.len() && seen3[x] implies #[trigger] id3[x] < cnt + 1 by {
        if seen2[x] {
            assert(id2[x] < cnt);
        }
    }
}

/// For each vertex the number of its strongly connected component. The
/// components are numbered from zero in an order in which no edge leads
/// from a component to one of a lesser number.
pub fn strongly_connected_components<G: DirectedGraph>(graph: &G) -> (id: Vec<u32>)
    requires
        graph.wf(),
    ensures
        is_component_numbering(graph.lists(), id@),
{
    let size = graph.size();
    let ghost lists = graph.lists();
    let ghost n = size as int;
    let dfs = leaving_order(graph);
    let graph_inv = turned_round(graph);
    let ghost turned = graph_inv@;
    let ghost seen1 = dfs.seen@;
    let ghost order1 = dfs.order();
    let ghost start1 = dfs.start@;
    let mut dfs_inv = Search::new(size);
    let stop = dfs.stop;
    let mut id: Vec<u32> = Vec::new();
    let mut i: Index = 0;
    while i < size
        invariant
            i <= size,
            id.len() == i,
        decreases size - i,
    {
        id.push(0);
        i += 1;
    }
    let mut cnt: u32 = 0;
    let mut k: usize = stop.len();
    proof {
        graph.lemma_wf();
        graph_inv.lemma_wf();
        assert(stop@ =~= order1);
        lemma_unseen_bound(dfs_inv.seen@, n);
        assert(dfs_inv.order() =~= Seq::<u32>::empty());
    }
    while k > 0
        invariant
            graph_inv.wf(),
            turned == graph_inv@,
            n == lists.len(),
            size == n,
            is_turned(lists, turned),
            searched(lists, seen1, order1, start1),
            covers(order1, n),
            stop@ == order1,
            k <= stop.len(),
            dfs_inv.inv(turned),
            dfs_inv.stop@.len() == 0,
            settled(dfs_inv.seen@, dfs_inv.order()),
            numbered(lists, dfs_inv.seen@, id@, cnt as int),
            forall|i: int| k <= i < stop.len() ==> dfs_inv.seen[(#[trigger] order1[i]) as int],
            cnt + unseen(dfs_inv.seen@, n) <= n,
        decreases k,
    {
        k -= 1;
        let u: u32 = stop[k];
        proof {
            assert(order1[k as int] == u && u < n);
        }
        if !dfs_inv.seen[u as usize] {
            let ghost seen2 = dfs_inv.seen@;
            let ghost order2 = dfs_inv.order();
            let ghost start2 = dfs_inv.start@;
            let ghost id2 = id@;
            dfs_inv.dfs(u, &graph_inv);
            let ghost order3 = dfs_inv.order();
            let ghost len2 = order2.len() as int;
            proof {
                assert(order2 =~= dfs_inv.done@);
                assert forall|j: int| 0 <= j < dfs_inv.stop@.len() implies (#[trigger] dfs_inv.stop@[j])
                    == order3[len2 + j] by {}
            }
            let mut j: usize = 0;
            while j < dfs_inv.stop.len()
                invariant
                    j <= dfs_inv.stop.len(),
                    id.len() == size,
                    id2.len() == size,
                    n == size,
                    order3 == dfs_inv.order(),
                    order3.len() == len2 + dfs_inv.stop@.len(),
                    forall|j: int|
                        0 <= j < dfs_inv.stop@.len() ==> (#[trigger] dfs_inv.stop@[j]) == order3[len2 + j],
                    forall|i: int| 0 <= i < order3.len() ==> (#[trigger] order3[i]) < n,
                    forall|x: int|
                        0 <= x < n ==> #[trigger] id[x] == (if within(order3, len2, len2 + j, x) {
                            cnt
                        } else {
                            id2[x]
                        }),
                decreases dfs_inv.stop.len() - j,
            {
                let v: u32 = dfs_inv.stop[j];
                let ghost id_before = id@;
                proof {
                    assert(v == order3[len2 + j]);
                }
                id[v as usize] = cnt;
                proof {
                    assert forall|x: int| 0 <= x < n implies #[trigger] id[x] == (if within(
                        order3,
                        len2,
                        len2 + j + 1,
                        x,
                    ) {
                        cnt
                    } else {
                        id2[x]
                    }) by {
                        if within(order3, len2, len2 + j, x) {
                            let p = choose|p: int|
                                len2 <= p < len2 + j && 0 <= p < order3.len() && #[trigger] order3[p] == x;
                            assert(within(order3, len2, len2 + j + 1, x));
                        }
                        if within(order3, len2, len2 + j + 1, x) {
                            let p = choose|p: int|
                                len2 <= p < len2 + j + 1 && 0 <= p < order3.len() && #[trigger] order3[p]
                                    == x;
                            if p < len2 + j {
                                assert(within(order3, len2, len2 + j, x));
                            }
                        }
                    }
                }
                j += 1;
            }
            proof {
                assert forall|x: int| 0 <= x < n && seen2[x] implies #[trigger] id[x] == id2[x] by {
                    if within(order3, len2, order3.len() as int, x) {
                        let p = choose|p: int|
                            len2 <= p < order3.len() && 0 <= p < order3.len() && #[trigger] order3[p] == x;
                        assert(!seen2[order3[p] as int]);
                    }
                }
                lemma_round(
                    lists,
                    turned,
                    seen1,
                    order1,
                    start1,
                    k as int,
                    seen2,
                    order2,
                    start2,
                    dfs_inv.seen@,
                    order3,
                    dfs_inv.start@,
                    id2,
                    id@,
                    cnt as int,
                );
            }
            cnt += 1;
            dfs_inv.forget();
        }
    }
    proof {
        assert forall|x: int| 0 <= x < n implies dfs_inv.seen[x] by {
            assert(within(order1, 0, order1.len() as int, x));
            let p = choose|p: int| 0 <= p < order1.len() && 0 <= p < order1.len() && #[trigger] order1[p] == x;
            assert(dfs_inv.seen[order1[p] as int]);
        }
        assert forall|v: int, c: int| 0 <= v < id@.len() && 0 <= c < #[trigger] id@[v] implies #[trigger] numbers(
            id@,
            c,
        ) by {
            assert(numbers_seen(dfs_inv.seen@, id@, c));
        }
    }
    id
}

} // verus!

//! Whether a directed graph has a cycle, by depth-first search.

use vstd::prelude::*;
use crate::graph::{
    Graph,
    Index,
    targets_below,
    has_edge,
    is_walk,
    unseen,
    lemma_unseen_mark,
};

verus! {

/// Whether `walk` is a cycle: a walk of at least one edge that ends where
/// it starts.
pub open spec fn is_cycle<W>(lists: Seq<Seq<(Index, W)>>, walk: Seq<int>) -> bool {
    &&& is_walk(lists, walk)
    &&& walk.len() >= 2
    &&& walk[0] == walk.last()
}

/// Whether the graph has a cycle.
pub open spec fn has_cycle<W>(lists: Seq<Seq<(Index, W)>>) -> bool {
    exists|walk: Seq<int>| is_cycle(lists, walk)
}

/// Whether each of the first `upto` edges of `x` leads to a vertex that is
/// finished, and was finished before the time `bound`.
pub open spec fn edges_finished<W>(
    lists: Seq<Seq<(Index, W)>>,
    fin: Seq<bool>,
    order: Seq<nat>,
    x: int,
    upto: int,
    bound: nat,
) -> bool {
    forall|e: int|
        0 <= e < upto ==> fin[(#[trigger] lists[x][e]).0 as int] && order[lists[x][e].0 as int]
            < bound
}

/// Whether the vertices of `stack` lie in the graph and an edge leads from
/// each to the next.
pub open spec fn is_chain<W>(lists: Seq<Seq<(Index, W)>>, stack: Seq<int>) -> bool {
    &&& forall|i: int| 0 <= i < stack.len() ==> 0 <= #[trigger] stack[i] < lists.len()
    &&& forall|i: int|
        0 <= i < stack.len() - 1 ==> #[trigger] has_edge(lists, stack[i], stack[i + 1])
}

/// The state of a depth-first search: which vertices it has entered, which
/// it has left, and when it left them.
struct DFS {
    seen: Vec<bool>,
    fin: Vec<bool>,
    order: Ghost<Seq<nat>>,
    clock: Ghost<nat>,
}

impl DFS {
    /// The vertices that the search has entered and not left are those of
    /// `stack`, a chain; every edge from a vertex that it has left leads to
    /// a vertex that it left earlier.
    spec fn inv<W>(&self, lists: Seq<Seq<(Index, W)>>, stack: Seq<int>) -> bool {
        &&& self.seen.len() == lists.len()
        &&& self.fin.len() == lists.len()
        &&& self.order@.len() == lists.len()
        &&& targets_below(lists, lists.len() as int)
        &&& forall|x: int| 0 <= x < lists.len() && #[trigger] self.fin[x] ==> self.seen[x]
        &&& forall|x: int| 0 <= x < lists.len() && #[trigger] self.fin[x] ==> self.order@[x] < self.clock@
        &&& forall|x: int|
            0 <= x < lists.len() && #[trigger] self.fin[x] ==> edges_finished(
                lists,
                self.fin@,
                self.order@,
                x,
                lists[x].len() as int,
                self.order@[x],
            )
        &&& forall|x: int|
            0 <= x < lists.len() ==> ((#[trigger] self.seen[x] && !self.fin[x]) <==> stack.contains(x))
        &&& is_chain(lists, stack)
    }

    /// A search that has entered no vertex.
    fn new<G: Graph>(graph: &G) -> (dfs: Self)
        requires
            graph.wf(),
        ensures
            dfs.inv(graph.lists(), Seq::<int>::empty()),
            forall|x: int| 0 <= x < graph.lists().len() ==> !dfs.seen[x],
    {
        let size = graph.size() as usize;
        let mut seen: Vec<bool> = Vec::new();
        let mut fin: Vec<bool> = Vec::new();
        let mut i: usize = 0;
        while i < size
            invariant
                i <= size,
                seen.len() == i,
                fin.len() == i,
                forall|x: int| 0 <= x < i ==> !#[trigger] seen[x],
                forall|x: int| 0 <= x < i ==> !#[trigger] fin[x],
            decreases size - i,
        {
            seen.push(false);
            fin.push(false);
            i += 1;
        }
        proof {
            graph.lemma_wf();
        }
        DFS {
            seen,
            fin,
            order: Ghost(Seq::new(size as nat, |x: int| 0nat)),
            clock: Ghost(0nat),
        }
    }

    /// Searches from every vertex that no earlier search has entered.
    fn run<G: Graph>(&mut self, graph: &G) -> (found: bool)
        requires
            graph.wf(),
            old(self).inv(graph.lists(), Seq::<int>::empty()),
        ensures
            found <==> has_cycle(graph.lists()),
    {
        let size = graph.size();
        let ghost lists = graph.lists();
        let mut i: Index = 0;
        while i < size
            invariant
                graph.wf(),
                lists == graph.lists(),
                size == lists.len(),
                i <= size,
                self.inv(lists, Seq::<int>::empty()),
                forall|x: int| 0 <= x < i ==> #[trigger] self.seen[x],
            decreases size - i,
        {
            if !self.seen[i as usize] {
                if self.dfs(graph, i, Ghost(Seq::<int>::empty())) {
                    return true;
                }
            }
            i += 1;
        }
        proof {
            assert forall|x: int| 0 <= x < size implies #[trigger] self.fin[x] by {
                assert(self.seen[x]);
                assert(!Seq::<int>::empty().contains(x));
            }
            if has_cycle(lists) {
                let walk = choose|walk: Seq<int>| is_cycle(lists, walk);
                lemma_descending(lists, self.fin@, self.order@, walk, walk.len() - 1);
            }
        }
        false
    }

    /// Searches from `v`, a vertex that the search has not entered, reached
    /// on an edge from the last vertex of `stack`.
    fn dfs<G: Graph>(&mut self, graph: &G, v: Index, Ghost(stack): Ghost<Seq<int>>) -> (found:
        bool)
        requires
            graph.wf(),
            old(self).inv(graph.lists(), stack),
            v < graph.lists().len(),
            !old(self).seen[v as int],
            stack.len() > 0 ==> has_edge(graph.lists(), stack.last(), v as int),
        ensures
            found ==> has_cycle(graph.lists()),
            !found ==> final(self).inv(graph.lists(), stack),
            !found ==> final(self).fin[v as int],
            !found ==> forall|x: int|
                0 <= x < graph.lists().len() && old(self).seen[x] ==> final(self).seen[x],
            !found ==> forall|x: int|
                0 <= x < graph.lists().len() && old(self).fin[x] ==> final(self).fin[x],
            !found ==> unseen(final(self).seen@, graph.lists().len() as int) < unseen(
                old(self).seen@,
                graph.lists().len() as int,
            ),
        decreases unseen(old(self).seen@, graph.lists().len() as int),
    {
        let ghost lists = graph.lists();
        let ghost n = lists.len() as int;
        let ghost seen0 = self.seen@;
        let ghost fin0 = self.fin@;
        let ghost path = stack.push(v as int);
        proof {
            lemma_unseen_mark(self.seen@, v as int);
            assert(unseen(self.seen@.update(v as int, true), n) + 1 == unseen(self.seen@, n));
            assert(!stack.contains(v as int));
        }
        self.seen[v as usize] = true;
        proof {
            assert(is_chain(lists, path)) by {
                assert forall|i: int| 0 <= i < path.len() - 1 implies #[trigger] has_edge(
                    lists,
                    path[i],
                    path[i + 1],
                ) by {
                    if i < stack.len() - 1 {
                        assert(has_edge(lists, stack[i], stack[i + 1]));
                    }
                }
            }
            assert forall|x: int| 0 <= x < n implies ((#[trigger] self.seen[x] && !self.fin[x])
                <==> path.contains(x)) by {
                if x == v {
                    assert(path[stack.len() as int] == x);
                } else {
                    if stack.contains(x) {
                        let k = choose|k: int| 0 <= k < stack.len() && stack[k] == x;
                        assert(path[k] == x);
                    }
                    if path.contains(x) {
                        let k = choose|k: int| 0 <= k < path.len() && path[k] == x;
                        assert(stack[k] == x);
                    }
                }
            }
        }
        let list = graph.adjacent(v);
        let mut e: usize = 0;
        while e < list.len()
            invariant
                graph.wf(),
                lists == graph.lists(),
                n == lists.len(),
                v < n,
                path == stack.push(v as int),
                list@ == lists[v as int],
                e <= list.len(),
                self.inv(lists, path),
                seen0 == old(self).seen@,
                fin0 == old(self).fin@,
                seen0.len() == n,
                fin0.len() == n,
                forall|x: int| 0 <= x < n && seen0[x] ==> self.seen[x],
                forall|x: int| 0 <= x < n && fin0[x] ==> self.fin[x],
                unseen(self.seen@, n) < unseen(seen0, n),
                edges_finished(lists, self.fin@, self.order@, v as int, e as int, self.clock@),
            decreases list.len() - e,
        {
            let u: Index = list[e].0;
            proof {
                assert(lists[v as int][e as int].0 == u);
                assert(has_edge(lists, v as int, u as int));
            }
            if !self.fin[u as usize] {
                if self.seen[u as usize] {
                    proof {
                        assert(path.contains(u as int));
                        let k = choose|k: int| 0 <= k < path.len() && path[k] == u as int;
                        let walk = path.subrange(k, path.len() as int).push(u as int);
                        assert(is_cycle(lists, walk)) by {
                            assert forall|i: int| 0 <= i < walk.len() - 1 implies #[trigger] has_edge(
                                lists,
                                walk[i],
                                walk[i + 1],
                            ) by {
                                if i < walk.len() - 2 {
                                    assert(has_edge(lists, path[k + i], path[k + i + 1]));
                                } else {
                                    assert(walk[i] == v);
                                }
                            }
                            assert(walk[0] == path[k]);
                        }
                    }
                    return true;
                }
                let ghost fin1 = self.fin@;
                proof {
                    assert(unseen(self.seen@, graph.lists().len() as int) < unseen(
                        old(self).seen@,
                        graph.lists().len() as int,
                    ));
                    assert(path.last() == v);
                }
                if self.dfs(graph, u, Ghost(path)) {
                    return true;
                }
                proof {
                    assert forall|f: int| 0 <= f < e implies self.fin[(#[trigger] lists[v as int][f]).0 as int]
                        && self.order@[lists[v as int][f].0 as int] < self.clock@ by {
                        assert(fin1[lists[v as int][f].0 as int]);
                    }
                }
            }
            proof {
                assert(self.fin[u as int]);
                assert(edges_finished(lists, self.fin@, self.order@, v as int, e + 1, self.clock@));
            }
            e += 1;
        }
        let ghost fin2 = self.fin@;
        let ghost order2 = self.order@;
        proof {
            assert(path[stack.len() as int] == v);
            assert(path.contains(v as int));
            assert(self.seen[v as int] && !self.fin[v as int]);
        }
        self.fin[v as usize] = true;
        proof {
            self.order@ = order2.update(v as int, self.clock@);
            self.clock@ = self.clock@ + 1;
            assert forall|x: int| 0 <= x < n && #[trigger] self.fin[x] implies edges_finished(
                lists,
                self.fin@,
                self.order@,
                x,
                lists[x].len() as int,
                self.order@[x],
            ) by {
                if x != v {
                    assert(edges_finished(lists, fin2, order2, x, lists[x].len() as int, order2[x]));
                    assert forall|f: int| 0 <= f < lists[x].len() implies self.fin[(
                    #[trigger] lists[x][f]).0 as int] && self.order@[lists[x][f].0 as int]
                        < self.order@[x] by {
                        let t = lists[x][f].0 as int;
                        assert(fin2[t]);
                        assert(t != v);
                    }
                } else {
                    assert forall|f: int| 0 <= f < lists[x].len() implies self.fin[(
                    #[trigger] lists[x][f]).0 as int] && self.order@[lists[x][f].0 as int]
                        < self.order@[x] by {
                        let t = lists[x][f].0 as int;
                        assert(fin2[t]);
                        assert(t != v);
                    }
                }
            }
            assert forall|x: int| 0 <= x < n implies ((#[trigger] self.seen[x] && !self.fin[x])
                <==> stack.contains(x)) by {
                if x != v {
                    if stack.contains(x) {
                        let k = choose|k: int| 0 <= k < stack.len() && stack[k] == x;
                        assert(path[k] == x);
                    }
                    if path.contains(x) {
                        let k = choose|k: int| 0 <= k < path.len() && path[k] == x;
                        assert(stack[k] == x);
                    }
                }
            }
            assert(is_chain(lists, stack)) by {
                assert forall|i: int| 0 <= i < stack.len() - 1 implies #[trigger] has_edge(
                    lists,
                    stack[i],
                    stack[i + 1],
                ) by {
                    assert(has_edge(lists, path[i], path[i + 1]));
                }
                assert forall|i: int| 0 <= i < stack.len() implies 0 <= #[trigger] stack[i] < n by {
                    assert(path[i] == stack[i]);
                }
            }
        }
        false
    }
}

/// Along a walk among vertices that the search has left, each vertex was
/// left before the one before it.
proof fn lemma_descending<W>(
    lists: Seq<Seq<(Index, W)>>,
    fin: Seq<bool>,
    order: Seq<nat>,
    walk: Seq<int>,
    i: int,
)
    requires
        is_walk(lists, walk),
        0 <= i < walk.len(),
        fin.len() == lists.len(),
        order.len() == lists.len(),
        forall|x: int| 0 <= x < lists.len() ==> #[trigger] fin[x],
        forall|x: int|
            0 <= x < lists.len() && #[trigger] fin[x] ==> edges_finished(
                lists,
                fin,
                order,
                x,
                lists[x].len() as int,
                order[x],
            ),
    ensures
        order[walk[i]] + i <= order[walk[0]],
    decreases i,
{
    if i > 0 {
        lemma_descending(lists, fin, order, walk, i - 1);
        assert(has_edge(lists, walk[i - 1], walk[i - 1 + 1]));
        let x = walk[i - 1];
        let e = choose|e: int| 0 <= e < lists[x].len() && (#[trigger] lists[x][e]).0 == walk[i];
        assert(fin[x]);
        assert(edges_finished(lists, fin, order, x, lists[x].len() as int, order[x]));
    }
}

/// Whether the directed graph `graph` has a cycle.
pub fn cycle_detection<G: Graph>(graph: &G) -> (found: bool)
    requires
        graph.wf(),
        graph.directed(),
    ensures
        found <==> has_cycle(graph.lists()),
{
    let mut dfs = DFS::new(graph);
    dfs.run(graph)
}

} // verus!

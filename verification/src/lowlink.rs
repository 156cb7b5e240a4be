//! Bridges and articulation points of an undirected graph, by depth-first
//! search with low links.
//!
//! The search gives every vertex its depth in the search tree, and its low
//! link: the least depth that an edge from the vertex or from a vertex
//! below it in the tree reaches, the edge to the parent aside.

use vstd::prelude::*;
use crate::graph::{
    UndirectedGraph,
    Index,
    targets_below,
    has_edge,
    is_walk,
    reaches,
    symmetric,
    unseen,
    lemma_unseen_mark,
    lemma_unseen_bound,
};

verus! {

/// The number that stands for the parent of a root of the search.
pub const ROOT: u32 = 0x4000_0000;

/// What a search has found: the bridges and the articulation points of the
/// part of the graph that it has gone through.
pub struct LowLink {
    seen: Vec<bool>,
    ord: Vec<u32>,
    low: Vec<u32>,
    articulation_points: Vec<u32>,
    bridges: Vec<(u32, u32)>,
    notes: Ghost<Notes>,
}

/// Whether each of the pairs joins two different vertices of the graph, the
/// lesser first, between which there is an edge.
pub open spec fn are_edges<W>(lists: Seq<Seq<(Index, W)>>, pairs: Seq<(u32, u32)>) -> bool {
    forall|i: int|
        0 <= i < pairs.len() ==> (#[trigger] pairs[i]).0 < pairs[i].1 < lists.len() && (has_edge(
            lists,
            pairs[i].0 as int,
            pairs[i].1 as int,
        ) || has_edge(lists, pairs[i].1 as int, pairs[i].0 as int))
}

/// Whether each of the numbers is a vertex of the graph.
pub open spec fn are_vertices(n: int, points: Seq<u32>) -> bool {
    forall|i: int| 0 <= i < points.len() ==> (#[trigger] points[i]) < n
}

/// Whether the step `i` of the walk leads from `a` to `b` or from `b` to
/// `a`.
pub open spec fn step_joins(walk: Seq<int>, a: int, b: int, i: int) -> bool {
    (walk[i] == a && walk[i + 1] == b) || (walk[i] == b && walk[i + 1] == a)
}

/// Whether the walk takes a step from `a` to `b` or from `b` to `a`.
pub open spec fn steps_over(walk: Seq<int>, a: int, b: int) -> bool {
    exists|i: int| 0 <= i < walk.len() - 1 && #[trigger] step_joins(walk, a, b, i)
}

/// Whether the walk leads from `a` to `b` or from `b` to `a`.
pub open spec fn joins(walk: Seq<int>, a: int, b: int) -> bool {
    (walk[0] == a && walk.last() == b) || (walk[0] == b && walk.last() == a)
}

/// Whether `a` and `b` are the ends of a bridge: an edge joins them, and
/// no walk leads from one to the other but over a step between the two.
/// With the edges between `a` and `b` taken away, no walk joins them.
pub open spec fn is_bridge<W>(lists: Seq<Seq<(Index, W)>>, a: int, b: int) -> bool {
    &&& 0 <= a < lists.len()
    &&& 0 <= b < lists.len()
    &&& has_edge(lists, a, b) || has_edge(lists, b, a)
    &&& forall|walk: Seq<int>| #[trigger] is_walk(lists, walk) && joins(walk, a, b) ==> steps_over(walk, a, b)
}

/// Whether the pair of `a` and `b` stands in `pairs`.
pub open spec fn listed(pairs: Seq<(u32, u32)>, a: int, b: int) -> bool {
    exists|i: int| 0 <= i < pairs.len() && (#[trigger] pairs[i]).0 == a && pairs[i].1 == b
}

/// Whether `pairs` holds the bridges of the graph, each with its lesser end
/// first, and nothing else.
pub open spec fn finds_bridges<W>(lists: Seq<Seq<(Index, W)>>, pairs: Seq<(u32, u32)>) -> bool {
    forall|a: int, b: int|
        #![trigger listed(pairs, a, b)]
        #![trigger is_bridge(lists, a, b)]
        listed(pairs, a, b) <==> a < b && is_bridge(lists, a, b)
}

/// Whether the lists are those of an undirected graph that has no vertex
/// of the number that stands for the parent of a root: with every edge
/// they hold the edge back.
pub open spec fn undirected<W>(lists: Seq<Seq<(Index, W)>>) -> bool {
    symmetric(lists) && lists.len() <= ROOT
}

/// What the search notes of the vertices beside their depths and low
/// links.
struct Notes {
    /// For each vertex that the search has entered, the vertex from which
    /// it entered it; -1 for a vertex at which a search began.
    par: Seq<int>,
    /// For each vertex that the search has entered, the number of vertices
    /// that it had left then.
    enter: Seq<int>,
    /// For each vertex that the search has left, the number of vertices
    /// that it had left before; -1 for the others.
    exit: Seq<int>,
    /// The number of vertices that the search has left.
    clock: int,
    /// For each vertex with a low link less than its depth, the source of
    /// an edge that gives it.
    wx: Seq<int>,
    /// And the target of that edge.
    wy: Seq<int>,
}

/// The state of a search.
struct Trace {
    seen: Seq<bool>,
    ord: Seq<u32>,
    low: Seq<u32>,
    bridges: Seq<(u32, u32)>,
    notes: Notes,
}

impl Trace {
    /// Whether the search has left `x`.
    spec fn fin(self, x: int) -> bool {
        self.notes.exit[x] >= 0
    }

    /// Whether the search left `x` while it was in `u`, or `x` is `u`.
    spec fn inside(self, u: int, x: int) -> bool {
        &&& 0 <= x < self.seen.len()
        &&& self.fin(x)
        &&& self.notes.enter[u] <= self.notes.exit[x] <= self.notes.exit[u]
    }

    /// Whether the pair of `a` and `b`, the lesser first, is listed as a
    /// bridge, or the two are not the ends of a bridge.
    spec fn covered<W>(self, lists: Seq<Seq<(Index, W)>>, a: int, b: int) -> bool {
        ||| !is_bridge(lists, a, b)
        ||| (a < b && listed(self.bridges, a, b))
        ||| (b < a && listed(self.bridges, b, a))
    }

    /// The sequences have an entry for each vertex, and the times are in
    /// their ranges.
    spec fn shape(self, n: int) -> bool {
        &&& self.seen.len() == n
        &&& self.ord.len() == n
        &&& self.low.len() == n
        &&& self.notes.par.len() == n
        &&& self.notes.enter.len() == n
        &&& self.notes.exit.len() == n
        &&& self.notes.wx.len() == n
        &&& self.notes.wy.len() == n
        &&& 0 <= self.notes.clock
        &&& forall|x: int| 0 <= x < n ==> -1 <= #[trigger] self.notes.exit[x] < self.notes.clock
        &&& forall|x: int|
            0 <= x < n && #[trigger] self.seen[x] ==> 0 <= self.notes.enter[x] <= self.notes.clock && -1
                <= self.notes.par[x] < n
        &&& forall|x: int|
            0 <= x < n && #[trigger] self.fin(x) ==> self.seen[x] && self.notes.enter[x]
                <= self.notes.exit[x]
    }

    /// An edge leads from the parent of a vertex to the vertex, which is
    /// one deeper.
    spec fn tree<W>(self, lists: Seq<Seq<(Index, W)>>) -> bool {
        forall|x: int|
            0 <= x < lists.len() && self.seen[x] && #[trigger] self.notes.par[x] >= 0
                ==> self.seen[self.notes.par[x]] && has_edge(lists, self.notes.par[x], x)
                && self.ord[x] == self.ord[self.notes.par[x]] + 1
    }

    /// The vertices that the search has entered and not left are those of
    /// `stack`, each at the place of its depth and the parent of the next.
    spec fn chain(self, stack: Seq<int>) -> bool {
        &&& forall|i: int|
            0 <= i < stack.len() ==> 0 <= #[trigger] stack[i] < self.seen.len() && self.seen[stack[i]]
                && !self.fin(stack[i]) && self.ord[stack[i]] == i
        &&& stack.len() > 0 ==> self.notes.par[stack[0]] == -1
        &&& forall|i: int, j: int|
            0 <= i && j == i + 1 && j < stack.len() ==> self.notes.par[#[trigger] stack[j]]
                == #[trigger] stack[i]
        &&& forall|x: int|
            0 <= x < self.seen.len() && #[trigger] self.seen[x] && !self.fin(x) ==> self.ord[x]
                < stack.len() && stack[self.ord[x] as int] == x
    }

    /// Every edge of a vertex that the search has left leads to a vertex
    /// that the search had entered when it left the first.
    spec fn closed<W>(self, lists: Seq<Seq<(Index, W)>>) -> bool {
        forall|x: int, e: int|
            0 <= x < lists.len() && self.fin(x) && 0 <= e < lists[x].len() ==> self.seen[(
            #[trigger] lists[x][e]).0 as int] && self.notes.enter[lists[x][e].0 as int]
                <= self.notes.exit[x]
    }

    /// What the search left while it was in a vertex, it entered then, at a
    /// depth no less; and the parent of such a vertex is another such
    /// vertex, or that vertex.
    spec fn nested(self) -> bool {
        &&& forall|u: int, x: int|
            0 <= u < self.seen.len() && self.fin(u) && #[trigger] self.inside(u, x)
                ==> self.notes.enter[x] >= self.notes.enter[u] && self.ord[x] >= self.ord[u]
        &&& forall|u: int, x: int|
            #![trigger self.inside(u, x), self.notes.par[x]]
            0 <= u < self.seen.len() && self.fin(u) && self.inside(u, x) && x != u
                ==> self.notes.par[x] >= 0 && self.inside(u, self.notes.par[x])
    }

    /// Whether the noted edge gives the low link of `u`.
    spec fn witnessed<W>(self, lists: Seq<Seq<(Index, W)>>, u: int) -> bool {
        let x = self.notes.wx[u];
        let y = self.notes.wy[u];
        &&& self.inside(u, x)
        &&& 0 <= y < lists.len()
        &&& has_edge(lists, x, y)
        &&& !(x == u && y == self.notes.par[u])
        &&& self.seen[y]
        &&& self.ord[y] == self.low[u]
    }

    /// Whether the edge `e` of `x`, a vertex that the search left while it
    /// was in `u`, stays among these vertices, or is the edge from `u` to
    /// its parent, or leads no higher than the low link of `u`.
    spec fn bounded<W>(self, lists: Seq<Seq<(Index, W)>>, u: int, x: int, e: int) -> bool {
        let y = lists[x][e].0 as int;
        ||| self.inside(u, y)
        ||| (x == u && y == self.notes.par[u])
        ||| self.ord[y] >= self.low[u]
    }

    /// The low link of a vertex is at most its depth. That of a vertex
    /// that the search has left is at most the depth that any edge reaches
    /// from the vertices that the search left while it was in that vertex,
    /// the edge to its parent aside; and it is that depth, or such an edge
    /// reaches it.
    spec fn lows<W>(self, lists: Seq<Seq<(Index, W)>>) -> bool {
        &&& forall|u: int| 0 <= u < lists.len() && #[trigger] self.seen[u] ==> self.low[u] <= self.ord[u]
        &&& forall|u: int, x: int, e: int|
            0 <= u < lists.len() && self.fin(u) && self.inside(u, x) && 0 <= e < lists[x].len()
                ==> #[trigger] self.bounded(lists, u, x, e)
        &&& forall|u: int|
            0 <= u < lists.len() && #[trigger] self.fin(u) && self.low[u] < self.ord[u]
                ==> self.witnessed(lists, u)
    }

    /// Every listed pair is a bridge. Of every edge of a vertex that the
    /// search has left it is decided whether it is a bridge, the edge to
    /// the parent aside; and of that one too, unless the vertex is `pend`.
    spec fn decided<W>(self, lists: Seq<Seq<(Index, W)>>, pend: int) -> bool {
        &&& forall|i: int|
            0 <= i < self.bridges.len() ==> (#[trigger] self.bridges[i]).0 < self.bridges[i].1
                && is_bridge(lists, self.bridges[i].0 as int, self.bridges[i].1 as int)
        &&& forall|u: int, e: int|
            0 <= u < lists.len() && self.fin(u) && 0 <= e < lists[u].len() ==> (#[trigger] lists[u][e]).0
                == self.notes.par[u] || self.covered(lists, u, lists[u][e].0 as int)
        &&& forall|u: int|
            0 <= u < lists.len() && #[trigger] self.fin(u) && self.notes.par[u] >= 0 && u != pend
                ==> self.covered(lists, u, self.notes.par[u])
    }

    /// What holds of a search of an undirected graph at the vertices of
    /// `stack`, where the edge from `pend` to its parent is not decided.
    spec fn deep<W>(self, lists: Seq<Seq<(Index, W)>>, stack: Seq<int>, pend: int) -> bool {
        &&& undirected(lists)
        &&& targets_below(lists, lists.len() as int)
        &&& self.shape(lists.len() as int)
        &&& self.tree(lists)
        &&& self.chain(stack)
        &&& self.closed(lists)
        &&& self.nested()
        &&& self.lows(lists)
        &&& self.decided(lists, pend)
    }
}

/// Where a walk leads into or out of the vertices that the search left
/// while it was in `u`.
proof fn lemma_crossing<W>(t: Trace, lists: Seq<Seq<(Index, W)>>, u: int, walk: Seq<int>, a: int, b: int) -> (i: int)
    requires
        is_walk(lists, walk),
        0 <= a <= b < walk.len(),
        t.inside(u, walk[a]) != t.inside(u, walk[b]),
    ensures
        a <= i < b,
        t.inside(u, walk[i]) == t.inside(u, walk[a]),
        t.inside(u, walk[i]) != t.inside(u, walk[i + 1]),
    decreases b - a,
{
    if t.inside(u, walk[a]) != t.inside(u, walk[a + 1]) {
        a
    } else {
        lemma_crossing(t, lists, u, walk, a + 1, b)
    }
}

/// A walk down the search tree from `u` to `x`, a vertex that the search
/// left while it was in `u`: it stays among these vertices.
proof fn lemma_tree_walk<W>(t: Trace, lists: Seq<Seq<(Index, W)>>, u: int, x: int) -> (walk: Seq<int>)
    requires
        t.shape(lists.len() as int),
        t.tree(lists),
        t.nested(),
        0 <= u < lists.len(),
        t.fin(u),
        t.inside(u, x),
    ensures
        is_walk(lists, walk),
        walk[0] == u,
        walk.last() == x,
        forall|i: int| 0 <= i < walk.len() ==> t.inside(u, #[trigger] walk[i]),
    decreases t.ord[x] - t.ord[u],
{
    if x == u {
        seq![u]
    } else {
        let p = t.notes.par[x];
        assert(t.inside(u, p));
        assert(t.seen[x]);
        assert(t.ord[p] >= t.ord[u]);
        let before = lemma_tree_walk(t, lists, u, p);
        let walk = before.push(x);
        assert forall|i: int| 0 <= i < walk.len() - 1 implies #[trigger] has_edge(
            lists,
            walk[i],
            walk[i + 1],
        ) by {
            if i < before.len() - 1 {
                assert(has_edge(lists, before[i], before[i + 1]));
            }
        }
        walk
    }
}

/// The vertices of the stack from the place `i` on are a walk.
proof fn lemma_stack_walk<W>(t: Trace, lists: Seq<Seq<(Index, W)>>, stack: Seq<int>, i: int) -> (walk: Seq<int>)
    requires
        t.shape(lists.len() as int),
        t.tree(lists),
        t.chain(stack),
        0 <= i < stack.len(),
    ensures
        is_walk(lists, walk),
        walk == stack.skip(i),
{
    let walk = stack.skip(i);
    assert forall|k: int| 0 <= k < walk.len() - 1 implies #[trigger] has_edge(
        lists,
        walk[k],
        walk[k + 1],
    ) by {
        assert(stack[i + k + 1] == walk[k + 1]);
        assert(stack[i + k] == walk[k]);
        assert(t.notes.par[stack[i + k + 1]] == stack[i + k]);
        assert(t.seen[stack[i + k + 1]]);
    }
    walk
}

/// Two walks and an edge from the end of the first to the start of the
/// second make a walk.
proof fn lemma_walk_join<W>(lists: Seq<Seq<(Index, W)>>, first: Seq<int>, second: Seq<int>)
    requires
        is_walk(lists, first),
        is_walk(lists, second),
        has_edge(lists, first.last(), second[0]),
    ensures
        is_walk(lists, first + second),
{
    let walk = first + second;
    assert forall|i: int| 0 <= i < walk.len() - 1 implies #[trigger] has_edge(
        lists,
        walk[i],
        walk[i + 1],
    ) by {
        if i < first.len() - 1 {
            assert(has_edge(lists, first[i], first[i + 1]));
        } else if i >= first.len() {
            let k = i - first.len();
            assert(has_edge(lists, second[k], second[k + 1]));
        }
    }
}

impl Trace {
    /// Whether the search has left `x` since it entered `v`.
    spec fn below(self, v: int, x: int) -> bool {
        0 <= x < self.seen.len() && self.fin(x) && self.notes.exit[x] >= self.notes.enter[v]
    }

    /// Whether the edge `e` of `x`, a vertex that the search has left since
    /// it entered `v`, leads to such a vertex or to `v`, or no higher than
    /// the low link of `v`.
    spec fn kept<W>(self, lists: Seq<Seq<(Index, W)>>, v: int, x: int, e: int) -> bool {
        let y = lists[x][e].0 as int;
        self.below(v, y) || y == v || self.ord[y] >= self.low[v]
    }

    /// Whether the search has looked at the edge `e` of `v`.
    spec fn tried<W>(self, lists: Seq<Seq<(Index, W)>>, v: int, e: int) -> bool {
        let y = lists[v][e].0 as int;
        &&& self.seen[y]
        &&& (self.below(v, y) || y == self.notes.par[v] || self.ord[y] >= self.low[v])
        &&& (y == self.notes.par[v] || self.covered(lists, v, y))
    }

    /// Whether the noted edge gives the low link of `v`, a vertex that the
    /// search has not left.
    spec fn witnessed_so_far<W>(self, lists: Seq<Seq<(Index, W)>>, v: int) -> bool {
        let x = self.notes.wx[v];
        let y = self.notes.wy[v];
        &&& (x == v || self.below(v, x))
        &&& 0 <= y < lists.len()
        &&& has_edge(lists, x, y)
        &&& !(x == v && y == self.notes.par[v])
        &&& self.seen[y]
        &&& self.ord[y] == self.low[v]
    }

    /// What holds while the search is in `v` and has looked at the first
    /// `e` edges of `v`.
    spec fn visiting<W>(self, lists: Seq<Seq<(Index, W)>>, v: int, e: int) -> bool {
        &&& 0 <= v < lists.len()
        &&& self.seen[v]
        &&& !self.fin(v)
        &&& forall|x: int| #[trigger]
            self.below(v, x) ==> self.notes.enter[x] >= self.notes.enter[v] && self.ord[x]
                > self.ord[v]
        &&& forall|x: int|
            #![trigger self.below(v, x), self.notes.par[x]]
            self.below(v, x) ==> self.notes.par[x] == v || (self.notes.par[x] >= 0 && self.below(
                v,
                self.notes.par[x],
            ))
        &&& forall|x: int, f: int|
            self.below(v, x) && 0 <= f < lists[x].len() ==> #[trigger] self.kept(lists, v, x, f)
        &&& forall|f: int| 0 <= f < e ==> #[trigger] self.tried(lists, v, f)
        &&& self.low[v] < self.ord[v] ==> self.witnessed_so_far(lists, v)
    }

    /// The state after the search has entered `v` from `p` at the depth
    /// `cnt`.
    spec fn entered(self, v: int, cnt: u32, p: int) -> Trace {
        Trace {
            seen: self.seen.update(v, true),
            ord: self.ord.update(v, cnt),
            low: self.low.update(v, cnt),
            bridges: self.bridges,
            notes: Notes {
                par: self.notes.par.update(v, p),
                enter: self.notes.enter.update(v, self.notes.clock),
                exit: self.notes.exit,
                clock: self.notes.clock,
                wx: self.notes.wx,
                wy: self.notes.wy,
            },
        }
    }

    /// The state after the low link of `v` is set to `reach`, which the
    /// edge from `x` to `y` gives.
    spec fn lowered(self, v: int, reach: u32, x: int, y: int) -> Trace {
        Trace {
            seen: self.seen,
            ord: self.ord,
            low: self.low.update(v, reach),
            bridges: self.bridges,
            notes: Notes {
                par: self.notes.par,
                enter: self.notes.enter,
                exit: self.notes.exit,
                clock: self.notes.clock,
                wx: self.notes.wx.update(v, x),
                wy: self.notes.wy.update(v, y),
            },
        }
    }

    /// The state with one more listed pair.
    spec fn reported(self, pair: (u32, u32)) -> Trace {
        Trace {
            seen: self.seen,
            ord: self.ord,
            low: self.low,
            bridges: self.bridges.push(pair),
            notes: self.notes,
        }
    }

    /// The state after the search has left `v`.
    spec fn left(self, v: int) -> Trace {
        Trace {
            seen: self.seen,
            ord: self.ord,
            low: self.low,
            bridges: self.bridges,
            notes: Notes {
                par: self.notes.par,
                enter: self.notes.enter,
                exit: self.notes.exit.update(v, self.notes.clock),
                clock: self.notes.clock + 1,
                wx: self.notes.wx,
                wy: self.notes.wy,
            },
        }
    }

    /// Whether the two states say the same of `x`.
    spec fn same_at(self, other: Trace, x: int) -> bool {
        &&& self.seen[x] == other.seen[x]
        &&& self.ord[x] == other.ord[x]
        &&& self.low[x] == other.low[x]
        &&& self.notes.par[x] == other.notes.par[x]
        &&& self.notes.enter[x] == other.notes.enter[x]
        &&& self.notes.exit[x] == other.notes.exit[x]
        &&& self.notes.wx[x] == other.notes.wx[x]
        &&& self.notes.wy[x] == other.notes.wy[x]
    }
}

/// Being the ends of a bridge does not depend on the order of the two.
proof fn lemma_bridge_turned<W>(lists: Seq<Seq<(Index, W)>>, a: int, b: int)
    ensures
        is_bridge(lists, a, b) == is_bridge(lists, b, a),
{
    assert forall|walk: Seq<int>| joins(walk, a, b) == joins(walk, b, a) by {}
    assert forall|walk: Seq<int>| steps_over(walk, a, b) == steps_over(walk, b, a) by {
        if steps_over(walk, a, b) {
            let i = choose|i: int| 0 <= i < walk.len() - 1 && #[trigger] step_joins(walk, a, b, i);
            assert(step_joins(walk, b, a, i));
        }
        if steps_over(walk, b, a) {
            let i = choose|i: int| 0 <= i < walk.len() - 1 && #[trigger] step_joins(walk, b, a, i);
            assert(step_joins(walk, a, b, i));
        }
    }
}

/// A walk that joins `a` and `b` without a step between the two shows
/// that they are not the ends of a bridge.
proof fn lemma_other_way<W>(lists: Seq<Seq<(Index, W)>>, walk: Seq<int>, a: int, b: int)
    requires
        is_walk(lists, walk),
        joins(walk, a, b),
        forall|i: int| 0 <= i < walk.len() - 1 ==> !#[trigger] step_joins(walk, a, b, i),
    ensures
        !is_bridge(lists, a, b),
        !is_bridge(lists, b, a),
{
    lemma_bridge_turned(lists, a, b);
}

/// A vertex to which an edge leads from a vertex that the search left
/// while it was in `u`, and which the search did not leave then, is one
/// that the search has entered and not left.
proof fn lemma_leads_up<W>(
    t: Trace,
    lists: Seq<Seq<(Index, W)>>,
    stack: Seq<int>,
    pend: int,
    u: int,
    x: int,
    y: int,
)
    requires
        t.deep(lists, stack, pend),
        0 <= u < lists.len(),
        t.fin(u),
        t.notes.exit[u] == t.notes.clock - 1,
        t.inside(u, x),
        0 <= y < lists.len(),
        has_edge(lists, x, y),
        !t.inside(u, y),
    ensures
        t.seen[y],
        !t.fin(y),
        t.ord[y] < stack.len(),
        stack[t.ord[y] as int] == y,
{
    let e = choose|e: int| 0 <= e < lists[x].len() && (#[trigger] lists[x][e]).0 == y;
    assert(t.seen[lists[x][e].0 as int]);
    if t.fin(y) {
        assert(t.notes.exit[y] < t.notes.enter[u]);
        assert(has_edge(lists, lists[x][e].0 as int, x));
        let f = choose|f: int| 0 <= f < lists[y].len() && (#[trigger] lists[y][f]).0 == x;
        assert(t.notes.enter[lists[y][f].0 as int] <= t.notes.exit[y]);
        assert(t.notes.enter[x] >= t.notes.enter[u]);
    }
}

/// When the search comes back to `v` from `u` with a low link greater
/// than the depth of `v`, the two are the ends of a bridge.
proof fn lemma_bridge<W>(t: Trace, lists: Seq<Seq<(Index, W)>>, stack: Seq<int>, v: int, u: int)
    requires
        t.deep(lists, stack, u),
        stack.len() > 0,
        stack.last() == v,
        0 <= u < lists.len(),
        t.fin(u),
        t.notes.exit[u] == t.notes.clock - 1,
        t.notes.par[u] == v,
        t.ord[v] < t.low[u],
    ensures
        is_bridge(lists, u, v),
        is_bridge(lists, v, u),
{
    lemma_bridge_turned(lists, u, v);
    assert(0 <= stack[stack.len() - 1] < lists.len());
    assert(t.seen[u]);
    assert(has_edge(lists, v, u));
    assert(t.inside(u, u));
    assert(!t.inside(u, v));
    assert forall|walk: Seq<int>| #[trigger] is_walk(lists, walk) && joins(walk, u, v) implies steps_over(
        walk,
        u,
        v,
    ) by {
        let i = lemma_crossing(t, lists, u, walk, 0, walk.len() - 1);
        let p = walk[i];
        let q = walk[i + 1];
        assert(has_edge(lists, walk[i], walk[i + 1]));
        if t.inside(u, p) {
            lemma_only_way(t, lists, stack, v, u, p, q);
        } else {
            let e = choose|e: int| 0 <= e < lists[p].len() && (#[trigger] lists[p][e]).0 == q;
            assert(has_edge(lists, lists[p][e].0 as int, p));
            lemma_only_way(t, lists, stack, v, u, q, p);
        }
        assert(step_joins(walk, u, v, i));
    }
}

/// When the search comes back to `v` from `u` with a low link greater
/// than the depth of `v`, the only edge that leads out of the vertices that
/// the search left while it was in `u` is the one from `u` to `v`.
proof fn lemma_only_way<W>(
    t: Trace,
    lists: Seq<Seq<(Index, W)>>,
    stack: Seq<int>,
    v: int,
    u: int,
    x: int,
    y: int,
)
    requires
        t.deep(lists, stack, u),
        stack.len() > 0,
        stack.last() == v,
        0 <= u < lists.len(),
        t.fin(u),
        t.notes.exit[u] == t.notes.clock - 1,
        t.notes.par[u] == v,
        t.ord[v] < t.low[u],
        t.inside(u, x),
        0 <= y < lists.len(),
        has_edge(lists, x, y),
        !t.inside(u, y),
    ensures
        x == u,
        y == v,
{
    let e = choose|e: int| 0 <= e < lists[x].len() && (#[trigger] lists[x][e]).0 == y;
    assert(t.bounded(lists, u, x, e));
    if !(x == u && y == v) {
        lemma_leads_up(t, lists, stack, u, u, x, y);
        assert(t.ord[stack[stack.len() - 1]] == stack.len() - 1);
    }
}

/// When the search comes back to `v` from `u` with a low link that is at
/// most the depth of `v`, the two are not the ends of a bridge: a walk
/// leads down the tree from `u`, over the edge that gives the low link,
/// and along the stack to `v`.
proof fn lemma_no_bridge<W>(t: Trace, lists: Seq<Seq<(Index, W)>>, stack: Seq<int>, v: int, u: int)
    requires
        t.deep(lists, stack, u),
        stack.len() > 0,
        stack.last() == v,
        0 <= u < lists.len(),
        t.fin(u),
        t.notes.exit[u] == t.notes.clock - 1,
        t.notes.par[u] == v,
        t.low[u] <= t.ord[v],
    ensures
        !is_bridge(lists, u, v),
        !is_bridge(lists, v, u),
{
    let last = stack.len() - 1;
    assert(0 <= stack[last] < lists.len() && t.ord[stack[last]] == last);
    assert(t.seen[u]);
    assert(t.ord[u] == t.ord[v] + 1);
    assert(t.witnessed(lists, u));
    let x = t.notes.wx[u];
    let y = t.notes.wy[u];
    assert(t.inside(u, u));
    if t.inside(u, y) {
        assert(t.ord[y] >= t.ord[u]);
    }
    lemma_leads_up(t, lists, stack, u, u, x, y);
    let down = lemma_tree_walk(t, lists, u, x);
    let up = lemma_stack_walk(t, lists, stack, t.ord[y] as int);
    let walk = down + up;
    lemma_walk_join(lists, down, up);
    assert(walk[0] == u);
    assert(walk.last() == up.last());
    assert(up.last() == stack[last]);
    assert forall|i: int| 0 <= i < walk.len() - 1 implies !#[trigger] step_joins(walk, u, v, i) by {
        if i < down.len() - 1 {
            assert(t.inside(u, down[i]) && t.inside(u, down[i + 1]));
        } else if i == down.len() - 1 {
            assert(walk[i] == x && walk[i + 1] == y);
        } else {
            let k = i - down.len();
            assert(walk[i] == stack[t.ord[y] + k]);
            assert(walk[i + 1] == stack[t.ord[y] + k + 1]);
            assert(!t.fin(stack[t.ord[y] + k]) && !t.fin(stack[t.ord[y] + k + 1]));
        }
    }
    lemma_other_way(lists, walk, u, v);
}

/// A vertex `u` on the stack to which an edge leads from `v`, the top of
/// the stack, and which is not the parent of `v`, is not the other end of
/// a bridge from `v`.
proof fn lemma_back_edge<W>(t: Trace, lists: Seq<Seq<(Index, W)>>, stack: Seq<int>, v: int, u: int)
    requires
        t.deep(lists, stack, -1),
        stack.len() > 0,
        stack.last() == v,
        0 <= u < lists.len(),
        t.seen[u],
        !t.fin(u),
        u != t.notes.par[v],
    ensures
        !is_bridge(lists, v, u),
{
    let last = stack.len() - 1;
    assert(0 <= stack[last] < lists.len() && t.ord[stack[last]] == last);
    let walk = lemma_stack_walk(t, lists, stack, t.ord[u] as int);
    assert(walk[0] == u && walk.last() == v);
    assert forall|i: int| 0 <= i < walk.len() - 1 implies !#[trigger] step_joins(walk, v, u, i) by {
        let k = t.ord[u] + i;
        assert(walk[i] == stack[k] && walk[i + 1] == stack[k + 1]);
        assert(t.ord[stack[k]] == k && t.ord[stack[k + 1]] == k + 1);
        assert(t.notes.par[stack[k + 1]] == stack[k]);
    }
    lemma_other_way(lists, walk, v, u);
}

/// A vertex is not the end of a bridge to itself.
proof fn lemma_loop<W>(lists: Seq<Seq<(Index, W)>>, v: int)
    requires
        0 <= v < lists.len(),
    ensures
        !is_bridge(lists, v, v),
{
    let walk = seq![v];
    assert(is_walk(lists, walk));
    assert(joins(walk, v, v));
    assert(!steps_over(walk, v, v));
}

/// What is decided of an edge is decided of the edge back.
proof fn lemma_covered_turned<W>(t: Trace, lists: Seq<Seq<(Index, W)>>, a: int, b: int)
    ensures
        t.covered(lists, a, b) == t.covered(lists, b, a),
{
    lemma_bridge_turned(lists, a, b);
}

/// Entering a vertex keeps what holds of the search.
proof fn lemma_enter<W>(t: Trace, lists: Seq<Seq<(Index, W)>>, stack: Seq<int>, v: int, cnt: u32, p: int)
    requires
        t.deep(lists, stack, -1),
        0 <= v < lists.len(),
        !t.seen[v],
        cnt == stack.len(),
        p == (if stack.len() > 0 {
            stack.last()
        } else {
            -1
        }),
        stack.len() > 0 ==> has_edge(lists, stack.last(), v),
    ensures
        t.entered(v, cnt, p).deep(lists, stack.push(v), -1),
        t.entered(v, cnt, p).visiting(lists, v, 0),
{
    let t1 = t.entered(v, cnt, p);
    let stack1 = stack.push(v);
    let n = lists.len() as int;
    assert(!t.fin(v));
    assert forall|x: int| 0 <= x < n implies t1.fin(x) == t.fin(x) by {}
    assert forall|u: int, x: int| 0 <= u < n && t.fin(u) implies t1.inside(u, x) == t.inside(u, x) by {
        assert(t.seen[u]);
    }
    assert(t1.shape(n)) by {
        if stack.len() > 0 {
            assert(0 <= stack[stack.len() - 1] < n);
        }
    }
    assert(t1.tree(lists)) by {
        if stack.len() > 0 {
            let top = stack[stack.len() - 1];
            assert(t.seen[top] && t.ord[top] == stack.len() - 1);
        }
        assert forall|x: int|
            0 <= x < lists.len() && t1.seen[x] && #[trigger] t1.notes.par[x] >= 0 implies t1.seen[t1.notes.par[x]]
            && has_edge(lists, t1.notes.par[x], x) && t1.ord[x] == t1.ord[t1.notes.par[x]] + 1 by {
            if x != v {
                assert(t.notes.par[x] >= 0);
                assert(t.seen[t.notes.par[x]]);
            }
        }
    }
    assert(t1.chain(stack1)) by {
        assert forall|i: int| 0 <= i < stack1.len() implies 0 <= #[trigger] stack1[i] < t1.seen.len()
            && t1.seen[stack1[i]] && !t1.fin(stack1[i]) && t1.ord[stack1[i]] == i by {
            if i < stack.len() {
                assert(stack1[i] == stack[i]);
                assert(t.seen[stack[i]]);
            }
        }
        if stack.len() > 0 {
            assert(stack1[0] == stack[0]);
            assert(t.seen[stack[0]]);
        }
        assert forall|i: int, j: int| 0 <= i && j == i + 1 && j < stack1.len() implies t1.notes.par[#[trigger] stack1[j]]
            == #[trigger] stack1[i] by {
            assert(stack1[i] == stack[i]);
            if j < stack.len() {
                assert(stack1[j] == stack[j]);
                assert(t.seen[stack[j]]);
                assert(t.notes.par[stack[j]] == stack[i]);
            }
        }
        assert forall|x: int| 0 <= x < t1.seen.len() && #[trigger] t1.seen[x] && !t1.fin(x) implies t1.ord[x]
            < stack1.len() && stack1[t1.ord[x] as int] == x by {
            if x != v {
                assert(t.seen[x]);
            }
        }
    }
    assert(t1.closed(lists)) by {
        assert forall|x: int, e: int| 0 <= x < lists.len() && t1.fin(x) && 0 <= e < lists[x].len() implies t1.seen[(
        #[trigger] lists[x][e]).0 as int] && t1.notes.enter[lists[x][e].0 as int] <= t1.notes.exit[x] by {
            assert(t.seen[lists[x][e].0 as int]);
        }
    }
    assert(t1.nested()) by {
        assert forall|u: int, x: int| 0 <= u < t1.seen.len() && t1.fin(u) && #[trigger] t1.inside(u, x) implies t1.notes.enter[x]
            >= t1.notes.enter[u] && t1.ord[x] >= t1.ord[u] by {
            assert(t.inside(u, x));
            assert(t.seen[u] && t.seen[x]);
        }
        assert forall|u: int, x: int|
            #![trigger t1.inside(u, x), t1.notes.par[x]]
            0 <= u < t1.seen.len() && t1.fin(u) && t1.inside(u, x) && x != u implies t1.notes.par[x] >= 0
            && t1.inside(u, t1.notes.par[x]) by {
            assert(t.inside(u, x));
            assert(t.seen[u] && t.seen[x]);
            assert(t.notes.par[x] >= 0 && t.inside(u, t.notes.par[x]));
        }
    }
    assert(t1.lows(lists)) by {
        assert forall|u: int| 0 <= u < lists.len() && #[trigger] t1.seen[u] implies t1.low[u] <= t1.ord[u] by {
            if u != v {
                assert(t.seen[u]);
            }
        }
        assert forall|u: int, x: int, e: int|
            0 <= u < lists.len() && t1.fin(u) && t1.inside(u, x) && 0 <= e < lists[x].len() implies #[trigger] t1.bounded(
            lists,
            u,
            x,
            e,
        ) by {
            assert(t.inside(u, x));
            assert(t.bounded(lists, u, x, e));
            assert(t.seen[lists[x][e].0 as int]);
            assert(t.seen[u]);
        }
        assert forall|u: int| 0 <= u < lists.len() && #[trigger] t1.fin(u) && t1.low[u] < t1.ord[u] implies t1.witnessed(
            lists,
            u,
        ) by {
            assert(t.fin(u) && t.seen[u]);
            assert(t.witnessed(lists, u));
        }
    }
    assert(t1.decided(lists, -1)) by {
        assert forall|u: int, e: int| 0 <= u < lists.len() && t1.fin(u) && 0 <= e < lists[u].len() implies (
        #[trigger] lists[u][e]).0 == t1.notes.par[u] || t1.covered(lists, u, lists[u][e].0 as int) by {
            assert(t.fin(u) && t.seen[u]);
            assert(lists[u][e].0 == t.notes.par[u] || t.covered(lists, u, lists[u][e].0 as int));
        }
        assert forall|u: int|
            0 <= u < lists.len() && #[trigger] t1.fin(u) && t1.notes.par[u] >= 0 implies t1.covered(
            lists,
            u,
            t1.notes.par[u],
        ) by {
            assert(t.fin(u) && t.seen[u]);
            assert(t.covered(lists, u, t.notes.par[u]));
        }
    }
    assert(t1.visiting(lists, v, 0)) by {
        assert forall|x: int| !#[trigger] t1.below(v, x) by {
            if 0 <= x < n {
                assert(t.notes.exit[x] < t.notes.clock);
            }
        }
    }
}

/// What is decided of the edge from `v`, the top of the stack, to a vertex
/// `u` that the search has entered and that is not the parent of `v`.
proof fn lemma_seen_target<W>(t: Trace, lists: Seq<Seq<(Index, W)>>, stack: Seq<int>, v: int, u: int)
    requires
        t.deep(lists, stack, -1),
        stack.len() > 0,
        stack.last() == v,
        0 <= u < lists.len(),
        has_edge(lists, v, u),
        t.seen[u],
        u != t.notes.par[v],
    ensures
        t.covered(lists, v, u),
{
    assert(0 <= stack[stack.len() - 1] < lists.len());
    if u == v {
        lemma_loop(lists, v);
    } else if t.fin(u) {
        let e = choose|e: int| 0 <= e < lists[v].len() && (#[trigger] lists[v][e]).0 == u;
        assert(has_edge(lists, lists[v][e].0 as int, v));
        let f = choose|f: int| 0 <= f < lists[u].len() && (#[trigger] lists[u][f]).0 == v;
        assert(lists[u][f].0 == t.notes.par[u] || t.covered(lists, u, lists[u][f].0 as int));
        if v == t.notes.par[u] {
            assert(t.covered(lists, u, t.notes.par[u]));
        }
        lemma_covered_turned(t, lists, u, v);
    } else {
        lemma_back_edge(t, lists, stack, v, u);
    }
}

/// The state after the search has looked at the edge `e` of `v`, which
/// leads to a vertex that it has entered.
spec fn after_seen<W>(t: Trace, lists: Seq<Seq<(Index, W)>>, v: int, e: int) -> Trace {
    let u = lists[v][e].0 as int;
    if u != t.notes.par[v] && t.ord[u] < t.low[v] {
        t.lowered(v, t.ord[u], v, u)
    } else {
        t
    }
}

/// Looking at an edge to a vertex that the search has entered keeps what
/// holds of the search.
proof fn lemma_seen_edge<W>(t: Trace, lists: Seq<Seq<(Index, W)>>, stack: Seq<int>, v: int, e: int)
    requires
        t.deep(lists, stack, -1),
        t.visiting(lists, v, e),
        stack.len() > 0,
        stack.last() == v,
        0 <= e < lists[v].len(),
        t.seen[lists[v][e].0 as int],
    ensures
        after_seen(t, lists, v, e).deep(lists, stack, -1),
        after_seen(t, lists, v, e).visiting(lists, v, e + 1),
{
    let u = lists[v][e].0 as int;
    let t1 = after_seen(t, lists, v, e);
    assert(has_edge(lists, v, u));
    if u != t.notes.par[v] {
        lemma_seen_target(t, lists, stack, v, u);
    }
    if t1 != t {
        lemma_lowered_deep(t, lists, stack, -1, v, t.ord[u], v, u);
        lemma_lowered_visiting(t, lists, v, e, t.ord[u], v, u);
    }
    assert(t1.tried(lists, v, e));
    assert forall|f: int| 0 <= f < e + 1 implies #[trigger] t1.tried(lists, v, f) by {
        if f < e {
            assert(t.tried(lists, v, f));
        }
    }
}

/// A lesser low link of `v`, a vertex that the search has not left, keeps
/// what holds of the search.
proof fn lemma_lowered_deep<W>(
    t: Trace,
    lists: Seq<Seq<(Index, W)>>,
    stack: Seq<int>,
    pend: int,
    v: int,
    reach: u32,
    x: int,
    y: int,
)
    requires
        t.deep(lists, stack, pend),
        0 <= v < lists.len(),
        t.seen[v],
        !t.fin(v),
        reach <= t.low[v],
    ensures
        t.lowered(v, reach, x, y).deep(lists, stack, pend),
{
    let t1 = t.lowered(v, reach, x, y);
    assert(t.low[v] <= t.ord[v]);
    assert forall|x: int| t1.fin(x) == t.fin(x) by {}
    assert forall|u: int, x: int| t1.inside(u, x) == t.inside(u, x) by {}
    assert forall|u: int, x: int| t1.inside(u, x) == t.inside(u, x) by {}
    assert forall|a: int, b: int| t1.covered(lists, a, b) == t.covered(lists, a, b) by {}
    assert(t1.lows(lists)) by {
        assert forall|u: int, x: int, f: int|
            0 <= u < lists.len() && t1.fin(u) && t1.inside(u, x) && 0 <= f < lists[x].len() implies #[trigger] t1.bounded(
            lists,
            u,
            x,
            f,
        ) by {
            assert(t.bounded(lists, u, x, f));
        }
        assert forall|u: int| 0 <= u < lists.len() && #[trigger] t1.fin(u) && t1.low[u] < t1.ord[u] implies t1.witnessed(
            lists,
            u,
        ) by {
            assert(t.fin(u));
            assert(t.witnessed(lists, u));
        }
    }
}

/// A lesser low link of `v`, with an edge that gives it, keeps what holds
/// while the search is in `v`.
proof fn lemma_lowered_visiting<W>(
    t: Trace,
    lists: Seq<Seq<(Index, W)>>,
    v: int,
    e: int,
    reach: u32,
    x: int,
    y: int,
)
    requires
        t.visiting(lists, v, e),
        reach <= t.low[v],
        t.low.len() == lists.len(),
        t.notes.wx.len() == lists.len(),
        t.notes.wy.len() == lists.len(),
        t.lowered(v, reach, x, y).witnessed_so_far(lists, v),
    ensures
        t.lowered(v, reach, x, y).visiting(lists, v, e),
{
    let t1 = t.lowered(v, reach, x, y);
    assert forall|x: int| t1.below(v, x) == t.below(v, x) by {}
    assert forall|a: int, b: int| t1.covered(lists, a, b) == t.covered(lists, a, b) by {}
    assert forall|x: int, f: int| t1.below(v, x) && 0 <= f < lists[x].len() implies #[trigger] t1.kept(
        lists,
        v,
        x,
        f,
    ) by {
        assert(t.kept(lists, v, x, f));
    }
    assert forall|f: int| 0 <= f < e implies #[trigger] t1.tried(lists, v, f) by {
        assert(t.tried(lists, v, f));
    }
}

/// The pair of two vertices, the lesser first.
spec fn pair_of(u: int, v: int) -> (u32, u32) {
    if u < v {
        (u as u32, v as u32)
    } else {
        (v as u32, u as u32)
    }
}

/// Listing a bridge keeps what holds of the search, and decides its edge.
proof fn lemma_reported_deep<W>(
    t: Trace,
    lists: Seq<Seq<(Index, W)>>,
    stack: Seq<int>,
    pend: int,
    u: int,
    v: int,
)
    requires
        t.deep(lists, stack, pend),
        is_bridge(lists, u, v),
        u != v,
    ensures
        t.reported(pair_of(u, v)).deep(lists, stack, pend),
        t.reported(pair_of(u, v)).covered(lists, u, v),
        forall|a: int, b: int| t.covered(lists, a, b) ==> t.reported(pair_of(u, v)).covered(lists, a, b),
{
    let t1 = t.reported(pair_of(u, v));
    lemma_bridge_turned(lists, u, v);
    lemma_listed_more(t.bridges, pair_of(u, v));
    assert forall|x: int| t1.fin(x) == t.fin(x) by {}
    assert forall|u: int, x: int| t1.inside(u, x) == t.inside(u, x) by {}
    assert(t1.lows(lists)) by {
        assert forall|u: int, x: int, f: int|
            0 <= u < lists.len() && t1.fin(u) && t1.inside(u, x) && 0 <= f < lists[x].len() implies #[trigger] t1.bounded(
            lists,
            u,
            x,
            f,
        ) by {
            assert(t.bounded(lists, u, x, f));
        }
        assert forall|u: int| 0 <= u < lists.len() && #[trigger] t1.fin(u) && t1.low[u] < t1.ord[u] implies t1.witnessed(
            lists,
            u,
        ) by {
            assert(t.fin(u));
            assert(t.witnessed(lists, u));
        }
    }
    assert(t1.decided(lists, pend)) by {
        assert forall|i: int| 0 <= i < t1.bridges.len() implies (#[trigger] t1.bridges[i]).0 < t1.bridges[i].1
            && is_bridge(lists, t1.bridges[i].0 as int, t1.bridges[i].1 as int) by {
            if i < t.bridges.len() {
                assert(t1.bridges[i] == t.bridges[i]);
            }
        }
        assert forall|a: int, e: int| 0 <= a < lists.len() && t1.fin(a) && 0 <= e < lists[a].len() implies (
        #[trigger] lists[a][e]).0 == t1.notes.par[a] || t1.covered(lists, a, lists[a][e].0 as int) by {
            assert(lists[a][e].0 == t.notes.par[a] || t.covered(lists, a, lists[a][e].0 as int));
        }
        assert forall|a: int|
            0 <= a < lists.len() && #[trigger] t1.fin(a) && t1.notes.par[a] >= 0 && a != pend implies t1.covered(
            lists,
            a,
            t1.notes.par[a],
        ) by {
            assert(t.fin(a));
            assert(t.covered(lists, a, t.notes.par[a]));
        }
    }
}

/// What is listed stays listed when a pair is added, and the added pair is
/// listed.
proof fn lemma_listed_more(pairs: Seq<(u32, u32)>, pair: (u32, u32))
    ensures
        listed(pairs.push(pair), pair.0 as int, pair.1 as int),
        forall|a: int, b: int| listed(pairs, a, b) ==> listed(pairs.push(pair), a, b),
{
    let more = pairs.push(pair);
    assert(more[pairs.len() as int] == pair);
    assert forall|a: int, b: int| listed(pairs, a, b) implies listed(more, a, b) by {
        let i = choose|i: int| 0 <= i < pairs.len() && (#[trigger] pairs[i]).0 == a && pairs[i].1 == b;
        assert(more[i] == pairs[i]);
    }
}

/// When the edge from `u` to its parent is decided, no edge is left to
/// decide.
proof fn lemma_resolve<W>(t: Trace, lists: Seq<Seq<(Index, W)>>, stack: Seq<int>, u: int)
    requires
        t.deep(lists, stack, u),
        0 <= u < lists.len() && t.notes.par[u] >= 0 ==> t.covered(lists, u, t.notes.par[u]),
    ensures
        t.deep(lists, stack, -1),
{
}

/// The state after the search has come back to `v` from the target of the
/// edge `e`: the low link of `v` is no greater than that of the target.
spec fn after_child<W>(t: Trace, lists: Seq<Seq<(Index, W)>>, v: int, e: int) -> Trace {
    let u = lists[v][e].0 as int;
    if t.low[u] < t.low[v] {
        t.lowered(v, t.low[u], t.notes.wx[u], t.notes.wy[u])
    } else {
        t
    }
}

/// And the edge is listed if it is a bridge.
spec fn after_return<W>(t: Trace, lists: Seq<Seq<(Index, W)>>, v: int, e: int) -> Trace {
    let u = lists[v][e].0 as int;
    if t.ord[v] < t.low[u] {
        after_child(t, lists, v, e).reported(pair_of(u, v))
    } else {
        after_child(t, lists, v, e)
    }
}

/// Coming back from the target of an edge keeps what holds of the search.
proof fn lemma_return_deep<W>(t1: Trace, lists: Seq<Seq<(Index, W)>>, stack: Seq<int>, v: int, e: int)
    requires
        stack.len() > 0,
        stack.last() == v,
        0 <= e < lists[v].len(),
        t1.deep(lists, stack, lists[v][e].0 as int),
        t1.fin(lists[v][e].0 as int),
        t1.notes.exit[lists[v][e].0 as int] == t1.notes.clock - 1,
        t1.notes.par[lists[v][e].0 as int] == v,
    ensures
        after_return(t1, lists, v, e).deep(lists, stack, -1),
        after_return(t1, lists, v, e).covered(lists, v, lists[v][e].0 as int),
        forall|a: int, b: int| t1.covered(lists, a, b) ==> after_return(t1, lists, v, e).covered(lists, a, b),
{
    let u = lists[v][e].0 as int;
    let t2 = after_child(t1, lists, v, e);
    let t3 = after_return(t1, lists, v, e);
    assert(0 <= stack[stack.len() - 1] < lists.len());
    assert(t1.seen[v] && !t1.fin(v));
    assert(u != v);
    if t2 != t1 {
        lemma_lowered_deep(t1, lists, stack, u, v, t1.low[u], t1.notes.wx[u], t1.notes.wy[u]);
    }
    assert forall|a: int, b: int| t2.covered(lists, a, b) == t1.covered(lists, a, b) by {}
    if t1.ord[v] < t1.low[u] {
        lemma_bridge(t1, lists, stack, v, u);
        lemma_reported_deep(t2, lists, stack, u, u, v);
    } else {
        lemma_no_bridge(t1, lists, stack, v, u);
    }
    lemma_covered_turned(t3, lists, u, v);
    lemma_resolve(t3, lists, stack, u);
}

/// Coming back from the target of an edge keeps what holds while the
/// search is in `v`.
proof fn lemma_return_visiting<W>(
    t0: Trace,
    t1: Trace,
    lists: Seq<Seq<(Index, W)>>,
    stack: Seq<int>,
    v: int,
    e: int,
)
    requires
        t0.deep(lists, stack, -1),
        t0.visiting(lists, v, e),
        stack.len() > 0,
        stack.last() == v,
        0 <= e < lists[v].len(),
        !t0.seen[lists[v][e].0 as int],
        t0.grown(t1),
        t1.deep(lists, stack, lists[v][e].0 as int),
        t1.fin(lists[v][e].0 as int),
        t1.notes.exit[lists[v][e].0 as int] == t1.notes.clock - 1,
        t1.notes.enter[lists[v][e].0 as int] == t0.notes.clock,
        t1.notes.par[lists[v][e].0 as int] == v,
    ensures
        after_return(t1, lists, v, e).visiting(lists, v, e + 1),
{
    let u = lists[v][e].0 as int;
    let t2 = after_child(t1, lists, v, e);
    let t3 = after_return(t1, lists, v, e);
    let n = lists.len() as int;
    lemma_return_deep(t1, lists, stack, v, e);
    assert(t1.same_at(t0, v));
    assert(t1.seen[u]);
    assert(t1.ord[u] == t1.ord[v] + 1);
    assert(t1.inside(u, u));
    assert forall|x: int| 0 <= x < n && t0.seen[x] implies t1.same_at(t0, x) by {}
    assert forall|x: int| 0 <= x < n && t1.fin(x) && !t0.fin(x) implies t1.inside(u, x) by {
        if t0.seen[x] {
            assert(t1.same_at(t0, x));
        }
        assert(t1.seen[x]);
    }
    assert forall|x: int| t3.below(v, x) == t1.below(v, x) by {}
    assert forall|x: int| t0.below(v, x) implies t1.below(v, x) && t1.same_at(t0, x) by {
        assert(t0.seen[x]);
    }
    assert forall|x: int| #[trigger] t3.below(v, x) implies t3.notes.enter[x] >= t3.notes.enter[v]
        && t3.ord[x] > t3.ord[v] by {
        if t0.fin(x) {
            assert(t0.seen[x]);
            assert(t0.below(v, x));
        } else {
            assert(t1.inside(u, x));
        }
    }
    assert forall|x: int|
        #![trigger t3.below(v, x), t3.notes.par[x]]
        t3.below(v, x) implies t3.notes.par[x] == v || (t3.notes.par[x] >= 0 && t3.below(
        v,
        t3.notes.par[x],
    )) by {
        if t0.fin(x) {
            assert(t0.seen[x]);
            assert(t0.below(v, x));
            if t0.notes.par[x] != v {
                assert(t0.below(v, t0.notes.par[x]));
                assert(t1.below(v, t0.notes.par[x]));
            }
        } else {
            assert(t1.inside(u, x));
            if x != u {
                assert(t1.inside(u, t1.notes.par[x]));
                assert(t1.below(v, t1.notes.par[x]));
            }
        }
    }
    assert forall|x: int, f: int| t3.below(v, x) && 0 <= f < lists[x].len() implies #[trigger] t3.kept(
        lists,
        v,
        x,
        f,
    ) by {
        let y = lists[x][f].0 as int;
        if t0.fin(x) {
            assert(t0.seen[x]);
            assert(t0.below(v, x));
            assert(t0.kept(lists, v, x, f));
            assert(t0.seen[y]);
            assert(t1.same_at(t0, y));
            if t0.below(v, y) {
                assert(t1.below(v, y));
            }
        } else {
            assert(t1.inside(u, x));
            assert(t1.bounded(lists, u, x, f));
            if t1.inside(u, y) {
                assert(t1.below(v, y));
            }
        }
    }
    assert forall|f: int| 0 <= f < e + 1 implies #[trigger] t3.tried(lists, v, f) by {
        let y = lists[v][f].0 as int;
        if f < e {
            assert(t0.tried(lists, v, f));
            assert(t1.same_at(t0, y));
            if t0.below(v, y) {
                assert(t1.below(v, y));
            }
            if y != t0.notes.par[v] {
                lemma_covered_more(t0, t1, lists, v, y);
            }
        } else {
            assert(t1.below(v, u));
        }
    }
    if t3.low[v] < t3.ord[v] {
        if t2 != t1 {
            assert(t1.witnessed(lists, u));
            assert(t1.below(v, t1.notes.wx[u]));
        } else {
            assert(t0.witnessed_so_far(lists, v));
            let x = t0.notes.wx[v];
            let y = t0.notes.wy[v];
            assert(t1.same_at(t0, y));
            if x != v {
                assert(t1.below(v, x));
            }
        }
    }
}

/// What was decided stays decided.
proof fn lemma_covered_more<W>(t0: Trace, t1: Trace, lists: Seq<Seq<(Index, W)>>, a: int, b: int)
    requires
        t0.bridges.len() <= t1.bridges.len(),
        forall|i: int| 0 <= i < t0.bridges.len() ==> #[trigger] t1.bridges[i] == t0.bridges[i],
        t0.covered(lists, a, b),
    ensures
        t1.covered(lists, a, b),
{
    if listed(t0.bridges, a, b) {
        let i = choose|i: int| 0 <= i < t0.bridges.len() && (#[trigger] t0.bridges[i]).0 == a && t0.bridges[i].1 == b;
        assert(t1.bridges[i] == t0.bridges[i]);
    }
    if listed(t0.bridges, b, a) {
        let i = choose|i: int| 0 <= i < t0.bridges.len() && (#[trigger] t0.bridges[i]).0 == b && t0.bridges[i].1 == a;
        assert(t1.bridges[i] == t0.bridges[i]);
    }
}

/// Leaving a vertex keeps what holds of the search.
proof fn lemma_leave<W>(t: Trace, lists: Seq<Seq<(Index, W)>>, stack: Seq<int>, v: int)
    requires
        t.deep(lists, stack, -1),
        t.visiting(lists, v, lists[v].len() as int),
        stack.len() > 0,
        stack.last() == v,
    ensures
        t.left(v).deep(lists, stack.drop_last(), v),
        t.notes.par[v] < 0 ==> t.left(v).deep(lists, stack.drop_last(), -1),
{
    let t1 = t.left(v);
    let rest = stack.drop_last();
    let n = lists.len() as int;
    assert(t.ord[stack[stack.len() - 1]] == stack.len() - 1);
    assert forall|x: int| 0 <= x < n implies t1.fin(x) == (t.fin(x) || x == v) by {}
    assert forall|u: int, x: int| 0 <= u < n && u != v && t.fin(u) implies t1.inside(u, x) == t.inside(u, x) by {
        assert(t.notes.exit[u] < t.notes.clock);
    }
    assert forall|x: int| t1.inside(v, x) == (x == v || t.below(v, x)) by {
        if 0 <= x < n {
            assert(t.notes.exit[x] < t.notes.clock);
        }
    }
    assert(t1.shape(n));
    assert(t1.tree(lists));
    assert(t1.chain(rest)) by {
        assert forall|i: int| 0 <= i < rest.len() implies 0 <= #[trigger] rest[i] < t1.seen.len()
            && t1.seen[rest[i]] && !t1.fin(rest[i]) && t1.ord[rest[i]] == i by {
            assert(rest[i] == stack[i]);
            assert(t.ord[stack[i]] == i);
        }
        if rest.len() > 0 {
            assert(rest[0] == stack[0]);
        }
        assert forall|i: int, j: int| 0 <= i && j == i + 1 && j < rest.len() implies t1.notes.par[#[trigger] rest[j]]
            == #[trigger] rest[i] by {
            assert(rest[i] == stack[i] && rest[j] == stack[j]);
        }
        assert forall|x: int| 0 <= x < t1.seen.len() && #[trigger] t1.seen[x] && !t1.fin(x) implies t1.ord[x]
            < rest.len() && rest[t1.ord[x] as int] == x by {
            assert(t.seen[x] && !t.fin(x));
        }
    }
    assert(t1.closed(lists)) by {
        assert forall|x: int, e: int| 0 <= x < lists.len() && t1.fin(x) && 0 <= e < lists[x].len() implies t1.seen[(
        #[trigger] lists[x][e]).0 as int] && t1.notes.enter[lists[x][e].0 as int] <= t1.notes.exit[x] by {
            if x == v {
                assert(t.tried(lists, v, e));
                assert(t.seen[lists[x][e].0 as int]);
            } else {
                assert(t.fin(x));
            }
        }
    }
    assert(t1.nested()) by {
        assert forall|u: int, x: int| 0 <= u < t1.seen.len() && t1.fin(u) && #[trigger] t1.inside(u, x) implies t1.notes.enter[x]
            >= t1.notes.enter[u] && t1.ord[x] >= t1.ord[u] by {
            if u == v {
                if x != v {
                    assert(t.below(v, x));
                }
            } else {
                assert(t.inside(u, x));
            }
        }
        assert forall|u: int, x: int|
            #![trigger t1.inside(u, x), t1.notes.par[x]]
            0 <= u < t1.seen.len() && t1.fin(u) && t1.inside(u, x) && x != u implies t1.notes.par[x] >= 0
            && t1.inside(u, t1.notes.par[x]) by {
            if u == v {
                assert(t.below(v, x));
                assert(t.notes.par[x] == v || (t.notes.par[x] >= 0 && t.below(v, t.notes.par[x])));
            } else {
                assert(t.inside(u, x));
                assert(t.notes.par[x] >= 0 && t.inside(u, t.notes.par[x]));
            }
        }
    }
    assert(t1.lows(lists)) by {
        assert forall|u: int, x: int, e: int|
            0 <= u < lists.len() && t1.fin(u) && t1.inside(u, x) && 0 <= e < lists[x].len() implies #[trigger] t1.bounded(
            lists,
            u,
            x,
            e,
        ) by {
            let y = lists[x][e].0 as int;
            if u == v {
                if x == v {
                    assert(t.tried(lists, v, e));
                } else {
                    assert(t.below(v, x));
                    assert(t.kept(lists, v, x, e));
                }
            } else {
                assert(t.inside(u, x));
                assert(t.bounded(lists, u, x, e));
            }
        }
        assert forall|u: int| 0 <= u < lists.len() && #[trigger] t1.fin(u) && t1.low[u] < t1.ord[u] implies t1.witnessed(
            lists,
            u,
        ) by {
            if u == v {
                assert(t.witnessed_so_far(lists, v));
            } else {
                assert(t.fin(u));
                assert(t.witnessed(lists, u));
            }
        }
    }
    assert forall|a: int, b: int| t1.covered(lists, a, b) == t.covered(lists, a, b) by {}
    assert(t1.decided(lists, v)) by {
        assert forall|u: int, e: int| 0 <= u < lists.len() && t1.fin(u) && 0 <= e < lists[u].len() implies (
        #[trigger] lists[u][e]).0 == t1.notes.par[u] || t1.covered(lists, u, lists[u][e].0 as int) by {
            if u == v {
                assert(t.tried(lists, v, e));
            } else {
                assert(t.fin(u));
                assert(lists[u][e].0 == t.notes.par[u] || t.covered(lists, u, lists[u][e].0 as int));
            }
        }
        assert forall|u: int|
            0 <= u < lists.len() && #[trigger] t1.fin(u) && t1.notes.par[u] >= 0 && u != v implies t1.covered(
            lists,
            u,
            t1.notes.par[u],
        ) by {
            assert(t.fin(u));
            assert(t.covered(lists, u, t.notes.par[u]));
        }
    }
}

/// Whether the walk does not pass `v`.
pub open spec fn avoids(walk: Seq<int>, v: int) -> bool {
    forall|i: int| 0 <= i < walk.len() ==> #[trigger] walk[i] != v
}

/// Whether a walk that does not pass `v` leads from `a` to `b`.
pub open spec fn link<W>(lists: Seq<Seq<(Index, W)>>, v: int, a: int, b: int) -> bool {
    exists|walk: Seq<int>| #[trigger]
        is_walk(lists, walk) && walk[0] == a && walk.last() == b && avoids(walk, v)
}

/// Whether `v` separates `a` from `b`: the two are other vertices, a walk
/// leads from one to the other, and every such walk passes `v`.
pub open spec fn separates<W>(lists: Seq<Seq<(Index, W)>>, v: int, a: int, b: int) -> bool {
    &&& a != v
    &&& b != v
    &&& reaches(lists, a, b)
    &&& !link(lists, v, a, b)
}

/// Whether `v` is an articulation point: a vertex that separates two
/// others. With `v` taken away, no walk joins them.
pub open spec fn is_articulation_point<W>(lists: Seq<Seq<(Index, W)>>, v: int) -> bool {
    &&& 0 <= v < lists.len()
    &&& exists|a: int, b: int| #[trigger] separates(lists, v, a, b)
}

/// Whether `v` stands in `points`.
pub open spec fn has_point(points: Seq<u32>, v: int) -> bool {
    exists|i: int| 0 <= i < points.len() && #[trigger] points[i] == v
}

/// Whether `points` holds the articulation points of the graph, and
/// nothing else.
pub open spec fn finds_points<W>(lists: Seq<Seq<(Index, W)>>, points: Seq<u32>) -> bool {
    forall|v: int|
        #![trigger has_point(points, v)]
        #![trigger is_articulation_point(lists, v)]
        has_point(points, v) <==> is_articulation_point(lists, v)
}

/// Two vertices that an edge joins are linked round any other.
proof fn lemma_link_edge<W>(lists: Seq<Seq<(Index, W)>>, v: int, a: int, b: int)
    requires
        0 <= a < lists.len(),
        0 <= b < lists.len(),
        a != v,
        b != v,
        has_edge(lists, a, b),
    ensures
        link(lists, v, a, b),
{
    let walk = seq![a, b];
    assert(has_edge(lists, walk[0], walk[1]));
    assert(is_walk(lists, walk) && walk[0] == a && walk.last() == b && avoids(walk, v));
}

/// Links follow one another.
proof fn lemma_link_trans<W>(lists: Seq<Seq<(Index, W)>>, v: int, a: int, b: int, c: int)
    requires
        link(lists, v, a, b),
        link(lists, v, b, c),
    ensures
        link(lists, v, a, c),
{
    let first = choose|walk: Seq<int>| #[trigger]
        is_walk(lists, walk) && walk[0] == a && walk.last() == b && avoids(walk, v);
    let second = choose|walk: Seq<int>| #[trigger]
        is_walk(lists, walk) && walk[0] == b && walk.last() == c && avoids(walk, v);
    let walk = first + second.skip(1);
    assert forall|i: int| 0 <= i < walk.len() - 1 implies #[trigger] has_edge(
        lists,
        walk[i],
        walk[i + 1],
    ) by {
        if i < first.len() - 1 {
            assert(has_edge(lists, first[i], first[i + 1]));
        } else {
            let k = i - (first.len() - 1);
            assert(has_edge(lists, second[k], second[k + 1]));
        }
    }
    assert forall|i: int| 0 <= i < walk.len() implies #[trigger] walk[i] != v by {
        if i < first.len() {
            assert(first[i] != v);
        } else {
            assert(second[i - first.len() + 1] != v);
        }
    }
    assert(is_walk(lists, walk) && walk[0] == a && walk.last() == c && avoids(walk, v));
}

/// In an undirected graph a link can be gone the other way.
proof fn lemma_link_turned<W>(lists: Seq<Seq<(Index, W)>>, v: int, a: int, b: int)
    requires
        symmetric(lists),
        link(lists, v, a, b),
    ensures
        link(lists, v, b, a),
{
    let walk = choose|walk: Seq<int>| #[trigger]
        is_walk(lists, walk) && walk[0] == a && walk.last() == b && avoids(walk, v);
    let m = walk.len() as int;
    let back = Seq::new(walk.len(), |i: int| walk[m - 1 - i]);
    assert forall|i: int| 0 <= i < back.len() - 1 implies #[trigger] has_edge(
        lists,
        back[i],
        back[i + 1],
    ) by {
        let k = m - 2 - i;
        assert(has_edge(lists, walk[k], walk[k + 1]));
        let e = choose|e: int| 0 <= e < lists[walk[k]].len() && (#[trigger] lists[walk[k]][e]).0 == walk[k + 1];
        assert(has_edge(lists, lists[walk[k]][e].0 as int, walk[k]));
    }
    assert forall|i: int| 0 <= i < back.len() implies #[trigger] back[i] != v by {
        assert(walk[m - 1 - i] != v);
    }
    assert(is_walk(lists, back) && back[0] == b && back.last() == a && avoids(back, v));
}

/// The start of a walk that passes `v` is linked, round `v`, to a vertex
/// from which an edge leads to `v`, unless it is `v`.
proof fn lemma_first_pass<W>(lists: Seq<Seq<(Index, W)>>, v: int, walk: Seq<int>, upto: int) -> (y: int)
    requires
        is_walk(lists, walk),
        0 < upto < walk.len(),
        walk[upto] == v,
        walk[0] != v,
    ensures
        0 <= y < lists.len(),
        y != v,
        has_edge(lists, y, v),
        link(lists, v, walk[0], y),
    decreases upto,
{
    if exists|i: int| 0 < i < upto && walk[i] == v {
        let i = choose|i: int| 0 < i < upto && walk[i] == v;
        lemma_first_pass(lists, v, walk, i)
    } else {
        let head = walk.take(upto);
        assert forall|i: int| 0 <= i < head.len() - 1 implies #[trigger] has_edge(
            lists,
            head[i],
            head[i + 1],
        ) by {
            assert(has_edge(lists, walk[i], walk[i + 1]));
        }
        assert forall|i: int| 0 <= i < head.len() implies #[trigger] head[i] != v by {
            assert(head[i] == walk[i]);
        }
        assert(is_walk(lists, head) && head[0] == walk[0] && head.last() == walk[upto - 1] && avoids(
            head,
            v,
        ));
        assert(has_edge(lists, walk[upto - 1], walk[upto - 1 + 1]));
        walk[upto - 1]
    }
}

/// A vertex `v` round which every vertex that an edge joins to it is
/// linked to `h` is no articulation point.
proof fn lemma_hub<W>(lists: Seq<Seq<(Index, W)>>, v: int, h: int)
    requires
        symmetric(lists),
        0 <= v < lists.len(),
        forall|y: int| 0 <= y < lists.len() && y != v && #[trigger] has_edge(lists, y, v) ==> link(lists, v, y, h),
    ensures
        !is_articulation_point(lists, v),
{
    assert forall|a: int, b: int| !#[trigger] separates(lists, v, a, b) by {
        if a != v && b != v && reaches(lists, a, b) && !link(lists, v, a, b) {
            let walk = choose|walk: Seq<int>| #[trigger] is_walk(lists, walk) && walk[0] == a && walk.last() == b;
            if avoids(walk, v) {
                assert(link(lists, v, a, b));
            } else {
                let i = choose|i: int| 0 <= i < walk.len() && walk[i] == v;
                let y = lemma_first_pass(lists, v, walk, i);
                let m = walk.len() as int;
                let back = Seq::new(walk.len(), |k: int| walk[m - 1 - k]);
                assert forall|k: int| 0 <= k < back.len() - 1 implies #[trigger] has_edge(
                    lists,
                    back[k],
                    back[k + 1],
                ) by {
                    let j = m - 2 - k;
                    assert(has_edge(lists, walk[j], walk[j + 1]));
                    let e = choose|e: int| 0 <= e < lists[walk[j]].len() && (#[trigger] lists[walk[j]][e]).0 == walk[j + 1];
                    assert(has_edge(lists, lists[walk[j]][e].0 as int, walk[j]));
                }
                assert(is_walk(lists, back));
                assert(back[m - 1 - i] == v);
                let z = lemma_first_pass(lists, v, back, m - 1 - i);
                assert(link(lists, v, a, y));
                assert(link(lists, v, b, z));
                lemma_link_turned(lists, v, b, z);
                assert(link(lists, v, y, h));
                assert(link(lists, v, z, h));
                lemma_link_turned(lists, v, z, h);
                lemma_link_trans(lists, v, a, y, h);
                lemma_link_trans(lists, v, a, h, z);
                lemma_link_trans(lists, v, a, z, b);
            }
        }
    }
}

impl Trace {
    /// Every listed point is an articulation point, and every
    /// articulation point that the search has left is listed.
    spec fn pointed<W>(self, lists: Seq<Seq<(Index, W)>>, points: Seq<u32>) -> bool {
        &&& forall|i: int|
            0 <= i < points.len() ==> is_articulation_point(lists, (#[trigger] points[i]) as int)
        &&& forall|x: int|
            0 <= x < lists.len() && #[trigger] self.fin(x) ==> has_point(points, x)
                || !is_articulation_point(lists, x)
    }

    /// Whether the search has come back to `v`, the top of the stack, from
    /// `u`, the target of an edge of `v`.
    spec fn back_from<W>(self, lists: Seq<Seq<(Index, W)>>, stack: Seq<int>, v: int, u: int) -> bool {
        &&& self.deep(lists, stack, u)
        &&& stack.len() > 0
        &&& stack.last() == v
        &&& 0 <= u < lists.len()
        &&& self.fin(u)
        &&& self.notes.exit[u] == self.notes.clock - 1
        &&& self.notes.par[u] == v
    }
}

/// When the search comes back to `v` from `u` with a low link that is no
/// less than the depth of `v`, every edge that leads out of the vertices
/// that the search left while it was in `u` leads to `v`.
proof fn lemma_sealed<W>(
    t: Trace,
    lists: Seq<Seq<(Index, W)>>,
    stack: Seq<int>,
    v: int,
    u: int,
    x: int,
    y: int,
)
    requires
        t.back_from(lists, stack, v, u),
        t.ord[v] <= t.low[u],
        t.inside(u, x),
        0 <= y < lists.len(),
        has_edge(lists, x, y),
        !t.inside(u, y),
    ensures
        y == v,
{
    let e = choose|e: int| 0 <= e < lists[x].len() && (#[trigger] lists[x][e]).0 == y;
    assert(t.bounded(lists, u, x, e));
    if y != v {
        lemma_leads_up(t, lists, stack, u, u, x, y);
        assert(t.ord[stack[stack.len() - 1]] == stack.len() - 1);
    }
}

/// And no walk leads from `u` round `v` to a vertex that the search did not
/// leave while it was in `u`.
proof fn lemma_cut<W>(t: Trace, lists: Seq<Seq<(Index, W)>>, stack: Seq<int>, v: int, u: int, z: int)
    requires
        t.back_from(lists, stack, v, u),
        t.ord[v] <= t.low[u],
        !t.inside(u, z),
    ensures
        !link(lists, v, u, z),
{
    if link(lists, v, u, z) {
        let walk = choose|walk: Seq<int>| #[trigger]
            is_walk(lists, walk) && walk[0] == u && walk.last() == z && avoids(walk, v);
        assert(t.seen[u]);
        assert(t.inside(u, u));
        let i = lemma_crossing(t, lists, u, walk, 0, walk.len() - 1);
        assert(has_edge(lists, walk[i], walk[i + 1]));
        lemma_sealed(t, lists, stack, v, u, walk[i], walk[i + 1]);
        assert(walk[i + 1] != v);
    }
}

/// A vertex is linked, round any vertex that the search did not leave
/// while it was in the first, to each vertex that the search did leave
/// then.
proof fn lemma_link_tree<W>(t: Trace, lists: Seq<Seq<(Index, W)>>, v: int, u: int, x: int)
    requires
        t.shape(lists.len() as int),
        t.tree(lists),
        t.nested(),
        0 <= u < lists.len(),
        t.fin(u),
        t.inside(u, x),
        !t.inside(u, v),
    ensures
        link(lists, v, u, x),
{
    let walk = lemma_tree_walk(t, lists, u, x);
    assert forall|i: int| 0 <= i < walk.len() implies #[trigger] walk[i] != v by {
        assert(t.inside(u, walk[i]));
    }
    assert(is_walk(lists, walk) && walk[0] == u && walk.last() == x && avoids(walk, v));
}

/// The vertices of the stack below its top are linked round the top.
proof fn lemma_link_stack<W>(t: Trace, lists: Seq<Seq<(Index, W)>>, stack: Seq<int>, i: int, j: int)
    requires
        t.shape(lists.len() as int),
        t.tree(lists),
        t.chain(stack),
        0 <= i <= j < stack.len() - 1,
    ensures
        link(lists, stack.last(), stack[i], stack[j]),
{
    let walk = stack.subrange(i, j + 1);
    let v = stack.last();
    assert forall|k: int| 0 <= k < walk.len() - 1 implies #[trigger] has_edge(
        lists,
        walk[k],
        walk[k + 1],
    ) by {
        assert(stack[i + k + 1] == walk[k + 1]);
        assert(stack[i + k] == walk[k]);
        assert(t.notes.par[stack[i + k + 1]] == stack[i + k]);
        assert(t.seen[stack[i + k + 1]]);
    }
    assert(t.ord[stack[stack.len() - 1]] == stack.len() - 1);
    assert forall|k: int| 0 <= k < walk.len() implies #[trigger] walk[k] != v by {
        assert(walk[k] == stack[i + k]);
        assert(t.ord[stack[i + k]] == i + k);
    }
    assert forall|k: int| 0 <= k < walk.len() implies 0 <= #[trigger] walk[k] < lists.len() by {
        assert(walk[k] == stack[i + k]);
    }
    assert(is_walk(lists, walk) && walk[0] == stack[i] && walk.last() == stack[j] && avoids(walk, v));
}

/// What the search has left since it entered `v`, before or after a
/// search from `u`, it left before that search or in it.
proof fn lemma_below_split<W>(
    ta: Trace,
    tb: Trace,
    lists: Seq<Seq<(Index, W)>>,
    stack: Seq<int>,
    v: int,
    u: int,
    x: int,
)
    requires
        ta.deep(lists, stack, -1),
        0 <= v < lists.len(),
        ta.seen[v],
        !ta.seen[u],
        ta.grown(tb),
        tb.back_from(lists, stack, v, u),
        tb.notes.enter[u] == ta.notes.clock,
        tb.below(v, x),
    ensures
        ta.below(v, x) || tb.inside(u, x),
        ta.below(v, x) ==> tb.same_at(ta, x),
{
    assert(tb.same_at(ta, v));
    if ta.seen[x] {
        assert(tb.same_at(ta, x));
    } else {
        assert(tb.seen[x]);
    }
}

/// When the search comes back to `v`, which has a parent, from `u`: with
/// a low link that is no less than the depth of `v`, `v` is an
/// articulation point; with a lesser one, what the search left while it
/// was in `u` is linked round `v` to the parent of `v`.
proof fn lemma_inner_child<W>(t: Trace, lists: Seq<Seq<(Index, W)>>, stack: Seq<int>, v: int, u: int)
    requires
        t.back_from(lists, stack, v, u),
        stack.len() >= 2,
    ensures
        t.ord[v] <= t.low[u] ==> is_articulation_point(lists, v),
        t.ord[v] > t.low[u] ==> forall|x: int| #[trigger]
            t.inside(u, x) ==> link(lists, v, x, stack[stack.len() - 2]),
{
    let last = stack.len() - 1;
    let p = stack[last - 1];
    assert(0 <= stack[last] < lists.len() && t.ord[stack[last]] == last);
    assert(0 <= stack[last - 1] < lists.len() && t.ord[stack[last - 1]] == last - 1);
    assert(t.notes.par[stack[last]] == stack[last - 1]);
    assert(t.seen[v] && t.seen[u]);
    assert(has_edge(lists, v, u));
    assert(has_edge(lists, p, v));
    assert(t.ord[u] == t.ord[v] + 1);
    assert(!t.fin(v) && !t.fin(p));
    assert(t.inside(u, u));
    if t.ord[v] <= t.low[u] {
        lemma_cut(t, lists, stack, v, u, p);
        let e = choose|e: int| 0 <= e < lists[v].len() && (#[trigger] lists[v][e]).0 == u;
        assert(has_edge(lists, lists[v][e].0 as int, v));
        let f = choose|f: int| 0 <= f < lists[p].len() && (#[trigger] lists[p][f]).0 == v;
        assert(has_edge(lists, lists[p][f].0 as int, p));
        let walk = seq![u, v, p];
        assert forall|i: int| 0 <= i < walk.len() - 1 implies #[trigger] has_edge(
            lists,
            walk[i],
            walk[i + 1],
        ) by {}
        assert(is_walk(lists, walk) && walk[0] == u && walk.last() == p);
        assert(reaches(lists, u, p));
        assert(separates(lists, v, u, p));
    } else {
        assert(t.witnessed(lists, u));
        let wx = t.notes.wx[u];
        let wy = t.notes.wy[u];
        if t.inside(u, wy) {
            assert(t.ord[wy] >= t.ord[u]);
        }
        lemma_leads_up(t, lists, stack, u, u, wx, wy);
        lemma_link_tree(t, lists, v, u, wx);
        lemma_link_edge(lists, v, wx, wy);
        lemma_link_stack(t, lists, stack, t.ord[wy] as int, last - 1);
        lemma_link_trans(lists, v, u, wx, wy);
        lemma_link_trans(lists, v, u, wy, p);
        assert forall|x: int| #[trigger] t.inside(u, x) implies link(lists, v, x, p) by {
            lemma_link_tree(t, lists, v, u, x);
            lemma_link_turned(lists, v, u, x);
            lemma_link_trans(lists, v, x, u, p);
        }
    }
}

/// When the search comes back to `v`, at which it began, from `u`: no
/// walk leads from `u` round `v` to a vertex that the search has not
/// entered, and what the search left while it was in `u` is linked round
/// `v` to `u`.
proof fn lemma_root_child<W>(t: Trace, lists: Seq<Seq<(Index, W)>>, stack: Seq<int>, v: int, u: int)
    requires
        t.back_from(lists, stack, v, u),
        stack.len() == 1,
    ensures
        u != v,
        has_edge(lists, v, u),
        has_edge(lists, u, v),
        forall|z: int| 0 <= z < lists.len() && !#[trigger] t.seen[z] ==> !link(lists, v, u, z),
        forall|x: int| #[trigger] t.inside(u, x) ==> link(lists, v, x, u),
{
    assert(0 <= stack[0] < lists.len() && t.ord[stack[0]] == 0);
    assert(t.seen[v] && t.seen[u]);
    assert(has_edge(lists, v, u));
    let e = choose|e: int| 0 <= e < lists[v].len() && (#[trigger] lists[v][e]).0 == u;
    assert(has_edge(lists, lists[v][e].0 as int, v));
    assert(!t.fin(v));
    assert forall|z: int| 0 <= z < lists.len() && !#[trigger] t.seen[z] implies !link(lists, v, u, z) by {
        assert(!t.fin(z));
        lemma_cut(t, lists, stack, v, u, z);
    }
    assert forall|x: int| #[trigger] t.inside(u, x) implies link(lists, v, x, u) by {
        lemma_link_tree(t, lists, v, u, x);
        lemma_link_turned(lists, v, u, x);
    }
}

/// A vertex `v` at which the search began, and from which it has gone to
/// two vertices, the second not entered when it came back from the
/// first, is an articulation point.
proof fn lemma_root_point<W>(lists: Seq<Seq<(Index, W)>>, v: int, first: int, second: int)
    requires
        0 <= v < lists.len(),
        0 <= first < lists.len(),
        0 <= second < lists.len(),
        first != v,
        second != v,
        has_edge(lists, first, v),
        has_edge(lists, v, second),
        !link(lists, v, first, second),
    ensures
        is_articulation_point(lists, v),
{
    let walk = seq![first, v, second];
    assert forall|i: int| 0 <= i < walk.len() - 1 implies #[trigger] has_edge(
        lists,
        walk[i],
        walk[i + 1],
    ) by {}
    assert(is_walk(lists, walk) && walk[0] == first && walk.last() == second);
    assert(reaches(lists, first, second));
    assert(separates(lists, v, first, second));
}

/// A vertex that an edge joins to `v`, the top of the stack, all of whose
/// edges the search has looked at, is on the stack or was left since the
/// search entered `v`.
proof fn lemma_neighbour<W>(t: Trace, lists: Seq<Seq<(Index, W)>>, stack: Seq<int>, v: int, y: int)
    requires
        t.deep(lists, stack, -1),
        t.visiting(lists, v, lists[v].len() as int),
        stack.len() > 0,
        stack.last() == v,
        0 <= y < lists.len(),
        y != v,
        has_edge(lists, y, v),
    ensures
        t.seen[y],
        t.fin(y) ==> t.below(v, y),
        !t.fin(y) ==> t.ord[y] < stack.len() - 1 && stack[t.ord[y] as int] == y,
{
    let e = choose|e: int| 0 <= e < lists[y].len() && (#[trigger] lists[y][e]).0 == v;
    assert(has_edge(lists, lists[y][e].0 as int, y));
    let f = choose|f: int| 0 <= f < lists[v].len() && (#[trigger] lists[v][f]).0 == y;
    assert(t.tried(lists, v, f));
    assert(t.ord[stack[stack.len() - 1]] == stack.len() - 1);
    if t.fin(y) {
        assert(t.notes.enter[lists[y][e].0 as int] <= t.notes.exit[y]);
    }
}

/// A vertex with a parent, from none of whose children the search came
/// back with a low link that is no less than its depth, is no
/// articulation point.
proof fn lemma_inner_unlisted<W>(t: Trace, lists: Seq<Seq<(Index, W)>>, stack: Seq<int>, v: int)
    requires
        t.deep(lists, stack, -1),
        t.visiting(lists, v, lists[v].len() as int),
        stack.len() >= 2,
        stack.last() == v,
        forall|x: int| #[trigger] t.below(v, x) ==> link(lists, v, x, stack[stack.len() - 2]),
    ensures
        !is_articulation_point(lists, v),
{
    let p = stack[stack.len() - 2];
    assert forall|y: int| 0 <= y < lists.len() && y != v && #[trigger] has_edge(lists, y, v) implies link(
        lists,
        v,
        y,
        p,
    ) by {
        lemma_neighbour(t, lists, stack, v, y);
        if !t.fin(y) {
            lemma_link_stack(t, lists, stack, t.ord[y] as int, stack.len() - 2);
        }
    }
    lemma_hub(lists, v, p);
}

/// A vertex at which the search began, and from which it has gone to one
/// vertex at most, is no articulation point.
proof fn lemma_root_unlisted<W>(
    t: Trace,
    lists: Seq<Seq<(Index, W)>>,
    stack: Seq<int>,
    v: int,
    first: int,
    children: int,
)
    requires
        t.deep(lists, stack, -1),
        t.visiting(lists, v, lists[v].len() as int),
        stack.len() == 1,
        stack.last() == v,
        children == 0 ==> forall|x: int| !#[trigger] t.below(v, x),
        children != 0 ==> forall|x: int| #[trigger] t.below(v, x) ==> link(lists, v, x, first),
    ensures
        !is_articulation_point(lists, v),
{
    assert forall|y: int| 0 <= y < lists.len() && y != v && #[trigger] has_edge(lists, y, v) implies link(
        lists,
        v,
        y,
        first,
    ) && children != 0 by {
        lemma_neighbour(t, lists, stack, v, y);
    }
    lemma_hub(lists, v, first);
}

/// Listing an articulation point keeps what holds of the list.
proof fn lemma_point_listed<W>(t: Trace, lists: Seq<Seq<(Index, W)>>, points: Seq<u32>, v: u32)
    requires
        t.pointed(lists, points),
        is_articulation_point(lists, v as int),
    ensures
        t.pointed(lists, points.push(v)),
        has_point(points.push(v), v as int),
{
    let more = points.push(v);
    assert(more[points.len() as int] == v);
    assert forall|i: int| 0 <= i < more.len() implies is_articulation_point(lists, (#[trigger] more[i]) as int) by {
        if i < points.len() {
            assert(more[i] == points[i]);
        }
    }
    assert forall|x: int| 0 <= x < lists.len() && #[trigger] t.fin(x) implies has_point(more, x)
        || !is_articulation_point(lists, x) by {
        if has_point(points, x) {
            let i = choose|i: int| 0 <= i < points.len() && #[trigger] points[i] == x;
            assert(more[i] == x);
        }
    }
}

/// A state that says of the same vertices that the search has left them
/// keeps what holds of the list.
proof fn lemma_pointed_same<W>(t: Trace, t1: Trace, lists: Seq<Seq<(Index, W)>>, points: Seq<u32>)
    requires
        t.pointed(lists, points),
        t1.notes.exit == t.notes.exit,
    ensures
        t1.pointed(lists, points),
{
    assert forall|x: int| 0 <= x < lists.len() && #[trigger] t1.fin(x) implies has_point(points, x)
        || !is_articulation_point(lists, x) by {
        assert(t.fin(x));
    }
}

/// When the search leaves a vertex that is listed or no articulation
/// point, that keeps what holds of the list.
proof fn lemma_pointed_left<W>(t: Trace, lists: Seq<Seq<(Index, W)>>, points: Seq<u32>, v: int)
    requires
        t.pointed(lists, points),
        has_point(points, v) || !is_articulation_point(lists, v),
        t.notes.exit.len() == lists.len(),
        0 <= v < lists.len(),
    ensures
        t.left(v).pointed(lists, points),
{
    let t1 = t.left(v);
    assert forall|x: int| 0 <= x < lists.len() && #[trigger] t1.fin(x) implies has_point(points, x)
        || !is_articulation_point(lists, x) by {
        if x != v {
            assert(t.fin(x));
        }
    }
}

/// When the search has left every vertex, the listed points are the
/// articulation points.
proof fn lemma_finds_points<W>(t: Trace, lists: Seq<Seq<(Index, W)>>, points: Seq<u32>)
    requires
        t.deep(lists, Seq::<int>::empty(), -1),
        t.pointed(lists, points),
        forall|x: int| 0 <= x < lists.len() ==> t.seen[x],
    ensures
        finds_points(lists, points),
{
    assert forall|v: int|
        #![trigger has_point(points, v)]
        #![trigger is_articulation_point(lists, v)]
        has_point(points, v) <==> is_articulation_point(lists, v) by {
        if has_point(points, v) {
            let i = choose|i: int| 0 <= i < points.len() && #[trigger] points[i] == v;
            assert(is_articulation_point(lists, points[i] as int));
        }
        if is_articulation_point(lists, v) {
            assert(t.seen[v]);
            assert(t.fin(v));
        }
    }
}

impl Trace {
    /// Whether `later` is this state after a search from `v`, a vertex
    /// that had not been entered: what was entered is as it was, and what
    /// has been entered since has been left, `v` aside.
    spec fn growing(self, later: Trace, v: int) -> bool {
        &&& self.notes.clock <= later.notes.clock
        &&& self.bridges.len() <= later.bridges.len()
        &&& forall|i: int| 0 <= i < self.bridges.len() ==> #[trigger] later.bridges[i] == self.bridges[i]
        &&& forall|x: int|
            0 <= x < self.seen.len() && #[trigger] self.seen[x] ==> later.seen[x] && later.same_at(
                self,
                x,
            )
        &&& forall|x: int|
            0 <= x < self.seen.len() && #[trigger] later.seen[x] && !self.seen[x] && x != v
                ==> later.fin(x) && later.notes.exit[x] >= self.notes.clock
    }

    /// Whether `later` is this state after a search from a vertex that had
    /// not been entered, which the search has left again.
    spec fn grown(self, later: Trace) -> bool {
        self.growing(later, -1)
    }
}

/// A search within a search from `v` keeps what the outer search has
/// changed.
proof fn lemma_grow_on(t0: Trace, ta: Trace, tb: Trace, v: int)
    requires
        t0.growing(ta, v),
        ta.grown(tb),
        ta.seen.len() == t0.seen.len(),
        0 <= v < t0.seen.len(),
        ta.seen[v],
    ensures
        t0.growing(tb, v),
{
    assert forall|x: int| 0 <= x < t0.seen.len() && #[trigger] t0.seen[x] implies tb.seen[x] && tb.same_at(
        t0,
        x,
    ) by {
        assert(ta.seen[x] && ta.same_at(t0, x));
        assert(tb.same_at(ta, x));
    }
    assert forall|x: int| 0 <= x < t0.seen.len() && #[trigger] tb.seen[x] && !t0.seen[x] && x != v implies tb.fin(
        x,
    ) && tb.notes.exit[x] >= t0.notes.clock by {
        if ta.seen[x] {
            assert(tb.same_at(ta, x));
        }
    }
    assert forall|i: int| 0 <= i < t0.bridges.len() implies #[trigger] tb.bridges[i] == t0.bridges[i] by {
        assert(ta.bridges[i] == t0.bridges[i]);
    }
}

/// A state that differs from `t` in what it says of `v` alone, and lists
/// the pairs of `t` first, has grown as `t` has.
proof fn lemma_grow_at(t0: Trace, t: Trace, t2: Trace, v: int)
    requires
        t0.growing(t, v),
        0 <= v < t0.seen.len(),
        !t0.seen[v],
        t2.seen == t.seen,
        t2.ord == t.ord,
        t2.notes.par == t.notes.par,
        t2.notes.enter == t.notes.enter,
        t2.notes.exit == t.notes.exit,
        t2.notes.clock == t.notes.clock,
        forall|x: int| 0 <= x < t0.seen.len() && x != v ==> t2.low[x] == t.low[x] && t2.notes.wx[x]
            == t.notes.wx[x] && t2.notes.wy[x] == t.notes.wy[x],
        t.bridges.len() <= t2.bridges.len(),
        forall|i: int| 0 <= i < t.bridges.len() ==> #[trigger] t2.bridges[i] == t.bridges[i],
    ensures
        t0.growing(t2, v),
{
    assert forall|x: int| 0 <= x < t0.seen.len() && #[trigger] t0.seen[x] implies t2.seen[x] && t2.same_at(
        t0,
        x,
    ) by {
        assert(t.same_at(t0, x));
    }
    assert forall|x: int| 0 <= x < t0.seen.len() && #[trigger] t2.seen[x] && !t0.seen[x] && x != v implies t2.fin(
        x,
    ) && t2.notes.exit[x] >= t0.notes.clock by {
        assert(t.fin(x));
    }
    assert forall|i: int| 0 <= i < t0.bridges.len() implies #[trigger] t2.bridges[i] == t0.bridges[i] by {
        assert(t.bridges[i] == t0.bridges[i]);
    }
}

/// When the search leaves `v`, the state has grown.
proof fn lemma_grow_out(t0: Trace, t: Trace, v: int)
    requires
        t0.growing(t, v),
        0 <= v < t0.seen.len(),
        !t0.seen[v],
        t.notes.exit.len() == t0.seen.len(),
        t.seen.len() == t0.seen.len(),
        0 <= t0.notes.clock,
    ensures
        t0.grown(t.left(v)),
        t.left(v).fin(v),
{
    let t2 = t.left(v);
    assert forall|x: int| 0 <= x < t0.seen.len() && #[trigger] t0.seen[x] implies t2.seen[x] && t2.same_at(
        t0,
        x,
    ) by {
        assert(t.same_at(t0, x));
    }
    assert forall|x: int| 0 <= x < t0.seen.len() && #[trigger] t2.seen[x] && !t0.seen[x] implies t2.fin(x)
        && t2.notes.exit[x] >= t0.notes.clock by {
        if x != v {
            assert(t.fin(x));
        }
    }
}

/// The vertex on top of the stack; -1 if there is none.
spec fn top_of(stack: Seq<int>) -> int {
    if stack.len() > 0 {
        stack.last()
    } else {
        -1
    }
}

/// When the search has left every vertex, the listed pairs are the
/// bridges.
proof fn lemma_finds<W>(t: Trace, lists: Seq<Seq<(Index, W)>>)
    requires
        t.deep(lists, Seq::<int>::empty(), -1),
        forall|x: int| 0 <= x < lists.len() ==> t.seen[x],
    ensures
        finds_bridges(lists, t.bridges),
{
    assert forall|a: int, b: int|
        #![trigger listed(t.bridges, a, b)]
        #![trigger is_bridge(lists, a, b)]
        listed(t.bridges, a, b) <==> a < b && is_bridge(lists, a, b) by {
        if listed(t.bridges, a, b) {
            let i = choose|i: int| 0 <= i < t.bridges.len() && (#[trigger] t.bridges[i]).0 == a && t.bridges[i].1 == b;
            assert(t.bridges[i].0 < t.bridges[i].1);
        }
        if a < b && is_bridge(lists, a, b) {
            assert(t.seen[a] && t.seen[b]);
            assert(t.fin(a) && t.fin(b));
            if has_edge(lists, a, b) {
                let e = choose|e: int| 0 <= e < lists[a].len() && (#[trigger] lists[a][e]).0 == b;
                assert(lists[a][e].0 == t.notes.par[a] || t.covered(lists, a, lists[a][e].0 as int));
                if b == t.notes.par[a] {
                    assert(t.covered(lists, a, t.notes.par[a]));
                }
            } else {
                let e = choose|e: int| 0 <= e < lists[b].len() && (#[trigger] lists[b][e]).0 == a;
                assert(lists[b][e].0 == t.notes.par[b] || t.covered(lists, b, lists[b][e].0 as int));
                if a == t.notes.par[b] {
                    assert(t.covered(lists, b, t.notes.par[b]));
                }
                lemma_covered_turned(t, lists, a, b);
            }
            lemma_listed_once(t, lists, a, b);
        }
    }
}

/// No listed pair has its greater end first.
proof fn lemma_listed_once<W>(t: Trace, lists: Seq<Seq<(Index, W)>>, a: int, b: int)
    requires
        t.decided(lists, -1),
        a < b,
    ensures
        !listed(t.bridges, b, a),
{
    if listed(t.bridges, b, a) {
        let i = choose|i: int| 0 <= i < t.bridges.len() && (#[trigger] t.bridges[i]).0 == b && t.bridges[i].1 == a;
        assert(t.bridges[i].0 < t.bridges[i].1);
    }
}

impl LowLink {
    /// The bridges that the search has listed.
    pub closed spec fn bridge_list(&self) -> Seq<(u32, u32)> {
        self.bridges@
    }

    /// The articulation points that the search has listed.
    pub closed spec fn point_list(&self) -> Seq<u32> {
        self.articulation_points@
    }

    spec fn trace(&self) -> Trace {
        Trace {
            seen: self.seen@,
            ord: self.ord@,
            low: self.low@,
            bridges: self.bridges@,
            notes: self.notes@,
        }
    }

    spec fn inv<W>(&self, lists: Seq<Seq<(Index, W)>>) -> bool {
        &&& self.seen.len() == lists.len()
        &&& self.ord.len() == lists.len()
        &&& self.low.len() == lists.len()
        &&& self.notes@.par.len() == lists.len()
        &&& self.notes@.enter.len() == lists.len()
        &&& self.notes@.exit.len() == lists.len()
        &&& self.notes@.wx.len() == lists.len()
        &&& self.notes@.wy.len() == lists.len()
        &&& 0 <= self.notes@.clock
        &&& lists.len() <= u32::MAX
        &&& targets_below(lists, lists.len() as int)
        &&& are_edges(lists, self.bridges@)
        &&& are_vertices(lists.len() as int, self.articulation_points@)
    }

    /// Searches the whole of `graph` for its bridges and its articulation
    /// points. Where the lists of the graph hold with every edge the edge
    /// back, the listed pairs are the bridges and the listed points are the
    /// articulation points.
    pub fn from<G: UndirectedGraph>(graph: &G) -> (lowlink: Self)
        requires
            graph.wf(),
        ensures
            are_edges(graph.lists(), lowlink.bridge_list()),
            are_vertices(graph.lists().len() as int, lowlink.point_list()),
            undirected(graph.lists()) ==> finds_bridges(graph.lists(), lowlink.bridge_list()),
            undirected(graph.lists()) ==> finds_points(graph.lists(), lowlink.point_list()),
    {
        let size = graph.size();
        let ghost lists = graph.lists();
        let mut seen: Vec<bool> = Vec::new();
        let mut ord: Vec<u32> = Vec::new();
        let mut low: Vec<u32> = Vec::new();
        let mut i: u32 = 0;
        while i < size
            invariant
                i <= size,
                seen.len() == i,
                ord.len() == i,
                low.len() == i,
                forall|x: int| 0 <= x < i ==> !#[trigger] seen[x],
            decreases size - i,
        {
            seen.push(false);
            ord.push(size);
            low.push(size);
            i += 1;
        }
        let mut lowlink = Self {
            seen,
            ord,
            low,
            articulation_points: Vec::new(),
            bridges: Vec::new(),
            notes: Ghost(
                Notes {
                    par: Seq::new(size as nat, |x: int| -1int),
                    enter: Seq::new(size as nat, |x: int| 0int),
                    exit: Seq::new(size as nat, |x: int| -1int),
                    clock: 0,
                    wx: Seq::new(size as nat, |x: int| 0int),
                    wy: Seq::new(size as nat, |x: int| 0int),
                },
            ),
        };
        proof {
            graph.lemma_wf();
            lemma_unseen_bound(lowlink.seen@, size as int);
        }
        let mut i: u32 = 0;
        while i < size
            invariant
                graph.wf(),
                lists == graph.lists(),
                size == lists.len(),
                i <= size,
                lowlink.inv(lists),
                forall|x: int| 0 <= x < i ==> lowlink.seen[x],
                undirected(lists) ==> lowlink.trace().deep(lists, Seq::<int>::empty(), -1)
                    && lowlink.trace().pointed(lists, lowlink.articulation_points@),
            decreases size - i,
        {
            proof {
                lemma_unseen_bound(lowlink.seen@, size as int);
            }
            lowlink.dfs(graph, i, ROOT, 0, Ghost(Seq::<int>::empty()));
            i += 1;
        }
        proof {
            if undirected(lists) {
                lemma_finds(lowlink.trace(), lists);
                lemma_finds_points(lowlink.trace(), lists, lowlink.articulation_points@);
            }
        }
        lowlink
    }

    /// Searches from `v`, reached from `parent` at depth `cnt`, unless the
    /// search has been at `v` before.
    fn dfs<G: UndirectedGraph>(
        &mut self,
        graph: &G,
        v: u32,
        parent: u32,
        cnt: u32,
        Ghost(stack): Ghost<Seq<int>>,
    )
        requires
            graph.wf(),
            old(self).inv(graph.lists()),
            v < graph.lists().len(),
            cnt + unseen(old(self).seen@, graph.lists().len() as int) <= graph.lists().len(),
            undirected(graph.lists()) ==> old(self).trace().pointed(
                graph.lists(),
                old(self).articulation_points@,
            ),
            undirected(graph.lists()) ==> old(self).trace().deep(graph.lists(), stack, -1) && cnt
                == stack.len() && (if stack.len() == 0 {
                parent == ROOT
            } else {
                parent == stack.last() && !old(self).seen[v as int] && has_edge(
                    graph.lists(),
                    stack.last(),
                    v as int,
                )
            }),
        ensures
            final(self).inv(graph.lists()),
            forall|x: int|
                0 <= x < graph.lists().len() && old(self).seen[x] ==> final(self).seen[x],
            unseen(final(self).seen@, graph.lists().len() as int) <= unseen(
                old(self).seen@,
                graph.lists().len() as int,
            ),
            final(self).seen[v as int],
            old(self).seen[v as int] ==> final(self).trace() == old(self).trace(),
            !old(self).seen[v as int] ==> old(self).trace().grown(final(self).trace()),
            !old(self).seen[v as int] ==> final(self).trace().fin(v as int),
            !old(self).seen[v as int] ==> final(self).notes@.exit[v as int] == final(self).notes@.clock
                - 1,
            !old(self).seen[v as int] ==> final(self).notes@.enter[v as int] == old(self).notes@.clock,
            !old(self).seen[v as int] ==> final(self).notes@.par[v as int] == top_of(stack),
            undirected(graph.lists()) ==> final(self).trace().deep(
                graph.lists(),
                stack,
                if old(self).seen[v as int] || stack.len() == 0 {
                    -1
                } else {
                    v as int
                },
            ),
            undirected(graph.lists()) ==> final(self).trace().pointed(
                graph.lists(),
                final(self).articulation_points@,
            ),
        decreases unseen(old(self).seen@, graph.lists().len() as int),
    {
        let ghost lists = graph.lists();
        let ghost n = lists.len() as int;
        if self.seen[v as usize] {
            return;
        }
        let ghost t0 = self.trace();
        let ghost p = top_of(stack);
        let ghost stack_v = stack.push(v as int);
        proof {
            lemma_unseen_mark(self.seen@, v as int);
            assert(unseen(self.seen@.update(v as int, true), n) + 1 == unseen(self.seen@, n));
        }
        self.seen[v as usize] = true;
        self.ord[v as usize] = cnt;
        self.low[v as usize] = cnt;
        proof {
            self.notes@ = Notes {
                par: self.notes@.par.update(v as int, p),
                enter: self.notes@.enter.update(v as int, self.notes@.clock),
                exit: self.notes@.exit,
                clock: self.notes@.clock,
                wx: self.notes@.wx,
                wy: self.notes@.wy,
            };
            assert(self.trace() == t0.entered(v as int, cnt, p));
            assert(t0.growing(self.trace(), v as int));
            if undirected(lists) {
                lemma_enter(t0, lists, stack, v as int, cnt, p);
                if stack.len() > 0 {
                    assert(0 <= stack[stack.len() - 1] < n);
                }
                lemma_pointed_same(t0, self.trace(), lists, self.articulation_points@);
                assert forall|x: int| !#[trigger] self.trace().below(v as int, x) by {
                    if 0 <= x < n {
                        assert(t0.notes.exit[x] < t0.notes.clock);
                    }
                }
            }
        }
        let ghost mut first: int = -1;
        let cnt: u32 = cnt + 1;
        let mut child_cnt: usize = 0;
        let mut is_point = false;
        let list = graph.adjacent(v);
        let mut e: usize = 0;
        while e < list.len()
            invariant
                graph.wf(),
                lists == graph.lists(),
                n == lists.len(),
                v < n,
                list@ == lists[v as int],
                e <= list.len(),
                child_cnt <= e,
                self.inv(lists),
                self.seen[v as int],
                old(self).seen.len() == n,
                forall|x: int| 0 <= x < n && old(self).seen[x] ==> self.seen[x],
                unseen(self.seen@, n) < unseen(old(self).seen@, n),
                cnt + unseen(self.seen@, n) <= n,
                t0 == old(self).trace(),
                !t0.seen[v as int],
                t0.growing(self.trace(), v as int),
                self.notes@.par[v as int] == p,
                self.notes@.enter[v as int] == t0.notes.clock,
                p == top_of(stack),
                stack_v == stack.push(v as int),
                undirected(lists) ==> self.trace().deep(lists, stack_v, -1) && self.trace().visiting(
                    lists,
                    v as int,
                    e as int,
                ) && cnt == stack_v.len() && (if p == -1 {
                    parent == ROOT && stack.len() == 0
                } else {
                    parent == p && 0 <= p < n && stack.len() > 0
                }),
                undirected(lists) ==> self.trace().pointed(lists, self.articulation_points@),
                undirected(lists) && p != -1 && is_point ==> is_articulation_point(
                    lists,
                    v as int,
                ),
                undirected(lists) && p == -1 ==> !is_point,
                undirected(lists) && p == -1 && child_cnt >= 2 ==> is_articulation_point(
                    lists,
                    v as int,
                ),
                undirected(lists) && p == -1 && child_cnt >= 1 ==> 0 <= first < n && first != v
                    && has_edge(lists, first, v as int) && forall|z: int|
                    0 <= z < n && !#[trigger] self.seen[z] ==> !link(lists, v as int, first, z),
                undirected(lists) && p != -1 && !is_point ==> forall|x: int| #[trigger]
                    self.trace().below(v as int, x) ==> link(lists, v as int, x, p),
                undirected(lists) && p == -1 && child_cnt == 1 ==> forall|x: int| #[trigger]
                    self.trace().below(v as int, x) ==> link(lists, v as int, x, first),
                undirected(lists) && p == -1 && child_cnt == 0 ==> forall|x: int|
                    !#[trigger] self.trace().below(v as int, x),
            decreases list.len() - e,
        {
            let u: u32 = list[e].0;
            proof {
                assert(lists[v as int][e as int].0 == u);
                assert(has_edge(lists, v as int, u as int));
            }
            let ghost ta = self.trace();
            if self.seen[u as usize] {
                if u != parent {
                    let reach = self.ord[u as usize];
                    if reach < self.low[v as usize] {
                        self.low[v as usize] = reach;
                        proof {
                            self.notes@ = Notes {
                                par: self.notes@.par,
                                enter: self.notes@.enter,
                                exit: self.notes@.exit,
                                clock: self.notes@.clock,
                                wx: self.notes@.wx.update(v as int, v as int),
                                wy: self.notes@.wy.update(v as int, u as int),
                            };
                        }
                    }
                }
                proof {
                    lemma_grow_at(t0, ta, self.trace(), v as int);
                    if undirected(lists) {
                        lemma_seen_edge(ta, lists, stack_v, v as int, e as int);
                        assert(self.trace() == after_seen(ta, lists, v as int, e as int));
                        lemma_pointed_same(ta, self.trace(), lists, self.articulation_points@);
                        assert forall|x: int| #[trigger]
                            self.trace().below(v as int, x) implies ta.below(v as int, x) by {}
                    }
                }
            } else {
                child_cnt += 1;
                self.dfs(graph, u, v, cnt, Ghost(stack_v));
                let ghost tb = self.trace();
                proof {
                    assert(ta.seen[v as int] && !ta.seen[u as int]);
                    assert(ta.grown(tb));
                    lemma_grow_on(t0, ta, tb, v as int);
                    assert(tb.same_at(ta, v as int));
                }
                if u != parent {
                    let reach = self.low[u as usize];
                    if reach < self.low[v as usize] {
                        self.low[v as usize] = reach;
                        proof {
                            self.notes@ = Notes {
                                par: self.notes@.par,
                                enter: self.notes@.enter,
                                exit: self.notes@.exit,
                                clock: self.notes@.clock,
                                wx: self.notes@.wx.update(v as int, self.notes@.wx[u as int]),
                                wy: self.notes@.wy.update(v as int, self.notes@.wy[u as int]),
                            };
                        }
                    }
                }
                if parent != ROOT && self.ord[v as usize] <= self.low[u as usize] {
                    is_point = true;
                }
                if self.ord[v as usize] < self.low[u as usize] {
                    let (a, b) = if u < v {
                        (u, v)
                    } else {
                        (v, u)
                    };
                    let ghost before = self.bridges@;
                    self.bridges.push((a, b));
                    proof {
                        assert forall|i: int| 0 <= i < self.bridges@.len() implies (
                        #[trigger] self.bridges@[i]).0 < self.bridges@[i].1 < lists.len() && (
                        has_edge(lists, self.bridges@[i].0 as int, self.bridges@[i].1 as int)
                            || has_edge(
                            lists,
                            self.bridges@[i].1 as int,
                            self.bridges@[i].0 as int,
                        )) by {
                            if i < before.len() {
                                assert(self.bridges@[i] == before[i]);
                            }
                        }
                    }
                }
                proof {
                    lemma_grow_at(t0, tb, self.trace(), v as int);
                    if undirected(lists) {
                        lemma_return_deep(tb, lists, stack_v, v as int, e as int);
                        lemma_return_visiting(ta, tb, lists, stack_v, v as int, e as int);
                        assert(self.trace() == after_return(tb, lists, v as int, e as int));
                        lemma_pointed_same(tb, self.trace(), lists, self.articulation_points@);
                        assert forall|x: int| self.trace().below(v as int, x) == tb.below(v as int, x) by {}
                        assert(tb.back_from(lists, stack_v, v as int, u as int));
                        assert forall|x: int| #[trigger] tb.below(v as int, x) implies ta.below(v as int, x)
                            || tb.inside(u as int, x) by {
                            lemma_below_split(ta, tb, lists, stack_v, v as int, u as int, x);
                        }
                        if p != -1 {
                            assert(stack_v[stack_v.len() - 2] == p);
                            lemma_inner_child(tb, lists, stack_v, v as int, u as int);
                            if !is_point {
                                assert(tb.ord[v as int] > tb.low[u as int]);
                                assert forall|x: int| #[trigger] self.trace().below(v as int, x) implies link(
                                    lists,
                                    v as int,
                                    x,
                                    p,
                                ) by {
                                    assert(tb.below(v as int, x));
                                    if !ta.below(v as int, x) {
                                        assert(tb.inside(u as int, x));
                                    }
                                }
                            }
                        } else {
                            lemma_root_child(tb, lists, stack_v, v as int, u as int);
                            if child_cnt == 1 {
                                first = u as int;
                                assert forall|x: int| #[trigger] self.trace().below(v as int, x) implies link(
                                    lists,
                                    v as int,
                                    x,
                                    first,
                                ) by {
                                    assert(tb.below(v as int, x));
                                    assert(!ta.below(v as int, x));
                                    assert(tb.inside(u as int, x));
                                }
                            } else {
                                assert(!ta.seen[u as int]);
                                lemma_root_point(lists, v as int, first, u as int);
                                assert forall|z: int| 0 <= z < n && !#[trigger] self.seen[z] implies !link(
                                    lists,
                                    v as int,
                                    first,
                                    z,
                                ) by {
                                    assert(!ta.seen[z]);
                                }
                            }
                        }
                    }
                }
            }
            e += 1;
        }
        if parent == ROOT && child_cnt >= 2 {
            is_point = true;
        }
        if is_point {
            let ghost before = self.articulation_points@;
            self.articulation_points.push(v);
            proof {
                assert forall|i: int| 0 <= i < self.articulation_points@.len() implies (
                #[trigger] self.articulation_points@[i]) < n by {
                    if i < before.len() {
                        assert(self.articulation_points@[i] == before[i]);
                    }
                }
                if undirected(lists) {
                    lemma_point_listed(self.trace(), lists, before, v);
                }
            }
        } else {
            proof {
                if undirected(lists) {
                    if p != -1 {
                        assert(stack_v[stack_v.len() - 2] == p);
                        lemma_inner_unlisted(self.trace(), lists, stack_v, v as int);
                    } else {
                        lemma_root_unlisted(self.trace(), lists, stack_v, v as int, first, child_cnt as int);
                    }
                }
            }
        }
        proof {
            let te = self.trace();
            if undirected(lists) {
                lemma_pointed_left(te, lists, self.articulation_points@, v as int);
            }
            self.notes@ = Notes {
                par: self.notes@.par,
                enter: self.notes@.enter,
                exit: self.notes@.exit.update(v as int, self.notes@.clock),
                clock: self.notes@.clock + 1,
                wx: self.notes@.wx,
                wy: self.notes@.wy,
            };
            assert(self.trace() == te.left(v as int));
            lemma_grow_out(t0, te, v as int);
            if undirected(lists) {
                lemma_leave(te, lists, stack_v, v as int);
                assert(stack_v.drop_last() =~= stack);
            }
        }
    }

    /// The articulation points that the search has listed.
    pub fn articulation_points(&self) -> (points: &[u32])
        ensures
            points@ == self.point_list(),
    {
        self.articulation_points.as_slice()
    }

    /// The bridges that the search has listed.
    pub fn bridges(&self) -> (pairs: &[(u32, u32)])
        ensures
            pairs@ == self.bridge_list(),
    {
        self.bridges.as_slice()
    }
}

} // verus!

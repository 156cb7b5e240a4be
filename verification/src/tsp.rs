//! A tour through the points of a metric space that is at most twice as
//! long as the shortest: the points in the order in which a walk round a
//! minimum spanning tree first meets them.

use vstd::prelude::*;
use crate::graph::{unseen, lemma_unseen_mark, lemma_unseen_bound};
use crate::min_heap::{MinHeap, comes_first};
use crate::ordered::Ordered;
use crate::unionfind::{UnionFind, joined};
use crate::weight::Weight;

verus! {

broadcast use vstd::multiset::group_multiset_axioms;

/// A space of points with a distance between any two.
pub trait MetricSpace {
    /// The points.
    type P;

    /// The distances.
    type W: Weight;

    /// The distance between two points.
    fn d(lhs: &Self::P, rhs: &Self::P) -> Self::W;
}

/// A pair of points. Pairs are ordered by their first points, and by their
/// second points where the first are the same.
#[derive(Clone, Copy)]
struct Pair(usize, usize);

impl Ordered for Pair {
    closed spec fn position(self) -> int {
        self.0 * 0x1_0000_0000_0000_0000 + self.1
    }

    proof fn lemma_position_injective(self, other: Self) {
    }

    fn less(self, other: Self) -> (b: bool) {
        self.0 < other.0 || (self.0 == other.0 && self.1 < other.1)
    }

    fn same(self, other: Self) -> (b: bool) {
        self.0 == other.0 && self.1 == other.1
    }
}

/// Whether `path` is a tour through the points `0..n`: it starts and ends
/// at the point 0, and between start and end it names `n` points, no two
/// of them the same.
pub open spec fn is_tour(path: Seq<usize>, n: int) -> bool {
    &&& path.len() == n + 1
    &&& path[0] == 0
    &&& path[n] == 0
    &&& forall|i: int| 0 <= i < n ==> (#[trigger] path[i]) < n
    &&& forall|i: int, j: int| 0 <= i < j < n ==> path[i] != path[j]
}

/// The lists of a vector of vectors.
pub open spec fn lists_of(tree: Seq<Vec<usize>>) -> Seq<Seq<usize>> {
    Seq::new(tree.len(), |u: int| tree[u]@)
}

/// Whether `v` is in the list of `u`.
pub open spec fn has_link(links: Seq<Seq<usize>>, u: int, v: int) -> bool {
    exists|e: int| 0 <= e < links[u].len() && #[trigger] links[u][e] == v
}

/// Whether `walk` is a sequence of points, not empty, each in the list of
/// the one before it.
pub open spec fn is_path(links: Seq<Seq<usize>>, walk: Seq<int>) -> bool {
    &&& walk.len() >= 1
    &&& forall|i: int| 0 <= i < walk.len() ==> 0 <= #[trigger] walk[i] < links.len()
    &&& forall|i: int| 0 <= i < walk.len() - 1 ==> #[trigger] has_link(links, walk[i], walk[i + 1])
}

/// Whether such a sequence leads from `u` to `v`.
pub open spec fn linked(links: Seq<Seq<usize>>, u: int, v: int) -> bool {
    exists|walk: Seq<int>| #[trigger] is_path(links, walk) && walk[0] == u && walk.last() == v
}

/// Whether each list of `after` starts with the list of `before`.
pub open spec fn extends(before: Seq<Seq<usize>>, after: Seq<Seq<usize>>) -> bool {
    &&& before.len() == after.len()
    &&& forall|u: int|
        0 <= u < before.len() ==> (#[trigger] before[u]).len() <= after[u].len() && after[u].take(
            before[u].len() as int,
        ) == before[u]
}

/// Longer lists link what the shorter lists link.
proof fn lemma_linked_kept(before: Seq<Seq<usize>>, after: Seq<Seq<usize>>, u: int, v: int)
    requires
        extends(before, after),
        linked(before, u, v),
    ensures
        linked(after, u, v),
{
    let walk = choose|walk: Seq<int>| #[trigger] is_path(before, walk) && walk[0] == u && walk.last() == v;
    assert forall|i: int| 0 <= i < walk.len() - 1 implies #[trigger] has_link(
        after,
        walk[i],
        walk[i + 1],
    ) by {
        assert(has_link(before, walk[i], walk[i + 1]));
        let e = choose|e: int| 0 <= e < before[walk[i]].len() && #[trigger] before[walk[i]][e] == walk[i + 1];
        assert(after[walk[i]].take(before[walk[i]].len() as int)[e] == after[walk[i]][e]);
    }
    assert(is_path(after, walk));
}

/// Two walks and a link between them make one walk.
proof fn lemma_linked_join(links: Seq<Seq<usize>>, x: int, u: int, v: int, y: int)
    requires
        linked(links, x, u),
        has_link(links, u, v),
        linked(links, v, y),
    ensures
        linked(links, x, y),
{
    let a = choose|walk: Seq<int>| #[trigger] is_path(links, walk) && walk[0] == x && walk.last() == u;
    let b = choose|walk: Seq<int>| #[trigger] is_path(links, walk) && walk[0] == v && walk.last() == y;
    let walk = a + b;
    assert forall|i: int| 0 <= i < walk.len() - 1 implies #[trigger] has_link(
        links,
        walk[i],
        walk[i + 1],
    ) by {
        if i < a.len() - 1 {
            assert(has_link(links, a[i], a[i + 1]));
        } else if i == a.len() - 1 {
        } else {
            assert(has_link(links, b[i - a.len()], b[i - a.len() + 1]));
        }
    }
    assert(is_path(links, walk));
}

/// Where every point that is seen and not waiting has only seen points in
/// its list, every point that is linked to a seen point is seen.
proof fn lemma_closed(links: Seq<Seq<usize>>, seen: Seq<bool>, walk: Seq<int>)
    requires
        seen.len() == links.len(),
        is_path(links, walk),
        seen[walk[0]],
        forall|u: int, e: int|
            0 <= u < links.len() && seen[u] && 0 <= e < links[u].len() ==> seen[(
            #[trigger] links[u][e]) as int],
    ensures
        seen[walk.last()],
    decreases walk.len(),
{
    if walk.len() > 1 {
        let shorter = walk.drop_last();
        assert(is_path(links, shorter)) by {
            assert forall|i: int| 0 <= i < shorter.len() - 1 implies #[trigger] has_link(
                links,
                shorter[i],
                shorter[i + 1],
            ) by {
                assert(has_link(links, walk[i], walk[i + 1]));
            }
        }
        lemma_closed(links, seen, shorter);
        let u = walk[walk.len() - 2];
        assert(has_link(links, walk[walk.len() - 2], walk[walk.len() - 2 + 1]));
        let e = choose|e: int| 0 <= e < links[u].len() && #[trigger] links[u][e] == walk.last();
        assert(shorter.last() == u);
    }
}

/// The distances of a table as integers.
pub open spec fn weights_of<W: Weight>(matrix: Seq<Vec<W>>) -> Seq<Seq<int>> {
    Seq::new(matrix.len(), |i: int| Seq::new(matrix[i]@.len(), |j: int| matrix[i][j].value()))
}

/// Whether the pair of `i` and `j` is taken up before the pair of `k` and
/// `l`: it is lighter, or it is as heavy and `i` is greater, or that too is
/// the same and `j` is greater.
pub open spec fn comes_before(dist: Seq<Seq<int>>, i: int, j: int, k: int, l: int) -> bool {
    dist[i][j] < dist[k][l] || (dist[i][j] == dist[k][l] && (i > k || (i == k && j > l)))
}

/// Whether `walk` is a sequence of points below `n`, not empty, with a
/// step from each to the next.
pub open spec fn is_walk_by(n: int, step: spec_fn(int, int) -> bool, walk: Seq<int>) -> bool {
    &&& walk.len() >= 1
    &&& forall|i: int| 0 <= i < walk.len() ==> 0 <= #[trigger] walk[i] < n
    &&& forall|i: int| 0 <= i < walk.len() - 1 ==> #[trigger] step(walk[i], walk[i + 1])
}

/// Whether such a sequence leads from `x` to `y`.
pub open spec fn joined_by(n: int, step: spec_fn(int, int) -> bool, x: int, y: int) -> bool {
    exists|walk: Seq<int>| #[trigger] is_walk_by(n, step, walk) && walk[0] == x && walk.last() == y
}

/// The steps between two points whose pair, one way or the other, is
/// taken up before the pair of `k` and `l`.
pub open spec fn before(dist: Seq<Seq<int>>, k: int, l: int) -> spec_fn(int, int) -> bool {
    |a: int, b: int| comes_before(dist, a, b, k, l) || comes_before(dist, b, a, k, l)
}

/// Whether the pair of `u` and `v` joins two parts when it is taken up:
/// the pairs that are taken up before it do not join `u` and `v`.
pub open spec fn joins_parts(dist: Seq<Seq<int>>, u: int, v: int) -> bool {
    !joined_by(dist.len() as int, before(dist, u, v), u, v)
}

/// The pair that links `u` and `a`: the one of the two ways that joins two
/// parts.
pub open spec fn joiner(dist: Seq<Seq<int>>, u: int, a: int) -> (int, int) {
    if joins_parts(dist, u, a) {
        (u, a)
    } else {
        (a, u)
    }
}

/// Whether the pair that links `u` and `a` is taken up before the pair
/// that links `u` and `b`.
pub open spec fn links_before(dist: Seq<Seq<int>>, u: int, a: int, b: int) -> bool {
    comes_before(dist, joiner(dist, u, a).0, joiner(dist, u, a).1, joiner(dist, u, b).0, joiner(dist, u, b).1)
}

/// Whether `links` is the tree of the lightest pairs: it links two points
/// exactly if their pair, one way or the other, joins two parts when the
/// pairs are taken up in their order, and the list of each point holds
/// its links in the order in which their pairs are taken up.
pub open spec fn is_lightest_tree(dist: Seq<Seq<int>>, links: Seq<Seq<usize>>) -> bool {
    &&& links.len() == dist.len()
    &&& forall|u: int, e: int|
        0 <= u < links.len() && 0 <= e < links[u].len() ==> (#[trigger] links[u][e]) < links.len()
    &&& forall|u: int, v: int|
        0 <= u < dist.len() && 0 <= v < dist.len() ==> (#[trigger] has_link(links, u, v)
            <==> joins_parts(dist, u, v) || joins_parts(dist, v, u))
    &&& forall|u: int, e: int, f: int|
        0 <= u < links.len() && 0 <= e < f < links[u].len() ==> links_before(
            dist,
            u,
            #[trigger] links[u][e] as int,
            #[trigger] links[u][f] as int,
        )
}

/// A point is joined to itself.
proof fn lemma_joined_self(n: int, step: spec_fn(int, int) -> bool, x: int)
    requires
        0 <= x < n,
    ensures
        joined_by(n, step, x, x),
{
    let walk = seq![x];
    assert(is_walk_by(n, step, walk) && walk[0] == x && walk.last() == x);
}

/// Two points with a step between them are joined.
proof fn lemma_joined_step(n: int, step: spec_fn(int, int) -> bool, x: int, y: int)
    requires
        0 <= x < n,
        0 <= y < n,
        step(x, y),
    ensures
        joined_by(n, step, x, y),
{
    let walk = seq![x, y];
    assert(step(walk[0], walk[0int + 1]));
    assert(is_walk_by(n, step, walk) && walk[0] == x && walk.last() == y);
}

/// What is joined to a point that is joined to a third is joined to the
/// third.
proof fn lemma_joined_trans(n: int, step: spec_fn(int, int) -> bool, x: int, y: int, z: int)
    requires
        joined_by(n, step, x, y),
        joined_by(n, step, y, z),
    ensures
        joined_by(n, step, x, z),
{
    let a = choose|walk: Seq<int>| #[trigger] is_walk_by(n, step, walk) && walk[0] == x && walk.last() == y;
    let b = choose|walk: Seq<int>| #[trigger] is_walk_by(n, step, walk) && walk[0] == y && walk.last() == z;
    let walk = a + b.skip(1);
    assert forall|i: int| 0 <= i < walk.len() - 1 implies #[trigger] step(walk[i], walk[i + 1]) by {
        if i < a.len() - 1 {
            assert(step(a[i], a[i + 1]));
        } else {
            let k = i - (a.len() - 1);
            assert(step(b[k], b[k + 1]));
        }
    }
    assert(is_walk_by(n, step, walk) && walk[0] == x && walk.last() == z);
}

/// More steps join what fewer steps join.
proof fn lemma_joined_more(
    n: int,
    fewer: spec_fn(int, int) -> bool,
    more: spec_fn(int, int) -> bool,
    x: int,
    y: int,
)
    requires
        joined_by(n, fewer, x, y),
        forall|a: int, b: int| 0 <= a < n && 0 <= b < n && #[trigger] fewer(a, b) ==> more(a, b),
    ensures
        joined_by(n, more, x, y),
{
    let walk = choose|walk: Seq<int>| #[trigger] is_walk_by(n, fewer, walk) && walk[0] == x && walk.last() == y;
    assert forall|i: int| 0 <= i < walk.len() - 1 implies #[trigger] more(walk[i], walk[i + 1]) by {
        assert(fewer(walk[i], walk[i + 1]));
    }
    assert(is_walk_by(n, more, walk));
}

/// Where every step stays within a set, so does every walk.
proof fn lemma_walk_same(uf: &UnionFind, n: int, step: spec_fn(int, int) -> bool, walk: Seq<int>)
    requires
        is_walk_by(n, step, walk),
        forall|a: int, b: int| 0 <= a < n && 0 <= b < n && #[trigger] step(a, b) ==> uf.same(a, b),
    ensures
        uf.same(walk[0], walk.last()),
    decreases walk.len(),
{
    if walk.len() > 1 {
        let shorter = walk.drop_last();
        assert forall|i: int| 0 <= i < shorter.len() - 1 implies #[trigger] step(
            shorter[i],
            shorter[i + 1],
        ) by {
            assert(step(walk[i], walk[i + 1]));
        }
        assert(is_walk_by(n, step, shorter));
        lemma_walk_same(uf, n, step, shorter);
        assert(step(walk[walk.len() - 2], walk[walk.len() - 2 + 1]));
    }
}

/// Taking up the pair of `u` and `v`, and joining their sets, keeps that
/// the sets are what the steps join.
proof fn lemma_taken_up(
    n: int,
    fewer: spec_fn(int, int) -> bool,
    more: spec_fn(int, int) -> bool,
    before: &UnionFind,
    after: &UnionFind,
    u: int,
    v: int,
)
    requires
        0 <= u < n,
        0 <= v < n,
        forall|x: int, y: int|
            0 <= x < n && 0 <= y < n ==> (#[trigger] before.same(x, y) <==> joined_by(n, fewer, x, y)),
        forall|a: int, b: int|
            0 <= a < n && 0 <= b < n ==> (#[trigger] more(a, b) <==> fewer(a, b) || (a == u && b == v)
                || (a == v && b == u)),
        forall|x: int, y: int|
            0 <= x < n && 0 <= y < n ==> (#[trigger] after.same(x, y) <==> joined(before, u, v, x, y)),
    ensures
        forall|x: int, y: int|
            0 <= x < n && 0 <= y < n ==> (#[trigger] after.same(x, y) <==> joined_by(n, more, x, y)),
{
    assert forall|a: int, b: int| 0 <= a < n && 0 <= b < n && #[trigger] fewer(a, b) implies more(a, b) by {}
    assert(more(u, v) && more(v, u));
    lemma_joined_step(n, more, u, v);
    lemma_joined_step(n, more, v, u);
    assert forall|a: int, b: int| 0 <= a < n && 0 <= b < n && #[trigger] more(a, b) implies after.same(
        a,
        b,
    ) by {
        if fewer(a, b) {
            lemma_joined_step(n, fewer, a, b);
            assert(before.same(a, b));
        }
        assert(joined(before, u, v, a, b));
    }
    assert forall|x: int, y: int| 0 <= x < n && 0 <= y < n implies (#[trigger] after.same(x, y)
        <==> joined_by(n, more, x, y)) by {
        if joined_by(n, more, x, y) {
            let walk = choose|walk: Seq<int>| #[trigger]
                is_walk_by(n, more, walk) && walk[0] == x && walk.last() == y;
            lemma_walk_same(after, n, more, walk);
        }
        if after.same(x, y) {
            assert(joined(before, u, v, x, y));
            if before.same(x, y) {
                lemma_joined_more(n, fewer, more, x, y);
            } else if before.same(x, u) && before.same(y, v) {
                assert(before.same(v, y));
                lemma_joined_more(n, fewer, more, x, u);
                lemma_joined_more(n, fewer, more, v, y);
                lemma_joined_trans(n, more, x, u, v);
                lemma_joined_trans(n, more, x, v, y);
            } else {
                assert(before.same(x, v) && before.same(u, y));
                lemma_joined_more(n, fewer, more, x, v);
                lemma_joined_more(n, fewer, more, u, y);
                lemma_joined_trans(n, more, x, v, u);
                lemma_joined_trans(n, more, x, u, y);
            }
        }
    }
}

/// Whether the pair of `i` and `j` has been taken up, where the pair of
/// `k` and `l` was the last, if one has been taken up at all.
pub open spec fn taken_up(dist: Seq<Seq<int>>, started: bool, k: int, l: int, i: int, j: int) -> bool {
    started && (comes_before(dist, i, j, k, l) || (i == k && j == l))
}

/// The steps between two points whose pair, one way or the other, has
/// been taken up.
pub open spec fn so_far(dist: Seq<Seq<int>>, started: bool, k: int, l: int) -> spec_fn(int, int) -> bool {
    |a: int, b: int| taken_up(dist, started, k, l, a, b) || taken_up(dist, started, k, l, b, a)
}

/// The entry of a pair in the queue.
spec fn entry_of<W: Weight>(matrix: Seq<Vec<W>>, i: int, j: int) -> (W, Pair) {
    (matrix[i][j], Pair(i as usize, j as usize))
}

/// The entries come out of the queue in the order of their pairs.
proof fn lemma_entry_order<W: Weight>(matrix: Seq<Vec<W>>, i: int, j: int, k: int, l: int)
    requires
        0 <= i < matrix.len(),
        0 <= k < matrix.len(),
        0 <= j < matrix[i].len(),
        0 <= l < matrix[k].len(),
        matrix.len() <= usize::MAX,
        matrix[i].len() <= usize::MAX,
        matrix[k].len() <= usize::MAX,
    ensures
        comes_first(entry_of(matrix, i, j), entry_of(matrix, k, l)) <==> comes_before(
            weights_of(matrix),
            i,
            j,
            k,
            l,
        ) || (i == k && j == l),
{
}

/// The tree that joins the points `0..n` by the lightest pairs that join
/// two parts: for each point the points to which the tree joins it. The
/// pairs are taken up from the lightest on, and pairs of the same weight
/// from the greatest on.
pub fn spanning_tree<W: Weight>(matrix: &Vec<Vec<W>>) -> (tree: Vec<Vec<usize>>)
    requires
        1 <= matrix.len() <= i32::MAX,
        forall|i: int| 0 <= i < matrix.len() ==> (#[trigger] matrix[i]).len() == matrix.len(),
    ensures
        tree.len() == matrix.len(),
        forall|u: int, e: int|
            0 <= u < tree.len() && 0 <= e < tree[u].len() ==> (#[trigger] tree[u][e]) < tree.len(),
        is_lightest_tree(weights_of(matrix@), lists_of(tree@)),
        forall|j: int| 0 <= j < tree.len() ==> #[trigger] linked(lists_of(tree@), 0, j),
{
    let size = matrix.len();
    let ghost n = size as int;
    let ghost dist = weights_of(matrix@);
    let mut uf = UnionFind::new(size);
    let mut hq: MinHeap<W, Pair> = MinHeap::new();
    let mut tree: Vec<Vec<usize>> = Vec::new();
    let mut i: usize = 0;
    while i < size
        invariant
            i <= size,
            tree.len() == i,
            forall|u: int| 0 <= u < i ==> (#[trigger] tree[u]).len() == 0,
        decreases size - i,
    {
        tree.push(Vec::new());
        i += 1;
    }
    let mut i: usize = 0;
    while i < size
        invariant
            n == size,
            matrix.len() == size,
            forall|i: int| 0 <= i < matrix.len() ==> (#[trigger] matrix[i]).len() == matrix.len(),
            i <= size,
            hq.wf(),
            forall|e: (W, Pair)|
                #[trigger] hq@.count(e) > 0 ==> e.1.0 < n && e.1.1 < n && e == entry_of(
                    matrix@,
                    e.1.0 as int,
                    e.1.1 as int,
                ),
            forall|k: int, l: int|
                0 <= k < n && 0 <= l < n ==> #[trigger] hq@.count(entry_of(matrix@, k, l)) == (if k
                    < i {
                    1nat
                } else {
                    0nat
                }),
        decreases size - i,
    {
        let mut j: usize = 0;
        while j < size
            invariant
                n == size,
                matrix.len() == size,
                forall|i: int| 0 <= i < matrix.len() ==> (#[trigger] matrix[i]).len() == matrix.len(),
                i < size,
                j <= size,
                hq.wf(),
                forall|e: (W, Pair)|
                    #[trigger] hq@.count(e) > 0 ==> e.1.0 < n && e.1.1 < n && e == entry_of(
                        matrix@,
                        e.1.0 as int,
                        e.1.1 as int,
                    ),
                forall|k: int, l: int|
                    0 <= k < n && 0 <= l < n ==> #[trigger] hq@.count(entry_of(matrix@, k, l)) == (if k
                        < i || (k == i && l < j) {
                        1nat
                    } else {
                        0nat
                    }),
            decreases size - j,
        {
            let ghost queue0 = hq@;
            hq.push(matrix[i][j], Pair(i, j));
            proof {
                assert(hq@ == queue0.insert(entry_of(matrix@, i as int, j as int)));
                assert forall|k: int, l: int| 0 <= k < n && 0 <= l < n implies #[trigger] hq@.count(
                    entry_of(matrix@, k, l),
                ) == (if k < i || (k == i && l < j + 1) {
                    1nat
                } else {
                    0nat
                }) by {
                    assert(entry_of(matrix@, k, l) == entry_of(matrix@, i as int, j as int) <==> k == i
                        && l == j);
                }
            }
            j += 1;
        }
        i += 1;
    }
    let ghost mut started: bool = false;
    let ghost mut lk: int = 0;
    let ghost mut ll: int = 0;
    proof {
        assert forall|x: int, y: int| 0 <= x < n && 0 <= y < n && uf.same(x, y) implies #[trigger] linked(
            lists_of(tree@),
            x,
            y,
        ) by {
            let walk = seq![x];
            assert(is_path(lists_of(tree@), walk));
        }
        let step = so_far(dist, started, lk, ll);
        assert forall|x: int, y: int| 0 <= x < n && 0 <= y < n implies (#[trigger] uf.same(x, y)
            <==> joined_by(n, step, x, y)) by {
            if x == y {
                lemma_joined_self(n, step, x);
            }
            if joined_by(n, step, x, y) {
                let walk = choose|walk: Seq<int>| #[trigger]
                    is_walk_by(n, step, walk) && walk[0] == x && walk.last() == y;
                if walk.len() > 1 {
                    assert(step(walk[0], walk[0int + 1]));
                }
            }
        }
        assert forall|a: int, b: int| 0 <= a < n && 0 <= b < n implies !#[trigger] has_link(
            lists_of(tree@),
            a,
            b,
        ) by {}
    }
    while hq.len() > 0
        invariant
            n == size,
            1 <= n,
            n == matrix.len(),
            forall|i: int| 0 <= i < matrix.len() ==> (#[trigger] matrix[i]).len() == matrix.len(),
            dist == weights_of(matrix@),
            hq.wf(),
            uf.wf(),
            uf.len() == n,
            tree.len() == n,
            started ==> 0 <= lk < n && 0 <= ll < n,
            forall|u: int, e: int|
                0 <= u < n && 0 <= e < tree[u].len() ==> (#[trigger] tree[u][e]) < n,
            forall|e: (W, Pair)|
                #[trigger] hq@.count(e) > 0 ==> e.1.0 < n && e.1.1 < n && e == entry_of(
                    matrix@,
                    e.1.0 as int,
                    e.1.1 as int,
                ),
            forall|k: int, l: int|
                0 <= k < n && 0 <= l < n ==> #[trigger] hq@.count(entry_of(matrix@, k, l)) == (
                if taken_up(dist, started, lk, ll, k, l) {
                    0nat
                } else {
                    1nat
                }),
            forall|x: int, y: int|
                0 <= x < n && 0 <= y < n ==> (#[trigger] uf.same(x, y) <==> joined_by(
                    n,
                    so_far(dist, started, lk, ll),
                    x,
                    y,
                )),
            forall|a: int, b: int|
                0 <= a < n && 0 <= b < n ==> (#[trigger] has_link(lists_of(tree@), a, b) <==> (
                taken_up(dist, started, lk, ll, a, b) && joins_parts(dist, a, b)) || (taken_up(
                    dist,
                    started,
                    lk,
                    ll,
                    b,
                    a,
                ) && joins_parts(dist, b, a))),
            forall|x: int, y: int|
                0 <= x < n && 0 <= y < n && uf.same(x, y) ==> #[trigger] linked(
                    lists_of(tree@),
                    x,
                    y,
                ),
            forall|w: int, e: int|
                0 <= w < n && 0 <= e < tree[w].len() ==> taken_up(
                    dist,
                    started,
                    lk,
                    ll,
                    joiner(dist, w, (#[trigger] tree[w][e]) as int).0,
                    joiner(dist, w, tree[w][e] as int).1,
                ),
            forall|w: int, e: int, f: int|
                0 <= w < n && 0 <= e < f < tree[w].len() ==> links_before(
                    dist,
                    w,
                    #[trigger] tree[w][e] as int,
                    #[trigger] tree[w][f] as int,
                ),
        decreases hq@.len(),
    {
        let ghost queue0 = hq@;
        let top = hq.pop();
        let Pair(u, v) = top.unwrap().1;
        let ghost uf0 = uf;
        let ghost links0 = lists_of(tree@);
        let ghost tree0 = tree@;
        let ghost started0 = started;
        let ghost lk0 = lk;
        let ghost ll0 = ll;
        let ghost fewer = so_far(dist, started0, lk0, ll0);
        let ghost more = so_far(dist, true, u as int, v as int);
        proof {
            let m = top.unwrap();
            assert(queue0.count(m) > 0);
            assert(m == entry_of(matrix@, u as int, v as int));
            assert(!taken_up(dist, started0, lk0, ll0, u as int, v as int));
            assert forall|k: int, l: int| 0 <= k < n && 0 <= l < n implies (comes_before(
                dist,
                k,
                l,
                u as int,
                v as int,
            ) <==> #[trigger] taken_up(dist, started0, lk0, ll0, k, l)) by {
                lemma_entry_order(matrix@, u as int, v as int, k, l);
                if !taken_up(dist, started0, lk0, ll0, k, l) {
                    assert(queue0.count(entry_of(matrix@, k, l)) > 0);
                    assert(comes_first(m, entry_of(matrix@, k, l)));
                }
            }
            started = true;
            lk = u as int;
            ll = v as int;
            assert forall|k: int, l: int| 0 <= k < n && 0 <= l < n implies #[trigger] hq@.count(
                entry_of(matrix@, k, l),
            ) == (if taken_up(dist, started, lk, ll, k, l) {
                0nat
            } else {
                1nat
            }) by {
                assert(entry_of(matrix@, k, l) == m <==> k == u && l == v);
                assert(comes_before(dist, k, l, u as int, v as int) <==> taken_up(
                    dist,
                    started0,
                    lk0,
                    ll0,
                    k,
                    l,
                ));
            }
            assert forall|a: int, b: int| 0 <= a < n && 0 <= b < n implies (#[trigger] more(a, b)
                <==> fewer(a, b) || (a == u && b == v) || (a == v && b == u)) by {
                assert(comes_before(dist, a, b, u as int, v as int) <==> taken_up(
                    dist,
                    started0,
                    lk0,
                    ll0,
                    a,
                    b,
                ));
                assert(comes_before(dist, b, a, u as int, v as int) <==> taken_up(
                    dist,
                    started0,
                    lk0,
                    ll0,
                    b,
                    a,
                ));
            }
            assert(joins_parts(dist, u as int, v as int) <==> !uf0.same(u as int, v as int)) by {
                let early = before(dist, u as int, v as int);
                assert forall|a: int, b: int| 0 <= a < n && 0 <= b < n implies (#[trigger] early(a, b)
                    <==> fewer(a, b)) by {
                    assert(comes_before(dist, a, b, u as int, v as int) <==> taken_up(
                        dist,
                        started0,
                        lk0,
                        ll0,
                        a,
                        b,
                    ));
                    assert(comes_before(dist, b, a, u as int, v as int) <==> taken_up(
                        dist,
                        started0,
                        lk0,
                        ll0,
                        b,
                        a,
                    ));
                }
                if joined_by(n, early, u as int, v as int) {
                    lemma_joined_more(n, early, fewer, u as int, v as int);
                }
                if joined_by(n, fewer, u as int, v as int) {
                    lemma_joined_more(n, fewer, early, u as int, v as int);
                }
            }
        }
        if !uf.is_same(u, v) {
            let ghost uf1 = uf;
            uf.unite(u, v);
            tree[u].push(v);
            tree[v].push(u);
            proof {
                let links = lists_of(tree@);
                assert(extends(links0, links)) by {
                    assert forall|w: int| 0 <= w < links0.len() implies (#[trigger] links0[w]).len()
                        <= links[w].len() && links[w].take(links0[w].len() as int) == links0[w] by {
                        assert(links[w].take(links0[w].len() as int) =~= links0[w]);
                    }
                }
                assert(has_link(links, u as int, v as int)) by {
                    assert(links[u as int][links0[u as int].len() as int] == v);
                }
                assert(has_link(links, v as int, u as int)) by {
                    assert(links[v as int][links[v as int].len() - 1] == u);
                }
                assert forall|x: int, y: int|
                    0 <= x < n && 0 <= y < n && uf.same(x, y) implies #[trigger] linked(links, x, y) by {
                    assert(joined(&uf1, u as int, v as int, x, y));
                    if uf1.same(x, y) {
                        assert(linked(links0, x, y));
                        lemma_linked_kept(links0, links, x, y);
                    } else if uf1.same(x, u as int) && uf1.same(y, v as int) {
                        assert(linked(links0, x, u as int));
                        assert(uf1.same(v as int, y));
                        assert(linked(links0, v as int, y));
                        lemma_linked_kept(links0, links, x, u as int);
                        lemma_linked_kept(links0, links, v as int, y);
                        lemma_linked_join(links, x, u as int, v as int, y);
                    } else {
                        assert(linked(links0, x, v as int));
                        assert(uf1.same(u as int, y));
                        assert(linked(links0, u as int, y));
                        lemma_linked_kept(links0, links, x, v as int);
                        lemma_linked_kept(links0, links, u as int, y);
                        lemma_linked_join(links, x, v as int, u as int, y);
                    }
                }
                assert forall|x: int, y: int| 0 <= x < n && 0 <= y < n implies (#[trigger] uf.same(x, y)
                    <==> joined(&uf0, u as int, v as int, x, y)) by {
                    assert(uf.same(x, y) <==> joined(&uf1, u as int, v as int, x, y));
                }
                lemma_taken_up(n, fewer, more, &uf0, &uf, u as int, v as int);
                lemma_links_grow(links0, links, u as int, v as int);
                lemma_one_way(dist, n, fewer, &uf0, u as int, v as int);
                assert(joiner(dist, u as int, v as int) == (u as int, v as int));
                assert(joiner(dist, v as int, u as int) == (u as int, v as int));
                assert forall|w: int, e: int| 0 <= w < n && 0 <= e < tree[w].len() implies taken_up(
                    dist,
                    started,
                    lk,
                    ll,
                    joiner(dist, w, (#[trigger] tree[w][e]) as int).0,
                    joiner(dist, w, tree[w][e] as int).1,
                ) by {
                    if e < tree0[w].len() {
                        assert(tree[w][e] == tree0[w][e]);
                        let a = joiner(dist, w, tree0[w][e] as int);
                        assert(taken_up(dist, started0, lk0, ll0, a.0, a.1));
                        assert(comes_before(dist, a.0, a.1, u as int, v as int) <==> taken_up(
                            dist,
                            started0,
                            lk0,
                            ll0,
                            a.0,
                            a.1,
                        ));
                    }
                }
                assert forall|w: int, e: int, f: int| 0 <= w < n && 0 <= e < f < tree[w].len() implies links_before(
                    dist,
                    w,
                    #[trigger] tree[w][e] as int,
                    #[trigger] tree[w][f] as int,
                ) by {
                    assert(tree[w][e] == tree0[w][e]);
                    if f < tree0[w].len() {
                        assert(tree[w][f] == tree0[w][f]);
                    } else {
                        let a = joiner(dist, w, tree0[w][e] as int);
                        assert(taken_up(dist, started0, lk0, ll0, a.0, a.1));
                        assert(comes_before(dist, a.0, a.1, u as int, v as int) <==> taken_up(
                            dist,
                            started0,
                            lk0,
                            ll0,
                            a.0,
                            a.1,
                        ));
                    }
                }
            }
        } else {
            proof {
                assert forall|x: int, y: int| 0 <= x < n && 0 <= y < n implies (#[trigger] uf.same(x, y)
                    <==> joined(&uf0, u as int, v as int, x, y)) by {
                    assert(uf.same(x, y) <==> uf0.same(x, y));
                }
                lemma_taken_up(n, fewer, more, &uf0, &uf, u as int, v as int);
                assert forall|x: int, y: int|
                    0 <= x < n && 0 <= y < n && uf.same(x, y) implies #[trigger] linked(
                    lists_of(tree@),
                    x,
                    y,
                ) by {
                    assert(uf0.same(x, y));
                }
                assert forall|w: int, e: int| 0 <= w < n && 0 <= e < tree[w].len() implies taken_up(
                    dist,
                    started,
                    lk,
                    ll,
                    joiner(dist, w, (#[trigger] tree[w][e]) as int).0,
                    joiner(dist, w, tree[w][e] as int).1,
                ) by {
                    let a = joiner(dist, w, tree0[w][e] as int);
                    assert(taken_up(dist, started0, lk0, ll0, a.0, a.1));
                    assert(comes_before(dist, a.0, a.1, u as int, v as int) <==> taken_up(
                        dist,
                        started0,
                        lk0,
                        ll0,
                        a.0,
                        a.1,
                    ));
                }
            }
        }
        proof {
            assert forall|a: int, b: int| 0 <= a < n && 0 <= b < n implies (#[trigger] has_link(
                lists_of(tree@),
                a,
                b,
            ) <==> (taken_up(dist, started, lk, ll, a, b) && joins_parts(dist, a, b)) || (taken_up(
                dist,
                started,
                lk,
                ll,
                b,
                a,
            ) && joins_parts(dist, b, a))) by {
                assert(comes_before(dist, a, b, u as int, v as int) <==> taken_up(
                    dist,
                    started0,
                    lk0,
                    ll0,
                    a,
                    b,
                ));
                assert(comes_before(dist, b, a, u as int, v as int) <==> taken_up(
                    dist,
                    started0,
                    lk0,
                    ll0,
                    b,
                    a,
                ));
                assert(has_link(links0, a, b) <==> (taken_up(dist, started0, lk0, ll0, a, b)
                    && joins_parts(dist, a, b)) || (taken_up(dist, started0, lk0, ll0, b, a)
                    && joins_parts(dist, b, a)));
            }
        }
    }
    proof {
        vstd::seq_lib::to_multiset_len(Seq::<int>::empty());
        assert(hq@.count(entry_of(matrix@, 0, 0)) == 0);
        assert(started);
        assert forall|k: int, l: int| 0 <= k < n && 0 <= l < n implies #[trigger] taken_up(
            dist,
            started,
            lk,
            ll,
            k,
            l,
        ) by {
            assert(hq@.count(entry_of(matrix@, k, l)) == 0);
        }
        let step = so_far(dist, started, lk, ll);
        assert forall|j: int| 0 <= j < n implies #[trigger] linked(lists_of(tree@), 0, j) by {
            assert(taken_up(dist, started, lk, ll, 0, j));
            assert(step(0, j));
            lemma_joined_step(n, step, 0, j);
            assert(uf.same(0, j));
        }
        assert forall|a: int, b: int| 0 <= a < n && 0 <= b < n implies (#[trigger] has_link(
            lists_of(tree@),
            a,
            b,
        ) <==> joins_parts(dist, a, b) || joins_parts(dist, b, a)) by {
            assert(taken_up(dist, started, lk, ll, a, b));
            assert(taken_up(dist, started, lk, ll, b, a));
        }
    }
    tree
}

/// Longer lists have the links of the shorter lists and the links at
/// their ends.
proof fn lemma_links_grow(before: Seq<Seq<usize>>, after: Seq<Seq<usize>>, u: int, v: int)
    requires
        before.len() == after.len(),
        before.len() <= usize::MAX,
        0 <= u < before.len(),
        0 <= v < before.len(),
        u != v ==> after[u] == before[u].push(v as usize) && after[v] == before[v].push(u as usize),
        u == v ==> after[u] == before[u].push(v as usize).push(u as usize),
        forall|w: int| 0 <= w < before.len() && w != u && w != v ==> after[w] == before[w],
    ensures
        forall|a: int, b: int|
            0 <= a < before.len() ==> (#[trigger] has_link(after, a, b) <==> has_link(before, a, b) || (a
                == u && b == v) || (a == v && b == u)),
{
    assert forall|a: int, b: int| 0 <= a < before.len() implies (#[trigger] has_link(after, a, b)
        <==> has_link(before, a, b) || (a == u && b == v) || (a == v && b == u)) by {
        if has_link(before, a, b) {
            let e = choose|e: int| 0 <= e < before[a].len() && #[trigger] before[a][e] == b;
            assert(after[a][e] == b);
        }
        if a == u && b == v {
            assert(after[a][before[a].len() as int] == b);
        }
        if a == v && b == u {
            if u == v {
                assert(after[a][before[a].len() as int] == b);
            } else {
                assert(after[a][before[a].len() as int] == b);
            }
        }
        if has_link(after, a, b) {
            let e = choose|e: int| 0 <= e < after[a].len() && #[trigger] after[a][e] == b;
            if e < before[a].len() {
                assert(before[a][e] == b);
            }
        }
    }
}

/// Of a pair that joins two parts, the pair the other way does not.
proof fn lemma_one_way(
    dist: Seq<Seq<int>>,
    n: int,
    fewer: spec_fn(int, int) -> bool,
    uf: &UnionFind,
    u: int,
    v: int,
)
    requires
        n == dist.len(),
        0 <= u < n,
        0 <= v < n,
        !uf.same(u, v),
        forall|x: int, y: int|
            0 <= x < n && 0 <= y < n ==> (#[trigger] uf.same(x, y) <==> joined_by(n, fewer, x, y)),
        forall|a: int, b: int|
            0 <= a < n && 0 <= b < n ==> (#[trigger] fewer(a, b) <==> comes_before(dist, a, b, u, v)
                || comes_before(dist, b, a, u, v)),
    ensures
        !joins_parts(dist, v, u),
{
    assert(u != v);
    if comes_before(dist, v, u, u, v) {
        assert(fewer(u, v));
        lemma_joined_step(n, fewer, u, v);
    } else {
        let early = before(dist, v, u);
        assert(comes_before(dist, u, v, v, u));
        assert(early(v, u));
        lemma_joined_step(n, early, v, u);
    }
}

/// The state of a walk: the points that it has met, those that wait for
/// their lists to be gone through, and the points in the order in which it
/// met them.
pub struct Walk {
    pub seen: Seq<bool>,
    pub waiting: Seq<usize>,
    pub path: Seq<usize>,
}

/// The walk after it has gone through `list` from the place `e` on: each
/// point that it had not met, it meets, and lets wait.
pub open spec fn gone_through(list: Seq<usize>, e: int, walk: Walk) -> Walk
    decreases list.len() - e,
{
    if e < 0 || e >= list.len() {
        walk
    } else if walk.seen[list[e] as int] {
        gone_through(list, e + 1, walk)
    } else {
        gone_through(
            list,
            e + 1,
            Walk {
                seen: walk.seen.update(list[e] as int, true),
                waiting: walk.waiting.push(list[e]),
                path: walk.path.push(list[e]),
            },
        )
    }
}

/// The points in the order in which the walk meets them when it goes on
/// for `steps` steps at most: at each step it goes through the list of the
/// point that has waited for the shortest time.
pub open spec fn walked_on(links: Seq<Seq<usize>>, walk: Walk, steps: nat) -> Seq<usize>
    decreases steps,
{
    if steps == 0 || walk.waiting.len() == 0 {
        walk.path
    } else {
        let u = walk.waiting.last();
        walked_on(
            links,
            gone_through(
                links[u as int],
                0,
                Walk { seen: walk.seen, waiting: walk.waiting.drop_last(), path: walk.path },
            ),
            (steps - 1) as nat,
        )
    }
}

/// The points in the order in which a walk from the point 0 along the
/// links meets them, and the point 0 again at the end.
pub open spec fn tour_from(links: Seq<Seq<usize>>) -> Seq<usize> {
    walked_on(
        links,
        Walk { seen: Seq::new(links.len(), |v: int| v == 0), waiting: seq![0usize], path: seq![0usize] },
        links.len(),
    ).push(0)
}

/// The points of `tree` in the order in which a walk from the point 0
/// first meets them, and the point 0 again at the end.
pub fn first_meetings(tree: &Vec<Vec<usize>>) -> (path: Vec<usize>)
    requires
        tree.len() >= 1,
        forall|u: int, e: int|
            0 <= u < tree.len() && 0 <= e < tree[u].len() ==> (#[trigger] tree[u][e]) < tree.len(),
        forall|j: int| 0 <= j < tree.len() ==> #[trigger] linked(lists_of(tree@), 0, j),
    ensures
        is_tour(path@, tree.len() as int),
        path@ == tour_from(lists_of(tree@)),
{
    let size = tree.len();
    let ghost n = size as int;
    let ghost links = lists_of(tree@);
    let mut seen: Vec<bool> = Vec::new();
    let mut i: usize = 0;
    while i < size
        invariant
            i <= size,
            seen.len() == i,
            forall|v: int| 0 <= v < i ==> !#[trigger] seen[v],
        decreases size - i,
    {
        seen.push(false);
        i += 1;
    }
    let mut path: Vec<usize> = Vec::new();
    let mut q: Vec<usize> = Vec::new();
    let ghost mut done: Seq<bool> = Seq::new(n as nat, |v: int| false);
    proof {
        lemma_unseen_bound(seen@, n);
        lemma_unseen_all(seen@, n);
        lemma_unseen_mark(seen@, 0);
        assert(unseen(seen@.update(0, true), n) + 1 == unseen(seen@, n));
    }
    q.push(0);
    path.push(0);
    seen[0] = true;
    let ghost mut steps: nat = n as nat;
    let ghost whole = walked_on(links, Walk { seen: seen@, waiting: q@, path: path@ }, steps);
    proof {
        assert(path@[0] == 0usize);
        assert(q@[0] == 0usize);
        assert(seen@ =~= Seq::new(links.len(), |v: int| v == 0));
        assert(q@ =~= seq![0usize]);
        assert(path@ =~= seq![0usize]);
    }
    while q.len() > 0
        invariant
            whole == walked_on(links, Walk { seen: seen@, waiting: q@, path: path@ }, steps),
            steps + path.len() == n + q.len(),
            n == size,
            n == tree.len(),
            links == lists_of(tree@),
            forall|u: int, e: int|
                0 <= u < n && 0 <= e < tree[u].len() ==> (#[trigger] tree[u][e]) < n,
            seen.len() == n,
            done.len() == n,
            seen[0],
            path.len() >= 1,
            path[0] == 0,
            path.len() + unseen(seen@, n) == n,
            forall|i: int| 0 <= i < path.len() ==> (#[trigger] path[i]) < n && seen[path[i] as int],
            forall|i: int, j: int| 0 <= i < j < path.len() ==> path[i] != path[j],
            forall|v: int| 0 <= v < n && #[trigger] seen[v] ==> path@.contains(v as usize),
            forall|i: int| 0 <= i < q.len() ==> (#[trigger] q[i]) < n && seen[q[i] as int],
            forall|v: int| 0 <= v < n && seen[v] && !#[trigger] done[v] ==> q@.contains(v as usize),
            forall|u: int, e: int|
                0 <= u < n && #[trigger] done[u] && 0 <= e < links[u].len() ==> seen[(
                #[trigger] links[u][e]) as int],
        decreases unseen(seen@, n) + q.len(),
    {
        let ghost q0 = q@;
        let ghost budget = unseen(seen@, n) + q0.len();
        let top = q.pop();
        let u: usize = top.unwrap();
        let list = &tree[u];
        let mut e: usize = 0;
        let ghost after = gone_through(
            links[u as int],
            0,
            Walk { seen: seen@, waiting: q@, path: path@ },
        );
        proof {
            assert(q@ =~= q0.drop_last());
            assert(steps >= 1);
            assert(whole == walked_on(links, after, (steps - 1) as nat));
            steps = (steps - 1) as nat;
        }
        proof {
            assert(q0[q0.len() - 1] == u);
            assert forall|v: int| 0 <= v < n && seen[v] && !#[trigger] done[v] && v != u implies q@.contains(
                v as usize,
            ) by {
                let k = choose|k: int| 0 <= k < q0.len() && q0[k] == v as usize;
                assert(q@[k] == v as usize);
            }
        }
        while e < list.len()
            invariant
                after == gone_through(
                    links[u as int],
                    e as int,
                    Walk { seen: seen@, waiting: q@, path: path@ },
                ),
                steps + path.len() == n + q.len(),
                n == size,
                n == tree.len(),
                links == lists_of(tree@),
                u < n,
                list@ == links[u as int],
                e <= list.len(),
                forall|u: int, e: int|
                    0 <= u < n && 0 <= e < tree[u].len() ==> (#[trigger] tree[u][e]) < n,
                seen.len() == n,
                done.len() == n,
                seen[0],
                seen[u as int],
                path.len() >= 1,
                path[0] == 0,
                path.len() + unseen(seen@, n) == n,
                forall|i: int| 0 <= i < path.len() ==> (#[trigger] path[i]) < n && seen[path[i] as int],
                forall|i: int, j: int| 0 <= i < j < path.len() ==> path[i] != path[j],
                forall|v: int| 0 <= v < n && #[trigger] seen[v] ==> path@.contains(v as usize),
                forall|i: int| 0 <= i < q.len() ==> (#[trigger] q[i]) < n && seen[q[i] as int],
                forall|v: int|
                    0 <= v < n && seen[v] && !#[trigger] done[v] && v != u ==> q@.contains(v as usize),
                forall|w: int, f: int|
                    0 <= w < n && #[trigger] done[w] && 0 <= f < links[w].len() ==> seen[(
                    #[trigger] links[w][f]) as int],
                forall|f: int| 0 <= f < e ==> seen[(#[trigger] links[u as int][f]) as int],
                unseen(seen@, n) + q.len() + 1 <= budget,
            decreases list.len() - e,
        {
            let v: usize = list[e];
            proof {
                assert(tree[u as int][e as int] == v);
            }
            if !seen[v] {
                let ghost q1 = q@;
                let ghost path1 = path@;
                proof {
                    lemma_unseen_mark(seen@, v as int);
                    assert(unseen(seen@.update(v as int, true), n) + 1 == unseen(seen@, n));
                    assert(!path@.contains(v)) by {
                        if path@.contains(v) {
                            let k = choose|k: int| 0 <= k < path.len() && path@[k] == v;
                            assert(seen[path[k] as int]);
                        }
                    }
                }
                q.push(v);
                path.push(v);
                seen[v] = true;
                proof {
                    assert forall|x: int| 0 <= x < n && #[trigger] seen[x] implies path@.contains(
                        x as usize,
                    ) by {
                        if x == v {
                            assert(path@[path1.len() as int] == v);
                        } else {
                            let k = choose|k: int| 0 <= k < path1.len() && path1[k] == x as usize;
                            assert(path@[k] == x as usize);
                        }
                    }
                    assert forall|x: int|
                        0 <= x < n && seen[x] && !#[trigger] done[x] && x != u implies q@.contains(
                        x as usize,
                    ) by {
                        if x == v {
                            assert(q@[q1.len() as int] == v);
                        } else {
                            let k = choose|k: int| 0 <= k < q1.len() && q1[k] == x as usize;
                            assert(q@[k] == x as usize);
                        }
                    }
                }
            }
            e += 1;
        }
        proof {
            done = done.update(u as int, true);
        }
    }
    proof {
        assert(whole == path@);
        assert forall|j: int| 0 <= j < n implies #[trigger] seen[j] by {
            assert(linked(links, 0, j));
            let walk = choose|walk: Seq<int>|
                #[trigger] is_path(links, walk) && walk[0] == 0 && walk.last() == j;
            assert forall|u: int, e: int|
                0 <= u < links.len() && seen[u] && 0 <= e < links[u].len() implies seen[(
            #[trigger] links[u][e]) as int] by {
                if !done[u] {
                    assert(q@.contains(u as usize));
                }
            }
            lemma_closed(links, seen@, walk);
        }
        lemma_unseen_zero(seen@, n);
    }
    path.push(0);
    path
}

/// Where no entry is set, all entries are unset.
proof fn lemma_unseen_all(seen: Seq<bool>, upto: int)
    requires
        0 <= upto <= seen.len(),
        forall|v: int| 0 <= v < upto ==> !seen[v],
    ensures
        unseen(seen, upto) == upto,
    decreases upto,
{
    if upto > 0 {
        lemma_unseen_all(seen, upto - 1);
    }
}

/// Where every entry is set, no entry is unset.
proof fn lemma_unseen_zero(seen: Seq<bool>, upto: int)
    requires
        0 <= upto <= seen.len(),
        forall|v: int| 0 <= v < upto ==> seen[v],
    ensures
        unseen(seen, upto) == 0,
    decreases upto,
{
    if upto > 0 {
        lemma_unseen_zero(seen, upto - 1);
    }
}

/// Two lists in the order of their links, with the same links, are the
/// same list.
proof fn lemma_same_list(dist: Seq<Seq<int>>, u: int, a: Seq<usize>, b: Seq<usize>)
    requires
        forall|e: int, f: int|
            0 <= e < f < a.len() ==> links_before(dist, u, #[trigger] a[e] as int, #[trigger] a[f] as int),
        forall|e: int, f: int|
            0 <= e < f < b.len() ==> links_before(dist, u, #[trigger] b[e] as int, #[trigger] b[f] as int),
        forall|x: usize| a.contains(x) <==> b.contains(x),
    ensures
        a == b,
    decreases a.len(),
{
    if a.len() == 0 {
        if b.len() > 0 {
            assert(b.contains(b[0]));
        }
        assert(a =~= b);
    } else if b.len() == 0 {
        assert(a.contains(a[0]));
    } else {
        assert(a.contains(a[0]));
        assert(b.contains(b[0]));
        let j = choose|j: int| 0 <= j < b.len() && b[j] == a[0];
        let i = choose|i: int| 0 <= i < a.len() && a[i] == b[0];
        if i > 0 && j > 0 {
            assert(links_before(dist, u, a[0] as int, a[i] as int));
            assert(links_before(dist, u, b[0] as int, b[j] as int));
        }
        assert(a[0] == b[0]);
        let rest_a = a.skip(1);
        let rest_b = b.skip(1);
        assert forall|e: int, f: int| 0 <= e < f < rest_a.len() implies links_before(
            dist,
            u,
            #[trigger] rest_a[e] as int,
            #[trigger] rest_a[f] as int,
        ) by {
            assert(rest_a[e] == a[e + 1] && rest_a[f] == a[f + 1]);
        }
        assert forall|e: int, f: int| 0 <= e < f < rest_b.len() implies links_before(
            dist,
            u,
            #[trigger] rest_b[e] as int,
            #[trigger] rest_b[f] as int,
        ) by {
            assert(rest_b[e] == b[e + 1] && rest_b[f] == b[f + 1]);
        }
        assert forall|x: usize| rest_a.contains(x) <==> rest_b.contains(x) by {
            if rest_a.contains(x) {
                let e = choose|e: int| 0 <= e < rest_a.len() && rest_a[e] == x;
                assert(a[e + 1] == x);
                assert(links_before(dist, u, a[0] as int, a[e + 1] as int));
                assert(a.contains(x));
                let f = choose|f: int| 0 <= f < b.len() && b[f] == x;
                assert(f > 0);
                assert(rest_b[f - 1] == x);
            }
            if rest_b.contains(x) {
                let e = choose|e: int| 0 <= e < rest_b.len() && rest_b[e] == x;
                assert(b[e + 1] == x);
                assert(links_before(dist, u, b[0] as int, b[e + 1] as int));
                assert(b.contains(x));
                let f = choose|f: int| 0 <= f < a.len() && a[f] == x;
                assert(f > 0);
                assert(rest_a[f - 1] == x);
            }
        }
        lemma_same_list(dist, u, rest_a, rest_b);
        assert(a =~= seq![a[0]] + rest_a);
        assert(b =~= seq![b[0]] + rest_b);
    }
}

/// A table of distances has one tree of the lightest pairs.
pub proof fn lemma_lightest_tree_unique(dist: Seq<Seq<int>>, a: Seq<Seq<usize>>, b: Seq<Seq<usize>>)
    requires
        is_lightest_tree(dist, a),
        is_lightest_tree(dist, b),
    ensures
        a == b,
{
    assert forall|u: int| 0 <= u < a.len() implies a[u] == b[u] by {
        assert forall|x: usize| a[u].contains(x) <==> b[u].contains(x) by {
            if a[u].contains(x) {
                let e = choose|e: int| 0 <= e < a[u].len() && a[u][e] == x;
                assert(a[u][e] < a.len());
                assert(has_link(a, u, x as int));
                assert(has_link(b, u, x as int));
            }
            if b[u].contains(x) {
                let e = choose|e: int| 0 <= e < b[u].len() && b[u][e] == x;
                assert(b[u][e] < b.len());
                assert(has_link(b, u, x as int));
                assert(has_link(a, u, x as int));
            }
        }
        lemma_same_list(dist, u, a[u], b[u]);
    }
    assert(a =~= b);
}

/// The tour through the points `0..n` with the distances of `matrix`: the
/// points in the order in which a walk from the point 0 round the tree of
/// the lightest pairs first meets them, and the point 0 again at the end.
pub fn tour_of_distances<W: Weight>(matrix: &Vec<Vec<W>>) -> (path: Vec<usize>)
    requires
        1 <= matrix.len() <= i32::MAX,
        forall|i: int| 0 <= i < matrix.len() ==> (#[trigger] matrix[i]).len() == matrix.len(),
    ensures
        is_tour(path@, matrix.len() as int),
        exists|links: Seq<Seq<usize>>| #[trigger]
            is_lightest_tree(weights_of(matrix@), links) && path@ == tour_from(links),
{
    let tree = spanning_tree(matrix);
    let path = first_meetings(&tree);
    proof {
        assert(is_lightest_tree(weights_of(matrix@), lists_of(tree@)) && path@ == tour_from(
            lists_of(tree@),
        ));
    }
    path
}

/// A tour through `points`: the tour with the distances that the space
/// gives for each pair of the points. Where the distances obey the triangle
/// inequality, such a tour is at most twice as long as the shortest; of
/// its length the contract says nothing.
pub fn tsp_two_approximation<S: MetricSpace>(points: &[S::P]) -> (path: Vec<usize>)
    requires
        1 <= points.len() <= i32::MAX,
    ensures
        is_tour(path@, points.len() as int),
{
    let size = points.len();
    let mut dist_matrix: Vec<Vec<S::W>> = Vec::new();
    let mut i: usize = 0;
    while i < size
        invariant
            i <= size == points.len(),
            dist_matrix.len() == i,
            forall|k: int| 0 <= k < i ==> (#[trigger] dist_matrix[k]).len() == size,
        decreases size - i,
    {
        let mut row: Vec<S::W> = Vec::new();
        let mut j: usize = 0;
        while j < size
            invariant
                i < size == points.len(),
                j <= size,
                row.len() == j,
            decreases size - j,
        {
            row.push(S::d(&points[i], &points[j]));
            j += 1;
        }
        dist_matrix.push(row);
        i += 1;
    }
    tour_of_distances(&dist_matrix)
}

} // verus!

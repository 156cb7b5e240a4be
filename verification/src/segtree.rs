//! A segment tree over a monoid: a sequence that can be changed place by
//! place, with the product of any stretch in logarithmic time.
//!
//! The tree of a sequence of `n` elements has the nodes `1..2n`. The nodes
//! `n..2n` are the leaves and hold the elements; a node `i` below `n` holds
//! the product of the nodes `2i` and `2i + 1`.

use vstd::prelude::*;
use crate::algebra::Monoid;

verus! {

/// The product of the elements of a sequence, from the first to the last;
/// the unit for the empty sequence.
pub open spec fn monoid_product<M: Monoid>(s: Seq<M::S>) -> M::S
    decreases s.len(),
{
    if s.len() == 0 {
        M::E
    } else {
        M::op_spec(monoid_product::<M>(s.drop_last()), s.last())
    }
}

/// What node `i` of the tree of `leaves` holds.
pub open spec fn node_value<M: Monoid>(leaves: Seq<M::S>, i: int) -> M::S
    decreases 2 * leaves.len() - i,
{
    if i < 1 || i >= 2 * leaves.len() {
        M::E
    } else if i >= leaves.len() {
        leaves[i - leaves.len()]
    } else {
        M::op_spec(node_value::<M>(leaves, 2 * i), node_value::<M>(leaves, 2 * i + 1))
    }
}

/// The product of what the nodes `lo..hi` hold, in the order of their numbers.
pub open spec fn nodes_product<M: Monoid>(leaves: Seq<M::S>, lo: int, hi: int) -> M::S
    decreases hi - lo,
{
    if hi <= lo {
        M::E
    } else {
        M::op_spec(nodes_product::<M>(leaves, lo, hi - 1), node_value::<M>(leaves, hi - 1))
    }
}

/// Whether `k` is `c` or stands above `c` in the tree.
pub open spec fn on_path(k: int, c: int) -> bool
    decreases c,
{
    c >= 1 && (k == c || (c >= 2 && on_path(k, c / 2)))
}

/// Splitting off the first node of a product of nodes.
proof fn lemma_nodes_product_first<M: Monoid>(leaves: Seq<M::S>, lo: int, hi: int)
    requires
        lo < hi,
    ensures
        nodes_product::<M>(leaves, lo, hi) == M::op_spec(
            node_value::<M>(leaves, lo),
            nodes_product::<M>(leaves, lo + 1, hi),
        ),
    decreases hi - lo,
{
    if hi == lo + 1 {
        M::lemma_unit(node_value::<M>(leaves, lo));
        assert(nodes_product::<M>(leaves, lo, lo) == M::E);
        assert(nodes_product::<M>(leaves, lo + 1, hi) == M::E);
    } else {
        lemma_nodes_product_first::<M>(leaves, lo, hi - 1);
        M::lemma_associative(
            node_value::<M>(leaves, lo),
            nodes_product::<M>(leaves, lo + 1, hi - 1),
            node_value::<M>(leaves, hi - 1),
        );
    }
}

/// The nodes `2a..2b` hold together what the nodes `a..b` above them hold.
proof fn lemma_nodes_product_up<M: Monoid>(leaves: Seq<M::S>, a: int, b: int)
    requires
        1 <= a <= b <= leaves.len(),
    ensures
        nodes_product::<M>(leaves, 2 * a, 2 * b) == nodes_product::<M>(leaves, a, b),
    decreases b - a,
{
    if a < b {
        lemma_nodes_product_up::<M>(leaves, a, b - 1);
        let rest = nodes_product::<M>(leaves, 2 * a, 2 * b - 2);
        let x = node_value::<M>(leaves, 2 * b - 2);
        let y = node_value::<M>(leaves, 2 * b - 1);
        assert(nodes_product::<M>(leaves, 2 * a, 2 * b - 1) == M::op_spec(rest, x));
        M::lemma_associative(rest, x, y);
    }
}

/// The leaves of a stretch hold together the product of the stretch.
proof fn lemma_nodes_product_leaves<M: Monoid>(leaves: Seq<M::S>, l: int, r: int)
    requires
        0 <= l <= r <= leaves.len(),
    ensures
        nodes_product::<M>(leaves, leaves.len() + l, leaves.len() + r) == monoid_product::<M>(
            leaves.subrange(l, r),
        ),
    decreases r - l,
{
    if l < r {
        lemma_nodes_product_leaves::<M>(leaves, l, r - 1);
        assert(leaves.subrange(l, r).drop_last() =~= leaves.subrange(l, r - 1));
    }
}

/// A node above `c` has a number no greater than `c`.
proof fn lemma_on_path_le(k: int, c: int)
    requires
        on_path(k, c),
    ensures
        1 <= k <= c,
    decreases c,
{
    if k != c {
        lemma_on_path_le(k, c / 2);
    }
}

/// Changing one leaf changes only what the nodes above it hold.
proof fn lemma_node_value_off_path<M: Monoid>(leaves: Seq<M::S>, p: int, s: M::S, k: int)
    requires
        0 <= p < leaves.len(),
        1 <= k < 2 * leaves.len(),
        !on_path(k, leaves.len() + p),
    ensures
        node_value::<M>(leaves.update(p, s), k) == node_value::<M>(leaves, k),
    decreases 2 * leaves.len() - k,
{
    let n = leaves.len() as int;
    if k < n {
        lemma_off_path_down(2 * k, n + p);
        lemma_off_path_down(2 * k + 1, n + p);
        lemma_node_value_off_path::<M>(leaves, p, s, 2 * k);
        lemma_node_value_off_path::<M>(leaves, p, s, 2 * k + 1);
    }
}

/// Where a node is `c` or above it, so is the node above that node.
proof fn lemma_on_path_up(child: int, c: int)
    requires
        child >= 2,
        on_path(child, c),
    ensures
        on_path(child / 2, c),
    decreases c,
{
    if child == c {
        assert(on_path(child / 2, c / 2));
    } else {
        lemma_on_path_up(child, c / 2);
    }
}

/// Where a node is not above `c`, the two nodes below it are not either.
proof fn lemma_off_path_down(child: int, c: int)
    requires
        child >= 2,
        !on_path(child / 2, c),
    ensures
        !on_path(child, c),
{
    if on_path(child, c) {
        lemma_on_path_up(child, c);
    }
}

/// A segment tree. Its view is the sequence of its elements.
pub struct SegmentTree<M: Monoid> {
    size: usize,
    tree: Vec<M::S>,
}

impl<M: Monoid> View for SegmentTree<M> {
    type V = Seq<M::S>;

    closed spec fn view(&self) -> Seq<M::S> {
        self.tree@.skip(self.size as int)
    }
}

impl<M: Monoid> SegmentTree<M> {
    /// Every node holds what its place in the tree asks for.
    pub closed spec fn wf(&self) -> bool {
        &&& self.tree.len() == 2 * self.size
        &&& forall|k: int|
            1 <= k < 2 * self.size ==> #[trigger] self.tree[k] == node_value::<M>(self@, k)
    }

    /// The tree of `size` elements, each the unit of the monoid.
    pub fn new(size: usize) -> (st: Self)
        requires
            2 * size <= usize::MAX,
        ensures
            st.wf(),
            st@ == Seq::new(size as nat, |i: int| M::E),
    {
        let mut array: Vec<M::S> = Vec::new();
        let mut i: usize = 0;
        while i < size
            invariant
                i <= size,
                array@ == Seq::new(i as nat, |i: int| M::E),
            decreases size - i,
        {
            array.push(M::E);
            proof {
                assert(array@ =~= Seq::new((i + 1) as nat, |i: int| M::E));
            }
            i += 1;
        }
        Self::from(array.as_slice())
    }

    /// The tree of the elements of `array`.
    pub fn from(array: &[M::S]) -> (st: Self)
        requires
            2 * array.len() <= usize::MAX,
        ensures
            st.wf(),
            st@ == array@,
    {
        let size = array.len();
        let mut tree: Vec<M::S> = Vec::new();
        let mut i: usize = 0;
        while i < size
            invariant
                i <= size,
                tree.len() == i,
            decreases size - i,
        {
            tree.push(M::E);
            i += 1;
        }
        i = 0;
        while i < size
            invariant
                i <= size == array.len(),
                tree.len() == size + i,
                tree@.skip(size as int) == array@.take(i as int),
            decreases size - i,
        {
            tree.push(array[i]);
            proof {
                assert(tree@.skip(size as int) =~= array@.take(i + 1));
            }
            i += 1;
        }
        proof {
            assert(array@.take(size as int) =~= array@);
        }
        let mut i: usize = size;
        while i > 1
            invariant
                i <= size == array.len(),
                size >= 1 ==> i >= 1,
                tree.len() == 2 * size,
                tree@.skip(size as int) == array@,
                forall|k: int|
                    i <= k < 2 * size && 1 <= k ==> #[trigger] tree[k] == node_value::<M>(
                        array@,
                        k,
                    ),
            decreases i,
        {
            i -= 1;
            let x = M::op(&tree[2 * i], &tree[2 * i + 1]);
            let ghost before = tree@;
            tree[i] = x;
            proof {
                assert(tree@.skip(size as int) =~= before.skip(size as int));
            }
        }
        Self { size, tree }
    }

    /// Puts `s` at place `i`.
    pub fn insert(&mut self, i: usize, s: M::S)
        requires
            old(self).wf(),
            i < old(self)@.len(),
        ensures
            final(self).wf(),
            final(self)@ == old(self)@.update(i as int, s),
    {
        let ghost leaves = self@;
        let ghost changed = self@.update(i as int, s);
        let ghost n = self.size as int;
        let mut c: usize = i + self.size;
        let ghost before = self.tree@;
        self.tree[c] = s;
        proof {
            assert(self.tree@.skip(n) =~= changed);
            assert forall|k: int| 1 <= k < 2 * n implies #[trigger] self.tree[k] == node_value::<M>(
                changed,
                k,
            ) || (c >= 2 && on_path(k, c as int / 2)) by {
                if !on_path(k, c as int) {
                    lemma_node_value_off_path::<M>(leaves, i as int, s, k);
                    assert(self.tree[k] == before[k]);
                }
            }
        }
        while c > 1
            invariant
                1 <= c < 2 * self.size,
                n == self.size,
                self.tree.len() == 2 * self.size,
                self.tree@.skip(n) == changed,
                changed.len() == n,
                forall|k: int|
                    1 <= k < 2 * n ==> #[trigger] self.tree[k] == node_value::<M>(changed, k) || (c
                        >= 2 && on_path(k, c as int / 2)),
            decreases c,
        {
            c = c / 2;
            proof {
                if on_path(2 * c, c as int) {
                    lemma_on_path_le(2 * c, c as int);
                }
                if on_path(2 * c + 1, c as int) {
                    lemma_on_path_le(2 * c + 1, c as int);
                }
            }
            let x = M::op(&self.tree[2 * c], &self.tree[2 * c + 1]);
            let ghost prev = self.tree@;
            self.tree[c] = x;
            proof {
                assert(self.tree@.skip(n) =~= prev.skip(n));
                assert forall|k: int| 1 <= k < 2 * n implies #[trigger] self.tree[k]
                    == node_value::<M>(changed, k) || (c >= 2 && on_path(k, c as int / 2)) by {
                    if k != c {
                        assert(self.tree[k] == prev[k]);
                    }
                }
            }
        }
    }

    /// The number of elements.
    pub fn len(&self) -> (n: usize)
        requires
            self.wf(),
        ensures
            n == self@.len(),
    {
        self.size
    }

    /// The element at place `i`.
    pub fn get(&self, i: usize) -> (s: M::S)
        requires
            self.wf(),
            i < self@.len(),
        ensures
            s == self@[i as int],
    {
        self.tree[i + self.size]
    }

    /// The product of the elements at the places `left..right`.
    pub fn prod(&self, left: usize, right: usize) -> (p: M::S)
        requires
            self.wf(),
            left <= right <= self@.len(),
        ensures
            p == monoid_product::<M>(self@.subrange(left as int, right as int)),
    {
        self._prod(left, right)
    }

    fn _prod(&self, left: usize, right: usize) -> (p: M::S)
        requires
            self.wf(),
            left <= right <= self@.len(),
        ensures
            p == monoid_product::<M>(self@.subrange(left as int, right as int)),
    {
        let ghost leaves = self@;
        let ghost answer = monoid_product::<M>(self@.subrange(left as int, right as int));
        let mut lo: usize = left + self.size;
        let mut hi: usize = right + self.size;
        let mut sl: M::S = M::E;
        let mut sr: M::S = M::E;
        proof {
            lemma_nodes_product_leaves::<M>(leaves, left as int, right as int);
            M::lemma_unit(answer);
        }
        while lo < hi
            invariant
                self.wf(),
                leaves == self@,
                leaves.len() == self.size,
                lo <= hi <= 2 * self.size,
                lo < hi ==> 1 <= lo,
                M::op_spec(M::op_spec(sl, nodes_product::<M>(leaves, lo as int, hi as int)), sr)
                    == answer,
            decreases hi,
        {
            let ghost mid = nodes_product::<M>(leaves, lo as int, hi as int);
            if lo % 2 == 1 {
                proof {
                    lemma_nodes_product_first::<M>(leaves, lo as int, hi as int);
                    M::lemma_associative(
                        sl,
                        node_value::<M>(leaves, lo as int),
                        nodes_product::<M>(leaves, lo + 1, hi as int),
                    );
                }
                sl = M::op(&sl, &self.tree[lo]);
                lo += 1;
            }
            if hi % 2 == 1 {
                proof {
                    let inner = nodes_product::<M>(leaves, lo as int, hi - 1);
                    let last = node_value::<M>(leaves, hi - 1);
                    if lo < hi {
                        M::lemma_associative(sl, inner, last);
                        M::lemma_associative(M::op_spec(sl, inner), last, sr);
                    }
                }
                hi -= 1;
                sr = M::op(&self.tree[hi], &sr);
            }
            proof {
                if lo < hi {
                    lemma_nodes_product_up::<M>(leaves, lo as int / 2, hi as int / 2);
                }
            }
            lo = lo / 2;
            hi = hi / 2;
        }
        proof {
            M::lemma_unit(sl);
        }
        M::op(&sl, &sr)
    }
}

} // verus!

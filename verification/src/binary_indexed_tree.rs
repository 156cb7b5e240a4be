//! A binary indexed tree: a sequence of weights that can grow place by
//! place, with the sum of any stretch in logarithmic time.
//!
//! The tree of `n` weights has the nodes `1..=n`. Node `i` holds the sum of
//! the `lowbit(i)` weights that end at place `i`, where `lowbit(i)` is the
//! lowest set bit of `i`.

use vstd::prelude::*;
use crate::weight::{
    Weight,
    values_of,
    sum_of,
    lemma_sum_subrange,
    lemma_sum_update,
    lemma_values_nonnegative,
};

verus! {

/// The lowest set bit of `i`, as a number: the greatest power of two that
/// divides `i`.
pub open spec fn lowbit(i: u64) -> u64 {
    i & ((!i + 1) as u64)
}

/// The lowest set bit of a positive number is a power of two between one
/// and the number.
pub proof fn lemma_lowbit(i: u64)
    by (bit_vector)
    requires
        i >= 1,
    ensures
        !i + 1 <= 0xffff_ffff_ffff_ffff,
        1 <= lowbit(i) <= i,
        i >= 2 && lowbit(i) >= 2 ==> lowbit((i - 1) as u64) == 1,
        1u64 & 0u64 == 0,
{
}

/// The node after `i` on the way up covers what `i` covers.
pub proof fn lemma_lowbit_up(i: u64)
    by (bit_vector)
    requires
        i >= 1,
        i + lowbit(i) <= 0xffff_ffff_ffff_ffff,
    ensures
        lowbit((i + lowbit(i)) as u64) >= 2 * lowbit(i),
        i - lowbit(i) == (i + lowbit(i)) - lowbit((i + lowbit(i)) as u64) || (i - lowbit(i) >= 1
            && (i - lowbit(i)) + lowbit((i - lowbit(i)) as u64) == i + lowbit(i)),
{
}

/// A node strictly between `i` and the node after `i` on the way up covers
/// nothing before `i`.
pub proof fn lemma_lowbit_between(i: u64, y: u64)
    by (bit_vector)
    requires
        i >= 1,
        i < y,
        y - i < lowbit(i),
    ensures
        lowbit(y) <= y - i,
{
}

/// A node inside what `i` covers leads, one step up, to a node no greater
/// than `i`.
proof fn lemma_lowbit_inside(i: u64, y: u64)
    by (bit_vector)
    requires
        i >= 1,
        y < i,
        i - y < lowbit(i),
    ensures
        y + lowbit(y) <= i,
{
}

/// Where `d` is a power of two and `j` a multiple of `2 * d`, the lowest set
/// bit of `j + d` is `d`, and both `j` and `j + d` are multiples of `d`.
proof fn lemma_lowbit_step(j: u64, d: u64)
    by (bit_vector)
    requires
        d != 0,
        d & ((d - 1) as u64) == 0,
        j & (d | ((d - 1) as u64)) == 0,
        j + d <= 0xffff_ffff_ffff_ffff,
    ensures
        lowbit((j + d) as u64) == d,
        d >= 2 ==> (d / 2) != 0 && (d / 2) & ((d / 2 - 1) as u64) == 0,
        d >= 2 ==> j & ((d / 2) | ((d / 2 - 1) as u64)) == 0,
        d >= 2 ==> ((j + d) as u64) & ((d / 2) | ((d / 2 - 1) as u64)) == 0,
        d >= 2 ==> d / 2 + d / 2 == d,
{
}

/// Doubling a power of two that does not overflow gives a power of two.
proof fn lemma_power_double(p: u64)
    by (bit_vector)
    requires
        p != 0,
        p & ((p - 1) as u64) == 0,
        p <= 0x7fff_ffff_ffff_ffff,
    ensures
        ((p + p) as u64) & ((p + p - 1) as u64) == 0,
        ((p + p) / 2) as u64 == p,
        0u64 & (p | ((p - 1) as u64)) == 0,
{
}

/// The lowest set bit of `i`.
pub fn lowest_set_bit(i: usize) -> (l: usize)
    requires
        i >= 1,
    ensures
        l == lowbit(i as u64),
        1 <= l <= i,
{
    proof {
        lemma_lowbit(i as u64);
    }
    let x: u64 = i as u64;
    (x & (!x + 1)) as usize
}

/// What node `k` of the tree of `values` holds: the sum of the `lowbit(k)`
/// values that end at place `k`.
pub open spec fn node_sum(values: Seq<int>, k: int) -> int {
    sum_of(values.subrange(k - lowbit(k as u64), k))
}

/// A binary indexed tree. Its view is the sequence of the integers that its
/// weights stand for.
pub struct BinaryIndexedTree<T> {
    tree: Vec<T>,
    /// The number of weights.
    pub size: usize,
    values: Ghost<Seq<int>>,
}

impl<T: Weight> View for BinaryIndexedTree<T> {
    type V = Seq<int>;

    closed spec fn view(&self) -> Seq<int> {
        self.values@
    }
}

/// The sum of two neighbouring stretches is the sum of the stretch that
/// they form.
pub proof fn lemma_sum_join(s: Seq<int>, a: int, b: int, c: int)
    requires
        0 <= a <= b <= c <= s.len(),
    ensures
        sum_of(s.subrange(a, c)) == sum_of(s.subrange(a, b)) + sum_of(s.subrange(b, c)),
{
    assert(s.subrange(a, c) =~= s.subrange(a, b) + s.subrange(b, c));
    crate::weight::lemma_sum_concat(s.subrange(a, b), s.subrange(b, c));
}

/// Among numbers none of which is negative, a longer prefix has no smaller
/// sum, and a stretch no greater sum than the whole.
pub proof fn lemma_prefix_monotone(s: Seq<int>, a: int, b: int)
    requires
        0 <= a <= b <= s.len(),
        forall|i: int| 0 <= i < s.len() ==> 0 <= s[i],
    ensures
        sum_of(s.subrange(0, a)) <= sum_of(s.subrange(0, b)) <= sum_of(s),
        0 <= sum_of(s.subrange(a, b)) <= sum_of(s),
{
    lemma_sum_join(s, 0, a, b);
    lemma_sum_subrange(s, a, b);
    lemma_sum_subrange(s, 0, b);
    lemma_sum_subrange(s, 0, a);
}

/// Adding to one number adds to the sum of each stretch that holds it, and
/// to no other.
pub proof fn lemma_sum_stretch_update(s: Seq<int>, a: int, b: int, p: int, x: int)
    requires
        0 <= a <= b <= s.len(),
        0 <= p < s.len(),
    ensures
        sum_of(s.update(p, x).subrange(a, b)) == if a <= p < b {
            sum_of(s.subrange(a, b)) - s[p] + x
        } else {
            sum_of(s.subrange(a, b))
        },
{
    if a <= p < b {
        lemma_sum_update(s.subrange(a, b), p - a, x);
        assert(s.update(p, x).subrange(a, b) =~= s.subrange(a, b).update(p - a, x));
    } else {
        assert(s.update(p, x).subrange(a, b) =~= s.subrange(a, b));
    }
}

impl<T: Weight> BinaryIndexedTree<T> {
    /// Each node holds the sum that its place asks for; no number is
    /// negative and all together do not exceed the limit of their type.
    pub closed spec fn wf(&self) -> bool {
        &&& self.tree.len() == self.size + 1
        &&& self.values@.len() == self.size
        &&& 2 * self.size + 2 <= usize::MAX
        &&& sum_of(self.values@) <= T::limit()
        &&& forall|i: int| 0 <= i < self.size ==> 0 <= #[trigger] self.values@[i]
        &&& forall|k: int|
            1 <= k <= self.size ==> (#[trigger] self.tree[k]).value() == node_sum(self.values@, k)
    }

    /// What `wf` says of the view.
    pub proof fn lemma_wf(&self)
        requires
            self.wf(),
        ensures
            2 * self@.len() + 2 <= usize::MAX,
            sum_of(self@) <= T::limit(),
            forall|i: int| 0 <= i < self@.len() ==> 0 <= #[trigger] self@[i],
    {
    }

    /// The tree of `size` weights, each zero.
    pub fn new(size: usize) -> (bit: Self)
        requires
            2 * size + 2 <= usize::MAX,
        ensures
            bit.wf(),
            bit@ == Seq::new(size as nat, |i: int| 0int),
    {
        let mut tree: Vec<T> = Vec::new();
        let mut i: usize = 0;
        while i < size + 1
            invariant
                i <= size + 1,
                size + 1 <= usize::MAX,
                tree.len() == i,
                forall|k: int| 0 <= k < i ==> (#[trigger] tree[k]).value() == 0,
            decreases size + 1 - i,
        {
            tree.push(T::zero());
            i += 1;
        }
        let ghost values = Seq::new(size as nat, |i: int| 0int);
        proof {
            lemma_zero_sums(values, 0, size as int);
            assert(values.subrange(0, size as int) =~= values);
            tree[0].lemma_range();
            assert forall|k: int| 1 <= k <= size implies (#[trigger] tree[k]).value() == node_sum(
                values,
                k,
            ) by {
                lemma_lowbit(k as u64);
                lemma_zero_sums(values, k - lowbit(k as u64), k);
            }
        }
        Self { tree, size, values: Ghost(values) }
    }

    /// Adds `w` to the weight at place `i`.
    pub fn add(&mut self, i: usize, w: T)
        requires
            old(self).wf(),
            i < old(self)@.len(),
            sum_of(old(self)@) + w.value() <= T::limit(),
        ensures
            final(self).wf(),
            final(self)@ == old(self)@.update(i as int, old(self)@[i as int] + w.value()),
    {
        self._add(i + 1, w);
    }

    /// Takes `w` from the weight at place `i`.
    pub fn sub(&mut self, i: usize, w: T)
        requires
            old(self).wf(),
            i < old(self)@.len(),
            w.value() <= old(self)@[i as int],
        ensures
            final(self).wf(),
            final(self)@ == old(self)@.update(i as int, old(self)@[i as int] - w.value()),
    {
        self._sub(i + 1, w);
    }

    /// The sum of the weights at the places `0..=i`.
    pub fn prefix_sum(&self, i: usize) -> (s: T)
        requires
            self.wf(),
            i < self@.len(),
        ensures
            s.value() == sum_of(self@.subrange(0, i + 1)),
    {
        self._sum(i + 1)
    }

    /// The sum of the weights at the places `left..right`.
    pub fn sum(&self, left: usize, right: usize) -> (s: T)
        requires
            self.wf(),
            left <= right <= self@.len(),
        ensures
            s.value() == sum_of(self@.subrange(left as int, right as int)),
    {
        proof {
            lemma_sum_join(self@, 0, left as int, right as int);
            lemma_prefix_monotone(self@, left as int, right as int);
        }
        self._sum(right).minus(self._sum(left))
    }

    /// The greatest number of weights from the start whose sum is at most
    /// `w`.
    pub fn upper_bound(&self, w: T) -> (j: usize)
        requires
            self.wf(),
        ensures
            j <= self@.len(),
            sum_of(self@.subrange(0, j as int)) <= w.value(),
            forall|k: int| j < k <= self@.len() ==> sum_of(self@.subrange(0, k)) > w.value(),
    {
        let ghost values = self@;
        let ghost n = self.size as int;
        let len: usize = self.tree.len();
        let mut p: usize = 1;
        proof {
            lemma_lowbit(1);
        }
        while p < len
            invariant
                self.wf(),
                len == self.size + 1,
                1 <= p <= 2 * len,
                p != 0,
                (p as u64) & ((p - 1) as u64) == 0,
            decreases 2 * len - p,
        {
            proof {
                lemma_power_double(p as u64);
            }
            p = p + p;
        }
        let mut d: usize = p / 2;
        let mut j: usize = 0;
        let mut u: T = T::zero();
        proof {
            if p >= 2 {
                lemma_power_half(p as u64);
            }
            assert(values.subrange(0, 0) =~= Seq::<int>::empty());
            w.lemma_range();
        }
        while d != 0
            invariant
                self.wf(),
                values == self@,
                n == self.size,
                len == n + 1,
                j <= n,
                d <= len,
                d != 0 ==> (d as u64) & ((d - 1) as u64) == 0,
                d != 0 ==> (j as u64) & ((d as u64) | ((d - 1) as u64)) == 0,
                u.value() == sum_of(values.subrange(0, j as int)),
                u.value() <= w.value(),
                d != 0 ==> j + 2 * d > n || sum_of(values.subrange(0, j + 2 * d)) > w.value(),
                d == 0 ==> j + 1 > n || sum_of(values.subrange(0, j + 1)) > w.value(),
            decreases d,
        {
            proof {
                lemma_lowbit_step(j as u64, d as u64);
            }
            let mut moved: bool = false;
            if j + d < len {
                proof {
                    lemma_sum_join(values, 0, j as int, j + d);
                    lemma_prefix_monotone(values, 0, j + d);
                    assert(self.tree[j + d].value() == node_sum(values, j + d));
                }
                let v = u.plus(self.tree[j + d]);
                if v.not_above(w) {
                    u = v;
                    j += d;
                    moved = true;
                }
            }
            d = d / 2;
        }
        proof {
            assert forall|k: int| j < k <= n implies sum_of(values.subrange(0, k)) > w.value() by {
                lemma_prefix_monotone(values, j + 1, k);
                lemma_sum_join(values, 0, j + 1, k);
            }
        }
        j
    }

    /// The tree of the weights of `array`.
    pub fn from(array: &[T]) -> (bit: Self)
        requires
            2 * array.len() + 2 <= usize::MAX,
            sum_of(values_of(array@)) <= T::limit(),
        ensures
            bit.wf(),
            bit@ == values_of(array@),
    {
        let n: usize = array.len();
        let ghost values = values_of(array@);
        let mut tree: Vec<T> = Vec::new();
        let mut i: usize = 0;
        while i < n + 1
            invariant
                i <= n + 1,
                n + 1 <= usize::MAX,
                tree.len() == i,
                forall|k: int| 0 <= k < i ==> (#[trigger] tree[k]).value() == 0,
            decreases n + 1 - i,
        {
            tree.push(T::zero());
            i += 1;
        }
        let ghost mut end: Seq<int> = Seq::new((n + 1) as nat, |k: int| k - lowbit(k as u64));
        proof {
            lemma_values_nonnegative(array@);
            assert forall|k: int| 1 <= k <= n implies (#[trigger] tree[k]).value() == sum_of(
                values.subrange(k - lowbit(k as u64), end[k]),
            ) && end[k] >= 0 by {
                lemma_lowbit(k as u64);
                assert(values.subrange(k - lowbit(k as u64), end[k]) =~= Seq::<int>::empty());
            }
            assert forall|k: int| 1 <= k <= n implies #[trigger] end[k] >= 0 by {
                lemma_lowbit(k as u64);
            }
        }
        i = 1;
        while i < n + 1
            invariant
                1 <= i <= n + 1,
                n == array.len(),
                2 * n + 2 <= usize::MAX,
                values == values_of(array@),
                sum_of(values) <= T::limit(),
                forall|q: int| 0 <= q < values.len() ==> 0 <= #[trigger] values[q],
                tree.len() == n + 1,
                end.len() == n + 1,
                forall|k: int| 1 <= k < i ==> #[trigger] end[k] == k,
                forall|k: int|
                    i <= k <= n ==> #[trigger] end[k] == k - lowbit(k as u64) || (k - lowbit(
                        k as u64,
                    ) < end[k] <= i - 1 && end[k] + lowbit(end[k] as u64) == k),
                forall|k: int, y: int|
                    i <= k <= n && #[trigger] end[k] < y <= i - 1 ==> #[trigger] (y + lowbit(
                        y as u64,
                    )) != k,
                forall|k: int|
                    1 <= k <= n ==> (#[trigger] tree[k]).value() == sum_of(
                        values.subrange(k - lowbit(k as u64), end[k]),
                    ),
            decreases n + 1 - i,
        {
            let ghost lo = i - lowbit(i as u64);
            proof {
                lemma_lowbit(i as u64);
                // what the node holds so far ends just before place `i`
                if lowbit(i as u64) >= 2 {
                    if end[i as int] < i - 1 {
                        assert((i - 1) + lowbit((i - 1) as u64) != i);
                    }
                }
                assert(end[i as int] == i - 1);
                lemma_sum_join(values, lo, i - 1, i as int);
                lemma_prefix_monotone(values, lo, i as int);
                assert(values.subrange(i - 1, i as int) =~= Seq::<int>::empty().push(
                    values[i - 1],
                ));
                crate::weight::lemma_sum_push(Seq::<int>::empty(), values[i - 1]);
            }
            let x = array[i - 1];
            let here = tree[i].plus(x);
            tree[i] = here;
            proof {
                end = end.update(i as int, i as int);
            }
            let j: usize = i + lowest_set_bit(i);
            if j < tree.len() {
                proof {
                    lemma_lowbit_up(i as u64);
                    lemma_lowbit(j as u64);
                    let jlo = j - lowbit(j as u64);
                    // what the upper node holds so far ends where `i` starts
                    if end[j as int] != lo {
                        if end[j as int] == jlo {
                            assert(lo + lowbit(lo as u64) != j);
                        } else {
                            if end[j as int] > lo {
                                lemma_lowbit_inside(i as u64, end[j as int] as u64);
                            } else {
                                assert(lo + lowbit(lo as u64) != j);
                            }
                        }
                    }
                    assert(end[j as int] == lo);
                    lemma_sum_join(values, jlo, lo, i as int);
                    lemma_prefix_monotone(values, jlo, i as int);
                }
                let v = tree[i];
                let above = tree[j].plus(v);
                tree[j] = above;
                proof {
                    end = end.update(j as int, i as int);
                }
            }
            proof {
                assert forall|k: int, y: int|
                    i + 1 <= k <= n && #[trigger] end[k] < y <= i implies #[trigger] (y + lowbit(
                    y as u64,
                )) != k by {
                    if y == i && k == j {
                    }
                }
            }
            i += 1;
        }
        proof {
            assert forall|k: int| 1 <= k <= n implies (#[trigger] tree[k]).value() == node_sum(
                values,
                k,
            ) by {
                assert(end[k] == k);
            }
        }
        Self { tree, size: n, values: Ghost(values) }
    }

    /// Adds `w` to the weight at place `i - 1`: to each node that covers
    /// the place.
    fn _add(&mut self, i: usize, w: T)
        requires
            old(self).wf(),
            1 <= i <= old(self)@.len(),
            sum_of(old(self)@) + w.value() <= T::limit(),
        ensures
            final(self).wf(),
            final(self)@ == old(self)@.update(i - 1, old(self)@[i - 1] + w.value()),
    {
        let ghost before = self.values@;
        let ghost p = i - 1;
        let ghost after = before.update(p, before[p] + w.value());
        let ghost n = self.size as int;
        let len: usize = self.tree.len();
        let mut node: usize = i;
        proof {
            w.lemma_range();
            lemma_sum_update(before, p, before[p] + w.value());
            assert forall|k: int| 1 <= k < i implies node_sum(after, k) == node_sum(before, k) by {
                lemma_lowbit(k as u64);
                lemma_sum_stretch_update(before, k - lowbit(k as u64), k, p, before[p] + w.value());
            }
            lemma_lowbit(i as u64);
        }
        while node < len
            invariant
                n == self.size,
                len == n + 1,
                self.tree.len() == n + 1,
                2 * n + 2 <= usize::MAX,
                before.len() == n,
                0 <= p < n,
                after == before.update(p, before[p] + w.value()),
                sum_of(after) <= T::limit(),
                forall|q: int| 0 <= q < n ==> 0 <= #[trigger] after[q],
                1 <= node,
                p < node,
                node <= n ==> node - lowbit(node as u64) <= p,
                self.values@ == before,
                forall|k: int|
                    1 <= k < node && k <= n ==> (#[trigger] self.tree[k]).value() == node_sum(
                        after,
                        k,
                    ),
                forall|k: int|
                    node <= k <= n ==> (#[trigger] self.tree[k]).value() == node_sum(before, k),
            decreases 2 * len - node,
        {
            let ghost lo = node - lowbit(node as u64);
            proof {
                lemma_lowbit(node as u64);
                lemma_sum_stretch_update(before, lo, node as int, p, before[p] + w.value());
                lemma_prefix_monotone(after, lo, node as int);
            }
            let here = self.tree[node].plus(w);
            self.tree[node] = here;
            let step = lowest_set_bit(node);
            proof {
                lemma_lowbit_up(node as u64);
                assert forall|k: int| node < k < node + step && k <= n implies node_sum(after, k)
                    == node_sum(before, k) by {
                    lemma_lowbit(k as u64);
                    lemma_lowbit_between(node as u64, k as u64);
                    lemma_sum_stretch_update(
                        before,
                        k - lowbit(k as u64),
                        k,
                        p,
                        before[p] + w.value(),
                    );
                }
                if node + step <= n {
                    lemma_lowbit((node + step) as u64);
                }
            }
            node += step;
        }
        proof {
            self.values@ = after;
        }
    }

    /// Takes `w` from the weight at place `i - 1`: from each node that
    /// covers the place.
    fn _sub(&mut self, i: usize, w: T)
        requires
            old(self).wf(),
            1 <= i <= old(self)@.len(),
            w.value() <= old(self)@[i - 1],
        ensures
            final(self).wf(),
            final(self)@ == old(self)@.update(i - 1, old(self)@[i - 1] - w.value()),
    {
        let ghost before = self.values@;
        let ghost p = i - 1;
        let ghost after = before.update(p, before[p] - w.value());
        let ghost n = self.size as int;
        let len: usize = self.tree.len();
        let mut node: usize = i;
        proof {
            w.lemma_range();
            lemma_sum_update(before, p, before[p] - w.value());
            assert forall|k: int| 1 <= k < i implies node_sum(after, k) == node_sum(before, k) by {
                lemma_lowbit(k as u64);
                lemma_sum_stretch_update(before, k - lowbit(k as u64), k, p, before[p] - w.value());
            }
            lemma_lowbit(i as u64);
        }
        while node < len
            invariant
                n == self.size,
                len == n + 1,
                self.tree.len() == n + 1,
                2 * n + 2 <= usize::MAX,
                before.len() == n,
                0 <= p < n,
                after == before.update(p, before[p] - w.value()),
                sum_of(after) <= T::limit(),
                forall|q: int| 0 <= q < n ==> 0 <= #[trigger] after[q],
                1 <= node,
                p < node,
                node <= n ==> node - lowbit(node as u64) <= p,
                self.values@ == before,
                forall|k: int|
                    1 <= k < node && k <= n ==> (#[trigger] self.tree[k]).value() == node_sum(
                        after,
                        k,
                    ),
                forall|k: int|
                    node <= k <= n ==> (#[trigger] self.tree[k]).value() == node_sum(before, k),
            decreases 2 * len - node,
        {
            let ghost lo = node - lowbit(node as u64);
            proof {
                lemma_lowbit(node as u64);
                lemma_sum_stretch_update(before, lo, node as int, p, before[p] - w.value());
                lemma_prefix_monotone(after, lo, node as int);
            }
            let here = self.tree[node].minus(w);
            self.tree[node] = here;
            let step = lowest_set_bit(node);
            proof {
                lemma_lowbit_up(node as u64);
                assert forall|k: int| node < k < node + step && k <= n implies node_sum(after, k)
                    == node_sum(before, k) by {
                    lemma_lowbit(k as u64);
                    lemma_lowbit_between(node as u64, k as u64);
                    lemma_sum_stretch_update(
                        before,
                        k - lowbit(k as u64),
                        k,
                        p,
                        before[p] - w.value(),
                    );
                }
                if node + step <= n {
                    lemma_lowbit((node + step) as u64);
                }
            }
            node += step;
        }
        proof {
            self.values@ = after;
        }
    }

    /// The sum of the weights at the places `0..i`.
    fn _sum(&self, i: usize) -> (s: T)
        requires
            self.wf(),
            i <= self@.len(),
        ensures
            s.value() == sum_of(self@.subrange(0, i as int)),
    {
        let ghost values = self@;
        let ghost whole = i;
        let mut i: usize = i;
        let mut ret: T = T::zero();
        proof {
            assert(values.subrange(whole as int, whole as int) =~= Seq::<int>::empty());
        }
        while i > 0
            invariant
                self.wf(),
                values == self@,
                i <= whole <= values.len(),
                ret.value() == sum_of(values.subrange(i as int, whole as int)),
            decreases i,
        {
            proof {
                lemma_lowbit(i as u64);
                lemma_sum_join(values, i - lowbit(i as u64), i as int, whole as int);
                lemma_prefix_monotone(values, i - lowbit(i as u64), whole as int);
            }
            ret = ret.plus(self.tree[i]);
            i -= lowest_set_bit(i);
        }
        ret
    }
}

/// Halving a power of two that is at least two gives a power of two.
proof fn lemma_power_half(p: u64)
    by (bit_vector)
    requires
        p >= 2,
        p & ((p - 1) as u64) == 0,
    ensures
        (p / 2) != 0,
        (p / 2) & ((p / 2 - 1) as u64) == 0,
        0u64 & ((p / 2) | ((p / 2 - 1) as u64)) == 0,
        p / 2 + p / 2 == p,
{
}

/// Every stretch of zeros sums to zero.
pub proof fn lemma_zero_sums(s: Seq<int>, a: int, b: int)
    requires
        0 <= a <= b <= s.len(),
        forall|i: int| 0 <= i < s.len() ==> s[i] == 0,
    ensures
        sum_of(s.subrange(a, b)) == 0,
    decreases b - a,
{
    if a < b {
        lemma_zero_sums(s, a, b - 1);
        assert(s.subrange(a, b).drop_last() =~= s.subrange(a, b - 1));
    }
}

} // verus!

//! Weights that a wavelet matrix can sum: bounded, non-negative numbers with
//! a zero, an addition and a subtraction.

use vstd::prelude::*;

verus! {

/// A bounded non-negative numeric type.
///
/// Each weight stands for an integer between zero and `limit()`. Addition and
/// subtraction are total on the pairs whose result lies in that range.
pub trait Weight: Copy + Sized {
    /// The integer that the weight stands for.
    spec fn value(self) -> int;

    /// The largest integer that a weight of this type can stand for.
    spec fn limit() -> int;

    /// Every weight lies between zero and the limit.
    proof fn lemma_range(self)
        ensures
            0 <= self.value() <= Self::limit(),
    ;

    /// The weight that stands for zero.
    fn zero() -> (z: Self)
        ensures
            z.value() == 0,
    ;

    /// The sum of two weights, where it does not exceed the limit.
    fn plus(self, rhs: Self) -> (s: Self)
        requires
            self.value() + rhs.value() <= Self::limit(),
        ensures
            s.value() == self.value() + rhs.value(),
    ;

    /// The difference of two weights, where it is not negative.
    fn minus(self, rhs: Self) -> (d: Self)
        requires
            rhs.value() <= self.value(),
        ensures
            d.value() == self.value() - rhs.value(),
    ;

    /// Whether this weight is at most `rhs`.
    fn not_above(self, rhs: Self) -> (b: bool)
        ensures
            b == (self.value() <= rhs.value()),
    ;

    /// The weight that stands for the limit.
    fn max_value() -> (m: Self)
        ensures
            m.value() == Self::limit(),
    ;
}

impl Weight for u8 {
    fn max_value() -> (m: Self) {
        u8::MAX
    }

    open spec fn value(self) -> int {
        self as int
    }

    open spec fn limit() -> int {
        u8::MAX as int
    }

    proof fn lemma_range(self) {
    }

    fn zero() -> (z: Self) {
        0
    }

    fn plus(self, rhs: Self) -> (s: Self) {
        self + rhs
    }

    fn minus(self, rhs: Self) -> (d: Self) {
        self - rhs
    }

    fn not_above(self, rhs: Self) -> (b: bool) {
        self <= rhs
    }
}

impl Weight for u16 {
    fn max_value() -> (m: Self) {
        u16::MAX
    }

    open spec fn value(self) -> int {
        self as int
    }

    open spec fn limit() -> int {
        u16::MAX as int
    }

    proof fn lemma_range(self) {
    }

    fn zero() -> (z: Self) {
        0
    }

    fn plus(self, rhs: Self) -> (s: Self) {
        self + rhs
    }

    fn minus(self, rhs: Self) -> (d: Self) {
        self - rhs
    }

    fn not_above(self, rhs: Self) -> (b: bool) {
        self <= rhs
    }
}

impl Weight for u32 {
    fn max_value() -> (m: Self) {
        u32::MAX
    }

    open spec fn value(self) -> int {
        self as int
    }

    open spec fn limit() -> int {
        u32::MAX as int
    }

    proof fn lemma_range(self) {
    }

    fn zero() -> (z: Self) {
        0
    }

    fn plus(self, rhs: Self) -> (s: Self) {
        self + rhs
    }

    fn minus(self, rhs: Self) -> (d: Self) {
        self - rhs
    }

    fn not_above(self, rhs: Self) -> (b: bool) {
        self <= rhs
    }
}

impl Weight for u64 {
    fn max_value() -> (m: Self) {
        u64::MAX
    }

    open spec fn value(self) -> int {
        self as int
    }

    open spec fn limit() -> int {
        u64::MAX as int
    }

    proof fn lemma_range(self) {
    }

    fn zero() -> (z: Self) {
        0
    }

    fn plus(self, rhs: Self) -> (s: Self) {
        self + rhs
    }

    fn minus(self, rhs: Self) -> (d: Self) {
        self - rhs
    }

    fn not_above(self, rhs: Self) -> (b: bool) {
        self <= rhs
    }
}

impl Weight for u128 {
    fn max_value() -> (m: Self) {
        u128::MAX
    }

    open spec fn value(self) -> int {
        self as int
    }

    open spec fn limit() -> int {
        u128::MAX as int
    }

    proof fn lemma_range(self) {
    }

    fn zero() -> (z: Self) {
        0
    }

    fn plus(self, rhs: Self) -> (s: Self) {
        self + rhs
    }

    fn minus(self, rhs: Self) -> (d: Self) {
        self - rhs
    }

    fn not_above(self, rhs: Self) -> (b: bool) {
        self <= rhs
    }
}

impl Weight for usize {
    fn max_value() -> (m: Self) {
        usize::MAX
    }

    open spec fn value(self) -> int {
        self as int
    }

    open spec fn limit() -> int {
        usize::MAX as int
    }

    proof fn lemma_range(self) {
    }

    fn zero() -> (z: Self) {
        0
    }

    fn plus(self, rhs: Self) -> (s: Self) {
        self + rhs
    }

    fn minus(self, rhs: Self) -> (d: Self) {
        self - rhs
    }

    fn not_above(self, rhs: Self) -> (b: bool) {
        self <= rhs
    }
}

/// The sum of the weights of a sequence of keyed items.
pub open spec fn total_weight<T: Weight>(s: Seq<(u64, T)>) -> int
    decreases s.len(),
{
    if s.len() == 0 {
        0
    } else {
        total_weight(s.drop_last()) + s.last().1.value()
    }
}

/// Appending an item adds its weight to the total.
pub proof fn lemma_total_weight_push<T: Weight>(s: Seq<(u64, T)>, x: (u64, T))
    ensures
        total_weight(s.push(x)) == total_weight(s) + x.1.value(),
{
    assert(s.push(x).drop_last() =~= s);
}

/// The total of a concatenation is the sum of the totals.
pub proof fn lemma_total_weight_concat<T: Weight>(a: Seq<(u64, T)>, b: Seq<(u64, T)>)
    ensures
        total_weight(a + b) == total_weight(a) + total_weight(b),
    decreases b.len(),
{
    if b.len() == 0 {
        assert(a + b =~= a);
    } else {
        lemma_total_weight_concat(a, b.drop_last());
        assert((a + b).drop_last() =~= a + b.drop_last());
    }
}

/// No total is negative.
pub proof fn lemma_total_weight_nonnegative<T: Weight>(s: Seq<(u64, T)>)
    ensures
        0 <= total_weight(s),
    decreases s.len(),
{
    if s.len() > 0 {
        lemma_total_weight_nonnegative(s.drop_last());
        s.last().1.lemma_range();
    }
}

/// A stretch of a sequence weighs no more than the whole, and the prefixes
/// that end where the stretch starts and ends differ by its total.
pub proof fn lemma_total_weight_subrange<T: Weight>(s: Seq<(u64, T)>, lo: int, hi: int)
    requires
        0 <= lo <= hi <= s.len(),
    ensures
        total_weight(s.take(hi)) == total_weight(s.take(lo)) + total_weight(s.subrange(lo, hi)),
        0 <= total_weight(s.subrange(lo, hi)) <= total_weight(s),
{
    lemma_total_weight_nonnegative(s.subrange(lo, hi));
    assert(s.take(hi) =~= s.take(lo) + s.subrange(lo, hi));
    assert(s =~= s.take(hi) + s.skip(hi));
    lemma_total_weight_concat(s.take(lo), s.subrange(lo, hi));
    lemma_total_weight_concat(s.take(hi), s.skip(hi));
    lemma_total_weight_nonnegative(s.take(lo));
    lemma_total_weight_nonnegative(s.skip(hi));
}

/// The integers that a sequence of weights stands for.
pub open spec fn values_of<T: Weight>(s: Seq<T>) -> Seq<int> {
    Seq::new(s.len(), |i: int| s[i].value())
}

/// The sum of a sequence of integers.
pub open spec fn sum_of(s: Seq<int>) -> int
    decreases s.len(),
{
    if s.len() == 0 {
        0
    } else {
        sum_of(s.drop_last()) + s.last()
    }
}

/// Appending a number adds it to the sum.
pub proof fn lemma_sum_push(s: Seq<int>, x: int)
    ensures
        sum_of(s.push(x)) == sum_of(s) + x,
{
    assert(s.push(x).drop_last() =~= s);
}

/// The sum of a concatenation is the sum of the sums.
pub proof fn lemma_sum_concat(a: Seq<int>, b: Seq<int>)
    ensures
        sum_of(a + b) == sum_of(a) + sum_of(b),
    decreases b.len(),
{
    if b.len() == 0 {
        assert(a + b =~= a);
    } else {
        lemma_sum_concat(a, b.drop_last());
        assert((a + b).drop_last() =~= a + b.drop_last());
    }
}

/// A sum of numbers none of which is negative is not negative.
pub proof fn lemma_sum_nonnegative(s: Seq<int>)
    requires
        forall|i: int| 0 <= i < s.len() ==> 0 <= s[i],
    ensures
        0 <= sum_of(s),
    decreases s.len(),
{
    if s.len() > 0 {
        lemma_sum_nonnegative(s.drop_last());
    }
}

/// The sum of a stretch is the difference of the sums of the two prefixes
/// that end where it ends and where it starts; among numbers none of which
/// is negative, it lies between zero and the sum of all.
pub proof fn lemma_sum_subrange(s: Seq<int>, lo: int, hi: int)
    requires
        0 <= lo <= hi <= s.len(),
    ensures
        sum_of(s.take(hi)) == sum_of(s.take(lo)) + sum_of(s.subrange(lo, hi)),
        (forall|i: int| 0 <= i < s.len() ==> 0 <= s[i]) ==> 0 <= sum_of(s.subrange(lo, hi))
            <= sum_of(s),
{
    assert(s.take(hi) =~= s.take(lo) + s.subrange(lo, hi));
    assert(s =~= s.take(hi) + s.skip(hi));
    lemma_sum_concat(s.take(lo), s.subrange(lo, hi));
    lemma_sum_concat(s.take(hi), s.skip(hi));
    if forall|i: int| 0 <= i < s.len() ==> 0 <= s[i] {
        lemma_sum_nonnegative(s.subrange(lo, hi));
        lemma_sum_nonnegative(s.take(lo));
        lemma_sum_nonnegative(s.skip(hi));
    }
}

/// Changing one number changes the sum by the difference.
pub proof fn lemma_sum_update(s: Seq<int>, i: int, x: int)
    requires
        0 <= i < s.len(),
    ensures
        sum_of(s.update(i, x)) == sum_of(s) - s[i] + x,
    decreases s.len(),
{
    if i == s.len() - 1 {
        assert(s.update(i, x).drop_last() =~= s.drop_last());
    } else {
        lemma_sum_update(s.drop_last(), i, x);
        assert(s.update(i, x).drop_last() =~= s.drop_last().update(i, x));
    }
}

/// No weight is negative.
pub proof fn lemma_values_nonnegative<T: Weight>(s: Seq<T>)
    ensures
        forall|i: int| 0 <= i < s.len() ==> 0 <= #[trigger] values_of(s)[i],
{
    assert forall|i: int| 0 <= i < s.len() implies 0 <= #[trigger] values_of(s)[i] by {
        s[i].lemma_range();
    }
}

} // verus!

//! Sums of stretches of a fixed sequence in constant time, from a table of
//! the sums of its prefixes.

use vstd::prelude::*;
use crate::weight::{Weight, values_of, sum_of, lemma_sum_push, lemma_sum_subrange};

verus! {

/// The table of prefix sums of a sequence of weights. Its view is the
/// sequence of the integers that the weights stand for.
pub struct CumulativeSum<T> {
    size: usize,
    prefix_sum: Vec<T>,
}

impl<T: Weight> View for CumulativeSum<T> {
    type V = Seq<int>;

    closed spec fn view(&self) -> Seq<int> {
        Seq::new(
            self.size as nat,
            |i: int| self.prefix_sum[i + 1].value() - self.prefix_sum[i].value(),
        )
    }
}

impl<T: Weight> CumulativeSum<T> {
    /// Entry `p` of the table is the sum of the first `p` numbers, and no
    /// number is negative.
    pub closed spec fn wf(&self) -> bool {
        &&& self.prefix_sum.len() == self.size + 1
        &&& forall|p: int|
            0 <= p <= self.size ==> (#[trigger] self.prefix_sum[p]).value() == sum_of(
                self@.take(p),
            )
        &&& forall|i: int| 0 <= i < self.size ==> 0 <= #[trigger] self@[i]
    }

    /// Builds the table of the prefix sums of `array`.
    pub fn from(array: &[T]) -> (cs: Self)
        requires
            sum_of(values_of(array@)) <= T::limit(),
        ensures
            cs.wf(),
            cs@ == values_of(array@),
    {
        let size = array.len();
        let ghost values = values_of(array@);
        let mut prefix_sum: Vec<T> = Vec::new();
        prefix_sum.push(T::zero());
        let mut i: usize = 0;
        proof {
            assert(values.take(0) =~= Seq::<int>::empty());
            crate::weight::lemma_values_nonnegative(array@);
        }
        while i < size
            invariant
                i <= size == array.len(),
                values == values_of(array@),
                sum_of(values) <= T::limit(),
                forall|q: int| 0 <= q < values.len() ==> 0 <= #[trigger] values[q],
                prefix_sum.len() == i + 1,
                forall|p: int|
                    0 <= p <= i ==> (#[trigger] prefix_sum[p]).value() == sum_of(values.take(p)),
            decreases size - i,
        {
            proof {
                lemma_sum_subrange(values, 0, i + 1);
                assert(values.subrange(0, i + 1) =~= values.take(i + 1));
                assert(values.take(i + 1) =~= values.take(i as int).push(values[i as int]));
                lemma_sum_push(values.take(i as int), values[i as int]);
            }
            let next = prefix_sum[i].plus(array[i]);
            prefix_sum.push(next);
            i += 1;
        }
        let cs = Self { size, prefix_sum };
        proof {
            assert forall|i: int| 0 <= i < size implies #[trigger] cs@[i] == values[i] by {
                assert(values.take(i + 1) =~= values.take(i).push(values[i]));
                lemma_sum_push(values.take(i), values[i]);
            }
            assert(cs@ =~= values);
        }
        cs
    }

    /// The sum of the numbers at the positions `0..=i`.
    pub fn prefix_sum(&self, i: usize) -> (s: T)
        requires
            self.wf(),
            i < self@.len(),
        ensures
            s.value() == sum_of(self@.take(i + 1)),
    {
        self.prefix_sum[i + 1]
    }

    /// The sum of the numbers at the positions `left..right`.
    pub fn sum(&self, left: usize, right: usize) -> (s: T)
        requires
            self.wf(),
            left <= right <= self@.len(),
        ensures
            s.value() == sum_of(self@.subrange(left as int, right as int)),
    {
        proof {
            lemma_sum_subrange(self@, left as int, right as int);
        }
        self.prefix_sum[right].minus(self.prefix_sum[left])
    }
}

} // verus!

//! A binary indexed tree that keeps only the nodes that are not zero, in a
//! hash map: a sequence of weights of any length that the platform can
//! number, all zero at first.

use vstd::prelude::*;
use std::collections::HashMap;
use std::collections::hash_map::RandomState;
use vstd::std_specs::hash::group_hash_axioms;
use crate::weight::{Weight, sum_of, lemma_sum_update};
use crate::binary_indexed_tree::{
    lowbit,
    node_sum,
    lowest_set_bit,
    lemma_lowbit,
    lemma_lowbit_up,
    lemma_lowbit_between,
    lemma_sum_join,
    lemma_prefix_monotone,
    lemma_sum_stretch_update,
    lemma_zero_sums,
};

verus! {

broadcast use group_hash_axioms;

/// The map that holds the nodes.
pub type NodeMap<K, V> = HashMap<K, V, RandomState>;

/// What the map holds for node `k`: zero if it holds nothing.
pub open spec fn node_value<T: Weight>(nodes: Map<usize, T>, k: int) -> int {
    if nodes.contains_key(k as usize) {
        nodes[k as usize].value()
    } else {
        0
    }
}

/// A binary indexed tree in a hash map. Its view is the sequence of the
/// integers that its weights stand for.
pub struct DynamicBinaryIndexedTree<T> {
    tree: NodeMap<usize, T>,
    /// The number of weights.
    pub size: usize,
    values: Ghost<Seq<int>>,
}

impl<T: Weight> View for DynamicBinaryIndexedTree<T> {
    type V = Seq<int>;

    closed spec fn view(&self) -> Seq<int> {
        self.values@
    }
}

impl<T: Weight> DynamicBinaryIndexedTree<T> {
    /// Each node holds the sum that its place asks for; no number is
    /// negative and all together do not exceed the limit of their type.
    pub closed spec fn wf(&self) -> bool {
        &&& self.values@.len() == self.size
        &&& 2 * self.size + 2 <= usize::MAX
        &&& sum_of(self.values@) <= T::limit()
        &&& forall|i: int| 0 <= i < self.size ==> 0 <= #[trigger] self.values@[i]
        &&& forall|k: int|
            1 <= k <= self.size ==> #[trigger] node_value(self.tree@, k) == node_sum(
                self.values@,
                k,
            )
    }

    /// What `wf` says of the view.
    pub proof fn lemma_wf(&self)
        requires
            self.wf(),
        ensures
            2 * self@.len() + 2 <= usize::MAX,
            sum_of(self@) <= T::limit(),
            forall|i: int| 0 <= i < self@.len() ==> 0 <= #[trigger] self@[i],
    {
    }

    /// The tree of `size` weights, each zero.
    pub fn new(size: usize) -> (bit: Self)
        requires
            2 * size + 2 <= usize::MAX,
        ensures
            bit.wf(),
            bit@ == Seq::new(size as nat, |i: int| 0int),
    {
        let tree: NodeMap<usize, T> = HashMap::new();
        let limit = T::zero();
        let ghost values = Seq::new(size as nat, |i: int| 0int);
        proof {
            limit.lemma_range();
            lemma_zero_sums(values, 0, size as int);
            assert(values.subrange(0, size as int) =~= values);
            assert forall|k: int| 1 <= k <= size implies #[trigger] node_value(tree@, k)
                == node_sum(values, k) by {
                lemma_lowbit(k as u64);
                lemma_zero_sums(values, k - lowbit(k as u64), k);
            }
        }
        Self { tree, size, values: Ghost(values) }
    }

    /// Adds `w` to the weight at place `i - 1`: to each node that covers
    /// the place.
    fn _add(&mut self, i: usize, w: T)
        requires
            old(self).wf(),
            1 <= i <= old(self)@.len(),
            sum_of(old(self)@) + w.value() <= T::limit(),
        ensures
            final(self).wf(),
            final(self)@ == old(self)@.update(i - 1, old(self)@[i - 1] + w.value()),
    {
        let ghost before = self.values@;
        let ghost p = i - 1;
        let ghost after = before.update(p, before[p] + w.value());
        let ghost n = self.size as int;
        let mut node: usize = i;
        proof {
            w.lemma_range();
            lemma_sum_update(before, p, before[p] + w.value());
            assert forall|k: int| 1 <= k < i implies node_sum(after, k) == node_sum(before, k) by {
                lemma_lowbit(k as u64);
                lemma_sum_stretch_update(before, k - lowbit(k as u64), k, p, before[p] + w.value());
            }
            lemma_lowbit(i as u64);
        }
        while node <= self.size
            invariant
                n == self.size,
                2 * n + 2 <= usize::MAX,
                before.len() == n,
                0 <= p < n,
                after == before.update(p, before[p] + w.value()),
                sum_of(after) <= T::limit(),
                forall|q: int| 0 <= q < n ==> 0 <= #[trigger] after[q],
                1 <= node,
                p < node,
                node <= n ==> node - lowbit(node as u64) <= p,
                self.values@ == before,
                forall|k: int|
                    1 <= k < node && k <= n ==> #[trigger] node_value(self.tree@, k) == node_sum(
                        after,
                        k,
                    ),
                forall|k: int|
                    node <= k <= n ==> #[trigger] node_value(self.tree@, k) == node_sum(before, k),
            decreases 2 * n + 2 - node,
        {
            let ghost lo = node - lowbit(node as u64);
            let ghost nodes0 = self.tree@;
            proof {
                lemma_lowbit(node as u64);
                lemma_sum_stretch_update(before, lo, node as int, p, before[p] + w.value());
                lemma_prefix_monotone(after, lo, node as int);
                assert(node_value(nodes0, node as int) == node_sum(before, node as int));
            }
            let held: T = match self.tree.get(&node) {
                Some(v) => *v,
                None => T::zero(),
            };
            let here = held.plus(w);
            self.tree.insert(node, here);
            let step = lowest_set_bit(node);
            proof {
                lemma_lowbit_up(node as u64);
                assert forall|k: int| 1 <= k <= n && k != node implies #[trigger] node_value(
                    self.tree@,
                    k,
                ) == node_value(nodes0, k) by {}
                assert forall|k: int| node < k < node + step && k <= n implies node_sum(after, k)
                    == node_sum(before, k) by {
                    lemma_lowbit(k as u64);
                    lemma_lowbit_between(node as u64, k as u64);
                    lemma_sum_stretch_update(
                        before,
                        k - lowbit(k as u64),
                        k,
                        p,
                        before[p] + w.value(),
                    );
                }
                if node + step <= n {
                    lemma_lowbit((node + step) as u64);
                }
            }
            node += step;
        }
        proof {
            self.values@ = after;
        }
    }

    /// Adds `w` to the weight at place `i`.
    pub fn add(&mut self, i: usize, w: T)
        requires
            old(self).wf(),
            i < old(self)@.len(),
            sum_of(old(self)@) + w.value() <= T::limit(),
        ensures
            final(self).wf(),
            final(self)@ == old(self)@.update(i as int, old(self)@[i as int] + w.value()),
    {
        self._add(i + 1, w)
    }

    /// The sum of the weights at the places `0..=i`.
    fn prefix_sum(&self, i: usize) -> (s: T)
        requires
            self.wf(),
            i < self@.len(),
        ensures
            s.value() == sum_of(self@.subrange(0, i + 1)),
    {
        self._sum(i + 1)
    }

    /// The sum of the weights at the places `0..i`.
    fn _sum(&self, i: usize) -> (s: T)
        requires
            self.wf(),
            i <= self@.len(),
        ensures
            s.value() == sum_of(self@.subrange(0, i as int)),
    {
        let ghost values = self@;
        let ghost whole = i;
        let mut node: usize = i;
        let mut r: T = T::zero();
        proof {
            assert(values.subrange(whole as int, whole as int) =~= Seq::<int>::empty());
        }
        while node > 0
            invariant
                self.wf(),
                values == self@,
                node <= whole <= values.len(),
                r.value() == sum_of(values.subrange(node as int, whole as int)),
            decreases node,
        {
            proof {
                lemma_lowbit(node as u64);
                lemma_sum_join(values, node - lowbit(node as u64), node as int, whole as int);
                lemma_prefix_monotone(values, node - lowbit(node as u64), whole as int);
                assert(node_value(self.tree@, node as int) == node_sum(values, node as int));
            }
            match self.tree.get(&node) {
                Some(v) => {
                    r = r.plus(*v);
                },
                None => {},
            }
            node -= lowest_set_bit(node);
        }
        r
    }

    /// The sum of the weights at the places `left..right`.
    pub fn sum(&self, left: usize, right: usize) -> (s: T)
        requires
            self.wf(),
            left <= right <= self@.len(),
        ensures
            s.value() == sum_of(self@.subrange(left as int, right as int)),
    {
        proof {
            lemma_sum_join(self@, 0, left as int, right as int);
            lemma_prefix_monotone(self@, left as int, right as int);
        }
        if right == 0 {
            return T::zero();
        }
        if left == 0 {
            self.prefix_sum(right - 1)
        } else {
            self.prefix_sum(right - 1).minus(self.prefix_sum(left - 1))
        }
    }
}

} // verus!

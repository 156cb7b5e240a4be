//! A priority queue of weighted values as a binary heap in a vector: the
//! value of least weight comes out first, and of two values of the same
//! weight the greater.

use vstd::prelude::*;
use vstd::multiset::Multiset;
use vstd::seq_lib::{to_multiset_build, to_multiset_update, to_multiset_remove, to_multiset_contains};
use crate::ordered::Ordered;
use crate::weight::Weight;

verus! {

/// Whether the entry `a` comes out no later than the entry `b`: it is
/// lighter, or as heavy with a value that is no less.
pub open spec fn comes_first<W: Weight, V: Ordered>(a: (W, V), b: (W, V)) -> bool {
    a.0.value() < b.0.value() || (a.0.value() == b.0.value() && a.1.position() >= b.1.position())
}

/// Whether each entry but the first comes out no earlier than its parent,
/// the entry at half its place.
pub open spec fn heap_ordered<W: Weight, V: Ordered>(items: Seq<(W, V)>) -> bool {
    forall|i: int| 1 <= i < items.len() ==> comes_first(#[trigger] items[(i - 1) / 2], items[i])
}

/// Whether each entry but the first and but `hole` comes out no earlier
/// than its parent, and each child of `hole` no earlier than the parent of
/// `hole`.
spec fn ordered_but<W: Weight, V: Ordered>(items: Seq<(W, V)>, hole: int) -> bool {
    &&& forall|i: int|
        1 <= i < items.len() && i != hole ==> comes_first(#[trigger] items[(i - 1) / 2], items[i])
    &&& forall|i: int|
        1 <= i < items.len() && (i - 1) / 2 == hole && hole >= 1 ==> comes_first(
            items[(hole - 1) / 2],
            #[trigger] items[i],
        )
}

/// Whether each entry whose parent is not `hole` comes out no earlier than
/// its parent, and each child of `hole` no earlier than the parent of
/// `hole`.
spec fn ordered_below<W: Weight, V: Ordered>(items: Seq<(W, V)>, hole: int) -> bool {
    &&& forall|i: int|
        1 <= i < items.len() && (i - 1) / 2 != hole ==> comes_first(
            #[trigger] items[(i - 1) / 2],
            items[i],
        )
    &&& forall|i: int|
        1 <= i < items.len() && (i - 1) / 2 == hole && hole >= 1 ==> comes_first(
            items[(hole - 1) / 2],
            #[trigger] items[i],
        )
}

/// In a heap no entry comes out earlier than the first.
proof fn lemma_first_least<W: Weight, V: Ordered>(items: Seq<(W, V)>, i: int)
    requires
        heap_ordered(items),
        0 <= i < items.len(),
    ensures
        comes_first(items[0], items[i]),
    decreases i,
{
    if i > 0 {
        lemma_first_least(items, (i - 1) / 2);
        assert(comes_first(items[(i - 1) / 2], items[i]));
    }
}

/// Exchanging two entries keeps what the sequence holds.
proof fn lemma_swap_multiset<A>(s: Seq<A>, i: int, j: int)
    requires
        0 <= i < s.len(),
        0 <= j < s.len(),
    ensures
        s.update(i, s[j]).update(j, s[i]).to_multiset() == s.to_multiset(),
{
    broadcast use vstd::multiset::group_multiset_axioms;

    to_multiset_update(s, i, s[j]);
    to_multiset_update(s.update(i, s[j]), j, s[i]);
    to_multiset_contains(s, s[i]);
    to_multiset_contains(s, s[j]);
    assert(s.update(i, s[j]).update(j, s[i]).to_multiset() =~= s.to_multiset());
}

/// Whether the entry `a` comes out no later than the entry `b`.
fn goes_first<W: Weight, V: Ordered>(a: (W, V), b: (W, V)) -> (r: bool)
    ensures
        r == comes_first(a, b),
{
    if !a.0.not_above(b.0) {
        false
    } else if !b.0.not_above(a.0) {
        true
    } else {
        !a.1.less(b.1)
    }
}

/// A priority queue. Its view is the multiset of its entries, each a weight
/// and a value.
pub struct MinHeap<W, V> {
    items: Vec<(W, V)>,
}

impl<W: Weight, V: Ordered> View for MinHeap<W, V> {
    type V = Multiset<(W, V)>;

    closed spec fn view(&self) -> Multiset<(W, V)> {
        self.items@.to_multiset()
    }
}

impl<W: Weight, V: Ordered> MinHeap<W, V> {
    /// The entries are in heap order.
    pub closed spec fn wf(&self) -> bool {
        heap_ordered(self.items@)
    }

    /// The empty queue.
    pub fn new() -> (heap: Self)
        ensures
            heap.wf(),
            heap@ == Multiset::<(W, V)>::empty(),
    {
        let heap = Self { items: Vec::new() };
        proof {
            broadcast use vstd::multiset::group_multiset_axioms;

            assert(heap.items@.to_multiset() =~= Multiset::<(W, V)>::empty()) by {
                heap.items@.to_multiset_ensures();
            }
        }
        heap
    }

    /// The number of entries.
    pub fn len(&self) -> (n: usize)
        ensures
            n == self@.len(),
    {
        proof {
            vstd::seq_lib::to_multiset_len(self.items@);
        }
        self.items.len()
    }

    /// Puts the value in with the weight `key`.
    pub fn push(&mut self, key: W, value: V)
        requires
            old(self).wf(),
        ensures
            final(self).wf(),
            final(self)@ == old(self)@.insert((key, value)),
    {
        let ghost before = self.items@;
        self.items.push((key, value));
        let mut i: usize = self.items.len() - 1;
        proof {
            to_multiset_build(before, (key, value));
        }
        while i > 0
            invariant
                i < self.items.len(),
                self.items@.to_multiset() == before.to_multiset().insert((key, value)),
                ordered_but(self.items@, i as int),
            ensures
                heap_ordered(self.items@),
                self.items@.to_multiset() == before.to_multiset().insert((key, value)),
            decreases i,
        {
            let parent: usize = (i - 1) / 2;
            let up = self.items[parent];
            let down = self.items[i];
            if goes_first(up, down) {
                break;
            }
            let ghost s = self.items@;
            self.items[i] = up;
            self.items[parent] = down;
            proof {
                lemma_swap_multiset(s, parent as int, i as int);
                assert(self.items@ =~= s.update(parent as int, s[i as int]).update(
                    i as int,
                    s[parent as int],
                ));
                assert(ordered_but(self.items@, parent as int)) by {
                    assert forall|j: int| 1 <= j < self.items@.len() && j != parent implies comes_first(
                        #[trigger] self.items@[(j - 1) / 2],
                        self.items@[j],
                    ) by {
                        assert(comes_first(s[(j - 1) / 2], s[j]) || j == i);
                        if (j - 1) / 2 == i {
                            assert(comes_first(s[(i - 1) / 2], s[j]));
                        }
                    }
                    assert forall|j: int|
                        1 <= j < self.items@.len() && (j - 1) / 2 == parent && parent >= 1 implies comes_first(
                        self.items@[(parent - 1) / 2],
                        #[trigger] self.items@[j],
                    ) by {
                        assert(comes_first(s[(parent - 1) / 2], s[parent as int]));
                        if j != i {
                            assert(comes_first(s[(j - 1) / 2], s[j]));
                        }
                    }
                }
            }
            i = parent;
        }
    }

    /// Takes out the entry that comes first, if there is an entry: one of
    /// least weight, and among those the one of the greatest value.
    pub fn pop(&mut self) -> (least: Option<(W, V)>)
        requires
            old(self).wf(),
        ensures
            final(self).wf(),
            match least {
                Some(m) => old(self)@.count(m) > 0 && final(self)@ == old(self)@.remove(m)
                    && (forall|e: (W, V)|
                    old(self)@.count(e) > 0 ==> m.0.value() <= (#[trigger] e.0.value())) && (forall|
                    e: (W, V),
                | #[trigger] old(self)@.count(e) > 0 ==> comes_first(m, e)),
                None => old(self)@.len() == 0 && final(self)@ == old(self)@,
            },
    {
        let ghost before = self.items@;
        proof {
            vstd::seq_lib::to_multiset_len(before);
        }
        if self.items.len() == 0 {
            return None;
        }
        let last: usize = self.items.len() - 1;
        let first = self.items[0];
        let tail = self.items[last];
        self.items[0] = tail;
        self.items[last] = first;
        let popped = self.items.pop();
        let ghost rest = self.items@;
        proof {
            lemma_swap_multiset(before, 0, last as int);
            let swapped = before.update(0, before[last as int]).update(last as int, before[0]);
            assert(rest =~= swapped.remove(last as int));
            to_multiset_remove(swapped, last as int);
            to_multiset_contains(before, first);
            assert(before[0] == first);
            assert forall|e: (W, V)| #[trigger] before.to_multiset().count(e) > 0 implies comes_first(
                first,
                e,
            ) by {
                to_multiset_contains(before, e);
                let j = choose|j: int| 0 <= j < before.len() && before[j] == e;
                lemma_first_least(before, j);
            }
            assert forall|e: (W, V)| before.to_multiset().count(e) > 0 implies first.0.value() <= (
            #[trigger] e.0.value()) by {
                assert(comes_first(first, e));
            }
            assert(ordered_below(rest, 0)) by {
                assert forall|j: int| 1 <= j < rest.len() && (j - 1) / 2 != 0 implies comes_first(
                    #[trigger] rest[(j - 1) / 2],
                    rest[j],
                ) by {
                    assert(comes_first(before[(j - 1) / 2], before[j]));
                }
            }
        }
        let n: usize = self.items.len();
        let mut i: usize = 0;
        while i < n / 2
            invariant
                n == self.items.len(),
                i <= n,
                self.items@.to_multiset() == rest.to_multiset(),
                ordered_below(self.items@, i as int),
            ensures
                heap_ordered(self.items@),
                self.items@.to_multiset() == rest.to_multiset(),
            decreases n - i,
        {
            let l: usize = 2 * i + 1;
            let r: usize = 2 * i + 2;
            let mut small: usize = l;
            if r < n && !goes_first(self.items[l], self.items[r]) {
                small = r;
            }
            let here = self.items[i];
            let child = self.items[small];
            if goes_first(here, child) {
                proof {
                    assert forall|j: int| 1 <= j < self.items@.len() implies comes_first(
                        #[trigger] self.items@[(j - 1) / 2],
                        self.items@[j],
                    ) by {
                        if (j - 1) / 2 == i {
                            assert(j == l || j == r);
                        }
                    }
                }
                break;
            }
            let ghost s = self.items@;
            self.items[i] = child;
            self.items[small] = here;
            proof {
                lemma_swap_multiset(s, i as int, small as int);
                assert(self.items@ =~= s.update(i as int, s[small as int]).update(
                    small as int,
                    s[i as int],
                ));
                assert(ordered_below(self.items@, small as int)) by {
                    assert forall|j: int|
                        1 <= j < self.items@.len() && (j - 1) / 2 != small implies comes_first(
                        #[trigger] self.items@[(j - 1) / 2],
                        self.items@[j],
                    ) by {
                        if (j - 1) / 2 == i {
                            assert(j == l || j == r);
                        } else if j == i {
                            assert(comes_first(s[(i - 1) / 2], s[small as int]));
                        } else {
                            assert(comes_first(s[(j - 1) / 2], s[j]));
                        }
                    }
                    assert forall|j: int|
                        1 <= j < self.items@.len() && (j - 1) / 2 == small && small >= 1 implies comes_first(
                        self.items@[(small - 1) / 2],
                        #[trigger] self.items@[j],
                    ) by {
                        assert(comes_first(s[(j - 1) / 2], s[j]));
                    }
                }
            }
            i = small;
        }
        Some(first)
    }
}

} // verus!

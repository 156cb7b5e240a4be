//! Coordinate compression: the distinct values of a sequence in ascending
//! order, with searches by value.

use vstd::prelude::*;
use crate::ordered::{Ordered, strictly_increasing};

verus! {

/// The distinct values of a sequence, in ascending order. Its view is that
/// ascending sequence.
pub struct CoordinateCompress<T> {
    values: Vec<T>,
    /// The number of distinct values.
    pub length: usize,
}

impl<T> View for CoordinateCompress<T> {
    type V = Seq<T>;

    closed spec fn view(&self) -> Seq<T> {
        self.values@
    }
}

/// Whether `i` is the place of the least element of `s` that is not before
/// `v`.
pub open spec fn is_first_not_before<T: Ordered>(s: Seq<T>, v: T, i: int) -> bool {
    &&& 0 <= i < s.len()
    &&& v.position() <= s[i].position()
    &&& forall|j: int| 0 <= j < i ==> s[j].position() < v.position()
}

/// Whether `i` is the place of the greatest element of `s` that is not after
/// `v`.
pub open spec fn is_last_not_after<T: Ordered>(s: Seq<T>, v: T, i: int) -> bool {
    &&& 0 <= i < s.len()
    &&& s[i].position() <= v.position()
    &&& forall|j: int| i < j < s.len() ==> v.position() < s[j].position()
}

/// The ascending merge of two ascending sequences without repetition, each
/// value once.
fn merge_unique<T: Ordered>(a: &Vec<T>, b: &Vec<T>) -> (out: Vec<T>)
    requires
        strictly_increasing(a@),
        strictly_increasing(b@),
    ensures
        strictly_increasing(out@),
        forall|x: T| out@.contains(x) <==> (a@.contains(x) || b@.contains(x)),
{
    let mut out: Vec<T> = Vec::new();
    let mut i: usize = 0;
    let mut j: usize = 0;
    while i < a.len() || j < b.len()
        invariant
            i <= a.len(),
            j <= b.len(),
            strictly_increasing(a@),
            strictly_increasing(b@),
            strictly_increasing(out@),
            forall|k: int|
                0 <= k < out.len() && i < a.len() ==> (#[trigger] out[k]).position()
                    < a[i as int].position(),
            forall|k: int|
                0 <= k < out.len() && j < b.len() ==> (#[trigger] out[k]).position()
                    < b[j as int].position(),
            forall|x: T|
                out@.contains(x) <==> (a@.take(i as int).contains(x) || b@.take(j as int).contains(
                    x,
                )),
        decreases (a.len() - i) + (b.len() - j),
    {
        let ghost before = out@;
        let ghost i0 = i as int;
        let ghost j0 = j as int;
        let take_a: bool = i < a.len() && (j >= b.len() || !b[j].less(a[i]));
        let take_b: bool = j < b.len() && (i >= a.len() || !a[i].less(b[j]));
        let x: T = if take_a {
            a[i]
        } else {
            b[j]
        };
        proof {
            if take_a && take_b {
                a[i as int].lemma_position_injective(b[j as int]);
            }
        }
        out.push(x);
        if take_a {
            i += 1;
        }
        if take_b {
            j += 1;
        }
        proof {
            assert forall|y: T|
                out@.contains(y) <==> (a@.take(i as int).contains(y) || b@.take(j as int).contains(
                    y,
                )) by {
                if out@.contains(y) {
                    let k = choose|k: int| 0 <= k < out@.len() && out@[k] == y;
                    if k < before.len() {
                        assert(before[k] == y);
                        assert(before.contains(y));
                        if a@.take(i0).contains(y) {
                            let q = choose|q: int| 0 <= q < i0 && a@.take(i0)[q] == y;
                            assert(a@.take(i as int)[q] == y);
                        } else {
                            let q = choose|q: int| 0 <= q < j0 && b@.take(j0)[q] == y;
                            assert(b@.take(j as int)[q] == y);
                        }
                    } else {
                        if take_a {
                            assert(a@.take(i as int)[i0] == y);
                        } else {
                            assert(b@.take(j as int)[j0] == y);
                        }
                    }
                }
                if a@.take(i as int).contains(y) {
                    let q = choose|q: int| 0 <= q < i && a@.take(i as int)[q] == y;
                    if q < i0 {
                        assert(a@.take(i0)[q] == y);
                        assert(before.contains(y));
                        let k = choose|k: int| 0 <= k < before.len() && before[k] == y;
                        assert(out@[k] == y);
                    } else {
                        assert(out@[before.len() as int] == y);
                    }
                }
                if b@.take(j as int).contains(y) {
                    let q = choose|q: int| 0 <= q < j && b@.take(j as int)[q] == y;
                    if q < j0 {
                        assert(b@.take(j0)[q] == y);
                        assert(before.contains(y));
                        let k = choose|k: int| 0 <= k < before.len() && before[k] == y;
                        assert(out@[k] == y);
                    } else {
                        assert(out@[before.len() as int] == y);
                    }
                }
            }
        }
    }
    proof {
        assert(a@.take(a.len() as int) =~= a@);
        assert(b@.take(b.len() as int) =~= b@);
    }
    out
}

/// The distinct values of `values[lo..hi]` in ascending order.
fn sorted_unique<T: Ordered>(values: &[T], lo: usize, hi: usize) -> (out: Vec<T>)
    requires
        lo <= hi <= values.len(),
    ensures
        strictly_increasing(out@),
        forall|x: T| out@.contains(x) <==> values@.subrange(lo as int, hi as int).contains(x),
    decreases hi - lo,
{
    let ghost part = values@.subrange(lo as int, hi as int);
    if hi - lo == 0 {
        let out: Vec<T> = Vec::new();
        proof {
            assert forall|x: T| out@.contains(x) <==> part.contains(x) by {
                if part.contains(x) {
                    let q = choose|q: int| 0 <= q < part.len() && part[q] == x;
                }
            }
        }
        out
    } else if hi - lo == 1 {
        let mut out: Vec<T> = Vec::new();
        out.push(values[lo]);
        proof {
            assert forall|x: T| out@.contains(x) <==> part.contains(x) by {
                if part.contains(x) {
                    let q = choose|q: int| 0 <= q < part.len() && part[q] == x;
                    assert(out@[0] == x);
                }
                if out@.contains(x) {
                    assert(part[0] == x);
                }
            }
        }
        out
    } else {
        let mid: usize = lo + (hi - lo) / 2;
        let left = sorted_unique(values, lo, mid);
        let right = sorted_unique(values, mid, hi);
        let out = merge_unique(&left, &right);
        proof {
            let first = values@.subrange(lo as int, mid as int);
            let second = values@.subrange(mid as int, hi as int);
            assert forall|x: T| out@.contains(x) <==> part.contains(x) by {
                if part.contains(x) {
                    let q = choose|q: int| 0 <= q < part.len() && part[q] == x;
                    if q < mid - lo {
                        assert(first[q] == x);
                    } else {
                        assert(second[q - (mid - lo)] == x);
                    }
                }
                if first.contains(x) {
                    let q = choose|q: int| 0 <= q < first.len() && first[q] == x;
                    assert(part[q] == x);
                }
                if second.contains(x) {
                    let q = choose|q: int| 0 <= q < second.len() && second[q] == x;
                    assert(part[q + (mid - lo)] == x);
                }
            }
        }
        out
    }
}

/// Compresses `values`: its distinct values in ascending order.
pub fn coordinate_compression<T: Ordered>(values: &[T]) -> (cc: CoordinateCompress<T>)
    ensures
        cc.wf(),
        forall|x: T| cc@.contains(x) <==> values@.contains(x),
{
    let s = sorted_unique(values, 0, values.len());
    proof {
        assert(values@.subrange(0, values.len() as int) =~= values@);
    }
    let length = s.len();
    CoordinateCompress { values: s, length }
}

impl<T: Ordered> CoordinateCompress<T> {
    /// The values are in ascending order without repetition, and `length` is
    /// their number.
    pub closed spec fn wf(&self) -> bool {
        &&& self.length == self.values.len()
        &&& strictly_increasing(self.values@)
    }

    /// What `wf` says of the view.
    pub proof fn lemma_wf(&self)
        requires
            self.wf(),
        ensures
            strictly_increasing(self@),
    {
    }

    /// Compresses `array`.
    pub fn from(array: &[T]) -> (cc: Self)
        ensures
            cc.wf(),
            forall|x: T| cc@.contains(x) <==> array@.contains(x),
    {
        coordinate_compression(array)
    }

    /// The place of the least value that is not before `v`, where the first
    /// value is before `v` and the last is not.
    fn search_not_before(&self, v: T) -> (ok: usize)
        requires
            self.wf(),
            self@.len() > 0,
            self@[0].position() < v.position(),
            v.position() <= self@[self@.len() - 1].position(),
        ensures
            is_first_not_before(self@, v, ok as int),
    {
        let mut ng: usize = 0;
        let mut ok: usize = self.length - 1;
        while ok - ng > 1
            invariant
                self.wf(),
                ng < ok < self.length,
                self.values[ng as int].position() < v.position(),
                v.position() <= self.values[ok as int].position(),
            decreases ok - ng,
        {
            let m: usize = ng + (ok - ng) / 2;
            if !self.values[m].less(v) {
                ok = m;
            } else {
                ng = m;
            }
        }
        ok
    }

    /// The place of the greatest value that is not after `v`, where the
    /// first value is not after `v` and the last is.
    fn search_not_after(&self, v: T) -> (ok: usize)
        requires
            self.wf(),
            self@.len() > 0,
            self@[0].position() <= v.position(),
            v.position() < self@[self@.len() - 1].position(),
        ensures
            is_last_not_after(self@, v, ok as int),
    {
        let mut ok: usize = 0;
        let mut ng: usize = self.length - 1;
        while ng - ok > 1
            invariant
                self.wf(),
                ok < ng < self.length,
                self.values[ok as int].position() <= v.position(),
                v.position() < self.values[ng as int].position(),
            decreases ng - ok,
        {
            let m: usize = ok + (ng - ok) / 2;
            if !v.less(self.values[m]) {
                ok = m;
            } else {
                ng = m;
            }
        }
        ok
    }

    /// The place of the least value that is not before `v`, if there is one.
    pub fn next_index(&self, v: T) -> (found: Option<usize>)
        requires
            self.wf(),
        ensures
            match found {
                Some(i) => is_first_not_before(self@, v, i as int),
                None => forall|j: int| 0 <= j < self@.len() ==> self@[j].position() < v.position(),
            },
    {
        if self.values.len() == 0 {
            return None;
        }
        if self.values[self.length - 1].less(v) {
            return None;
        }
        if !self.values[0].less(v) {
            return Some(0);
        }
        Some(self.search_not_before(v))
    }

    /// The least value that is not before `v`, if there is one.
    pub fn next(&self, v: T) -> (found: Option<T>)
        requires
            self.wf(),
        ensures
            match found {
                Some(x) => exists|i: int| is_first_not_before(self@, v, i) && self@[i] == x,
                None => forall|j: int| 0 <= j < self@.len() ==> self@[j].position() < v.position(),
            },
    {
        match self.next_index(v) {
            Some(i) => Some(self.values[i]),
            None => None,
        }
    }

    /// The greatest value that is not after `v`, if there is one.
    pub fn prev(&self, v: T) -> (found: Option<T>)
        requires
            self.wf(),
        ensures
            match found {
                Some(x) => exists|i: int| is_last_not_after(self@, v, i) && self@[i] == x,
                None => forall|j: int| 0 <= j < self@.len() ==> v.position() < self@[j].position(),
            },
    {
        if self.values.len() == 0 {
            return None;
        }
        if v.less(self.values[0]) {
            return None;
        }
        if !v.less(self.values[self.length - 1]) {
            proof {
                assert(is_last_not_after(self@, v, self.length - 1));
            }
            return Some(self.values[self.length - 1]);
        }
        let ok = self.search_not_after(v);
        Some(self.values[ok])
    }

    /// The place of the greatest value that is not after `v`, if there is
    /// one and `v` is not after every value; where `v` is after every value,
    /// there is no answer.
    pub fn prev_index(&self, v: T) -> (found: Option<usize>)
        requires
            self.wf(),
        ensures
            match found {
                Some(i) => is_last_not_after(self@, v, i as int),
                None => self@.len() == 0 || v.position() < self@[0].position() || self@[self@.len()
                    - 1].position() < v.position(),
            },
            self@.len() > 0 && self@[0].position() <= v.position() <= self@[self@.len()
                - 1].position() ==> found is Some,
    {
        if self.values.len() == 0 {
            return None;
        }
        if v.less(self.values[0]) {
            return None;
        }
        if !v.less(self.values[self.length - 1]) {
            if self.values[self.length - 1].same(v) {
                return Some(self.length - 1);
            } else {
                proof {
                    self.values[self.length - 1].lemma_position_injective(v);
                }
                return None;
            }
        }
        Some(self.search_not_after(v))
    }

    /// Whether `v` is one of the values.
    pub fn contains(&self, v: T) -> (b: bool)
        requires
            self.wf(),
        ensures
            b == self@.contains(v),
    {
        match self.index(v) {
            Some(_) => true,
            None => false,
        }
    }

    /// The place of `v` among the values, if it is one of them.
    pub fn index(&self, v: T) -> (found: Option<usize>)
        requires
            self.wf(),
        ensures
            match found {
                Some(i) => 0 <= i < self@.len() && self@[i as int] == v,
                None => !self@.contains(v),
            },
    {
        match self.next_index(v) {
            Some(i) => {
                if self.values[i].same(v) {
                    Some(i)
                } else {
                    proof {
                        if self@.contains(v) {
                            let q = choose|q: int| 0 <= q < self@.len() && self@[q] == v;
                            if q > i {
                                assert(self@[i as int].position() < self@[q].position());
                            }
                            self@[i as int].lemma_position_injective(v);
                        }
                    }
                    None
                }
            },
            None => {
                proof {
                    if self@.contains(v) {
                        let q = choose|q: int| 0 <= q < self@.len() && self@[q] == v;
                    }
                }
                None
            },
        }
    }

    /// The least value.
    pub fn min(&self) -> (x: T)
        requires
            self.wf(),
            self@.len() > 0,
        ensures
            x == self@[0],
            forall|j: int| 0 <= j < self@.len() ==> x.position() <= self@[j].position(),
    {
        self.values[0]
    }

    /// The greatest value.
    pub fn max(&self) -> (x: T)
        requires
            self.wf(),
            self@.len() > 0,
        ensures
            x == self@[self@.len() - 1],
            forall|j: int| 0 <= j < self@.len() ==> self@[j].position() <= x.position(),
    {
        self.values[self.length - 1]
    }

    /// The number of values.
    pub fn len(&self) -> (n: usize)
        requires
            self.wf(),
        ensures
            n == self@.len(),
    {
        self.length
    }

    /// The value at place `i` of the ascending order.
    pub fn get(&self, i: usize) -> (x: T)
        requires
            i < self@.len(),
        ensures
            x == self@[i as int],
    {
        self.values[i]
    }
}

} // verus!

//! A wavelet matrix over a fixed sequence of keys, each of a fixed number of
//! bits, with an optional weight attached to every key.
//!
//! The matrix keeps one bit vector per bit of the keys. It answers by
//! position (`access`), by rank among the keys of a stretch (`quantile`), and
//! by bound on the keys of a stretch (`range_freq`, `range_sum`), each in a
//! number of steps proportional to the number of bits.

use vstd::prelude::*;
use crate::bit_vector::{bit_at, bits_of, lemma_rank_complement};
use crate::level_order::{
    clear_low,
    fits,
    with_bit,
    with_prefix,
    below,
    at_most,
    stable_partition,
    level,
    lemma_filter_all,
    lemma_filter_len_monotone,
    lemma_fits_clear_low,
    lemma_filter_none,
    lemma_filter_disjoint_len,
    lemma_filter_weight_le,
    lemma_level_len,
    lemma_level_weight,
    lemma_rank_counts_clear,
    lemma_partition_range,
    lemma_partition_index,
    lemma_descend,
    lemma_descend_weight,
    lemma_clear_low_step,
};
use crate::weight::{
    Weight,
    total_weight,
    lemma_total_weight_subrange,
};

pub use crate::bit_vector::BitVector;

verus! {

/// Whether `bits` holds, at each position of `s`, bit `j` of the key there.
pub open spec fn records<T>(bits: Seq<bool>, s: Seq<(u64, T)>, j: int) -> bool {
    &&& s.len() <= bits.len()
    &&& forall|p: int| 0 <= p < s.len() ==> bits[p] == bit_at(#[trigger] s[p].0, j)
}

/// Whether `row` holds, at each position up to the length of `s`, the total
/// weight of the items of `s` before that position.
pub open spec fn sums<T: Weight>(row: Seq<T>, s: Seq<(u64, T)>) -> bool {
    &&& row.len() == s.len() + 1
    &&& forall|p: int| 0 <= p <= s.len() ==> (#[trigger] row[p]).value() == total_weight(s.take(p))
}

/// The items that stand for a sequence of bare keys.
pub open spec fn unweighted(keys: Seq<u64>) -> Seq<(u64, ())> {
    Seq::new(keys.len(), |i: int| (keys[i], ()))
}

/// The items that stand for a sequence of keys, each weighted by itself.
pub open spec fn self_weighted(keys: Seq<u64>) -> Seq<(u64, u64)> {
    Seq::new(keys.len(), |i: int| (keys[i], keys[i]))
}

/// A wavelet matrix. Its view is the sequence of items it was built from,
/// each a key with its weight, in the order in which they were given.
pub struct WaveletMatrix<T> {
    bvs: Vec<BitVector>,
    length: usize,
    height: usize,
    cums: Vec<Vec<T>>,
    items: Ghost<Seq<(u64, T)>>,
}

impl<T> View for WaveletMatrix<T> {
    type V = Seq<(u64, T)>;

    closed spec fn view(&self) -> Seq<(u64, T)> {
        self.items@
    }
}

/// The elements of `v` in the opposite order.
fn reversed<A>(v: Vec<A>) -> (r: Vec<A>)
    ensures
        r@.len() == v@.len(),
        forall|i: int| 0 <= i < v@.len() ==> r@[i] == v@[v@.len() - 1 - i],
{
    let mut v = v;
    let ghost orig = v@;
    let mut r: Vec<A> = Vec::new();
    while v.len() > 0
        invariant
            v@.len() + r@.len() == orig.len(),
            v@ == orig.take(v@.len() as int),
            forall|i: int| 0 <= i < r@.len() ==> r@[i] == orig[orig.len() - 1 - i],
        decreases v.len(),
    {
        let x = v.pop();
        match x {
            Some(x) => {
                r.push(x);
            },
            None => {},
        }
    }
    r
}

/// Setting bit `k` of a word whose bits from `k` up are clear: the bits
/// below `k` stay, bit `k` becomes `bit`, and the bits above `k` stay clear.
proof fn lemma_or_bit(old_word: u64, bit: u64, k: u64, q: u64)
    requires
        k < 64,
        q <= k,
        bit == 0 || bit == 1,
        k == 0 || old_word >> k == 0,
        k == 0 ==> old_word == 0,
    ensures
        q < k ==> bit_at(old_word | (bit << k), q as int) == bit_at(old_word, q as int),
        bit_at(old_word | (bit << k), k as int) == (bit == 1),
        k < 63 ==> (old_word | (bit << k)) >> ((k + 1) as u64) == 0,
{
    let new_word = old_word | (bit << k);
    let k1: u64 = if k < 63 {
        (k + 1) as u64
    } else {
        0
    };
    assert({
        &&& q < k ==> (new_word >> q) & 1 == (old_word >> q) & 1
        &&& ((new_word >> k) & 1 == 1) == (bit == 1)
        &&& k < 63 ==> new_word >> k1 == 0
    }) by (bit_vector)
        requires
            k < 64,
            q <= k,
            bit == 0 || bit == 1,
            k == 0 || old_word >> k == 0,
            k == 0 ==> old_word == 0,
            new_word == old_word | (bit << k),
            k1 == if k < 63 {
                k + 1
            } else {
                0
            },
    ;
}

/// One level of the construction: the bit vector that records bit `j` of the
/// keys of `array`, and the stable partition of `array` by that bit.
fn partition_step<T: Copy>(array: &Vec<(u64, T)>, j: usize) -> (res: (BitVector, Vec<(u64, T)>))
    requires
        j < 64,
        array.len() + 63 <= u32::MAX,
    ensures
        res.0.wf(),
        records(res.0@, array@, j as int),
        res.1@ == stable_partition(array@, j as int),
{
    let ghost zero = with_bit::<T>(j as int, false);
    let ghost one = with_bit::<T>(j as int, true);
    let mut a0: Vec<(u64, T)> = Vec::new();
    let mut a1: Vec<(u64, T)> = Vec::new();
    let mut bv: Vec<u64> = Vec::new();
    let mut p: usize = 0;
    proof {
        reveal(Seq::filter);
        assert(array@.take(0) =~= Seq::<(u64, T)>::empty());
    }
    while p < array.len()
        invariant
            j < 64,
            p <= array.len(),
            array.len() + 63 <= u32::MAX,
            zero == with_bit::<T>(j as int, false),
            one == with_bit::<T>(j as int, true),
            bv.len() == (p + 63) / 64,
            a0@ == array@.take(p as int).filter(zero),
            a1@ == array@.take(p as int).filter(one),
            forall|q: int|
                0 <= q < p ==> bit_at(#[trigger] bv[q / 64], q % 64) == bit_at(array[q].0, j as int),
            p % 64 != 0 ==> bv[p as int / 64] >> ((p % 64) as u64) == 0,
        decreases array.len() - p,
    {
        let a = array[p];
        if p % 64 == 0 {
            bv.push(0);
        }
        let bit: u64 = (a.0 >> (j as u64)) & 1;
        let w: usize = p / 64;
        let k: usize = p % 64;
        let old_word: u64 = bv[w];
        let new_word: u64 = old_word | (bit << (k as u64));
        let ghost before = bv@;
        bv[w] = new_word;
        proof {
            let jj = j as u64;
            let key = a.0;
            assert(bit == 0 || bit == 1) by (bit_vector)
                requires
                    bit == (key >> jj) & 1,
            ;
            assert(bv@ == before.update(w as int, new_word));
            assert forall|q: int| 0 <= q < p + 1 implies bit_at(#[trigger] bv[q / 64], q % 64)
                == bit_at(array[q].0, j as int) by {
                if q / 64 == w {
                    lemma_or_bit(old_word, bit, k as u64, (q % 64) as u64);
                } else {
                    assert(bv[q / 64] == before[q / 64]);
                }
            }
            lemma_or_bit(old_word, bit, k as u64, k as u64);
            assert(array@.take(p + 1) =~= array@.take(p as int).push(a));
            array@.take(p as int).lemma_filter_push(a, zero);
            array@.take(p as int).lemma_filter_push(a, one);
        }
        if bit == 1 {
            a1.push(a);
        } else {
            a0.push(a);
        }
        p += 1;
    }
    let bits = BitVector::from(bv.as_slice());
    a0.append(&mut a1);
    proof {
        assert(array@.take(array.len() as int) =~= array@);
        assert forall|q: int| 0 <= q < array@.len() implies bits@[q] == bit_at(
            #[trigger] array@[q].0,
            j as int,
        ) by {
            assert(bits_of(bv@)[q] == bit_at(bv[q / 64], q % 64));
        }
    }
    (bits, a0)
}

impl<T> WaveletMatrix<T> {
    /// The number of bits of a key.
    pub closed spec fn bit_width(&self) -> int {
        self.height as int
    }

    /// One bit vector stands for each bit of the keys, and the vector for
    /// bit `j` records that bit of the keys in the order of level `j + 1`.
    /// Every key fits in the number of bits of the matrix.
    pub closed spec fn wf(&self) -> bool {
        &&& self.height <= 64
        &&& self.bvs.len() == self.height
        &&& self.items@.len() == self.length
        &&& self.length + 63 <= u32::MAX
        &&& forall|i: int|
            0 <= i < self.length ==> clear_low(#[trigger] self.items@[i].0, self.height as int)
                == 0
        &&& forall|j: int|
            0 <= j < self.height ==> (#[trigger] self.bvs[j]).wf() && records(
                self.bvs[j]@,
                level(self.items@, self.height as int, j + 1),
                j,
            )
    }

    /// What `wf` says of the keys and of the length, for callers.
    pub proof fn lemma_wf(&self)
        requires
            self.wf(),
        ensures
            0 <= self.bit_width() <= 64,
            self@.len() + 63 <= u32::MAX,
            forall|i: int| 0 <= i < self@.len() ==> fits(#[trigger] self@[i].0, self.bit_width()),
    {
        assert forall|i: int| 0 <= i < self@.len() implies fits(
            #[trigger] self@[i].0,
            self.bit_width(),
        ) by {
            lemma_fits_clear_low(self@[i].0, self.height as int);
        }
    }

    /// The number of items.
    pub fn len(&self) -> (n: usize)
        requires
            self.wf(),
        ensures
            n == self@.len(),
    {
        self.length
    }

    /// The number of bits of a key.
    pub fn height(&self) -> (h: usize)
        ensures
            h == self.bit_width(),
    {
        self.height
    }

    /// The number of items before position `p` of level `j + 1` whose key
    /// has bit `j` clear.
    fn clear_before(&self, j: usize, p: usize) -> (c: usize)
        requires
            self.wf(),
            j < self.bit_width(),
            p <= self@.len(),
        ensures
            c == level(self@, self.bit_width(), j + 1).take(p as int).filter(
                with_bit::<T>(j as int, false),
            ).len(),
            c <= p,
    {
        proof {
            let s = level(self@, self.height as int, j + 1);
            lemma_level_len(self@, self.height as int, j + 1);
            lemma_rank_counts_clear(self.bvs[j as int]@, s, j as int, p as int);
            s.take(p as int).lemma_filter_len(with_bit::<T>(j as int, false));
        }
        if p > 0 {
            self.bvs[j].rank(p - 1, false) as usize
        } else {
            0
        }
    }

    /// The key at position `i`.
    pub fn access(&self, i: usize) -> (key: u64)
        requires
            self.wf(),
            i < self@.len(),
        ensures
            key == self@[i as int].0,
    {
        let mut ret: u64 = 0;
        let mut pos: usize = i;
        let mut j: usize = self.height;
        while j > 0
            invariant
                self.wf(),
                j <= self.height,
                i < self.length,
                pos < self.length,
                level(self@, self.height as int, j as int)[pos as int] == self@[i as int],
                ret == clear_low(self@[i as int].0, j as int),
            decreases j,
        {
            j -= 1;
            let zeros: usize = self.clear_before(j, self.length);
            proof {
                let s = level(self@, self.height as int, j + 1);
                lemma_level_len(self@, self.height as int, j + 1);
                assert(s.take(self.length as int) =~= s);
                lemma_partition_index(s, j as int, pos as int);
                lemma_rank_counts_clear(self.bvs[j as int]@, s, j as int, pos as int);
                lemma_rank_counts_clear(self.bvs[j as int]@, s, j as int, pos + 1);
                lemma_rank_complement(self.bvs[j as int]@, pos + 1);
                lemma_clear_low_step(self@[i as int].0, j as u64);
                assert(self.bvs[j as int]@[pos as int] == bit_at(s[pos as int].0, j as int));
            }
            if self.bvs[j].access(pos) {
                ret |= 1u64 << (j as u64);
                pos = self.bvs[j].rank(pos, true) as usize + zeros - 1;
            } else {
                pos = self.bvs[j].rank(pos, false) as usize - 1;
            }
        }
        ret
    }
}

/// Whether a matrix of `height` bits can be built of the keys of `array`:
/// the number of bits is at most 64, the keys are few enough for the rank
/// tables, and every key fits in the bits.
pub fn accepts(array: &[u64], height: usize) -> (ok: bool)
    ensures
        ok == (height <= 64 && array.len() + 63 <= u32::MAX && forall|i: int|
            0 <= i < array.len() ==> fits(#[trigger] array[i], height as int)),
{
    if height > 64 || array.len() > 0xffff_ffc0 {
        return false;
    }
    if height == 64 {
        return true;
    }
    let mut p: usize = 0;
    while p < array.len()
        invariant
            height < 64,
            p <= array.len(),
            forall|i: int| 0 <= i < p ==> fits(#[trigger] array[i], height as int),
        decreases array.len() - p,
    {
        let key: u64 = array[p];
        let bits: u64 = height as u64;
        let bound: u64 = 1u64 << bits;
        if key >= bound {
            assert(!fits(array[p as int], height as int));
            return false;
        }
        p += 1;
    }
    true
}

impl WaveletMatrix<()> {
    /// Builds the matrix of the keys of `array`, without weights.
    pub fn from(array: &[u64], height: usize) -> (wm: Self)
        requires
            height <= 64,
            array.len() + 63 <= u32::MAX,
            forall|i: int| 0 <= i < array.len() ==> fits(#[trigger] array[i], height as int),
        ensures
            wm.wf(),
            wm.bit_width() == height,
            wm@ == unweighted(array@),
    {
        let ghost items = unweighted(array@);
        let mut level_items: Vec<(u64, ())> = Vec::new();
        let mut p: usize = 0;
        while p < array.len()
            invariant
                p <= array.len(),
                level_items@ == unweighted(array@.take(p as int)),
            decreases array.len() - p,
        {
            level_items.push((array[p], ()));
            proof {
                assert(level_items@ =~= unweighted(array@.take(p + 1)));
            }
            p += 1;
        }
        proof {
            assert(array@.take(array.len() as int) =~= array@);
        }
        let mut rows: Vec<BitVector> = Vec::new();
        let mut j: usize = height;
        while j > 0
            invariant
                j <= height <= 64,
                items.len() + 63 <= u32::MAX,
                level_items@ == level(items, height as int, j as int),
                rows.len() == height - j,
                forall|q: int|
                    0 <= q < rows.len() ==> (#[trigger] rows[q]).wf() && records(
                        rows[q]@,
                        level(items, height as int, height - q),
                        height - 1 - q,
                    ),
            decreases j,
        {
            j -= 1;
            proof {
                lemma_level_len(items, height as int, j + 1);
            }
            let (bits, next) = partition_step(&level_items, j);
            rows.push(bits);
            level_items = next;
        }
        let bvs = reversed(rows);
        proof {
            assert forall|i: int| 0 <= i < items.len() implies clear_low(
                #[trigger] items[i].0,
                height as int,
            ) == 0 by {
                lemma_fits_clear_low(array[i], height as int);
            }
        }
        WaveletMatrix {
            bvs,
            length: array.len(),
            height,
            cums: Vec::new(),
            items: Ghost(items),
        }
    }
}

impl<T> WaveletMatrix<T> {
    /// Where the stretch `lo..hi` of level `j + 1` goes at level `j`: the
    /// numbers `(l0, r0, z)` of items with bit `j` clear before `lo`, before
    /// `hi`, and in all.
    fn split(&self, j: usize, lo: usize, hi: usize) -> (res: (usize, usize, usize))
        requires
            self.wf(),
            j < self.bit_width(),
            lo <= hi <= self@.len(),
        ensures
            ({
                let (l0, r0, z) = res;
                let upper_level = level(self@, self.bit_width(), j + 1);
                let lower_level = level(self@, self.bit_width(), j as int);
                let stretch = upper_level.subrange(lo as int, hi as int);
                &&& l0 <= r0 <= z <= self@.len()
                &&& l0 <= lo
                &&& lo - l0 <= hi - r0 <= self@.len() - z
                &&& lower_level.len() == self@.len()
                &&& lower_level.subrange(l0 as int, r0 as int) == stretch.filter(
                    with_bit::<T>(j as int, false),
                )
                &&& lower_level.subrange(z + lo - l0, z + hi - r0) == stretch.filter(
                    with_bit::<T>(j as int, true),
                )
            }),
    {
        let l0: usize = self.clear_before(j, lo);
        let r0: usize = self.clear_before(j, hi);
        let z: usize = self.clear_before(j, self.length);
        proof {
            let s = level(self@, self.height as int, j + 1);
            lemma_level_len(self@, self.height as int, j + 1);
            assert(s.take(self.length as int) =~= s);
            lemma_partition_range(s, j as int, lo as int, hi as int);
        }
        (l0, r0, z)
    }

    /// The key that stands at position `k` when the keys at the positions
    /// `l..r` are put in ascending order: fewer than `k + 1` of those keys
    /// are less than it, and more than `k` of them are at most it.
    pub fn quantile(&self, l: usize, r: usize, k: usize) -> (key: u64)
        requires
            self.wf(),
            l < r <= self@.len(),
            k < r - l,
        ensures
            is_kth_smallest(self@.subrange(l as int, r as int), k as int, key),
    {
        let ghost stretch = self@.subrange(l as int, r as int);
        let mut ret: u64 = 0;
        let mut lo: usize = l;
        let mut hi: usize = r;
        let mut rest: usize = k;
        let mut j: usize = self.height;
        proof {
            lemma_clear_low_zero(self.height as u64);
            lemma_filter_all(stretch, with_prefix::<T>(0, self.height as int));
            lemma_filter_none(stretch, below::<T>(0));
        }
        while j > 0
            invariant
                self.wf(),
                j <= self.height,
                l <= r <= self@.len(),
                stretch == self@.subrange(l as int, r as int),
                lo <= hi <= self.length,
                level(self@, self.height as int, j as int).len() == self.length,
                rest < hi - lo,
                clear_low(ret, j as int) == ret,
                level(self@, self.height as int, j as int).subrange(lo as int, hi as int)
                    == stretch.filter(with_prefix::<T>(ret, j as int)),
                stretch.filter(below::<T>(ret)).len() + rest == k,
            decreases j,
        {
            j -= 1;
            let (l0, r0, z) = self.split(j, lo, hi);
            proof {
                lemma_descend(stretch, ret, j as int);
                let lower_level = level(self@, self.height as int, j as int);
                assert(lower_level.subrange(l0 as int, r0 as int).len() == r0 - l0);
                assert(lower_level.subrange(z + lo - l0, z + hi - r0).len() == (hi - lo) - (r0
                    - l0));
            }
            if rest < r0 - l0 {
                lo = l0;
                hi = r0;
            } else {
                ret |= 1u64 << (j as u64);
                rest -= r0 - l0;
                lo += z - l0;
                hi += z - r0;
            }
        }
        proof {
            assert forall|i: int| 0 <= i < stretch.len() implies {
                &&& at_most::<T>(ret)(#[trigger] stretch[i]) == (below::<T>(ret)(stretch[i])
                    || with_prefix::<T>(ret, 0)(stretch[i]))
                &&& !(below::<T>(ret)(stretch[i]) && with_prefix::<T>(ret, 0)(stretch[i]))
            } by {}
            lemma_filter_disjoint_len(
                stretch,
                below::<T>(ret),
                with_prefix::<T>(ret, 0),
                at_most::<T>(ret),
            );
        }
        ret
    }

    /// The number of keys at the positions `l..r` that are less than `upper`.
    pub fn range_freq(&self, l: usize, r: usize, upper: u64) -> (count: u64)
        requires
            self.wf(),
            l <= r <= self@.len(),
        ensures
            count == self@.subrange(l as int, r as int).filter(below::<T>(upper)).len(),
    {
        let ghost stretch = self@.subrange(l as int, r as int);
        if self.height < 64 && (upper >> (self.height as u64)) != 0 {
            proof {
                assert forall|i: int| 0 <= i < stretch.len() implies below::<T>(upper)(
                    #[trigger] stretch[i],
                ) by {
                    lemma_fits_below(stretch[i].0, upper, self.height as u64);
                }
                lemma_filter_all(stretch, below::<T>(upper));
            }
            return (r - l) as u64;
        }
        let mut ret: u64 = 0;
        let mut lo: usize = l;
        let mut hi: usize = r;
        let mut j: usize = self.height;
        proof {
            lemma_clear_low_high(upper, self.height as u64);
            lemma_filter_all(stretch, with_prefix::<T>(0, self.height as int));
            lemma_filter_none(stretch, below::<T>(0));
        }
        while j > 0
            invariant
                self.wf(),
                j <= self.height,
                l <= r <= self@.len(),
                stretch == self@.subrange(l as int, r as int),
                lo <= hi <= self.length,
                level(self@, self.height as int, j as int).len() == self.length,
                level(self@, self.height as int, j as int).subrange(lo as int, hi as int)
                    == stretch.filter(with_prefix::<T>(clear_low(upper, j as int), j as int)),
                ret == stretch.filter(below::<T>(clear_low(upper, j as int))).len(),
            decreases j,
        {
            j -= 1;
            let (l0, r0, z) = self.split(j, lo, hi);
            proof {
                lemma_clear_low_step(upper, j as u64);
                lemma_descend(stretch, clear_low(upper, j + 1), j as int);
                stretch.lemma_filter_len(below::<T>(clear_low(upper, j as int)));
                let lower_level = level(self@, self.height as int, j as int);
                assert(lower_level.subrange(l0 as int, r0 as int).len() == r0 - l0);
                assert(bit_at(upper, j as int) == ((upper >> (j as u64)) & 1 == 1));
            }
            if (upper >> (j as u64)) & 1 == 1 {
                ret += (r0 - l0) as u64;
                lo += z - l0;
                hi += z - r0;
            } else {
                lo = l0;
                hi = r0;
            }
        }
        ret
    }
}

/// Whether `key` is what stands at position `k` when the keys of `s` are put
/// in ascending order: at most `k` keys of `s` are less than `key`, and more
/// than `k` are less than or equal to it.
pub open spec fn is_kth_smallest<T>(s: Seq<(u64, T)>, k: int, key: u64) -> bool {
    s.filter(below::<T>(key)).len() <= k < s.filter(at_most::<T>(key)).len()
}

/// A key of `height` bits is less than any number with a bit set at
/// position `height` or above.
proof fn lemma_fits_below(x: u64, upper: u64, height: u64)
    requires
        height < 64,
        clear_low(x, height as int) == 0,
        upper >> height != 0,
    ensures
        x < upper,
{
    let cx = clear_low(x, height as int);
    assert(x < upper) by (bit_vector)
        requires
            height < 64,
            cx == if height == 0 {
                x
            } else {
                (x >> height) << height
            },
            cx == 0,
            upper >> height != 0,
    ;
}

/// Zero stays zero when low bits are cleared.
proof fn lemma_clear_low_zero(height: u64)
    requires
        height <= 64,
    ensures
        clear_low(0, height as int) == 0,
{
    if 0 < height < 64 {
        assert((0u64 >> height) << height == 0) by (bit_vector)
            requires
                height < 64,
        ;
    }
}

/// A number without a bit at position `height` or above has nothing left
/// when its `height` lowest bits are cleared.
proof fn lemma_clear_low_high(upper: u64, height: u64)
    requires
        height <= 64,
        height < 64 ==> upper >> height == 0,
    ensures
        clear_low(upper, height as int) == 0,
{
    if 0 < height < 64 {
        assert((upper >> height) << height == 0) by (bit_vector)
            requires
                height < 64,
                upper >> height == 0,
        ;
    } else if height == 0 {
        assert(upper >> 0u64 == upper) by (bit_vector);
    }
}

/// The totals of the prefixes of `array`: entry `p` is the total weight of
/// the first `p` items.
fn prefix_weights<T: Weight>(array: &Vec<(u64, T)>) -> (row: Vec<T>)
    requires
        total_weight(array@) <= T::limit(),
    ensures
        sums(row@, array@),
{
    let mut row: Vec<T> = Vec::new();
    row.push(T::zero());
    let mut p: usize = 0;
    proof {
        assert(array@.take(0) =~= Seq::<(u64, T)>::empty());
    }
    while p < array.len()
        invariant
            p <= array.len(),
            total_weight(array@) <= T::limit(),
            row.len() == p + 1,
            forall|q: int| 0 <= q <= p ==> (#[trigger] row[q]).value() == total_weight(
                array@.take(q),
            ),
        decreases array.len() - p,
    {
        proof {
            lemma_total_weight_subrange(array@, 0, p + 1);
            assert(array@.subrange(0, p + 1) =~= array@.take(p + 1));
            assert(array@.take(p + 1) =~= array@.take(p as int).push(array[p as int]));
            crate::weight::lemma_total_weight_push(array@.take(p as int), array[p as int]);
        }
        let next = row[p].plus(array[p].1);
        row.push(next);
        p += 1;
    }
    row
}

impl<T: Weight> WaveletMatrix<T> {
    /// The matrix is well formed, and beside the order of the items as they
    /// were given and beside each level stands the row of the totals of its
    /// prefixes.
    pub closed spec fn wf_weighted(&self) -> bool {
        &&& self.wf()
        &&& self.cums.len() == self.height + 1
        &&& forall|k: int|
            0 <= k <= self.height ==> sums(
                (#[trigger] self.cums[k])@,
                level(self.items@, self.height as int, k),
            )
    }

    /// A weighted matrix is a matrix, and all its weights together do not
    /// exceed the limit of their type.
    pub proof fn lemma_wf_weighted(&self)
        requires
            self.wf_weighted(),
        ensures
            self.wf(),
            total_weight(self@) <= T::limit(),
    {
        let top = self.cums[self.height as int];
        lemma_level_len(self.items@, self.height as int, self.height as int);
        assert(self.items@.take(self.items@.len() as int) =~= self.items@);
        top[self.length as int].lemma_range();
    }

    /// Builds the weighted matrix of `array`.
    fn build(array: Vec<(u64, T)>, height: usize) -> (wm: Self)
        requires
            height <= 64,
            array.len() + 63 <= u32::MAX,
            forall|i: int| 0 <= i < array.len() ==> fits(#[trigger] array[i].0, height as int),
            total_weight(array@) <= T::limit(),
        ensures
            wm.wf_weighted(),
            wm.bit_width() == height,
            wm@ == array@,
    {
        let ghost items = array@;
        let length = array.len();
        let mut level_items = array;
        let mut rows: Vec<BitVector> = Vec::new();
        let mut totals: Vec<Vec<T>> = Vec::new();
        totals.push(prefix_weights(&level_items));
        let mut j: usize = height;
        while j > 0
            invariant
                j <= height <= 64,
                items.len() + 63 <= u32::MAX,
                total_weight(items) <= T::limit(),
                level_items@ == level(items, height as int, j as int),
                rows.len() == height - j,
                totals.len() == height - j + 1,
                forall|q: int|
                    0 <= q < rows.len() ==> (#[trigger] rows[q]).wf() && records(
                        rows[q]@,
                        level(items, height as int, height - q),
                        height - 1 - q,
                    ),
                forall|q: int|
                    0 <= q < totals.len() ==> sums(
                        (#[trigger] totals[q])@,
                        level(items, height as int, height - q),
                    ),
            decreases j,
        {
            j -= 1;
            proof {
                lemma_level_len(items, height as int, j + 1);
                lemma_level_weight(items, height as int, j as int);
            }
            let (bits, next) = partition_step(&level_items, j);
            rows.push(bits);
            level_items = next;
            totals.push(prefix_weights(&level_items));
        }
        let bvs = reversed(rows);
        let cums = reversed(totals);
        proof {
            assert forall|i: int| 0 <= i < items.len() implies clear_low(
                #[trigger] items[i].0,
                height as int,
            ) == 0 by {
                lemma_fits_clear_low(items[i].0, height as int);
            }
        }
        WaveletMatrix { bvs, length, height, cums, items: Ghost(items) }
    }

    /// Builds the matrix of the items of `array`, each a key with a weight
    /// of its own.
    pub fn from_weighted(array: &[(u64, T)], height: usize) -> (wm: Self)
        requires
            height <= 64,
            array.len() + 63 <= u32::MAX,
            forall|i: int| 0 <= i < array.len() ==> fits(#[trigger] array[i].0, height as int),
            total_weight(array@) <= T::limit(),
        ensures
            wm.wf_weighted(),
            wm.bit_width() == height,
            wm@ == array@,
    {
        let mut items: Vec<(u64, T)> = Vec::new();
        let mut p: usize = 0;
        while p < array.len()
            invariant
                p <= array.len(),
                items@ == array@.take(p as int),
            decreases array.len() - p,
        {
            items.push(array[p]);
            proof {
                assert(items@ =~= array@.take(p + 1));
            }
            p += 1;
        }
        proof {
            assert(array@.take(array.len() as int) =~= array@);
        }
        Self::build(items, height)
    }

    /// The total weight of the items at the positions `l..r` whose key is
    /// less than `upper`.
    pub fn range_sum(&self, l: usize, r: usize, upper: u64) -> (total: T)
        requires
            self.wf_weighted(),
            l <= r <= self@.len(),
        ensures
            total.value() == total_weight(
                self@.subrange(l as int, r as int).filter(below::<T>(upper)),
            ),
    {
        let ghost stretch = self@.subrange(l as int, r as int);
        if self.height < 64 && (upper >> (self.height as u64)) != 0 {
            proof {
                assert forall|i: int| 0 <= i < stretch.len() implies below::<T>(upper)(
                    #[trigger] stretch[i],
                ) by {
                    lemma_fits_below(stretch[i].0, upper, self.height as u64);
                }
                lemma_filter_all(stretch, below::<T>(upper));
            }
            return self.sum(l, r);
        }
        let mut ret: T = T::zero();
        let mut lo: usize = l;
        let mut hi: usize = r;
        let mut j: usize = self.height;
        proof {
            self.lemma_wf_weighted();
            lemma_total_weight_subrange(self@, l as int, r as int);
            lemma_clear_low_high(upper, self.height as u64);
            lemma_filter_all(stretch, with_prefix::<T>(0, self.height as int));
            lemma_filter_none(stretch, below::<T>(0));
        }
        while j > 0
            invariant
                self.wf_weighted(),
                j <= self.height,
                l <= r <= self@.len(),
                stretch == self@.subrange(l as int, r as int),
                total_weight(stretch) <= T::limit(),
                lo <= hi <= self.length,
                level(self@, self.height as int, j as int).len() == self.length,
                level(self@, self.height as int, j as int).subrange(lo as int, hi as int)
                    == stretch.filter(with_prefix::<T>(clear_low(upper, j as int), j as int)),
                ret.value() == total_weight(
                    stretch.filter(below::<T>(clear_low(upper, j as int))),
                ),
            decreases j,
        {
            j -= 1;
            let (l0, r0, z) = self.split(j, lo, hi);
            proof {
                lemma_clear_low_step(upper, j as u64);
                lemma_descend(stretch, clear_low(upper, j + 1), j as int);
                lemma_descend_weight(stretch, clear_low(upper, j + 1), j as int);
                lemma_filter_weight_le(stretch, below::<T>(clear_low(upper, j as int)));
                let lower_level = level(self@, self.height as int, j as int);
                lemma_total_weight_subrange(lower_level, l0 as int, r0 as int);
                assert(bit_at(upper, j as int) == ((upper >> (j as u64)) & 1 == 1));
            }
            if (upper >> (j as u64)) & 1 == 1 {
                ret = ret.plus(self.cums[j][r0].minus(self.cums[j][l0]));
                lo += z - l0;
                hi += z - r0;
            } else {
                lo = l0;
                hi = r0;
            }
        }
        ret
    }

    /// The total weight of the items at the positions `l..r`.
    pub fn sum(&self, l: usize, r: usize) -> (total: T)
        requires
            self.wf_weighted(),
            l <= r <= self@.len(),
        ensures
            total.value() == total_weight(self@.subrange(l as int, r as int)),
    {
        proof {
            lemma_level_len(self@, self.height as int, self.height as int);
            lemma_total_weight_subrange(self@, l as int, r as int);
        }
        self.cums[self.height][r].minus(self.cums[self.height][l])
    }
}

impl WaveletMatrix<u64> {
    /// Builds the matrix of the keys of `array`, each weighted by itself.
    pub fn from_weighted_own(array: &[u64], height: usize) -> (wm: Self)
        requires
            height <= 64,
            array.len() + 63 <= u32::MAX,
            forall|i: int| 0 <= i < array.len() ==> fits(#[trigger] array[i], height as int),
            total_weight(self_weighted(array@)) <= u64::MAX,
        ensures
            wm.wf_weighted(),
            wm.bit_width() == height,
            wm@ == self_weighted(array@),
    {
        let mut items: Vec<(u64, u64)> = Vec::new();
        let mut p: usize = 0;
        while p < array.len()
            invariant
                p <= array.len(),
                items@ == self_weighted(array@.take(p as int)),
            decreases array.len() - p,
        {
            items.push((array[p], array[p]));
            proof {
                assert(items@ =~= self_weighted(array@.take(p + 1)));
            }
            p += 1;
        }
        proof {
            assert(array@.take(array.len() as int) =~= array@);
        }
        Self::build(items, height)
    }
}

/// At most one key stands at a given position of the ascending order.
pub proof fn lemma_kth_smallest_unique<T>(s: Seq<(u64, T)>, k: int, a: u64, b: u64)
    requires
        is_kth_smallest(s, k, a),
        is_kth_smallest(s, k, b),
    ensures
        a == b,
{
    if a < b {
        assert forall|i: int| 0 <= i < s.len() && at_most::<T>(a)(#[trigger] s[i]) implies below::<T>(
            b,
        )(s[i]) by {}
        lemma_filter_len_monotone(s, at_most::<T>(a), below::<T>(b));
    } else if b < a {
        assert forall|i: int| 0 <= i < s.len() && at_most::<T>(b)(#[trigger] s[i]) implies below::<T>(
            a,
        )(s[i]) by {}
        lemma_filter_len_monotone(s, at_most::<T>(b), below::<T>(a));
    }
}

/// The key at a later position of the ascending order is not smaller: what
/// `quantile` returns does not decrease as `k` grows.
pub proof fn lemma_kth_smallest_monotone<T>(s: Seq<(u64, T)>, k1: int, k2: int, a: u64, b: u64)
    requires
        k1 <= k2,
        is_kth_smallest(s, k1, a),
        is_kth_smallest(s, k2, b),
    ensures
        a <= b,
{
    if b < a {
        assert forall|i: int| 0 <= i < s.len() && at_most::<T>(b)(#[trigger] s[i]) implies below::<T>(
            a,
        )(s[i]) by {}
        lemma_filter_len_monotone(s, at_most::<T>(b), below::<T>(a));
    }
}

/// Whether the keys of `s` ascend.
pub open spec fn ascending<T>(s: Seq<(u64, T)>) -> bool {
    forall|i: int, j: int| 0 <= i <= j < s.len() ==> s[i].0 <= s[j].0
}

/// Two sequences that hold the same elements, each as often as the other,
/// hold as many elements that pass a filter.
pub proof fn lemma_filter_len_rearranged<A>(a: Seq<A>, b: Seq<A>, f: spec_fn(A) -> bool)
    requires
        a.to_multiset() == b.to_multiset(),
    ensures
        a.filter(f).len() == b.filter(f).len(),
    decreases a.len(),
{
    broadcast use vstd::multiset::group_multiset_axioms;

    vstd::seq_lib::to_multiset_len(a);
    vstd::seq_lib::to_multiset_len(b);
    if a.len() == 0 {
        assert(a =~= b);
    } else {
        let x = a.last();
        let last = a.len() - 1;
        vstd::seq_lib::to_multiset_contains(a, x);
        vstd::seq_lib::to_multiset_contains(b, x);
        assert(a[last] == x);
        assert(a.contains(x));
        let i = choose|i: int| 0 <= i < b.len() && b[i] == x;
        vstd::seq_lib::to_multiset_remove(a, last);
        vstd::seq_lib::to_multiset_remove(b, i);
        assert(a.remove(last) =~= a.drop_last());
        lemma_filter_len_rearranged(a.drop_last(), b.remove(i), f);
        let one = seq![x];
        assert(a =~= a.drop_last() + one);
        assert(b =~= b.take(i) + one + b.skip(i + 1));
        assert(b.remove(i) =~= b.take(i) + b.skip(i + 1));
        Seq::filter_distributes_over_add(a.drop_last(), one, f);
        Seq::filter_distributes_over_add(b.take(i), one, f);
        Seq::filter_distributes_over_add(b.take(i) + one, b.skip(i + 1), f);
        Seq::filter_distributes_over_add(b.take(i), b.skip(i + 1), f);
    }
}

/// Where the items of `s` are put in the ascending order of their keys,
/// the key at the position `k` is the one that `quantile` returns for `k`.
pub proof fn lemma_kth_smallest_sorted<T>(s: Seq<(u64, T)>, sorted: Seq<(u64, T)>, k: int)
    requires
        sorted.to_multiset() == s.to_multiset(),
        ascending(sorted),
        0 <= k < s.len(),
    ensures
        k < sorted.len(),
        is_kth_smallest(s, k, sorted[k].0),
{
    vstd::seq_lib::to_multiset_len(s);
    vstd::seq_lib::to_multiset_len(sorted);
    let key = sorted[k].0;
    lemma_filter_len_rearranged(sorted, s, below::<T>(key));
    lemma_filter_len_rearranged(sorted, s, at_most::<T>(key));
    let head = sorted.take(k);
    let tail = sorted.skip(k);
    assert(sorted =~= head + tail);
    assert forall|i: int| 0 <= i < tail.len() implies !below::<T>(key)(#[trigger] tail[i]) by {
        assert(tail[i] == sorted[k + i]);
    }
    lemma_filter_none(tail, below::<T>(key));
    Seq::filter_distributes_over_add(head, tail, below::<T>(key));
    head.lemma_filter_len(below::<T>(key));
    let upto = sorted.take(k + 1);
    let rest = sorted.skip(k + 1);
    assert(sorted =~= upto + rest);
    assert forall|i: int| 0 <= i < upto.len() implies at_most::<T>(key)(#[trigger] upto[i]) by {
        assert(upto[i] == sorted[i]);
    }
    lemma_filter_all(upto, at_most::<T>(key));
    Seq::filter_distributes_over_add(upto, rest, at_most::<T>(key));
}

/// A larger bound is met by at least as many keys: what `range_freq` returns
/// does not decrease as `upper` grows.
pub proof fn lemma_count_below_monotone<T>(s: Seq<(u64, T)>, upper1: u64, upper2: u64)
    requires
        upper1 <= upper2,
    ensures
        s.filter(below::<T>(upper1)).len() <= s.filter(below::<T>(upper2)).len(),
{
    assert forall|i: int| 0 <= i < s.len() && below::<T>(upper1)(#[trigger] s[i]) implies below::<T>(
        upper2,
    )(s[i]) by {}
    lemma_filter_len_monotone(s, below::<T>(upper1), below::<T>(upper2));
}

/// No key is below zero, so the items below zero weigh nothing; and in a
/// matrix of fewer than 64 bits every key is below two to the power of the
/// number of bits, so the items below that bound weigh what the whole stretch
/// weighs: `range_sum` with that bound is `sum`.
pub proof fn lemma_sum_consistency<T: Weight>(wm: &WaveletMatrix<T>, l: int, r: int)
    requires
        wm.wf_weighted(),
        0 <= l <= r <= wm@.len(),
    ensures
        total_weight(wm@.subrange(l, r).filter(below::<T>(0))) == 0,
        wm.bit_width() < 64 ==> total_weight(
            wm@.subrange(l, r).filter(below::<T>(1u64 << (wm.bit_width() as u64))),
        ) == total_weight(wm@.subrange(l, r)),
{
    let stretch = wm@.subrange(l, r);
    lemma_filter_none(stretch, below::<T>(0));
    wm.lemma_wf_weighted();
    wm.lemma_wf();
    if wm.bit_width() < 64 {
        let bound = 1u64 << (wm.bit_width() as u64);
        assert forall|i: int| 0 <= i < stretch.len() implies below::<T>(bound)(
            #[trigger] stretch[i],
        ) by {
            assert(stretch[i] == wm@[l + i]);
        }
        lemma_filter_all(stretch, below::<T>(bound));
    }
}

} // verus!

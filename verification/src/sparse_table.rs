//! Products of stretches of a fixed sequence over a band, from a table of the
//! products of the stretches whose length is a power of two.

use vstd::prelude::*;
use vstd::arithmetic::power2::{pow2, lemma_pow2_unfold, lemma_pow2_pos, lemma2_to64};
use crate::algebra::Band;

verus! {

/// The product of the elements of a sequence that is not empty, from the
/// first to the last.
pub open spec fn band_product<B: Band>(s: Seq<B::S>) -> B::S
    decreases s.len(),
{
    if s.len() <= 1 {
        s[0]
    } else {
        B::op_spec(band_product::<B>(s.drop_last()), s.last())
    }
}

/// The product of a concatenation is the product of the products.
pub proof fn lemma_band_product_concat<B: Band>(a: Seq<B::S>, b: Seq<B::S>)
    requires
        a.len() > 0,
        b.len() > 0,
    ensures
        band_product::<B>(a + b) == B::op_spec(band_product::<B>(a), band_product::<B>(b)),
    decreases b.len(),
{
    assert((a + b).drop_last() =~= a + b.drop_last());
    assert((a + b).last() == b.last());
    if b.len() == 1 {
        assert(a + b.drop_last() =~= a);
    } else {
        lemma_band_product_concat::<B>(a, b.drop_last());
        B::lemma_associative(band_product::<B>(a), band_product::<B>(b.drop_last()), b.last());
    }
}

/// The product of a stretch is the product of the products of two stretches
/// that cover it, one from its start and one up to its end, even where they
/// overlap.
pub proof fn lemma_band_product_cover<B: Band>(s: Seq<B::S>, l: int, r: int, w: int)
    requires
        0 <= l < r <= s.len(),
        0 < w <= r - l <= 2 * w,
    ensures
        band_product::<B>(s.subrange(l, r)) == B::op_spec(
            band_product::<B>(s.subrange(l, l + w)),
            band_product::<B>(s.subrange(r - w, r)),
        ),
{
    let x = s.subrange(l, r - w);
    let y = s.subrange(r - w, l + w);
    let z = s.subrange(l + w, r);
    let px = band_product::<B>(x);
    let py = band_product::<B>(y);
    let pz = band_product::<B>(z);
    if r - l == w {
        assert(s.subrange(r - w, r) =~= s.subrange(l, r));
        assert(s.subrange(l, l + w) =~= s.subrange(l, r));
        B::lemma_idempotent(band_product::<B>(s.subrange(l, r)));
    } else if r - l == 2 * w {
        assert(s.subrange(l, r) =~= s.subrange(l, l + w) + s.subrange(r - w, r));
        lemma_band_product_concat::<B>(s.subrange(l, l + w), s.subrange(r - w, r));
    } else {
        assert(s.subrange(l, l + w) =~= x + y);
        assert(s.subrange(r - w, r) =~= y + z);
        assert(s.subrange(l, r) =~= (x + y) + z);
        lemma_band_product_concat::<B>(x, y);
        lemma_band_product_concat::<B>(y, z);
        lemma_band_product_concat::<B>(x + y, z);
        // (x y)(y z) = x (y y) z = x y z
        B::lemma_associative(B::op_spec(px, py), py, pz);
        B::lemma_associative(px, py, py);
        B::lemma_idempotent(py);
    }
}

proof fn lemma_row(h: int, rows: int, size: int)
    requires
        0 <= h < rows,
        0 <= size,
    ensures
        0 <= h * size,
        (h + 1) * size == h * size + size,
        (h + 1) * size <= rows * size,
{
    assert(0 <= h * size) by (nonlinear_arith)
        requires
            0 <= h,
            0 <= size,
    ;
    assert((h + 1) * size == h * size + size) by (nonlinear_arith);
    assert((h + 1) * size <= rows * size) by (nonlinear_arith)
        requires
            h + 1 <= rows,
            0 <= size,
    ;
}

/// A table of the products of the stretches of a sequence whose length is a
/// power of two. Its view is the sequence.
pub struct SparseTable<B: Band> {
    size: usize,
    height: usize,
    table: Vec<B::S>,
}

impl<B: Band> View for SparseTable<B> {
    type V = Seq<B::S>;

    closed spec fn view(&self) -> Seq<B::S> {
        self.table@.take(self.size as int)
    }
}

/// Whether the rows of `table` below `rows`, each of `size` entries, hold
/// the products of the stretches of `s`: entry `i` of row `h` is the product
/// of the `2^h` elements from place `i` on, where there are that many.
pub open spec fn holds_products<B: Band>(table: Seq<B::S>, s: Seq<B::S>, rows: int) -> bool {
    forall|h: int, i: int|
        0 <= h < rows && 0 <= i && i + pow2(h as nat) <= s.len() ==> #[trigger] table[h * s.len()
            + i] == band_product::<B>(s.subrange(i, i + pow2(h as nat)))
}

impl<B: Band> SparseTable<B> where B::S: Copy {
    /// The table has a row for every power of two below the length of the
    /// sequence, and its rows hold the products.
    pub closed spec fn wf(&self) -> bool {
        &&& self.height >= 1
        &&& self.table.len() == self.height * self.size
        &&& self@.len() == self.size
        &&& pow2(self.height as nat) >= self.size
        &&& holds_products::<B>(self.table@, self@, self.height as int)
    }

    /// Builds the table for `array`.
    pub fn from(array: &[B::S]) -> (st: Self)
        ensures
            st.wf(),
            st@ == array@,
    {
        let size = array.len();
        let mut table: Vec<B::S> = Vec::new();
        let mut i: usize = 0;
        while i < size
            invariant
                i <= size == array.len(),
                table@ == array@.take(i as int),
            decreases size - i,
        {
            table.push(array[i]);
            proof {
                assert(table@ =~= array@.take(i + 1));
            }
            i += 1;
        }
        proof {
            lemma2_to64();
            assert(array@.take(size as int) =~= array@);
            assert(table@.take(size as int) =~= array@);
            assert forall|h: int, i: int|
                0 <= h < 1 && 0 <= i && i + pow2(h as nat) <= size implies #[trigger] table[h * size
                + i] == band_product::<B>(array@.subrange(i, i + pow2(h as nat))) by {
                assert(array@.subrange(i, i + 1)[0] == array@[i]);
            }
        }
        let mut height: usize = 1;
        let mut half: usize = 1;
        let mut base: usize = 0;
        while half < size && half < size - half
            invariant
                size == array.len(),
                height >= 1,
                half == pow2((height - 1) as nat),
                base == (height - 1) * size,
                table.len() == height * size,
                table@.take(size as int) == array@,
                holds_products::<B>(table@, array@, height as int),
            decreases size - half,
        {
            let ghost rows = table@;
            let mut i: usize = 0;
            proof {
                lemma_pow2_unfold(height as nat);
                lemma_pow2_pos((height - 1) as nat);
                lemma_row(height - 1, height as int, size as int);
            }
            while i < size
                invariant
                    size == array.len(),
                    i <= size,
                    height >= 1,
                    1 <= half < size - half,
                    half == pow2((height - 1) as nat),
                    2 * half == pow2(height as nat),
                    base == (height - 1) * size,
                    base + size == height * size,
                    rows.len() == height * size,
                    table.len() == height * size + i,
                    table@.take(rows.len() as int) == rows,
                    rows.take(size as int) == array@,
                    holds_products::<B>(rows, array@, height as int),
                    forall|q: int|
                        0 <= q < i && q + 2 * half <= size ==> #[trigger] table[height * size + q]
                            == band_product::<B>(array@.subrange(q, q + 2 * half)),
                decreases size - i,
            {
                let ghost before = table@;
                if i <= size - half - half {
                    proof {
                        assert(table[(height - 1) * size + i] == rows[(height - 1) * size + i]);
                        assert(table[(height - 1) * size + (i + half)] == rows[(height - 1) * size
                            + (i + half)]);
                        lemma_band_product_cover::<B>(array@, i as int, i + 2 * half, half as int);
                    }
                    let x = B::op(&table[base + i], &table[base + i + half]);
                    table.push(x);
                } else {
                    table.push(array[i]);
                }
                proof {
                    assert(table@.take(rows.len() as int) =~= before.take(rows.len() as int));
                }
                i += 1;
            }
            proof {
                lemma_row(height as int, height + 1, size as int);
                assert(table@.take(size as int) =~= rows.take(size as int));
                assert forall|h: int, i: int|
                    0 <= h < height + 1 && 0 <= i && i + pow2(h as nat)
                        <= size implies #[trigger] table[h * size + i] == band_product::<B>(
                    array@.subrange(i, i + pow2(h as nat)),
                ) by {
                    lemma_pow2_pos(h as nat);
                    if h < height {
                        lemma_row(h, height as int, size as int);
                        assert(table[h * size + i] == rows[h * size + i]);
                    }
                }
                assert(height + 1 <= (height + 1) * size) by (nonlinear_arith)
                    requires
                        size >= 1,
                        height >= 0,
                ;
            }
            base += size;
            half = half + half;
            height += 1;
        }
        proof {
            lemma_pow2_unfold(height as nat);
        }
        Self { size, height, table }
    }

    /// The product of the elements at the places `l..r`.
    fn _prod(&self, l: usize, r: usize) -> (p: B::S)
        requires
            self.wf(),
            l < r <= self@.len(),
        ensures
            p == band_product::<B>(self@.subrange(l as int, r as int)),
    {
        let length: usize = r - l;
        let mut w: usize = 1;
        let mut h: usize = 0;
        let mut base: usize = 0;
        proof {
            lemma2_to64();
        }
        while w < length - w
            invariant
                self.wf(),
                length == r - l,
                l < r <= self.size,
                1 <= w <= length,
                w == pow2(h as nat),
                h < self.height,
                base == h * self.size,
            decreases length - w,
        {
            proof {
                lemma_pow2_unfold((h + 1) as nat);
                if h + 1 >= self.height {
                    if h + 1 > self.height {
                        vstd::arithmetic::power2::lemma_pow2_strictly_increases(
                            self.height as nat,
                            (h + 1) as nat,
                        );
                    }
                }
                lemma_row(h as int, self.height as int, self.size as int);
            }
            w = w + w;
            h += 1;
            base += self.size;
        }
        proof {
            lemma_row(h as int, self.height as int, self.size as int);
            lemma_band_product_cover::<B>(self@, l as int, r as int, w as int);
            assert(self.table[h * self.size + l] == band_product::<B>(
                self@.subrange(l as int, l + pow2(h as nat)),
            ));
            assert(self.table[h * self.size + (r - w)] == band_product::<B>(
                self@.subrange(r - w, r - w + pow2(h as nat)),
            ));
        }
        B::op(&self.table[base + l], &self.table[base + r - w])
    }

    /// The product of the elements at the places `left..right`.
    pub fn prod(&self, left: usize, right: usize) -> (p: B::S)
        requires
            self.wf(),
            left < right <= self@.len(),
        ensures
            p == band_product::<B>(self@.subrange(left as int, right as int)),
    {
        self._prod(left, right)
    }
}

} // verus!

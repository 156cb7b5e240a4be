//! A fixed bit sequence packed into 64-bit words, with constant-time rank.
//!
//! The words are kept as given; beside them stands a table of prefix
//! popcounts, one entry per word boundary. A rank query adds the table entry
//! of the word that holds the queried position to the popcount of that word's
//! low bits.

use vstd::prelude::*;

verus! {

/// Whether bit `k` of `word` is set. No bit stands at position 64 or above.
pub open spec fn bit_at(word: u64, k: int) -> bool {
    0 <= k < 64 && (word >> (k as u64)) & 1 == 1
}

/// The number of set bits of `word` at positions below `k`.
pub open spec fn ones_below(word: u64, k: int) -> nat
    decreases k,
{
    if k <= 0 {
        0
    } else {
        ones_below(word, k - 1) + if bit_at(word, k - 1) {
            1nat
        } else {
            0nat
        }
    }
}

/// `u64::count_ones` returns the number of ones in the binary representation
/// of its argument: the number of set bits at the positions 0 to 63.
pub assume_specification[ u64::count_ones ](word: u64) -> (n: u32)
    ensures
        n == ones_below(word, 64),
;

/// The flat bit sequence that a sequence of words stands for: bit `p` is bit
/// `p % 64` of word `p / 64`.
pub open spec fn bits_of(words: Seq<u64>) -> Seq<bool> {
    Seq::new((64 * words.len()) as nat, |p: int| bit_at(words[p / 64], p % 64))
}

/// The number of positions below `end` at which `bits` holds the value `b`.
pub open spec fn rank_of(bits: Seq<bool>, end: int, b: bool) -> nat
    decreases end,
{
    if end <= 0 {
        0
    } else {
        rank_of(bits, end - 1, b) + if bits[end - 1] == b {
            1nat
        } else {
            0nat
        }
    }
}

/// Every position below `end` holds either `true` or `false`, so the two
/// ranks of a prefix add up to its length.
pub proof fn lemma_rank_complement(bits: Seq<bool>, end: int)
    requires
        0 <= end,
    ensures
        rank_of(bits, end, true) + rank_of(bits, end, false) == end,
    decreases end,
{
    if end > 0 {
        lemma_rank_complement(bits, end - 1);
    }
}

/// A rank never exceeds the length of the prefix it counts in, and grows with
/// that prefix.
pub proof fn lemma_rank_monotone(bits: Seq<bool>, lo: int, hi: int, b: bool)
    requires
        0 <= lo <= hi,
    ensures
        rank_of(bits, lo, b) <= rank_of(bits, hi, b),
        rank_of(bits, hi, b) - rank_of(bits, lo, b) <= hi - lo,
    decreases hi - lo,
{
    if lo < hi {
        lemma_rank_monotone(bits, lo, hi - 1, b);
    }
}

/// The rank of a prefix depends on the bits of that prefix only.
pub proof fn lemma_rank_prefix(a: Seq<bool>, b: Seq<bool>, end: int, v: bool)
    requires
        0 <= end,
        forall|p: int| 0 <= p < end ==> a[p] == b[p],
    ensures
        rank_of(a, end, v) == rank_of(b, end, v),
    decreases end,
{
    if end > 0 {
        lemma_rank_prefix(a, b, end - 1, v);
    }
}

/// The ones among the first `k` bits of word `w` are what the rank gains
/// between the start of that word and position `64 * w + k`.
proof fn lemma_rank_in_word(words: Seq<u64>, w: int, k: int)
    requires
        0 <= w < words.len(),
        0 <= k <= 64,
    ensures
        rank_of(bits_of(words), 64 * w + k, true) == rank_of(bits_of(words), 64 * w, true)
            + ones_below(words[w], k),
    decreases k,
{
    if k > 0 {
        lemma_rank_in_word(words, w, k - 1);
        let p = 64 * w + k - 1;
        assert(p / 64 == w && p % 64 == k - 1);
        assert(bits_of(words)[p] == bit_at(words[w], k - 1));
    }
}

/// Masking a word to its low `k` bits keeps the bits below `k` and clears
/// the others.
proof fn lemma_masked_bit(word: u64, mask: u64, k: u64, q: u64)
    requires
        0 < k < 64,
        q < 64,
        mask == (1u64 << k) - 1,
    ensures
        bit_at(word & mask, q as int) == (q < k && bit_at(word, q as int)),
{
    assert(((word & mask) >> q) & 1 == (if q < k {
        (word >> q) & 1
    } else {
        0
    })) by (bit_vector)
        requires
            0 < k < 64,
            q < 64,
            mask == (1u64 << k) - 1,
    ;
}

proof fn lemma_masked_ones_upto(word: u64, mask: u64, k: u64, j: int)
    requires
        0 < k < 64,
        0 <= j <= 64,
        mask == (1u64 << k) - 1,
    ensures
        ones_below(word & mask, j) == ones_below(
            word,
            if j < k {
                j
            } else {
                k as int
            },
        ),
    decreases j,
{
    if j > 0 {
        lemma_masked_ones_upto(word, mask, k, j - 1);
        lemma_masked_bit(word, mask, k, (j - 1) as u64);
    }
}

/// A bit sequence of fixed length with a table of prefix popcounts.
pub struct BitVector {
    row: Vec<u64>,
    cs: Vec<u32>,
}

impl View for BitVector {
    type V = Seq<bool>;

    /// The bits, in order of position.
    closed spec fn view(&self) -> Seq<bool> {
        bits_of(self.row@)
    }
}

impl BitVector {
    /// The popcount table has one entry per word boundary, and entry `w` is
    /// the number of ones in the words before word `w`.
    pub closed spec fn wf(&self) -> bool {
        &&& 64 * self.row.len() <= u32::MAX
        &&& self.cs.len() == self.row.len() + 1
        &&& forall|w: int|
            0 <= w <= self.row.len() ==> #[trigger] self.cs[w] == rank_of(self@, 64 * w, true)
    }

    /// Builds the bit vector that holds the bits of `array`, word after word,
    /// each word from its least significant bit up.
    pub fn from(array: &[u64]) -> (bv: Self)
        requires
            64 * array.len() <= u32::MAX,
        ensures
            bv.wf(),
            bv@ == bits_of(array@),
    {
        let mut cs: Vec<u32> = Vec::new();
        let mut row: Vec<u64> = Vec::new();
        cs.push(0);
        let mut i: usize = 0;
        while i < array.len()
            invariant
                i <= array.len(),
                64 * array.len() <= u32::MAX,
                row@ == array@.take(i as int),
                cs.len() == i + 1,
                forall|w: int|
                    0 <= w <= i ==> #[trigger] cs[w] == rank_of(bits_of(array@), 64 * w, true),
            decreases array.len() - i,
        {
            let a: u64 = array[i];
            proof {
                lemma_rank_in_word(array@, i as int, 64);
                lemma_rank_monotone(bits_of(array@), 0, 64 * (i + 1), true);
            }
            cs.push(cs[i] + a.count_ones());
            row.push(a);
            proof {
                assert(array@.take(i + 1) =~= array@.take(i as int).push(a));
            }
            i += 1;
        }
        proof {
            assert(array@.take(array.len() as int) =~= array@);
        }
        Self { row, cs }
    }

    /// The number of bits.
    pub fn len(&self) -> (n: usize)
        requires
            self.wf(),
        ensures
            n == self@.len(),
    {
        self.row.len() * 64
    }

    /// The bit at position `i`.
    pub fn access(&self, i: usize) -> (b: bool)
        requires
            i < self@.len(),
        ensures
            b == self@[i as int],
    {
        (self.row[i / 64] >> ((i % 64) as u64)) & 1 == 1
    }

    /// The number of positions in `0..=i` that hold the bit `b`. The count
    /// includes position `i` itself.
    pub fn rank(&self, i: usize, b: bool) -> (r: u32)
        requires
            self.wf(),
            i < self@.len(),
        ensures
            r == rank_of(self@, i + 1, b),
    {
        let w: usize = i / 64;
        let k: usize = i % 64;
        let ones: u32 = if k == 63 {
            self.cs[w + 1]
        } else {
            let c: u32 = self.cs[w];
            let shift: u64 = (k + 1) as u64;
            assert(1u64 << shift >= 1) by (bit_vector)
                requires
                    shift < 64,
            ;
            let mask: u64 = (1u64 << shift) - 1;
            let dc: u32 = (self.row[w] & mask).count_ones();
            proof {
                lemma_masked_ones_upto(self.row[w as int], mask, shift, 64);
                lemma_rank_in_word(self.row@, w as int, k + 1);
                lemma_rank_monotone(self@, 0, i + 1, true);
            }
            c + dc
        };
        proof {
            lemma_rank_complement(self@, i + 1);
        }
        if b {
            ones
        } else {
            i as u32 + 1 - ones
        }
    }
}

} // verus!

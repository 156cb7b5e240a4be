//! A set of the numbers below a fixed bound, kept as a tree of bit words
//! with 64 branches at each node: insertion, removal, membership, and the
//! nearest element at or after, or at or before, a number.
//!
//! Level 0 of the tree holds one bit for each number. Each level above
//! holds one bit for each word of the level below: whether that word has a
//! bit set.

use vstd::prelude::*;
use vstd::std_specs::bits::{
    u64_trailing_zeros,
    u64_leading_zeros,
    axiom_u64_trailing_zeros,
    axiom_u64_leading_zeros,
};
use crate::bit_vector::bit_at;

verus! {

/// The number of bits of level `h` of the tree of a set of numbers below
/// `size`.
pub open spec fn level_size(size: int, h: int) -> int
    decreases h,
{
    if h <= 0 {
        size
    } else {
        (level_size(size, h - 1) + 63) / 64
    }
}

/// The bit of level `h` that stands for the number `e`.
pub open spec fn up(e: int, h: int) -> int
    decreases h,
{
    if h <= 0 {
        e
    } else {
        up(e, h - 1) / 64
    }
}

/// No level has a negative number of bits, and each has no more bits than
/// the level below.
proof fn lemma_level_size(size: int, h: int)
    requires
        0 <= size,
        0 <= h,
    ensures
        0 <= level_size(size, h),
        level_size(size, h + 1) <= level_size(size, h) || level_size(size, h) == 0,
        level_size(size, h + 1) == (level_size(size, h) + 63) / 64,
        level_size(size, h) <= size,
    decreases h,
{
    if h > 0 {
        lemma_level_size(size, h - 1);
    }
}

/// The bit that stands for a number of the set lies in its level, and the
/// bits that stand for two numbers stand in the order of the numbers.
proof fn lemma_up(size: int, e: int, f: int, h: int)
    requires
        0 <= e <= f < size,
        0 <= h,
    ensures
        0 <= up(e, h) <= up(f, h) < level_size(size, h),
    decreases h,
{
    if h > 0 {
        lemma_up(size, e, f, h - 1);
    }
}

/// What the bits of a word shifted to the right are.
proof fn lemma_shifted_right(word: u64, k: u64, j: u64)
    by (bit_vector)
    requires
        k < 64,
        j < 64,
    ensures
        ((word >> k) >> j) & 1 == 1 <==> (k + j < 64 && (word >> ((k + j) as u64)) & 1 == 1),
{
}

/// What the bits of a word shifted to the left are.
proof fn lemma_shifted_left(word: u64, k: u64, j: u64)
    by (bit_vector)
    requires
        k < 64,
        j < 64,
    ensures
        ((word << k) >> j) & 1 == 1 <==> (j >= k && (word >> ((j - k) as u64)) & 1 == 1),
{
}

/// A word with a bit set is not zero; setting a bit sets that bit and
/// keeps the others; and clearing a bit and putting `x`, zero or one, in
/// its place makes that bit `x` and keeps the others.
proof fn lemma_word_bits(word: u64, k: u64, j: u64, x: u64)
    by (bit_vector)
    requires
        k < 64,
        j < 64,
        x <= 1,
    ensures
        (word >> j) & 1 == 1 ==> word != 0,
        ((word | (1u64 << k)) >> j) & 1 == 1 <==> (j == k || (word >> j) & 1 == 1),
        (((word & !(1u64 << k)) | (x << k)) >> j) & 1 == 1 <==> (if j == k {
            x == 1
        } else {
            (word >> j) & 1 == 1
        }),
        (0u64 >> j) & 1 == 0,
        (word >> j) & 1 != 0 ==> (word >> j) & 1 == 1,
{
}

/// A set of numbers below a fixed bound. Its view tells for each number
/// below the bound whether it is in the set.
pub struct FastSet {
    tree: Vec<u64>,
    ptr: Vec<u32>,
    size: usize,
    height: usize,
}

impl View for FastSet {
    type V = Seq<bool>;

    closed spec fn view(&self) -> Seq<bool> {
        Seq::new(self.size as nat, |e: int| level_bit(self.tree@, self.ptr@, 0, e))
    }
}

/// The bit `p` of level `h`.
pub open spec fn level_bit(tree: Seq<u64>, ptr: Seq<u32>, h: int, p: int) -> bool {
    bit_at(tree[ptr[h] + p / 64], p % 64)
}

/// Whether the words are laid out level after level, the top level has at
/// most one word, and no bit is set beyond the bits of its level.
pub open spec fn laid_out(tree: Seq<u64>, ptr: Seq<u32>, size: int, height: int) -> bool {
    &&& height >= 1
    &&& ptr.len() == height + 1
    &&& ptr[0] == 0
    &&& tree.len() == ptr[height]
    &&& level_size(size, height) <= 1
    &&& forall|h: int|
        0 <= h < height ==> #[trigger] ptr[h + 1] == ptr[h] + level_size(size, h + 1)
    &&& forall|h: int, p: int|
        0 <= h < height && 0 <= p < 64 * level_size(size, h + 1) && #[trigger] level_bit(
            tree,
            ptr,
            h,
            p,
        ) ==> p < level_size(size, h)
}

/// Whether each bit of a level above level 0, the bit `p` of level `hole`
/// aside, tells whether its word of the level below has a bit set.
pub open spec fn summarised(tree: Seq<u64>, ptr: Seq<u32>, size: int, height: int, hole: int, p: int) -> bool {
    forall|h: int, q: int|
        1 <= h < height && 0 <= q < level_size(size, h) && !(h == hole && q == p) ==> (
        #[trigger] level_bit(tree, ptr, h, q) <==> tree[ptr[h - 1] + q] != 0)
}

/// The levels start one after the other, in ascending order, inside the
/// words.
proof fn lemma_layout(tree: Seq<u64>, ptr: Seq<u32>, size: int, height: int, h: int)
    requires
        0 <= size,
        laid_out(tree, ptr, size, height),
        0 <= h < height,
    ensures
        0 <= ptr[h],
        ptr[h + 1] == ptr[h] + level_size(size, h + 1),
        ptr[h + 1] <= tree.len(),
        0 <= level_size(size, h + 1),
    decreases height - h,
{
    lemma_level_size(size, h);
    lemma_level_size(size, h + 1);
    assert(ptr[h + 1] == ptr[h] + level_size(size, h + 1));
    if h + 1 < height {
        lemma_layout(tree, ptr, size, height, h + 1);
    }
}

impl FastSet {
    /// The bound of the numbers of the set.
    pub closed spec fn bound(&self) -> nat {
        self.size as nat
    }

    /// The words are laid out level after level, and each bit above level
    /// 0 tells whether its word of the level below has a bit set.
    pub closed spec fn wf(&self) -> bool {
        &&& laid_out(self.tree@, self.ptr@, self.size as int, self.height as int)
        &&& summarised(self.tree@, self.ptr@, self.size as int, self.height as int, 0, 0)
    }

    /// What `wf` says of the view.
    pub proof fn lemma_wf(&self)
        requires
            self.wf(),
        ensures
            self@.len() == self.bound(),
    {
    }

    /// The empty set of numbers below `size`.
    pub fn new(size: usize) -> (set: Self)
        requires
            size + 64 <= u32::MAX,
        ensures
            set.wf(),
            set.bound() == size,
            forall|e: int| 0 <= e < size ==> !#[trigger] set@[e],
    {
        let origin_size = size;
        let mut cur: usize = size;
        let mut length: usize = 0;
        let mut ptr: Vec<u32> = Vec::new();
        ptr.push(0);
        let mut started: bool = false;
        loop
            invariant_except_break
                !started || cur > 1,
            invariant
                origin_size == size,
                size + 64 <= u32::MAX,
                cur <= size,
                !started ==> length == 0 && cur == size,
                ptr.len() >= 1,
                ptr[0] == 0,
                cur == level_size(size as int, ptr.len() - 1),
                length == ptr[ptr.len() - 1],
                started ==> ptr.len() >= 2,
                length + cur <= size + 2,
                forall|h: int|
                    0 <= h < ptr.len() - 1 ==> #[trigger] ptr[h + 1] == ptr[h] + level_size(
                        size as int,
                        h + 1,
                    ),
            ensures
                ptr.len() >= 2,
                cur <= 1,
            decreases
                    if started {
                        cur as int
                    } else {
                        size as int + 2
                    },
        {
            proof {
                lemma_level_size(size as int, ptr.len() - 1);
            }
            let nxt: usize = (cur + 63) / 64;
            length += nxt;
            ptr.push(length as u32);
            cur = nxt;
            started = true;
            if cur <= 1 {
                break;
            }
        }
        let mut tree: Vec<u64> = Vec::new();
        let mut i: usize = 0;
        while i < length
            invariant
                i <= length,
                tree.len() == i,
                forall|k: int| 0 <= k < i ==> #[trigger] tree[k] == 0,
            decreases length - i,
        {
            tree.push(0);
            i += 1;
        }
        let height: usize = ptr.len() - 1;
        let set = Self { tree, ptr, size: origin_size, height };
        proof {
            lemma_all_clear(set.tree@, set.ptr@, size as int, height as int);
        }
        set
    }

    /// Whether `i` is in the set.
    pub fn contains(&self, i: usize) -> (b: bool)
        requires
            self.wf(),
            i < self.bound(),
        ensures
            b == self@[i as int],
    {
        proof {
            lemma_layout(self.tree@, self.ptr@, self.size as int, self.height as int, 0);
            lemma_level_size(self.size as int, 0);
        }
        ((self.tree[i / 64] >> ((i % 64) as u64)) & 1) == 1
    }
}

/// Where every word is zero, the words are a set, the empty one.
proof fn lemma_all_clear(tree: Seq<u64>, ptr: Seq<u32>, size: int, height: int)
    requires
        0 <= size,
        height >= 1,
        ptr.len() == height + 1,
        ptr[0] == 0,
        tree.len() == ptr[height],
        level_size(size, height) <= 1,
        forall|h: int|
            0 <= h < height ==> #[trigger] ptr[h + 1] == ptr[h] + level_size(size, h + 1),
        forall|k: int| 0 <= k < tree.len() ==> #[trigger] tree[k] == 0,
    ensures
        laid_out(tree, ptr, size, height),
        summarised(tree, ptr, size, height, 0, 0),
        forall|e: int| 0 <= e < size ==> !level_bit(tree, ptr, 0, e),
{
    assert forall|h: int, p: int|
        0 <= h < height && 0 <= p < 64 * level_size(size, h + 1) implies !#[trigger] level_bit(
        tree,
        ptr,
        h,
        p,
    ) by {
        lemma_clear_word(tree, ptr, size, height, h, p);
    }
    assert forall|h: int, q: int|
        1 <= h < height && 0 <= q < level_size(size, h) implies (#[trigger] level_bit(
        tree,
        ptr,
        h,
        q,
    ) <==> tree[ptr[h - 1] + q] != 0) by {
        lemma_level_size(size, h);
        lemma_clear_word(tree, ptr, size, height, h, q);
        lemma_starts(ptr, size, height, h - 1);
        lemma_starts(ptr, size, height, h);
    }
    assert forall|e: int| 0 <= e < size implies !level_bit(tree, ptr, 0, e) by {
        lemma_level_size(size, 0);
        lemma_clear_word(tree, ptr, size, height, 0, e);
    }
}

/// The levels start in ascending order.
proof fn lemma_starts(ptr: Seq<u32>, size: int, height: int, h: int)
    requires
        0 <= size,
        0 <= h < height,
        ptr.len() == height + 1,
        forall|h: int|
            0 <= h < height ==> #[trigger] ptr[h + 1] == ptr[h] + level_size(size, h + 1),
    ensures
        ptr[h + 1] == ptr[h] + level_size(size, h + 1),
        ptr[h + 1] <= ptr[height],
        0 <= level_size(size, h + 1),
    decreases height - h,
{
    lemma_level_size(size, h + 1);
    assert(ptr[h + 1] == ptr[h] + level_size(size, h + 1));
    if h + 1 < height {
        lemma_starts(ptr, size, height, h + 1);
    }
}

/// A bit of a word that is zero is not set.
proof fn lemma_clear_word(tree: Seq<u64>, ptr: Seq<u32>, size: int, height: int, h: int, p: int)
    requires
        0 <= size,
        0 <= h < height,
        ptr.len() == height + 1,
        tree.len() == ptr[height],
        forall|h: int|
            0 <= h < height ==> #[trigger] ptr[h + 1] == ptr[h] + level_size(size, h + 1),
        forall|k: int| 0 <= k < tree.len() ==> #[trigger] tree[k] == 0,
        0 <= p < 64 * level_size(size, h + 1),
    ensures
        !level_bit(tree, ptr, h, p),
{
    lemma_starts(ptr, size, height, h);
    assert(tree[ptr[h] + p / 64] == 0);
    lemma_word_bits(0, 0, (p % 64) as u64, 0);
}

/// The word that holds the bit `p` of level `h` lies in the words of its
/// level, and no bit of another word lies in it.
proof fn lemma_word_place(
    tree: Seq<u64>,
    ptr: Seq<u32>,
    size: int,
    height: int,
    h: int,
    p: int,
    g: int,
    q: int,
)
    requires
        0 <= size,
        laid_out(tree, ptr, size, height),
        0 <= h < height,
        0 <= p < 64 * level_size(size, h + 1),
        0 <= g < height,
        0 <= q < 64 * level_size(size, g + 1),
    ensures
        0 <= ptr[h] + p / 64 < tree.len(),
        ptr[g] + q / 64 == ptr[h] + p / 64 <==> (g == h && q / 64 == p / 64),
{
    lemma_layout(tree, ptr, size, height, h);
    lemma_layout(tree, ptr, size, height, g);
    if g < h {
        lemma_starts_ordered(tree, ptr, size, height, g + 1, h);
    } else if h < g {
        lemma_starts_ordered(tree, ptr, size, height, h + 1, g);
    }
}

/// A higher level starts no earlier than a lower level.
proof fn lemma_starts_ordered(tree: Seq<u64>, ptr: Seq<u32>, size: int, height: int, a: int, b: int)
    requires
        0 <= size,
        laid_out(tree, ptr, size, height),
        0 <= a <= b <= height,
    ensures
        ptr[a] <= ptr[b],
    decreases b - a,
{
    if a < b {
        lemma_layout(tree, ptr, size, height, b - 1);
        lemma_starts_ordered(tree, ptr, size, height, a, b - 1);
    }
}

/// The bits of a level are the bits of its words, and a bit of a level
/// above level 0 stands for a word of the level below.
proof fn lemma_bit_range(size: int, h: int, p: int)
    requires
        0 <= size,
        0 <= h,
        0 <= p < level_size(size, h),
    ensures
        0 <= p / 64 < level_size(size, h + 1),
        p < 64 * level_size(size, h + 1),
        0 <= p % 64 < 64,
{
    lemma_level_size(size, h);
}

/// Whether `e` is in the set `before` with `i` put in or taken out, as
/// `value` says, if that is done.
pub open spec fn member_after(before: Seq<bool>, i: int, value: bool, done: bool, e: int) -> bool {
    if done && e == i {
        value
    } else {
        before[e]
    }
}

/// The bit `q` of level `g` after `x`, zero or one, is put in the place of
/// the bit `p` of level `h`.
pub open spec fn put_bit(tree: Seq<u64>, ptr: Seq<u32>, h: int, p: int, x: u64, g: int, q: int) -> bool {
    if g == h && q == p {
        x == 1
    } else {
        level_bit(tree, ptr, g, q)
    }
}

/// What the bit `q` of level `g` is after a word is put in the place of
/// the word that holds the bit `p` of level `h`.
proof fn lemma_put_one(
    tree0: Seq<u64>,
    ptr: Seq<u32>,
    size: int,
    height: int,
    h: int,
    p: int,
    x: u64,
    word: u64,
    g: int,
    q: int,
)
    requires
        0 <= size,
        laid_out(tree0, ptr, size, height),
        0 <= h < height,
        0 <= p < level_size(size, h),
        forall|j: int|
            0 <= j < 64 ==> (#[trigger] bit_at(word, j) <==> (if j == p % 64 {
                x == 1
            } else {
                bit_at(tree0[ptr[h] + p / 64], j)
            })),
        0 <= g < height,
        0 <= q < 64 * level_size(size, g + 1),
    ensures
        level_bit(tree0.update(ptr[h] + p / 64, word), ptr, g, q) == put_bit(
            tree0,
            ptr,
            h,
            p,
            x,
            g,
            q,
        ),
{
    let at = ptr[h] + p / 64;
    let tree1 = tree0.update(at, word);
    lemma_bit_range(size, h, p);
    lemma_word_place(tree0, ptr, size, height, h, p, g, q);
    lemma_word_place(tree0, ptr, size, height, g, q, h, p);
    let idx = ptr[g] + q / 64;
    if g == h && q / 64 == p / 64 {
        assert(tree1[idx] == word);
        assert(bit_at(word, q % 64) <==> (if q % 64 == p % 64 {
            x == 1
        } else {
            bit_at(tree0[at], q % 64)
        }));
        assert((q % 64 == p % 64) <==> q == p);
    } else {
        assert(tree1[idx] == tree0[idx]);
    }
}

/// Putting `x`, zero or one, in the place of the bit `p` of level `h`,
/// where every bit above level 0 but that one tells whether its word has a
/// bit set, and `x` tells it of that one: then every bit but the one above
/// the changed word tells it, and the bits are as they were but for the
/// one that was put.
proof fn lemma_put(
    tree0: Seq<u64>,
    ptr: Seq<u32>,
    size: int,
    height: int,
    h: int,
    p: int,
    x: u64,
    word: u64,
)
    requires
        0 <= size,
        laid_out(tree0, ptr, size, height),
        summarised(tree0, ptr, size, height, h, p),
        0 <= h < height,
        0 <= p < level_size(size, h),
        x <= 1,
        h >= 1 ==> (x == 1 <==> tree0[ptr[h - 1] + p] != 0),
        forall|j: int|
            0 <= j < 64 ==> (#[trigger] bit_at(word, j) <==> (if j == p % 64 {
                x == 1
            } else {
                bit_at(tree0[ptr[h] + p / 64], j)
            })),
    ensures
        laid_out(tree0.update(ptr[h] + p / 64, word), ptr, size, height),
        summarised(tree0.update(ptr[h] + p / 64, word), ptr, size, height, h + 1, p / 64),
        forall|g: int, q: int|
            0 <= g < height && 0 <= q < 64 * level_size(size, g + 1) ==> #[trigger] level_bit(
                tree0.update(ptr[h] + p / 64, word),
                ptr,
                g,
                q,
            ) == put_bit(tree0, ptr, h, p, x, g, q),
{
    let at = ptr[h] + p / 64;
    let tree1 = tree0.update(at, word);
    lemma_bit_range(size, h, p);
    lemma_word_place(tree0, ptr, size, height, h, p, h, p);
    assert forall|g: int, q: int|
        0 <= g < height && 0 <= q < 64 * level_size(size, g + 1) implies #[trigger] level_bit(
        tree1,
        ptr,
        g,
        q,
    ) == put_bit(tree0, ptr, h, p, x, g, q) by {
        lemma_put_one(tree0, ptr, size, height, h, p, x, word, g, q);
    }
    assert forall|g: int, q: int|
        0 <= g < height && 0 <= q < 64 * level_size(size, g + 1) && #[trigger] level_bit(
            tree1,
            ptr,
            g,
            q,
        ) implies q < level_size(size, g) by {
        if !(g == h && q == p) {
            assert(level_bit(tree0, ptr, g, q));
        }
    }
    assert forall|g: int, q: int|
        1 <= g < height && 0 <= q < level_size(size, g) && !(g == h + 1 && q == p / 64) implies (
    #[trigger] level_bit(tree1, ptr, g, q) <==> tree1[ptr[g - 1] + q] != 0) by {
        lemma_bit_range(size, g, q);
        lemma_level_size(size, g - 1);
        lemma_word_place(tree0, ptr, size, height, h, p, g - 1, 64 * q);
        lemma_layout(tree0, ptr, size, height, g - 1);
        assert(tree1[ptr[g - 1] + q] == tree0[ptr[g - 1] + q]);
        if g == h && q == p {
        } else {
            assert(level_bit(tree0, ptr, g, q) <==> tree0[ptr[g - 1] + q] != 0);
        }
    }
}

impl FastSet {
    /// Puts `i` in the set.
    pub fn insert(&mut self, i: usize)
        requires
            old(self).wf(),
            i < old(self).bound(),
        ensures
            final(self).wf(),
            final(self).bound() == old(self).bound(),
            final(self)@ == old(self)@.update(i as int, true),
    {
        let ghost before = self@;
        let ghost size = self.size as int;
        let ghost height = self.height as int;
        let mut pos: usize = i;
        let mut h: usize = 0;
        while h < self.height
            invariant
                size == self.size,
                height == self.height,
                self.ptr@ == old(self).ptr@,
                i < size,
                h <= height,
                before.len() == size,
                laid_out(self.tree@, self.ptr@, size, height),
                summarised(self.tree@, self.ptr@, size, height, h as int, pos as int),
                pos == up(i as int, h as int),
                h >= 1 && h < height ==> self.tree[self.ptr[h - 1] + pos] != 0,
                forall|e: int|
                    0 <= e < size ==> #[trigger] level_bit(self.tree@, self.ptr@, 0, e) == member_after(
                        before,
                        i as int,
                        true,
                        h >= 1,
                        e,
                    ),
            decreases height - h,
        {
            let ghost tree0 = self.tree@;
            proof {
                lemma_up(size, i as int, i as int, h as int);
                lemma_up(size, i as int, i as int, h + 1);
                lemma_bit_range(size, h as int, pos as int);
                lemma_word_place(tree0, self.ptr@, size, height, h as int, pos as int, h as int, pos as int);
            }
            let at: usize = self.ptr[h] as usize + pos / 64;
            let k: u64 = (pos % 64) as u64;
            let word: u64 = self.tree[at] | (1u64 << k);
            proof {
                assert forall|j: int| 0 <= j < 64 implies (#[trigger] bit_at(word, j) <==> (if j == pos
                    % 64 {
                    1u64 == 1
                } else {
                    bit_at(tree0[at as int], j)
                })) by {
                    lemma_word_bits(tree0[at as int], k, j as u64, 1);
                }
                lemma_put(tree0, self.ptr@, size, height, h as int, pos as int, 1, word);
                lemma_word_bits(word, 0, k, 0);
                assert(bit_at(word, k as int));
            }
            self.tree[at] = word;
            proof {
                assert(self.tree@ == tree0.update(at as int, word));
                assert forall|e: int| 0 <= e < size implies #[trigger] level_bit(
                    self.tree@,
                    self.ptr@,
                    0,
                    e,
                ) == member_after(before, i as int, true, true, e) by {
                    lemma_bit_range(size, 0, e);
                    assert(level_bit(tree0, self.ptr@, 0, e) == member_after(
                        before,
                        i as int,
                        true,
                        h >= 1,
                        e,
                    ));
                    assert(level_bit(self.tree@, self.ptr@, 0, e) == put_bit(
                        tree0,
                        self.ptr@,
                        h as int,
                        pos as int,
                        1,
                        0,
                        e,
                    ));
                }
            }
            pos = pos / 64;
            h += 1;
        }
        proof {
            assert(self@ =~= before.update(i as int, true));
        }
    }

    /// Takes `i` out of the set.
    pub fn remove(&mut self, i: usize)
        requires
            old(self).wf(),
            i < old(self).bound(),
        ensures
            final(self).wf(),
            final(self).bound() == old(self).bound(),
            final(self)@ == old(self)@.update(i as int, false),
    {
        let ghost before = self@;
        let ghost size = self.size as int;
        let ghost height = self.height as int;
        let mut pos: usize = i;
        let mut x: u64 = 0;
        let mut h: usize = 0;
        while h < self.height
            invariant
                size == self.size,
                height == self.height,
                self.ptr@ == old(self).ptr@,
                i < size,
                h <= height,
                x <= 1,
                before.len() == size,
                laid_out(self.tree@, self.ptr@, size, height),
                summarised(self.tree@, self.ptr@, size, height, h as int, pos as int),
                pos == up(i as int, h as int),
                h == 0 ==> x == 0,
                h >= 1 && h < height ==> (x == 1 <==> self.tree[self.ptr[h - 1] + pos] != 0),
                forall|e: int|
                    0 <= e < size ==> #[trigger] level_bit(self.tree@, self.ptr@, 0, e) == member_after(
                        before,
                        i as int,
                        false,
                        h >= 1,
                        e,
                    ),
            decreases height - h,
        {
            let ghost tree0 = self.tree@;
            proof {
                lemma_up(size, i as int, i as int, h as int);
                lemma_up(size, i as int, i as int, h + 1);
                lemma_bit_range(size, h as int, pos as int);
                lemma_word_place(tree0, self.ptr@, size, height, h as int, pos as int, h as int, pos as int);
            }
            let at: usize = self.ptr[h] as usize + pos / 64;
            let k: u64 = (pos % 64) as u64;
            let word: u64 = (self.tree[at] & !(1u64 << k)) | (x << k);
            proof {
                assert forall|j: int| 0 <= j < 64 implies (#[trigger] bit_at(word, j) <==> (if j == pos
                    % 64 {
                    x == 1
                } else {
                    bit_at(tree0[at as int], j)
                })) by {
                    lemma_word_bits(tree0[at as int], k, j as u64, x);
                }
                lemma_put(tree0, self.ptr@, size, height, h as int, pos as int, x, word);
            }
            let ghost x_before = x;
            self.tree[at] = word;
            x = if self.tree[at] != 0 {
                1
            } else {
                0
            };
            proof {
                assert(self.tree@ == tree0.update(at as int, word));
                assert forall|e: int| 0 <= e < size implies #[trigger] level_bit(
                    self.tree@,
                    self.ptr@,
                    0,
                    e,
                ) == member_after(before, i as int, false, true, e) by {
                    lemma_bit_range(size, 0, e);
                    assert(level_bit(tree0, self.ptr@, 0, e) == member_after(
                        before,
                        i as int,
                        false,
                        h >= 1,
                        e,
                    ));
                    assert(level_bit(self.tree@, self.ptr@, 0, e) == put_bit(
                        tree0,
                        self.ptr@,
                        h as int,
                        pos as int,
                        x_before,
                        0,
                        e,
                    ));
                }
            }
            pos = pos / 64;
            h += 1;
        }
        proof {
            assert(self@ =~= before.update(i as int, false));
        }
    }
}

/// The lowest bit that is set in a word that is not zero.
proof fn lemma_first_bit(word: u64)
    requires
        word != 0,
    ensures
        0 <= u64_trailing_zeros(word) < 64,
        bit_at(word, u64_trailing_zeros(word) as int),
        forall|j: int| 0 <= j < u64_trailing_zeros(word) ==> !#[trigger] bit_at(word, j),
{
    axiom_u64_trailing_zeros(word);
    assert forall|j: int| 0 <= j < u64_trailing_zeros(word) implies !#[trigger] bit_at(word, j) by {
        let k = j as u64;
        assert((word >> k) & 1u64 == 0u64);
    }
}

/// The highest bit that is set in a word that is not zero.
proof fn lemma_last_bit(word: u64)
    requires
        word != 0,
    ensures
        0 <= u64_leading_zeros(word) < 64,
        bit_at(word, 63 - u64_leading_zeros(word)),
        forall|j: int| 63 - u64_leading_zeros(word) < j < 64 ==> !#[trigger] bit_at(word, j),
{
    axiom_u64_leading_zeros(word);
    let l = u64_leading_zeros(word);
    lemma_word_bits(word, 0, (63 - l) as u64, 0);
    assert forall|j: int| 63 - l < j < 64 implies !#[trigger] bit_at(word, j) by {
        let k = j as u64;
        assert((word >> k) & 1u64 == 0u64);
    }
}

/// Applying `up` twice is applying it once as often as both together.
proof fn lemma_up_up(e: int, a: int, b: int)
    requires
        0 <= a,
        0 <= b,
    ensures
        up(up(e, a), b) == up(e, a + b),
    decreases b,
{
    if b > 0 {
        lemma_up_up(e, a, b - 1);
    }
}

/// The bits that stand for a number of the set are set, at every level.
proof fn lemma_member_bits(tree: Seq<u64>, ptr: Seq<u32>, size: int, height: int, e: int, h: int)
    requires
        laid_out(tree, ptr, size, height),
        summarised(tree, ptr, size, height, 0, 0),
        0 <= e < size,
        level_bit(tree, ptr, 0, e),
        0 <= h < height,
    ensures
        0 <= up(e, h) < level_size(size, h),
        level_bit(tree, ptr, h, up(e, h)),
    decreases h,
{
    lemma_up(size, e, e, h);
    if h > 0 {
        lemma_member_bits(tree, ptr, size, height, e, h - 1);
        let q = up(e, h - 1);
        lemma_bit_range(size, h - 1, q);
        lemma_word_bits(tree[ptr[h - 1] + q / 64], 0, (q % 64) as u64, 0);
        assert(level_bit(tree, ptr, h, q / 64) <==> tree[ptr[h - 1] + q / 64] != 0);
    }
}

impl FastSet {
    /// The least number of the set that the bit `pos` of level `h`, a bit
    /// that is set, stands for.
    fn descend_first(&self, h: usize, pos: usize) -> (e: usize)
        requires
            self.wf(),
            h < self.height,
            pos < level_size(self.size as int, h as int),
            level_bit(self.tree@, self.ptr@, h as int, pos as int),
        ensures
            e < self.bound(),
            self@[e as int],
            up(e as int, h as int) == pos,
            forall|f: int|
                0 <= f < self.bound() && #[trigger] self@[f] && up(f, h as int) == pos ==> e <= f,
    {
        let ghost size = self.size as int;
        let ghost height = self.height as int;
        let ghost tree = self.tree@;
        let ghost ptrs = self.ptr@;
        let mut g: usize = h;
        let mut cur: usize = pos;
        proof {
            lemma_level_size(size, h as int);
        }
        while g > 0
            invariant
                self.wf(),
                size == self.size,
                height == self.height,
                tree == self.tree@,
                ptrs == self.ptr@,
                g <= h < height,
                cur < level_size(size, g as int),
                level_bit(tree, ptrs, g as int, cur as int),
                up(cur as int, h - g) == pos,
                forall|f: int|
                    0 <= f < size && #[trigger] level_bit(tree, ptrs, 0, f) && up(f, h as int) == pos
                        ==> cur <= up(f, g as int),
            decreases g,
        {
            proof {
                lemma_level_size(size, g as int);
                lemma_level_size(size, g - 1);
                lemma_layout(tree, ptrs, size, height, g - 1);
                assert(level_bit(tree, ptrs, g as int, cur as int) <==> tree[ptrs[g - 1] + cur] != 0);
                lemma_first_bit(tree[ptrs[g - 1] + cur]);
            }
            let word: u64 = self.tree[self.ptr[g - 1] as usize + cur];
            let t: usize = word.trailing_zeros() as usize;
            let ghost above = cur as int;
            proof {
                let next = 64 * cur + t;
                assert(next / 64 == cur && next % 64 == t);
                assert(level_bit(tree, ptrs, g - 1, next));
                assert(next < level_size(size, g - 1));
                lemma_up_up(next, 1, h - g);
                assert(up(next, 0) == next);
                assert(up(next, 1) == next / 64);
                assert forall|f: int|
                    0 <= f < size && #[trigger] level_bit(tree, ptrs, 0, f) && up(f, h as int)
                        == pos implies next <= up(f, g - 1) by {
                    lemma_member_bits(tree, ptrs, size, height, f, g - 1);
                    let q = up(f, g - 1);
                    assert(up(f, g as int) == q / 64);
                    if q / 64 == above {
                        assert(level_bit(tree, ptrs, g - 1, q));
                        assert(bit_at(word, q % 64));
                    }
                }
            }
            cur = cur * 64 + t;
            g -= 1;
        }
        proof {
            assert forall|f: int|
                0 <= f < self.bound() && #[trigger] self@[f] && up(f, h as int) == pos implies cur
                <= f by {
                assert(level_bit(tree, ptrs, 0, f));
            }
        }
        cur
    }

    /// The greatest number of the set that the bit `pos` of level `h`, a
    /// bit that is set, stands for.
    fn descend_last(&self, h: usize, pos: usize) -> (e: usize)
        requires
            self.wf(),
            h < self.height,
            pos < level_size(self.size as int, h as int),
            level_bit(self.tree@, self.ptr@, h as int, pos as int),
        ensures
            e < self.bound(),
            self@[e as int],
            up(e as int, h as int) == pos,
            forall|f: int|
                0 <= f < self.bound() && #[trigger] self@[f] && up(f, h as int) == pos ==> f <= e,
    {
        let ghost size = self.size as int;
        let ghost height = self.height as int;
        let ghost tree = self.tree@;
        let ghost ptrs = self.ptr@;
        let mut g: usize = h;
        let mut cur: usize = pos;
        proof {
            lemma_level_size(size, h as int);
        }
        while g > 0
            invariant
                self.wf(),
                size == self.size,
                height == self.height,
                tree == self.tree@,
                ptrs == self.ptr@,
                g <= h < height,
                cur < level_size(size, g as int),
                level_bit(tree, ptrs, g as int, cur as int),
                up(cur as int, h - g) == pos,
                forall|f: int|
                    0 <= f < size && #[trigger] level_bit(tree, ptrs, 0, f) && up(f, h as int) == pos
                        ==> up(f, g as int) <= cur,
            decreases g,
        {
            proof {
                lemma_level_size(size, g as int);
                lemma_level_size(size, g - 1);
                lemma_layout(tree, ptrs, size, height, g - 1);
                assert(level_bit(tree, ptrs, g as int, cur as int) <==> tree[ptrs[g - 1] + cur] != 0);
                lemma_last_bit(tree[ptrs[g - 1] + cur]);
            }
            let word: u64 = self.tree[self.ptr[g - 1] as usize + cur];
            let t: usize = 63 - word.leading_zeros() as usize;
            let ghost above = cur as int;
            proof {
                let next = 64 * cur + t;
                assert(next / 64 == cur && next % 64 == t);
                assert(level_bit(tree, ptrs, g - 1, next));
                assert(next < level_size(size, g - 1));
                lemma_up_up(next, 1, h - g);
                assert(up(next, 0) == next);
                assert(up(next, 1) == next / 64);
                assert forall|f: int|
                    0 <= f < size && #[trigger] level_bit(tree, ptrs, 0, f) && up(f, h as int)
                        == pos implies up(f, g - 1) <= next by {
                    lemma_member_bits(tree, ptrs, size, height, f, g - 1);
                    let q = up(f, g - 1);
                    assert(up(f, g as int) == q / 64);
                    if q / 64 == above {
                        assert(level_bit(tree, ptrs, g - 1, q));
                        assert(bit_at(word, q % 64));
                    }
                }
            }
            cur = cur * 64 + t;
            g -= 1;
        }
        proof {
            assert forall|f: int|
                0 <= f < self.bound() && #[trigger] self@[f] && up(f, h as int) == pos implies f
                <= cur by {
                assert(level_bit(tree, ptrs, 0, f));
            }
        }
        cur
    }

    /// The least number of the set that is not less than `i`, if there is
    /// one.
    pub fn next(&self, i: usize) -> (found: Option<usize>)
        requires
            self.wf(),
            i < self.bound(),
        ensures
            match found {
                Some(e) => i <= e < self.bound() && self@[e as int] && forall|f: int|
                    i <= f < e ==> !#[trigger] self@[f],
                None => forall|f: int| i <= f < self.bound() ==> !#[trigger] self@[f],
            },
    {
        let ghost size = self.size as int;
        let ghost height = self.height as int;
        let ghost tree = self.tree@;
        let ghost ptrs = self.ptr@;
        let mut pos: usize = i;
        let mut h: usize = 0;
        while h < self.height
            invariant
                self.wf(),
                size == self.size,
                height == self.height,
                tree == self.tree@,
                ptrs == self.ptr@,
                i < size,
                1 <= height,
                h <= height,
                h >= 1 ==> pos >= 1,
                pos <= level_size(size, h as int),
                forall|f: int|
                    i <= f < size && #[trigger] level_bit(tree, ptrs, 0, f) ==> pos <= up(f, h as int),
                forall|f: int| 0 <= f < size && pos <= #[trigger] up(f, h as int) ==> i <= f,
            decreases height - h,
        {
            proof {
                lemma_level_size(size, h as int);
                lemma_layout(tree, ptrs, size, height, h as int);
            }
            let words: usize = (self.ptr[h + 1] - self.ptr[h]) as usize;
            if pos / 64 == words {
                proof {
                    assert forall|f: int| i <= f < size implies !#[trigger] self@[f] by {
                        lemma_up(size, f, f, h as int);
                        if level_bit(tree, ptrs, 0, f) {
                        }
                    }
                }
                return None;
            }
            let word: u64 = self.tree[self.ptr[h] as usize + pos / 64];
            let k: u64 = (pos % 64) as u64;
            let d: u64 = word >> k;
            if d == 0 {
                proof {
                    assert forall|f: int|
                        i <= f < size && #[trigger] level_bit(tree, ptrs, 0, f) implies pos / 64 + 1
                        <= up(f, h + 1) by {
                        lemma_member_bits(tree, ptrs, size, height, f, h as int);
                        let q = up(f, h as int);
                        if q / 64 == pos / 64 {
                            lemma_shifted_right(word, k, (q % 64 - k) as u64);
                            lemma_word_bits(d, 0, (q % 64 - k) as u64, 0);
                        }
                    }
                    assert forall|f: int| 0 <= f < size && pos / 64 + 1 <= #[trigger] up(
                        f,
                        h + 1,
                    ) implies i <= f by {
                        assert(pos <= up(f, h as int));
                    }
                }
                pos = pos / 64 + 1;
                h += 1;
            } else {
                proof {
                    lemma_first_bit(d);
                    let t = u64_trailing_zeros(d) as int;
                    lemma_shifted_right(word, k, t as u64);
                    assert(bit_at(word, k + t));
                    assert(level_bit(tree, ptrs, h as int, pos + t));
                    lemma_bit_range(size, h as int, 0);
                }
                let t: usize = d.trailing_zeros() as usize;
                let at: usize = pos + t;
                let e = self.descend_first(h, at);
                proof {
                    assert forall|f: int| i <= f < e implies !#[trigger] self@[f] by {
                        if self@[f] {
                            lemma_member_bits(tree, ptrs, size, height, f, h as int);
                            lemma_up(size, f, e as int, h as int);
                            let q = up(f, h as int);
                            if q < at {
                                lemma_shifted_right(word, k, (q - pos) as u64);
                                assert(bit_at(d, q - pos));
                            }
                        }
                    }
                    assert(pos <= up(e as int, h as int));
                }
                return Some(e);
            }
        }
        proof {
            lemma_level_size(size, height);
            assert forall|f: int| i <= f < size implies !#[trigger] self@[f] by {
                lemma_up(size, f, f, height);
                if level_bit(tree, ptrs, 0, f) {
                }
            }
        }
        None
    }
}

impl FastSet {
    /// The greatest number of the set that is not greater than `i`, if
    /// there is one.
    pub fn prev(&self, i: usize) -> (found: Option<usize>)
        requires
            self.wf(),
            i < self.bound(),
        ensures
            match found {
                Some(e) => e <= i && self@[e as int] && forall|f: int|
                    e < f <= i ==> !#[trigger] self@[f],
                None => forall|f: int| 0 <= f <= i ==> !#[trigger] self@[f],
            },
    {
        let ghost size = self.size as int;
        let ghost height = self.height as int;
        let ghost tree = self.tree@;
        let ghost ptrs = self.ptr@;
        let mut pos: usize = i;
        let mut h: usize = 0;
        proof {
            lemma_level_size(size, 0);
        }
        while h < self.height
            invariant_except_break
                h < height,
            invariant
                self.wf(),
                size == self.size,
                height == self.height,
                tree == self.tree@,
                ptrs == self.ptr@,
                i < size,
                1 <= height,
                pos < level_size(size, h as int),
                forall|f: int|
                    0 <= f <= i && #[trigger] level_bit(tree, ptrs, 0, f) ==> up(f, h as int) <= pos,
                forall|f: int| 0 <= f < size && #[trigger] up(f, h as int) <= pos ==> f <= i,
            ensures
                forall|f: int| 0 <= f <= i ==> !#[trigger] self@[f],
            decreases height - h,
        {
            proof {
                lemma_level_size(size, h as int);
                lemma_layout(tree, ptrs, size, height, h as int);
                lemma_bit_range(size, h as int, pos as int);
            }
            let word: u64 = self.tree[self.ptr[h] as usize + pos / 64];
            let k: u64 = (pos % 64) as u64;
            let d: u64 = word << (63 - k);
            if d == 0 {
                proof {
                    assert forall|f: int|
                        0 <= f <= i && #[trigger] level_bit(tree, ptrs, 0, f) implies up(f, h + 1) + 1
                        <= pos / 64 by {
                        lemma_member_bits(tree, ptrs, size, height, f, h as int);
                        let q = up(f, h as int);
                        if q / 64 == pos / 64 {
                            lemma_shifted_left(word, (63 - k) as u64, (q % 64 + 63 - k) as u64);
                            lemma_word_bits(d, 0, (q % 64 + 63 - k) as u64, 0);
                        }
                    }
                    assert forall|f: int| 0 <= f < size && #[trigger] up(f, h + 1) + 1 <= pos
                        / 64 implies f <= i by {
                        assert(up(f, h as int) <= pos);
                    }
                }
                pos = pos / 64;
                if pos == 0 {
                    proof {
                        assert forall|f: int| 0 <= f <= i implies !#[trigger] self@[f] by {
                            lemma_up(size, f, f, h + 1);
                            if level_bit(tree, ptrs, 0, f) {
                            }
                        }
                    }
                    break;
                }
                proof {
                    lemma_level_size(size, h + 1);
                    assert(level_size(size, h + 1) >= 2);
                }
                pos -= 1;
                h += 1;
            } else {
                proof {
                    lemma_last_bit(d);
                    let l = u64_leading_zeros(d);
                    lemma_shifted_left(word, (63 - k) as u64, (63 - l) as u64);
                    assert(bit_at(d, 63 - l));
                    assert(l <= k);
                    assert(bit_at(word, k - l));
                    assert(level_bit(tree, ptrs, h as int, pos - l));
                }
                let l: usize = d.leading_zeros() as usize;
                let at: usize = pos - l;
                let e = self.descend_last(h, at);
                proof {
                    assert forall|f: int| e < f <= i implies !#[trigger] self@[f] by {
                        if self@[f] {
                            lemma_member_bits(tree, ptrs, size, height, f, h as int);
                            lemma_up(size, e as int, f, h as int);
                            let q = up(f, h as int);
                            if q > at {
                                lemma_shifted_left(word, (63 - k) as u64, (q % 64 + 63 - k) as u64);
                                assert(bit_at(d, q % 64 + 63 - k));
                            }
                        }
                    }
                    assert(up(e as int, h as int) <= pos);
                }
                return Some(e);
            }
        }
        None
    }
}

impl Default for FastSet {
    /// The empty set of the numbers below `2^24`.
    fn default() -> (set: Self)
        ensures
            set.wf(),
            set.bound() == 0x100_0000,
            forall|e: int| 0 <= e < 0x100_0000 ==> !#[trigger] set@[e],
    {
        let mut tree: Vec<u64> = Vec::new();
        let mut i: usize = 0;
        while i < 266305
            invariant
                i <= 266305,
                tree.len() == i,
                forall|k: int| 0 <= k < i ==> #[trigger] tree[k] == 0,
            decreases 266305 - i,
        {
            tree.push(0);
            i += 1;
        }
        let mut ptr: Vec<u32> = Vec::new();
        ptr.push(0);
        ptr.push(262144);
        ptr.push(266240);
        ptr.push(266304);
        ptr.push(266305);
        let set = Self { tree, ptr, size: 0x100_0000, height: 4 };
        proof {
            reveal_with_fuel(level_size, 6);
            assert(level_size(0x100_0000, 1) == 262144);
            assert(level_size(0x100_0000, 2) == 4096);
            assert(level_size(0x100_0000, 3) == 64);
            assert(level_size(0x100_0000, 4) == 1);
            lemma_all_clear(set.tree@, set.ptr@, 0x100_0000, 4);
        }
        set
    }
}

} // verus!

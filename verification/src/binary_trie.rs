//! A multiset of numbers of a fixed number of bits, kept as a binary trie:
//! insertion and removal, membership and multiplicity, least and greatest
//! element, the element at a place of the ascending order, and the
//! neighbours of a number among the elements.
//!
//! The trie has a node for each prefix of an element that was ever
//! inserted. A node at which `d` bits remain stands for the elements that
//! agree with its prefix above their `d` lowest bits, and counts them.

use vstd::prelude::*;
use crate::bit_vector::bit_at;
use crate::level_order::{
    clear_low,
    fits,
    with_prefix,
    below,
    at_most,
    lemma_fits_clear_low,
    lemma_filter_all,
    lemma_filter_none,
    lemma_filter_disjoint_len,
    lemma_filter_len_monotone,
    lemma_filter_len_strict,
    lemma_filter_len_extremes,
    lemma_partition_len,
    lemma_descend,
    lemma_clear_low_step,
};
use crate::wavelet_matrix::is_kth_smallest;

verus! {

/// The child pointer of a node without that child.
pub const NONE: u32 = u32::MAX;

/// A node: its child for the bit zero, its child for the bit one, and the
/// number of elements that it stands for.
#[derive(Clone, Copy, Debug, Default)]
struct Node(u32, u32, u32);

/// The number of items of `s` whose key agrees with `t` above its `d`
/// lowest bits.
pub open spec fn count_prefix(s: Seq<(u64, ())>, t: u64, d: int) -> nat {
    s.filter(with_prefix::<()>(t, d)).len()
}

/// The number of items of `s` with the key `x`.
pub open spec fn occurrences(s: Seq<(u64, ())>, x: u64) -> nat {
    count_prefix(s, x, 0)
}

/// How the items that agree with `t` above bit `j` split by bit `j`.
proof fn lemma_split(s: Seq<(u64, ())>, t: u64, j: int)
    requires
        0 <= j < 64,
        clear_low(t, j + 1) == t,
    ensures
        ({
            let t1 = t | (1u64 << (j as u64));
            &&& clear_low(t, j) == t
            &&& clear_low(t1, j) == t1
            &&& clear_low(t1, j + 1) == t
            &&& t1 != t
            &&& count_prefix(s, t, j + 1) == count_prefix(s, t, j) + count_prefix(s, t1, j)
            &&& s.filter(below::<()>(t1)).len() == s.filter(below::<()>(t)).len() + count_prefix(
                s,
                t,
                j,
            )
        }),
{
    let t1 = t | (1u64 << (j as u64));
    lemma_descend(s, t, j);
    lemma_partition_len(s.filter(with_prefix::<()>(t, j + 1)), j);
    lemma_bit_set(t, j as u64);
    assert(bit_at(t1, j) != bit_at(t, j));
}

/// Setting bit `j` of a number whose bits from `j` down are clear: the bit
/// was clear and is then set, and the bits above it stay.
proof fn lemma_bit_set(t: u64, j: u64)
    requires
        j < 64,
        clear_low(t, j + 1) == t,
    ensures
        bit_at(t | (1u64 << j), j as int),
        !bit_at(t, j as int),
        clear_low(t | (1u64 << j), j + 1) == t,
{
    let t1 = t | (1u64 << j);
    let k: u64 = if j == 63 {
        0
    } else {
        (j + 1) as u64
    };
    let ht = clear_low(t, j + 1);
    let h1 = clear_low(t1, j + 1);
    assert(h1 == t && (t >> j) & 1 != 1 && (t1 >> j) & 1 == 1) by (bit_vector)
        requires
            j < 64,
            k == if j == 63 {
                0
            } else {
                j + 1
            },
            t1 == t | (1u64 << j),
            ht == if j == 63 {
                0
            } else {
                (t >> k) << k
            },
            h1 == if j == 63 {
                0
            } else {
                (t1 >> k) << k
            },
            ht == t,
    ;
}

/// A multiset of numbers of `D` bits. Its view is the sequence of its
/// elements, each with the weight `()`, in the order in which they were
/// inserted.
pub struct MultiBinaryTrie<const D: u8> {
    tree: Vec<Node>,
    items: Ghost<Seq<(u64, ())>>,
    keys: Ghost<Seq<(int, u64)>>,
}

impl<const D: u8> View for MultiBinaryTrie<D> {
    type V = Seq<(u64, ())>;

    closed spec fn view(&self) -> Seq<(u64, ())> {
        self.items@
    }
}

/// Whether the child of node `n` for the bit `one` is as it should be: if
/// there is none, no item belongs below it; if there is one, it stands for
/// the prefix of `n` with that bit added.
spec fn child_ok(
    tree: Seq<Node>,
    keys: Seq<(int, u64)>,
    items: Seq<(u64, ())>,
    n: int,
    one: bool,
) -> bool {
    let d = keys[n].0;
    let t = keys[n].1;
    let c = if one {
        tree[n].1
    } else {
        tree[n].0
    };
    let tc = if one {
        t | (1u64 << ((d - 1) as u64))
    } else {
        t
    };
    if c == NONE {
        count_prefix(items, tc, d - 1) == 0
    } else {
        1 <= c < tree.len() && keys[c as int] == (d - 1, tc)
    }
}

/// Whether node `n` is as it should be.
spec fn node_ok(
    tree: Seq<Node>,
    keys: Seq<(int, u64)>,
    items: Seq<(u64, ())>,
    height: int,
    n: int,
) -> bool {
    let d = keys[n].0;
    let t = keys[n].1;
    &&& 0 <= d <= height
    &&& clear_low(t, d) == t
    &&& clear_low(t, height) == 0
    &&& n >= 1 ==> d < height && tree[n].2 == count_prefix(items, t, d)
    &&& n == 0 ==> d == height
    &&& d == 0 ==> tree[n].0 == NONE && tree[n].1 == NONE
    &&& d >= 1 ==> child_ok(tree, keys, items, n, false) && child_ok(tree, keys, items, n, true)
}

/// Whether `j` is a child of node `i`.
spec fn is_child(tree: Seq<Node>, i: int, j: int) -> bool {
    0 <= i < tree.len() && (tree[i].0 == j || tree[i].1 == j)
}

/// Whether `j` is a child of a node.
spec fn has_parent(tree: Seq<Node>, j: int) -> bool {
    exists|i: int| #[trigger] is_child(tree, i, j)
}

impl<const D: u8> MultiBinaryTrie<D> {
    /// The number of nodes of the trie.
    pub closed spec fn nodes(&self) -> nat {
        self.tree.len() as nat
    }

    /// The nodes stand for different prefixes, each node but the root is
    /// the child of a node, and each counts the items that agree with its
    /// prefix. Every item has `D` bits, and `D` is between 1 and 64.
    pub closed spec fn wf(&self) -> bool {
        &&& 1 <= D <= 64
        &&& self.tree.len() >= 1
        &&& self.keys@.len() == self.tree.len()
        &&& self.tree.len() < NONE
        &&& self.items@.len() <= u32::MAX
        &&& forall|i: int| 0 <= i < self.items@.len() ==> clear_low(#[trigger] self.items@[i].0, D as int) == 0
        &&& self.keys@[0] == (D as int, 0u64)
        &&& forall|n: int|
            0 <= n < self.tree.len() ==> #[trigger] node_ok(
                self.tree@,
                self.keys@,
                self.items@,
                D as int,
                n,
            )
        &&& forall|i: int, j: int|
            0 <= i < self.tree.len() && 0 <= j < self.tree.len() && #[trigger] self.keys@[i]
                == #[trigger] self.keys@[j] ==> i == j
        &&& forall|j: int| 1 <= j < self.tree.len() ==> #[trigger] has_parent(self.tree@, j)
    }

    /// What `wf` says of the view.
    pub proof fn lemma_wf(&self)
        requires
            self.wf(),
        ensures
            1 <= D <= 64,
            self@.len() <= u32::MAX,
            self.nodes() < NONE,
            forall|i: int| 0 <= i < self@.len() ==> fits(#[trigger] self@[i].0, D as int),
    {
        assert forall|i: int| 0 <= i < self@.len() implies fits(#[trigger] self@[i].0, D as int) by {
            lemma_fits_clear_low(self@[i].0, D as int);
        }
    }

    /// The empty multiset.
    pub fn new() -> (bt: Self)
        requires
            1 <= D <= 64,
        ensures
            bt.wf(),
            bt@ == Seq::<(u64, ())>::empty(),
            bt.nodes() == 1,
    {
        let mut tree: Vec<Node> = Vec::new();
        tree.push(Node(NONE, NONE, 0));
        let ghost items = Seq::<(u64, ())>::empty();
        let ghost keys = seq![(D as int, 0u64)];
        let bt = Self { tree, items: Ghost(items), keys: Ghost(keys) };
        proof {
            lemma_zero_prefix(D as u64);
            assert(node_ok(bt.tree@, keys, items, D as int, 0)) by {
                lemma_split(items, 0, D - 1);
                lemma_filter_none(items, with_prefix::<()>(0, D - 1));
                lemma_filter_none(
                    items,
                    with_prefix::<()>(0u64 | (1u64 << ((D - 1) as u64)), D - 1),
                );
            }
        }
        bt
    }

    /// The number of nodes of the trie.
    pub fn node_count(&self) -> (n: usize)
        ensures
            n == self.nodes(),
    {
        self.tree.len()
    }

    /// Whether an item belongs below the child of `ptr` for the bit zero.
    fn has_zero_node(&self, ptr: usize) -> (b: bool)
        requires
            self.wf(),
            ptr < self.tree.len(),
            self.keys@[ptr as int].0 >= 1,
        ensures
            b == (count_prefix(self@, self.keys@[ptr as int].1, self.keys@[ptr as int].0 - 1) > 0),
            b ==> 1 <= self.tree[ptr as int].0 < self.tree.len(),
    {
        proof {
            assert(node_ok(self.tree@, self.keys@, self.items@, D as int, ptr as int));
            let c = self.tree[ptr as int].0;
            if c != NONE {
                assert(node_ok(self.tree@, self.keys@, self.items@, D as int, c as int));
            }
        }
        self.tree[ptr].0 != NONE && self.tree[self.tree[ptr].0 as usize].2 > 0
    }

    /// Whether an item belongs below the child of `ptr` for the bit one.
    fn has_one_node(&self, ptr: usize) -> (b: bool)
        requires
            self.wf(),
            ptr < self.tree.len(),
            self.keys@[ptr as int].0 >= 1,
        ensures
            b == (count_prefix(
                self@,
                self.keys@[ptr as int].1 | (1u64 << ((self.keys@[ptr as int].0 - 1) as u64)),
                self.keys@[ptr as int].0 - 1,
            ) > 0),
            b ==> 1 <= self.tree[ptr as int].1 < self.tree.len(),
    {
        proof {
            assert(node_ok(self.tree@, self.keys@, self.items@, D as int, ptr as int));
            let c = self.tree[ptr as int].1;
            if c != NONE {
                assert(node_ok(self.tree@, self.keys@, self.items@, D as int, c as int));
            }
        }
        self.tree[ptr].1 != NONE && self.tree[self.tree[ptr].1 as usize].2 > 0
    }

    /// The node that stands for `x`, if an item is `x`: the walk from the
    /// root along the bits of `x`, as far as items belong below.
    fn find(&self, x: u64) -> (found: Option<usize>)
        requires
            self.wf(),
            fits(x, D as int),
        ensures
            match found {
                Some(ptr) => 1 <= ptr < self.tree.len() && self.keys@[ptr as int] == (0int, x)
                    && occurrences(self@, x) > 0,
                None => occurrences(self@, x) == 0,
            },
    {
        let mut ptr: usize = 0;
        let mut d: u8 = D;
        proof {
            lemma_fits_clear_low(x, D as int);
        }
        while d > 0
            invariant
                self.wf(),
                d <= D,
                ptr < self.tree.len(),
                self.keys@[ptr as int] == (d as int, clear_low(x, d as int)),
                d < D ==> ptr >= 1 && count_prefix(self@, clear_low(x, d as int), d as int) > 0,
            decreases d,
        {
            d -= 1;
            let b: bool = ((x >> (d as u64)) & 1) == 1;
            proof {
                lemma_clear_low_step(x, d as u64);
                assert(node_ok(self.tree@, self.keys@, self.items@, D as int, ptr as int));
            }
            let present: bool = if b {
                self.has_one_node(ptr)
            } else {
                self.has_zero_node(ptr)
            };
            if !present {
                proof {
                    lemma_prefix_of(self@, x, d as int);
                }
                return None;
            }
            ptr = if b {
                self.tree[ptr].1 as usize
            } else {
                self.tree[ptr].0 as usize
            };
        }
        Some(ptr)
    }

    /// Whether `x` is an element.
    pub fn contains(&self, x: u64) -> (b: bool)
        requires
            self.wf(),
            fits(x, D as int),
        ensures
            b == (occurrences(self@, x) > 0),
    {
        match self.find(x) {
            Some(_) => true,
            None => false,
        }
    }

    /// How many times `x` is an element.
    pub fn count(&self, x: u64) -> (c: u32)
        requires
            self.wf(),
            fits(x, D as int),
        ensures
            c == occurrences(self@, x),
    {
        match self.find(x) {
            Some(ptr) => {
                proof {
                    assert(node_ok(self.tree@, self.keys@, self.items@, D as int, ptr as int));
                }
                self.tree[ptr].2
            },
            None => 0,
        }
    }

    /// The number of elements, each counted as often as it is one.
    pub fn all_count(&self) -> (cnt: u32)
        requires
            self.wf(),
        ensures
            cnt == self@.len(),
    {
        let mut cnt: u32 = 0;
        proof {
            assert(node_ok(self.tree@, self.keys@, self.items@, D as int, 0));
            lemma_split(self@, 0, D - 1);
            lemma_filter_all(self@, with_prefix::<()>(0, D as int));
            let c0 = self.tree[0].0;
            let c1 = self.tree[0].1;
            if c0 != NONE {
                assert(node_ok(self.tree@, self.keys@, self.items@, D as int, c0 as int));
            }
            if c1 != NONE {
                assert(node_ok(self.tree@, self.keys@, self.items@, D as int, c1 as int));
            }
        }
        if self.tree[0].0 != NONE {
            cnt += self.tree[self.tree[0].0 as usize].2;
        }
        if self.tree[0].1 != NONE {
            cnt += self.tree[self.tree[0].1 as usize].2;
        }
        cnt
    }
}

impl<const D: u8> MultiBinaryTrie<D> {
    /// The least element, if there is one.
    pub fn min(&self) -> (least: Option<u64>)
        requires
            self.wf(),
        ensures
            match least {
                Some(m) => self@.len() > 0 && is_kth_smallest(self@, 0, m),
                None => self@.len() == 0,
            },
    {
        if self.all_count() == 0 {
            return None;
        }
        let mut ptr: usize = 0;
        let mut value: u64 = 0;
        let mut d: u8 = D;
        proof {
            lemma_filter_all(self@, with_prefix::<()>(0, D as int));
            lemma_filter_none(self@, below::<()>(0));
        }
        while d > 0
            invariant
                self.wf(),
                d <= D,
                ptr < self.tree.len(),
                self.keys@[ptr as int] == (d as int, value),
                count_prefix(self@, value, d as int) > 0,
                self@.filter(below::<()>(value)).len() == 0,
            decreases d,
        {
            d -= 1;
            proof {
                assert(node_ok(self.tree@, self.keys@, self.items@, D as int, ptr as int));
                lemma_split(self@, value, d as int);
            }
            if self.has_zero_node(ptr) {
                ptr = self.tree[ptr].0 as usize;
            } else if self.has_one_node(ptr) {
                ptr = self.tree[ptr].1 as usize;
                value |= 1u64 << (d as u64);
            } else {
                return Some(value);
            }
        }
        proof {
            lemma_at_most_split(self@, value);
        }
        Some(value)
    }

    /// The least of the numbers that the elements give when combined with
    /// `x` by exclusive or, if there is an element.
    pub fn xor_min(&self, x: u64) -> (least: Option<u64>)
        requires
            self.wf(),
        ensures
            match least {
                Some(m) => is_xor_min(self@, x, m),
                None => self@.len() == 0,
            },
    {
        if self.all_count() == 0 {
            return None;
        }
        let mut ptr: usize = 0;
        let mut value: u64 = 0;
        let mut d: u8 = D;
        proof {
            lemma_filter_all(self@, with_prefix::<()>(0, D as int));
            lemma_xor_start(self@, x, D as int);
        }
        while d > 0
            invariant
                self.wf(),
                d <= D,
                ptr < self.tree.len(),
                self.keys@[ptr as int] == (d as int, value),
                count_prefix(self@, value, d as int) > 0,
                self@.filter(below_xor(x, clear_low(value ^ x, d as int))).len() == 0,
            decreases d,
        {
            d -= 1;
            let b: bool = ((x >> (d as u64)) & 1) == 1;
            proof {
                assert(node_ok(self.tree@, self.keys@, self.items@, D as int, ptr as int));
                lemma_split(self@, value, d as int);
                let t1 = value | (1u64 << (d as u64));
                let near = if b {
                    t1
                } else {
                    value
                };
                let bound = clear_low(value ^ x, d + 1);
                lemma_xor_bits(0, x, value, d as u64);
                assert(b == bit_at(x, d as int));
                assert forall|i: int| 0 <= i < self@.len() implies {
                    &&& below_xor(x, bound | (1u64 << (d as u64)))(#[trigger] self@[i]) == (
                    below_xor(x, bound)(self@[i]) || with_prefix::<()>(near, d as int)(self@[i]))
                    &&& !(below_xor(x, bound)(self@[i]) && with_prefix::<()>(near, d as int)(
                        self@[i],
                    ))
                } by {
                    lemma_xor_bits(self@[i].0, x, value, d as u64);
                }
                lemma_filter_disjoint_len(
                    self@,
                    below_xor(x, bound),
                    with_prefix::<()>(near, d as int),
                    below_xor(x, bound | (1u64 << (d as u64))),
                );
            }
            if !b {
                if self.has_zero_node(ptr) {
                    ptr = self.tree[ptr].0 as usize;
                } else if self.has_one_node(ptr) {
                    ptr = self.tree[ptr].1 as usize;
                    value |= 1u64 << (d as u64);
                } else {
                    return Some(value);
                }
            } else {
                if self.has_one_node(ptr) {
                    ptr = self.tree[ptr].1 as usize;
                    value |= 1u64 << (d as u64);
                } else if self.has_zero_node(ptr) {
                    ptr = self.tree[ptr].0 as usize;
                } else {
                    return Some(value);
                }
            }
        }
        proof {
            let m = value ^ x;
            lemma_filter_len_extremes(self@, below_xor(x, m));
            lemma_filter_len_extremes(self@, with_prefix::<()>(value, 0));
            if forall|i: int| 0 <= i < self@.len() ==> !with_prefix::<()>(value, 0)(#[trigger] self@[i]) {
                lemma_filter_none(self@, with_prefix::<()>(value, 0));
            }
            let i = choose|i: int| 0 <= i < self@.len() && with_prefix::<()>(value, 0)(#[trigger] self@[i]);
            assert((self@[i].0 ^ x) == m);
            assert forall|i: int| 0 <= i < self@.len() implies m <= #[trigger] (self@[i].0 ^ x) by {
                assert(!below_xor(x, m)(self@[i]));
            }
        }
        Some(value ^ x)
    }

    /// The greatest element, if there is one.
    pub fn max(&self) -> (greatest: Option<u64>)
        requires
            self.wf(),
        ensures
            match greatest {
                Some(m) => self@.len() > 0 && is_kth_smallest(self@, self@.len() - 1, m),
                None => self@.len() == 0,
            },
    {
        if self.all_count() == 0 {
            return None;
        }
        let mut ptr: usize = 0;
        let mut value: u64 = 0;
        let mut d: u8 = D;
        proof {
            lemma_filter_all(self@, with_prefix::<()>(0, D as int));
            lemma_filter_none(self@, below::<()>(0));
        }
        while d > 0
            invariant
                self.wf(),
                d <= D,
                ptr < self.tree.len(),
                self.keys@[ptr as int] == (d as int, value),
                count_prefix(self@, value, d as int) > 0,
                self@.filter(below::<()>(value)).len() + count_prefix(self@, value, d as int)
                    == self@.len(),
            decreases d,
        {
            d -= 1;
            proof {
                assert(node_ok(self.tree@, self.keys@, self.items@, D as int, ptr as int));
                lemma_split(self@, value, d as int);
            }
            if self.has_one_node(ptr) {
                ptr = self.tree[ptr].1 as usize;
                value |= 1u64 << (d as u64);
            } else if self.has_zero_node(ptr) {
                ptr = self.tree[ptr].0 as usize;
            } else {
                return Some(value);
            }
        }
        proof {
            lemma_at_most_split(self@, value);
        }
        Some(value)
    }

    /// The element at place `k` of the ascending order of the elements, if
    /// there are more than `k` elements.
    pub fn kth_elem(&self, k: usize) -> (elem: Option<u64>)
        requires
            self.wf(),
        ensures
            match elem {
                Some(v) => k < self@.len() && is_kth_smallest(self@, k as int, v),
                None => k >= self@.len(),
            },
    {
        if self.all_count() as usize <= k {
            return None;
        }
        let mut ptr: usize = 0;
        let mut cnt: u32 = 0;
        let mut value: u64 = 0;
        let mut d: u8 = D;
        proof {
            lemma_filter_all(self@, with_prefix::<()>(0, D as int));
            lemma_filter_none(self@, below::<()>(0));
        }
        while d > 0
            invariant
                self.wf(),
                d <= D,
                k < self@.len(),
                ptr < self.tree.len(),
                self.keys@[ptr as int] == (d as int, value),
                cnt == self@.filter(below::<()>(value)).len(),
                cnt <= k < cnt + count_prefix(self@, value, d as int),
            decreases d,
        {
            d -= 1;
            proof {
                assert(node_ok(self.tree@, self.keys@, self.items@, D as int, ptr as int));
                lemma_split(self@, value, d as int);
                lemma_filter_len_extremes(
                    self@,
                    below::<()>(value | (1u64 << (d as u64))),
                );
                let c0 = self.tree[ptr as int].0;
                let c1 = self.tree[ptr as int].1;
                if c0 != NONE {
                    assert(node_ok(self.tree@, self.keys@, self.items@, D as int, c0 as int));
                }
            }
            let zero: bool = self.has_zero_node(ptr);
            let one: bool = self.has_one_node(ptr);
            if !zero && !one {
                return None;
            }
            if zero {
                let dc: u32 = self.tree[self.tree[ptr].0 as usize].2;
                if cnt + dc > k as u32 {
                    ptr = self.tree[ptr].0 as usize;
                } else {
                    ptr = self.tree[ptr].1 as usize;
                    cnt += dc;
                    value |= 1u64 << (d as u64);
                }
            } else {
                ptr = self.tree[ptr].1 as usize;
                value |= 1u64 << (d as u64);
            }
        }
        proof {
            lemma_at_most_split(self@, value);
        }
        Some(value)
    }

    /// The number of elements that are less than `x`.
    fn count_below(&self, x: u64) -> (cnt: u32)
        requires
            self.wf(),
            fits(x, D as int),
        ensures
            cnt == self@.filter(below::<()>(x)).len(),
    {
        let mut ptr: usize = 0;
        let mut cnt: u32 = 0;
        let mut d: u8 = D;
        proof {
            lemma_fits_clear_low(x, D as int);
            lemma_filter_none(self@, below::<()>(0));
        }
        while d > 0
            invariant_except_break
                self.keys@[ptr as int] == (d as int, clear_low(x, d as int)),
                cnt == self@.filter(below::<()>(clear_low(x, d as int))).len(),
            invariant
                self.wf(),
                d <= D,
                ptr < self.tree.len(),
            ensures
                cnt == self@.filter(below::<()>(x)).len(),
            decreases d,
        {
            d -= 1;
            let b: bool = ((x >> (d as u64)) & 1) == 1;
            proof {
                assert(node_ok(self.tree@, self.keys@, self.items@, D as int, ptr as int));
                lemma_clear_low_step(x, d as u64);
                lemma_split(self@, clear_low(x, d + 1), d as int);
                lemma_filter_len_extremes(self@, below::<()>(clear_low(x, d as int)));
                let c0 = self.tree[ptr as int].0;
                if c0 != NONE {
                    assert(node_ok(self.tree@, self.keys@, self.items@, D as int, c0 as int));
                }
            }
            if b {
                if self.has_zero_node(ptr) {
                    cnt += self.tree[self.tree[ptr].0 as usize].2;
                }
                if self.has_one_node(ptr) {
                    ptr = self.tree[ptr].1 as usize;
                } else {
                    proof {
                        lemma_below_gap(self@, x, d as int);
                    }
                    break;
                }
            } else {
                if self.has_zero_node(ptr) {
                    ptr = self.tree[ptr].0 as usize;
                } else {
                    proof {
                        lemma_below_gap(self@, x, d as int);
                    }
                    break;
                }
            }
        }
        cnt
    }

    /// The least element that is not less than `x`, if there is one.
    pub fn lower_bound(&self, x: u64) -> (found: Option<u64>)
        requires
            self.wf(),
            fits(x, D as int),
        ensures
            match found {
                Some(v) => is_least_from(self@, x, v),
                None => forall|i: int| 0 <= i < self@.len() ==> (#[trigger] self@[i]).0 < x,
            },
    {
        let cnt = self.count_below(x);
        let found = self.kth_elem(cnt as usize);
        proof {
            lemma_filter_len_extremes(self@, below::<()>(x));
            match found {
                Some(v) => {
                    lemma_at_most_split(self@, v);
                    if v < x {
                        assert forall|i: int| 0 <= i < self@.len() && at_most::<()>(v)(
                            #[trigger] self@[i],
                        ) implies below::<()>(x)(self@[i]) by {}
                        lemma_filter_len_monotone(self@, at_most::<()>(v), below::<()>(x));
                    }
                    assert forall|i: int| 0 <= i < self@.len() && x <= (#[trigger] self@[i]).0 implies v
                        <= self@[i].0 by {
                        if self@[i].0 < v {
                            assert forall|q: int| 0 <= q < self@.len() && below::<()>(x)(
                                #[trigger] self@[q],
                            ) implies below::<()>(v)(self@[q]) by {}
                            lemma_filter_len_strict(self@, below::<()>(x), below::<()>(v), i);
                        }
                    }
                },
                None => {},
            }
        }
        found
    }

    /// The greatest element that is not greater than `x`, if there is one.
    pub fn upper_bound(&self, x: u64) -> (found: Option<u64>)
        requires
            self.wf(),
            fits(x, D as int),
        ensures
            match found {
                Some(v) => is_greatest_upto(self@, x, v),
                None => forall|i: int| 0 <= i < self@.len() ==> x < (#[trigger] self@[i]).0,
            },
    {
        if self.contains(x) {
            return Some(x);
        }
        let cnt = self.count_below(x);
        proof {
            lemma_filter_len_extremes(self@, below::<()>(x));
            lemma_filter_len_extremes(self@, with_prefix::<()>(x, 0));
            assert forall|i: int| 0 <= i < self@.len() implies (#[trigger] self@[i]).0 != x by {
                assert(!with_prefix::<()>(x, 0)(self@[i]));
            }
        }
        if cnt == 0 {
            proof {
                assert forall|i: int| 0 <= i < self@.len() implies x < (#[trigger] self@[i]).0 by {
                    assert(!below::<()>(x)(self@[i]));
                }
            }
            return None;
        }
        let found = self.kth_elem(cnt as usize - 1);
        proof {
            match found {
                Some(v) => {
                    lemma_at_most_split(self@, v);
                    lemma_filter_len_extremes(self@, with_prefix::<()>(v, 0));
                    if v >= x {
                        assert forall|q: int| 0 <= q < self@.len() && below::<()>(x)(
                            #[trigger] self@[q],
                        ) implies below::<()>(v)(self@[q]) by {}
                        lemma_filter_len_monotone(self@, below::<()>(x), below::<()>(v));
                    }
                    assert forall|i: int| 0 <= i < self@.len() && (#[trigger] self@[i]).0 <= x implies self@[i].0
                        <= v by {
                        if self@[i].0 > v {
                            assert forall|q: int| 0 <= q < self@.len() && at_most::<()>(v)(
                                #[trigger] self@[q],
                            ) implies below::<()>(x)(self@[q]) by {}
                            lemma_filter_len_strict(self@, at_most::<()>(v), below::<()>(x), i);
                        }
                    }
                },
                None => {},
            }
        }
        found
    }
}

/// At the root no key, combined with `x`, is below what is left of `x`
/// above the bits of the keys.
proof fn lemma_xor_start(s: Seq<(u64, ())>, x: u64, height: int)
    requires
        1 <= height <= 64,
        forall|i: int| 0 <= i < s.len() ==> clear_low(#[trigger] s[i].0, height) == 0,
    ensures
        s.filter(below_xor(x, clear_low(0u64 ^ x, height))).len() == 0,
{
    let bound = clear_low(0u64 ^ x, height);
    assert forall|i: int| 0 <= i < s.len() implies !below_xor(x, bound)(#[trigger] s[i]) by {
        let e = s[i].0;
        let ce = clear_low(e, height);
        if height < 64 {
            let k = height as u64;
            assert(!((e ^ x) < bound)) by (bit_vector)
                requires
                    0 < k < 64,
                    ce == (e >> k) << k,
                    ce == 0,
                    bound == ((0u64 ^ x) >> k) << k,
            ;
        }
    }
    lemma_filter_none(s, below_xor(x, bound));
}

impl<const D: u8> MultiBinaryTrie<D> {
    /// Adds `x` as an element, once more if it is one already.
    pub fn insert(&mut self, x: u64)
        requires
            old(self).wf(),
            fits(x, D as int),
            old(self)@.len() < u32::MAX,
            old(self).nodes() + D < NONE,
        ensures
            final(self).wf(),
            final(self)@ == old(self)@.push((x, ())),
            final(self).nodes() <= old(self).nodes() + D,
    {
        let ghost before = self.items@;
        let ghost after = before.push((x, ()));
        let ghost start = self.tree.len();
        let mut ptr: usize = 0;
        let mut d: u8 = D;
        proof {
            lemma_fits_clear_low(x, D as int);
            assert forall|n: int| 0 <= n < self.tree.len() implies #[trigger] node_mid(
                self.tree@,
                self.keys@,
                before,
                after,
                D as int,
                D as int,
                n,
            ) by {
                assert(node_ok(self.tree@, self.keys@, before, D as int, n));
            }
        }
        while d > 0
            invariant
                1 <= D <= 64,
                d <= D,
                after == before.push((x, ())),
                before.len() < u32::MAX,
                self.items@ == before,
                clear_low(x, D as int) == 0,
                forall|i: int| 0 <= i < before.len() ==> clear_low(#[trigger] before[i].0, D as int) == 0,
                self.tree.len() <= start + (D - d),
                start + D < NONE,
                shape_mid(self.tree@, self.keys@, before, after, D as int, d as int),
                ptr < self.tree.len(),
                self.keys@[ptr as int] == (d as int, clear_low(x, d as int)),
            decreases d,
        {
            let ghost tree0 = self.tree@;
            let ghost keys0 = self.keys@;
            let ghost up = d as int;
            d -= 1;
            let b: bool = ((x >> (d as u64)) & 1) == 1;
            let ghost px = clear_low(x, up);
            let ghost cx = clear_low(x, d as int);
            proof {
                lemma_clear_low_step(x, d as u64);
                assert(node_mid(tree0, keys0, before, after, D as int, up, ptr as int));
                lemma_parent_key(px, cx, up, b);
                lemma_split(before, px, d as int);
            }
            let existing: u32 = if b {
                self.tree[ptr].1
            } else {
                self.tree[ptr].0
            };
            if existing == NONE {
                let l: usize = self.tree.len();
                self.tree.push(Node(NONE, NONE, 0));
                let old_node = self.tree[ptr];
                if b {
                    self.tree[ptr] = Node(old_node.0, l as u32, old_node.2);
                } else {
                    self.tree[ptr] = Node(l as u32, old_node.1, old_node.2);
                }
                proof {
                    self.keys@ = keys0.push((d as int, cx));
                }
            }
            let ghost tree1 = self.tree@;
            let ghost keys1 = self.keys@;
            let ghost parent = ptr as int;
            let ghost created = existing == NONE;
            ptr = if b {
                self.tree[ptr].1 as usize
            } else {
                self.tree[ptr].0 as usize
            };
            let ghost c = ptr as int;
            proof {
                lemma_filter_len_extremes(before, with_prefix::<()>(cx, d as int));
                if !created {
                    assert(node_mid(tree0, keys0, before, after, D as int, up, c));
                }
                assert(tree1[c].2 == count_prefix(before, cx, d as int));
            }
            let node = self.tree[ptr];
            self.tree[ptr] = Node(node.0, node.1, node.2 + 1);
            proof {
                lemma_insert_step(
                    tree0,
                    keys0,
                    self.tree@,
                    keys1,
                    before,
                    x,
                    D as int,
                    up,
                    parent,
                    c,
                    created,
                );
            }
        }
        proof {
            self.items@ = after;
            assert forall|n: int| 0 <= n < self.tree.len() implies #[trigger] node_ok(
                self.tree@,
                self.keys@,
                after,
                D as int,
                n,
            ) by {
                assert(node_mid(self.tree@, self.keys@, before, after, D as int, 0, n));
            }
        }
    }

    /// Takes `x` away as an element, once. Tells whether `x` was an
    /// element.
    pub fn remove(&mut self, x: u64) -> (removed: bool)
        requires
            old(self).wf(),
            fits(x, D as int),
        ensures
            final(self).wf(),
            final(self).nodes() == old(self).nodes(),
            removed == (occurrences(old(self)@, x) > 0),
            removed ==> old(self)@.contains((x, ())) && final(self)@ == old(self)@.remove(
                old(self)@.index_of((x, ())),
            ),
            !removed ==> final(self)@ == old(self)@,
    {
        if !self.contains(x) {
            return false;
        }
        let ghost before = self.items@;
        proof {
            lemma_filter_len_extremes(before, with_prefix::<()>(x, 0));
            if forall|i: int| 0 <= i < before.len() ==> !with_prefix::<()>(x, 0)(#[trigger] before[i]) {
                lemma_filter_none(before, with_prefix::<()>(x, 0));
            }
            let w = choose|i: int| 0 <= i < before.len() && with_prefix::<()>(x, 0)(#[trigger] before[i]);
            assert(before[w] == (x, ()));
        }
        let ghost k = before.index_of((x, ()));
        let ghost after = before.remove(k);
        let mut ptr: usize = 0;
        let mut d: u8 = D;
        proof {
            lemma_fits_clear_low(x, D as int);
            assert forall|n: int| 0 <= n < self.tree.len() implies #[trigger] node_mid(
                self.tree@,
                self.keys@,
                before,
                after,
                D as int,
                D as int,
                n,
            ) by {
                assert(node_ok(self.tree@, self.keys@, before, D as int, n));
            }
        }
        while d > 0
            invariant
                1 <= D <= 64,
                d <= D,
                0 <= k < before.len(),
                before[k] == (x, ()),
                after == before.remove(k),
                before.len() <= u32::MAX,
                self.items@ == before,
                self.tree.len() == old(self).tree.len(),
                clear_low(x, D as int) == 0,
                shape_mid(self.tree@, self.keys@, before, after, D as int, d as int),
                ptr < self.tree.len(),
                self.keys@[ptr as int] == (d as int, clear_low(x, d as int)),
            decreases d,
        {
            let ghost tree0 = self.tree@;
            let ghost keys0 = self.keys@;
            let ghost up = d as int;
            d -= 1;
            let b: bool = ((x >> (d as u64)) & 1) == 1;
            let ghost px = clear_low(x, up);
            let ghost cx = clear_low(x, d as int);
            proof {
                lemma_clear_low_step(x, d as u64);
                assert(node_mid(tree0, keys0, before, after, D as int, up, ptr as int));
                lemma_parent_key(px, cx, up, b);
                lemma_count_remove(before, k, cx, d as int);
            }
            let ghost parent = ptr as int;
            ptr = if b {
                self.tree[ptr].1 as usize
            } else {
                self.tree[ptr].0 as usize
            };
            proof {
                assert(node_mid(tree0, keys0, before, after, D as int, up, ptr as int));
            }
            let node = self.tree[ptr];
            self.tree[ptr] = Node(node.0, node.1, node.2 - 1);
            proof {
                let tree2 = self.tree@;
                assert forall|n: int| 0 <= n < tree2.len() implies #[trigger] node_mid(
                    tree2,
                    keys0,
                    before,
                    after,
                    D as int,
                    d as int,
                    n,
                ) by {
                    let dn = keys0[n].0;
                    let tn = keys0[n].1;
                    assert(node_mid(tree0, keys0, before, after, D as int, up, n));
                    lemma_count_remove(before, k, tn, dn);
                    if dn >= 1 {
                        lemma_count_remove(before, k, tn, dn - 1);
                        lemma_count_remove(before, k, tn | (1u64 << ((dn - 1) as u64)), dn - 1);
                    }
                }
                assert forall|j: int| 1 <= j < tree2.len() implies #[trigger] has_parent(tree2, j) by {
                    assert(has_parent(tree0, j));
                    let i = choose|i: int| #[trigger] is_child(tree0, i, j);
                    assert(is_child(tree2, i, j));
                }
            }
        }
        proof {
            self.items@ = after;
            assert forall|n: int| 0 <= n < self.tree.len() implies #[trigger] node_ok(
                self.tree@,
                self.keys@,
                after,
                D as int,
                n,
            ) by {
                assert(node_mid(self.tree@, self.keys@, before, after, D as int, 0, n));
            }
            assert forall|i: int| 0 <= i < after.len() implies clear_low(
                #[trigger] after[i].0,
                D as int,
            ) == 0 by {
                if i < k {
                    assert(after[i] == before[i]);
                } else {
                    assert(after[i] == before[i + 1]);
                }
            }
        }
        true
    }
}

/// The items that count at a node at which `d` bits remain while a walk
/// that turns `before` into `after` stands where `upto` bits remain: the
/// walk has brought the nodes that it has passed up to date.
spec fn items_at(before: Seq<(u64, ())>, after: Seq<(u64, ())>, upto: int, d: int) -> Seq<
    (u64, ()),
> {
    if d >= upto {
        after
    } else {
        before
    }
}

/// `child_ok` during such a walk.
spec fn child_mid(
    tree: Seq<Node>,
    keys: Seq<(int, u64)>,
    before: Seq<(u64, ())>,
    after: Seq<(u64, ())>,
    upto: int,
    n: int,
    one: bool,
) -> bool {
    let d = keys[n].0;
    let t = keys[n].1;
    let c = if one {
        tree[n].1
    } else {
        tree[n].0
    };
    let tc = if one {
        t | (1u64 << ((d - 1) as u64))
    } else {
        t
    };
    if c == NONE {
        count_prefix(items_at(before, after, upto, d - 1), tc, d - 1) == 0
    } else {
        1 <= c < tree.len() && keys[c as int] == (d - 1, tc)
    }
}

/// `node_ok` during such a walk.
spec fn node_mid(
    tree: Seq<Node>,
    keys: Seq<(int, u64)>,
    before: Seq<(u64, ())>,
    after: Seq<(u64, ())>,
    height: int,
    upto: int,
    n: int,
) -> bool {
    let d = keys[n].0;
    let t = keys[n].1;
    &&& 0 <= d <= height
    &&& clear_low(t, d) == t
    &&& clear_low(t, height) == 0
    &&& n >= 1 ==> d < height && tree[n].2 == count_prefix(items_at(before, after, upto, d), t, d)
    &&& n == 0 ==> d == height
    &&& d == 0 ==> tree[n].0 == NONE && tree[n].1 == NONE
    &&& d >= 1 ==> child_mid(tree, keys, before, after, upto, n, false) && child_mid(
        tree,
        keys,
        before,
        after,
        upto,
        n,
        true,
    )
}

/// The shape of the trie during such a walk.
spec fn shape_mid(
    tree: Seq<Node>,
    keys: Seq<(int, u64)>,
    before: Seq<(u64, ())>,
    after: Seq<(u64, ())>,
    height: int,
    upto: int,
) -> bool {
    &&& tree.len() >= 1
    &&& keys.len() == tree.len()
    &&& tree.len() < NONE
    &&& keys[0] == (height, 0u64)
    &&& forall|n: int|
        0 <= n < tree.len() ==> #[trigger] node_mid(tree, keys, before, after, height, upto, n)
    &&& forall|i: int, j: int|
        0 <= i < tree.len() && 0 <= j < tree.len() && #[trigger] keys[i] == #[trigger] keys[j]
            ==> i == j
    &&& forall|j: int| 1 <= j < tree.len() ==> #[trigger] has_parent(tree, j)
}

/// Whether `tree2` with `keys1` comes from `tree0` with `keys0` by one step
/// of the insertion of `x` from the node `parent`, at which `up` bits
/// remain, to its child `c` for the next bit of `x`, which the step makes if
/// it is not there, and whose count it raises by one.
spec fn insert_step(
    tree0: Seq<Node>,
    keys0: Seq<(int, u64)>,
    tree2: Seq<Node>,
    keys1: Seq<(int, u64)>,
    x: u64,
    up: int,
    parent: int,
    c: int,
    created: bool,
) -> bool {
    let d = up - 1;
    let b = bit_at(x, d);
    let link = if b {
        tree0[parent].1
    } else {
        tree0[parent].0
    };
    &&& 0 <= parent < tree0.len()
    &&& keys0[parent] == (up, clear_low(x, up))
    &&& created == (link == NONE)
    &&& created ==> {
        &&& c == tree0.len()
        &&& tree2.len() == tree0.len() + 1
        &&& keys1 == keys0.push((d, clear_low(x, d)))
        &&& tree2[c] == Node(NONE, NONE, 1)
        &&& tree2[parent] == if b {
            Node(tree0[parent].0, c as u32, tree0[parent].2)
        } else {
            Node(c as u32, tree0[parent].1, tree0[parent].2)
        }
        &&& forall|n: int| 0 <= n < tree0.len() && n != parent ==> #[trigger] tree2[n] == tree0[n]
    }
    &&& !created ==> {
        &&& c == link
        &&& tree2.len() == tree0.len()
        &&& keys1 == keys0
        &&& 0 <= c < tree0.len()
        &&& tree2[c] == Node(tree0[c].0, tree0[c].1, (tree0[c].2 + 1) as u32)
        &&& forall|n: int| 0 <= n < tree0.len() && n != c ==> #[trigger] tree2[n] == tree0[n]
    }
}

/// Before a step of an insertion makes a node, no node stands for the
/// prefix that the new node is to stand for.
proof fn lemma_insert_fresh(
    tree0: Seq<Node>,
    keys0: Seq<(int, u64)>,
    before: Seq<(u64, ())>,
    after: Seq<(u64, ())>,
    x: u64,
    height: int,
    up: int,
    parent: int,
    q: int,
)
    requires
        1 <= up <= height <= 64,
        shape_mid(tree0, keys0, before, after, height, up),
        0 <= parent < tree0.len(),
        keys0[parent] == (up, clear_low(x, up)),
        (if bit_at(x, up - 1) {
            tree0[parent].1
        } else {
            tree0[parent].0
        }) == NONE,
        0 <= q < tree0.len(),
    ensures
        keys0[q] != (up - 1, clear_low(x, up - 1)),
{
    let d = up - 1;
    let cx = clear_low(x, d);
    if keys0[q] == (d, cx) {
        lemma_clear_low_step(x, d as u64);
        assert(node_mid(tree0, keys0, before, after, height, up, q));
        assert(has_parent(tree0, q));
        let i = choose|i: int| #[trigger] is_child(tree0, i, q);
        assert(node_mid(tree0, keys0, before, after, height, up, i));
        assert(node_mid(tree0, keys0, before, after, height, up, parent));
        let di = keys0[i].0;
        let ti = keys0[i].1;
        lemma_parent_key(ti, ti, di, false);
        lemma_parent_key(ti, ti | (1u64 << ((di - 1) as u64)), di, true);
        lemma_parent_key(clear_low(x, up), cx, up, bit_at(x, d));
        assert(keys0[i] == keys0[parent]);
    }
}

/// What a node of the trie is after a step of an insertion.
proof fn lemma_insert_node(
    tree0: Seq<Node>,
    keys0: Seq<(int, u64)>,
    tree2: Seq<Node>,
    keys1: Seq<(int, u64)>,
    before: Seq<(u64, ())>,
    x: u64,
    height: int,
    up: int,
    parent: int,
    c: int,
    created: bool,
    n: int,
)
    requires
        1 <= up <= height <= 64,
        shape_mid(tree0, keys0, before, before.push((x, ())), height, up),
        insert_step(tree0, keys0, tree2, keys1, x, up, parent, c, created),
        tree2.len() < NONE,
        0 <= n < tree2.len(),
        !created ==> tree0[c].2 < u32::MAX,
        clear_low(x, height) == 0,
    ensures
        node_mid(tree2, keys1, before, before.push((x, ())), height, up - 1, n),
{
    let after = before.push((x, ()));
    let d = up - 1;
    let b = bit_at(x, d);
    let px = clear_low(x, up);
    let cx = clear_low(x, d);
    let dn = keys1[n].0;
    let tn = keys1[n].1;
    let t_one = tn | (1u64 << ((dn - 1) as u64));
    lemma_clear_low_step(x, d as u64);
    lemma_parent_key(px, cx, up, b);
    assert(node_mid(tree0, keys0, before, after, height, up, parent));
    if !created {
        assert(node_mid(tree0, keys0, before, after, height, up, c));
    }
    if n < tree0.len() {
        assert(node_mid(tree0, keys0, before, after, height, up, n));
        assert(keys1[n] == keys0[n]);
        lemma_insert_distinct(tree0, keys0, before, after, x, height, up, parent, c, created, n);
    } else {
        lemma_zero_prefix(height as u64);
        lemma_zero_prefix(d as u64);
        lemma_prefix_fits(x, d, height);
    }
    lemma_count_push(before, x, tn, dn);
    if dn >= 1 {
        lemma_count_push(before, x, tn, dn - 1);
        lemma_count_push(before, x, t_one, dn - 1);
        lemma_parent_key(tn, tn, dn, false);
        lemma_parent_key(tn, t_one, dn, true);
    }
    if n == c && created && dn >= 1 {
        lemma_split(before, cx, dn - 1);
    }
}

/// What is left of a number of `height` bits above some of its bits is a
/// number of `height` bits.
proof fn lemma_prefix_fits(x: u64, d: int, height: int)
    requires
        0 <= d <= height <= 64,
        clear_low(x, height) == 0,
    ensures
        clear_low(clear_low(x, d), height) == 0,
        clear_low(clear_low(x, d), d) == clear_low(x, d),
{
    let cx = clear_low(x, d);
    let ch = clear_low(cx, height);
    let cc = clear_low(cx, d);
    let xh = clear_low(x, height);
    if height < 64 {
        let k = d as u64;
        let h = height as u64;
        assert(ch == 0 && cc == cx) by (bit_vector)
            requires
                k <= h < 64,
                cx == if k == 0 {
                    x
                } else {
                    (x >> k) << k
                },
                cc == if k == 0 {
                    cx
                } else {
                    (cx >> k) << k
                },
                xh == if h == 0 {
                    x
                } else {
                    (x >> h) << h
                },
                xh == 0,
                ch == if h == 0 {
                    cx
                } else {
                    (cx >> h) << h
                },
        ;
    } else if d < 64 {
        let k = d as u64;
        assert(cc == cx) by (bit_vector)
            requires
                k < 64,
                cx == if k == 0 {
                    x
                } else {
                    (x >> k) << k
                },
                cc == if k == 0 {
                    cx
                } else {
                    (cx >> k) << k
                },
        ;
    }
}

/// In a step of an insertion, a node that is neither the child that the
/// step goes to nor its parent stands for another prefix than they.
proof fn lemma_insert_distinct(
    tree0: Seq<Node>,
    keys0: Seq<(int, u64)>,
    before: Seq<(u64, ())>,
    after: Seq<(u64, ())>,
    x: u64,
    height: int,
    up: int,
    parent: int,
    c: int,
    created: bool,
    n: int,
)
    requires
        1 <= up <= height <= 64,
        shape_mid(tree0, keys0, before, after, height, up),
        0 <= parent < tree0.len(),
        keys0[parent] == (up, clear_low(x, up)),
        created == ((if bit_at(x, up - 1) {
            tree0[parent].1
        } else {
            tree0[parent].0
        }) == NONE),
        !created ==> c == (if bit_at(x, up - 1) {
            tree0[parent].1
        } else {
            tree0[parent].0
        }),
        created ==> c == tree0.len(),
        0 <= n < tree0.len(),
    ensures
        n != c ==> keys0[n] != (up - 1, clear_low(x, up - 1)),
        n != parent ==> keys0[n] != (up, clear_low(x, up)),
{
    if created {
        lemma_insert_fresh(tree0, keys0, before, after, x, height, up, parent, n);
    } else {
        assert(node_mid(tree0, keys0, before, after, height, up, parent));
        lemma_clear_low_step(x, (up - 1) as u64);
    }
}

/// After a step of an insertion the trie has its shape, with the walk one
/// bit further down.
proof fn lemma_insert_step(
    tree0: Seq<Node>,
    keys0: Seq<(int, u64)>,
    tree2: Seq<Node>,
    keys1: Seq<(int, u64)>,
    before: Seq<(u64, ())>,
    x: u64,
    height: int,
    up: int,
    parent: int,
    c: int,
    created: bool,
)
    requires
        1 <= up <= height <= 64,
        shape_mid(tree0, keys0, before, before.push((x, ())), height, up),
        insert_step(tree0, keys0, tree2, keys1, x, up, parent, c, created),
        tree2.len() < NONE,
        !created ==> tree0[c].2 < u32::MAX,
        clear_low(x, height) == 0,
    ensures
        shape_mid(tree2, keys1, before, before.push((x, ())), height, up - 1),
        0 <= c < tree2.len(),
        keys1[c] == (up - 1, clear_low(x, up - 1)),
{
    let after = before.push((x, ()));
    lemma_clear_low_step(x, (up - 1) as u64);
    assert(node_mid(tree0, keys0, before, after, height, up, parent));
    assert forall|n: int| 0 <= n < tree2.len() implies #[trigger] node_mid(
        tree2,
        keys1,
        before,
        after,
        height,
        up - 1,
        n,
    ) by {
        lemma_insert_node(tree0, keys0, tree2, keys1, before, x, height, up, parent, c, created, n);
    }
    assert forall|i: int, j: int|
        0 <= i < tree2.len() && 0 <= j < tree2.len() && #[trigger] keys1[i] == #[trigger] keys1[j] implies i
        == j by {
        if i < tree0.len() && j < tree0.len() {
            assert(keys0[i] == keys0[j]);
        } else if i < tree0.len() {
            lemma_insert_fresh(tree0, keys0, before, after, x, height, up, parent, i);
        } else if j < tree0.len() {
            lemma_insert_fresh(tree0, keys0, before, after, x, height, up, parent, j);
        }
    }
    assert forall|j: int| 1 <= j < tree2.len() implies #[trigger] has_parent(tree2, j) by {
        if j < tree0.len() {
            assert(has_parent(tree0, j));
            let i = choose|i: int| #[trigger] is_child(tree0, i, j);
            assert(tree0[i].0 == j || tree0[i].1 == j);
            if i == parent && created {
                assert(tree2[i].0 == j || tree2[i].1 == j);
            }
            assert(is_child(tree2, i, j));
        } else {
            assert(is_child(tree2, parent, j));
        }
    }
}

/// Adding an item adds one to the count of each prefix of its key.
proof fn lemma_count_push(s: Seq<(u64, ())>, x: u64, t: u64, d: int)
    ensures
        count_prefix(s.push((x, ())), t, d) == count_prefix(s, t, d) + if clear_low(x, d) == t {
            1nat
        } else {
            0nat
        },
{
    s.lemma_filter_push((x, ()), with_prefix::<()>(t, d));
}

/// Taking an item away takes one from the count of each prefix of its key.
proof fn lemma_count_remove(s: Seq<(u64, ())>, k: int, t: u64, d: int)
    requires
        0 <= k < s.len(),
    ensures
        count_prefix(s.remove(k), t, d) + (if clear_low(s[k].0, d) == t {
            1nat
        } else {
            0nat
        }) == count_prefix(s, t, d),
{
    let f = with_prefix::<()>(t, d);
    let a = s.take(k);
    let b = s.skip(k + 1);
    assert(s.remove(k) =~= a + b);
    assert(s =~= a.push(s[k]) + b);
    Seq::filter_distributes_over_add(a, b, f);
    Seq::filter_distributes_over_add(a.push(s[k]), b, f);
    a.lemma_filter_push(s[k], f);
}

/// The node that stands for a prefix stands, one bit up, below the node
/// that stands for the shorter prefix.
proof fn lemma_parent_key(t: u64, tc: u64, d: int, one: bool)
    requires
        1 <= d <= 64,
        clear_low(t, d) == t,
        tc == if one {
            t | (1u64 << ((d - 1) as u64))
        } else {
            t
        },
    ensures
        clear_low(tc, d) == t,
        clear_low(tc, d - 1) == tc,
        bit_at(tc, d - 1) == one,
{
    lemma_bit_set(t, (d - 1) as u64);
    lemma_clear_low_step(t, (d - 1) as u64);
    lemma_clear_low_step(tc, (d - 1) as u64);
}

/// The items whose key, combined with `x` by exclusive or, is less than
/// `bound`.
pub open spec fn below_xor(x: u64, bound: u64) -> spec_fn((u64, ())) -> bool {
    |p: (u64, ())| (p.0 ^ x) < bound
}

/// Whether `m` is the least of the keys of `s`, each combined with `x` by
/// exclusive or.
pub open spec fn is_xor_min(s: Seq<(u64, ())>, x: u64, m: u64) -> bool {
    &&& exists|i: int| 0 <= i < s.len() && #[trigger] (s[i].0 ^ x) == m
    &&& forall|i: int| 0 <= i < s.len() ==> m <= #[trigger] (s[i].0 ^ x)
}

/// Whether `v` is the least key of `s` that is not less than `x`.
pub open spec fn is_least_from(s: Seq<(u64, ())>, x: u64, v: u64) -> bool {
    &&& x <= v
    &&& occurrences(s, v) > 0
    &&& forall|i: int| 0 <= i < s.len() && x <= (#[trigger] s[i]).0 ==> v <= s[i].0
}

/// Whether `v` is the greatest key of `s` that is not greater than `x`.
pub open spec fn is_greatest_upto(s: Seq<(u64, ())>, x: u64, v: u64) -> bool {
    &&& v <= x
    &&& occurrences(s, v) > 0
    &&& forall|i: int| 0 <= i < s.len() && (#[trigger] s[i]).0 <= x ==> s[i].0 <= v
}

/// The keys at most `v` are those below `v` and those that are `v`.
proof fn lemma_at_most_split(s: Seq<(u64, ())>, v: u64)
    ensures
        s.filter(at_most::<()>(v)).len() == s.filter(below::<()>(v)).len() + occurrences(s, v),
{
    assert forall|i: int| 0 <= i < s.len() implies {
        &&& at_most::<()>(v)(#[trigger] s[i]) == (below::<()>(v)(s[i]) || with_prefix::<()>(v, 0)(
            s[i],
        ))
        &&& !(below::<()>(v)(s[i]) && with_prefix::<()>(v, 0)(s[i]))
    } by {}
    lemma_filter_disjoint_len(s, below::<()>(v), with_prefix::<()>(v, 0), at_most::<()>(v));
}

/// How the choice of the child by the bit of `x` splits the keys by their
/// exclusive or with `x`.
proof fn lemma_xor_bits(e: u64, x: u64, t: u64, j: u64)
    requires
        j < 64,
        clear_low(t, j + 1) == t,
    ensures
        ({
            let t1 = t | (1u64 << j);
            let near = if bit_at(x, j as int) {
                t1
            } else {
                t
            };
            let bound = clear_low(t ^ x, j + 1);
            &&& clear_low(bound, j + 1) == bound
            &&& ((e ^ x) < (bound | (1u64 << j))) <==> ((e ^ x) < bound || clear_low(e, j as int)
                == near)
            &&& !((e ^ x) < bound && clear_low(e, j as int) == near)
            &&& clear_low((t ^ x), j as int) == if bit_at(x, j as int) {
                bound | (1u64 << j)
            } else {
                bound
            }
            &&& clear_low((t1 ^ x), j as int) == if bit_at(x, j as int) {
                bound
            } else {
                bound | (1u64 << j)
            }
        }),
{
    let m = 1u64 << j;
    let t1 = t | m;
    let y = e ^ x;
    let tx = t ^ x;
    let t1x = t1 ^ x;
    let bound = clear_low(tx, j + 1);
    lemma_clear_low_step(tx, j);
    crate::level_order::lemma_descend_bits(y, bound, j);
    crate::level_order::lemma_clear_low_masks(x, j);
    crate::level_order::lemma_clear_low_masks(y, j);
    crate::level_order::lemma_clear_low_masks(e, j);
    crate::level_order::lemma_clear_low_masks(t, j);
    crate::level_order::lemma_clear_low_masks(tx, j);
    crate::level_order::lemma_clear_low_masks(t1x, j);
    let low = (m - 1) as u64;
    let near = if x & m != 0 {
        t1
    } else {
        t
    };
    assert({
        &&& (y & !low == tx & !(low | m)) <==> (e & !low == near)
        &&& tx & !low == if x & m != 0 {
            (tx & !(low | m)) | m
        } else {
            tx & !(low | m)
        }
        &&& t1x & !low == if x & m != 0 {
            tx & !(low | m)
        } else {
            (tx & !(low | m)) | m
        }
    }) by (bit_vector)
        requires
            m != 0,
            m & low == 0,
            low == m - 1,
            t & !(low | m) == t,
            t1 == t | m,
            y == e ^ x,
            tx == t ^ x,
            t1x == t1 ^ x,
            near == if x & m != 0 {
                t1
            } else {
                t
            },
    ;
}

/// Where no item agrees with `x` above its `d` lowest bits, as many items
/// are below `x` as are below `x` with those bits cleared.
proof fn lemma_below_gap(s: Seq<(u64, ())>, x: u64, d: int)
    requires
        0 <= d <= 64,
        count_prefix(s, clear_low(x, d), d) == 0,
    ensures
        s.filter(below::<()>(x)).len() == s.filter(below::<()>(clear_low(x, d))).len(),
{
    let p = clear_low(x, d);
    lemma_filter_len_extremes(s, with_prefix::<()>(p, d));
    assert forall|i: int| 0 <= i < s.len() implies (below::<()>(x)(#[trigger] s[i]) <==> below::<
        (),
    >(p)(s[i])) by {
        lemma_gap_bits(s[i].0, x, d);
    }
    assert forall|i: int| 0 <= i < s.len() && below::<()>(x)(#[trigger] s[i]) implies below::<()>(
        p,
    )(s[i]) by {}
    assert forall|i: int| 0 <= i < s.len() && below::<()>(p)(#[trigger] s[i]) implies below::<()>(
        x,
    )(s[i]) by {}
    lemma_filter_len_monotone(s, below::<()>(x), below::<()>(p));
    lemma_filter_len_monotone(s, below::<()>(p), below::<()>(x));
}

/// A number that does not agree with `x` above its `d` lowest bits is below
/// `x` exactly if it is below `x` with those bits cleared.
proof fn lemma_gap_bits(e: u64, x: u64, d: int)
    requires
        0 <= d <= 64,
        clear_low(e, d) != clear_low(x, d),
    ensures
        e < x <==> e < clear_low(x, d),
{
    if 0 < d < 64 {
        let k = d as u64;
        let ce = clear_low(e, d);
        let cx = clear_low(x, d);
        assert(e < x <==> e < cx) by (bit_vector)
            requires
                0 < k < 64,
                ce == (e >> k) << k,
                cx == (x >> k) << k,
                ce != cx,
        ;
    }
}

/// Nothing is left of zero when low bits are cleared.
proof fn lemma_zero_prefix(d: u64)
    requires
        d <= 64,
    ensures
        clear_low(0, d as int) == 0,
{
    if 0 < d < 64 {
        assert((0u64 >> d) << d == 0) by (bit_vector)
            requires
                d < 64,
        ;
    }
}

/// Where no item agrees with `x` above its `d` lowest bits, no item is `x`.
proof fn lemma_prefix_of(s: Seq<(u64, ())>, x: u64, d: int)
    requires
        0 <= d <= 64,
        count_prefix(s, clear_low(x, d), d) == 0,
    ensures
        occurrences(s, x) == 0,
{
    assert forall|i: int| 0 <= i < s.len() && with_prefix::<()>(x, 0)(#[trigger] s[i]) implies with_prefix::<
        (),
    >(clear_low(x, d), d)(s[i]) by {}
    lemma_filter_len_monotone(s, with_prefix::<()>(x, 0), with_prefix::<()>(clear_low(x, d), d));
}

} // verus!

//! The order in which a wavelet matrix keeps its items, level by level.
//!
//! An item is a key with something attached to it. Level `height` is the
//! order in which the items were given. Each level below is the stable
//! partition of the level above by one bit of the key: the items whose bit is
//! clear come first, those whose bit is set follow, and inside each group the
//! items keep their order.

use vstd::prelude::*;
use crate::bit_vector::{bit_at, rank_of};
use crate::weight::{Weight, total_weight, lemma_total_weight_push};

verus! {

/// `x` with its `k` lowest bits cleared.
pub open spec fn clear_low(x: u64, k: int) -> u64 {
    if k >= 64 {
        0
    } else if k <= 0 {
        x
    } else {
        (x >> (k as u64)) << (k as u64)
    }
}

/// Whether `x` can be written in `height` bits, that is, whether it is less
/// than two to the power `height`.
pub open spec fn fits(x: u64, height: int) -> bool {
    height >= 64 || (0 <= height && x < (1u64 << (height as u64)))
}

/// A key fits in `height` bits exactly if nothing is left of it when its
/// `height` lowest bits are cleared.
pub proof fn lemma_fits_clear_low(x: u64, height: int)
    requires
        0 <= height <= 64,
    ensures
        fits(x, height) <==> clear_low(x, height) == 0,
{
    if height < 64 {
        let h = height as u64;
        let c = clear_low(x, height);
        assert(x < (1u64 << h) <==> c == 0) by (bit_vector)
            requires
                h < 64,
                c == if h == 0 {
                    x
                } else {
                    (x >> h) << h
                },
        ;
    }
}

/// The items whose key has bit `j` equal to `b`.
pub open spec fn with_bit<T>(j: int, b: bool) -> spec_fn((u64, T)) -> bool {
    |p: (u64, T)| bit_at(p.0, j) == b
}

/// The items whose key agrees with `t` above its `k` lowest bits.
pub open spec fn with_prefix<T>(t: u64, k: int) -> spec_fn((u64, T)) -> bool {
    |p: (u64, T)| clear_low(p.0, k) == t
}

/// The items whose key is less than `upper`.
pub open spec fn below<T>(upper: u64) -> spec_fn((u64, T)) -> bool {
    |p: (u64, T)| p.0 < upper
}

/// The items whose key is at most `bound`.
pub open spec fn at_most<T>(bound: u64) -> spec_fn((u64, T)) -> bool {
    |p: (u64, T)| p.0 <= bound
}

/// The items of `s` with bit `j` of the key clear, followed by those with
/// that bit set, each group in the order it has in `s`.
pub open spec fn stable_partition<T>(s: Seq<(u64, T)>, j: int) -> Seq<(u64, T)> {
    s.filter(with_bit(j, false)) + s.filter(with_bit(j, true))
}

/// The order of the items at level `k` of a matrix of the given height.
pub open spec fn level<T>(s: Seq<(u64, T)>, height: int, k: int) -> Seq<(u64, T)>
    decreases height - k,
{
    if k >= height {
        s
    } else {
        stable_partition(level(s, height, k + 1), k)
    }
}

/// A filter that every element passes changes nothing.
pub proof fn lemma_filter_all<A>(s: Seq<A>, f: spec_fn(A) -> bool)
    requires
        forall|i: int| 0 <= i < s.len() ==> f(#[trigger] s[i]),
    ensures
        s.filter(f) == s,
    decreases s.len(),
{
    reveal(Seq::filter);
    if s.len() > 0 {
        lemma_filter_all(s.drop_last(), f);
        assert(s.drop_last().push(s.last()) =~= s);
    }
}

/// Filtering twice is filtering once by the conjunction.
pub proof fn lemma_filter_twice<A>(
    s: Seq<A>,
    f: spec_fn(A) -> bool,
    g: spec_fn(A) -> bool,
    both: spec_fn(A) -> bool,
)
    requires
        forall|i: int| 0 <= i < s.len() ==> both(#[trigger] s[i]) == (f(s[i]) && g(s[i])),
    ensures
        s.filter(f).filter(g) == s.filter(both),
    decreases s.len(),
{
    reveal(Seq::filter);
    if s.len() > 0 {
        let d = s.drop_last();
        let x = s.last();
        lemma_filter_twice(d, f, g, both);
        if f(x) {
            d.filter(f).lemma_filter_push(x, g);
        }
    }
}

/// Where every element passes exactly one of two filters or neither, the
/// elements that pass either are as many as those that pass the one and
/// those that pass the other together.
pub proof fn lemma_filter_disjoint_len<A>(
    s: Seq<A>,
    f: spec_fn(A) -> bool,
    g: spec_fn(A) -> bool,
    either: spec_fn(A) -> bool,
)
    requires
        forall|i: int| 0 <= i < s.len() ==> either(#[trigger] s[i]) == (f(s[i]) || g(s[i])),
        forall|i: int| 0 <= i < s.len() ==> !(f(#[trigger] s[i]) && g(s[i])),
    ensures
        s.filter(either).len() == s.filter(f).len() + s.filter(g).len(),
    decreases s.len(),
{
    reveal(Seq::filter);
    if s.len() > 0 {
        lemma_filter_disjoint_len(s.drop_last(), f, g, either);
    }
}

/// The weighted counterpart of [`lemma_filter_disjoint_len`].
pub proof fn lemma_filter_disjoint_weight<T: Weight>(
    s: Seq<(u64, T)>,
    f: spec_fn((u64, T)) -> bool,
    g: spec_fn((u64, T)) -> bool,
    either: spec_fn((u64, T)) -> bool,
)
    requires
        forall|i: int| 0 <= i < s.len() ==> either(#[trigger] s[i]) == (f(s[i]) || g(s[i])),
        forall|i: int| 0 <= i < s.len() ==> !(f(#[trigger] s[i]) && g(s[i])),
    ensures
        total_weight(s.filter(either)) == total_weight(s.filter(f)) + total_weight(s.filter(g)),
    decreases s.len(),
{
    reveal(Seq::filter);
    if s.len() > 0 {
        let d = s.drop_last();
        let x = s.last();
        lemma_filter_disjoint_weight(d, f, g, either);
        lemma_total_weight_push(d.filter(either), x);
        lemma_total_weight_push(d.filter(f), x);
        lemma_total_weight_push(d.filter(g), x);
    }
}

/// A filter that no element passes leaves nothing.
pub proof fn lemma_filter_none<A>(s: Seq<A>, f: spec_fn(A) -> bool)
    requires
        forall|i: int| 0 <= i < s.len() ==> !f(#[trigger] s[i]),
    ensures
        s.filter(f) == Seq::<A>::empty(),
    decreases s.len(),
{
    reveal(Seq::filter);
    if s.len() > 0 {
        lemma_filter_none(s.drop_last(), f);
    } else {
        assert(s =~= Seq::<A>::empty());
    }
}

/// What passes a filter weighs no more than the whole.
pub proof fn lemma_filter_weight_le<T: Weight>(s: Seq<(u64, T)>, f: spec_fn((u64, T)) -> bool)
    ensures
        0 <= total_weight(s.filter(f)) <= total_weight(s),
    decreases s.len(),
{
    reveal(Seq::filter);
    if s.len() > 0 {
        let d = s.drop_last();
        lemma_filter_weight_le(d, f);
        lemma_total_weight_push(d.filter(f), s.last());
        s.last().1.lemma_range();
    }
}

/// Each item has its bit either clear or set.
pub proof fn lemma_partition_len<T>(s: Seq<(u64, T)>, j: int)
    ensures
        s.filter(with_bit(j, false)).len() + s.filter(with_bit(j, true)).len() == s.len(),
        stable_partition(s, j).len() == s.len(),
    decreases s.len(),
{
    reveal(Seq::filter);
    if s.len() > 0 {
        lemma_partition_len(s.drop_last(), j);
    }
}

/// A stable partition keeps the total weight.
pub proof fn lemma_partition_weight<T: Weight>(s: Seq<(u64, T)>, j: int)
    ensures
        total_weight(stable_partition(s, j)) == total_weight(s),
{
    let zero = with_bit::<T>(j, false);
    let one = with_bit::<T>(j, true);
    let all = |p: (u64, T)| true;
    lemma_filter_disjoint_weight(s, zero, one, all);
    lemma_filter_all(s, all);
    crate::weight::lemma_total_weight_concat(s.filter(zero), s.filter(one));
}

/// Every level holds as many items as were given.
pub proof fn lemma_level_len<T>(s: Seq<(u64, T)>, height: int, k: int)
    ensures
        level(s, height, k).len() == s.len(),
    decreases height - k,
{
    if k < height {
        lemma_level_len(s, height, k + 1);
        lemma_partition_len(level(s, height, k + 1), k);
    }
}

/// Every level weighs what the given items weigh.
pub proof fn lemma_level_weight<T: Weight>(s: Seq<(u64, T)>, height: int, k: int)
    ensures
        total_weight(level(s, height, k)) == total_weight(s),
    decreases height - k,
{
    if k < height {
        lemma_level_weight(s, height, k + 1);
        lemma_partition_weight(level(s, height, k + 1), k);
    }
}

/// Where `bits` records bit `j` of the keys of `s`, the rank of `false` at a
/// position is the number of items before it whose bit is clear.
pub proof fn lemma_rank_counts_clear<T>(bits: Seq<bool>, s: Seq<(u64, T)>, j: int, p: int)
    requires
        0 <= p <= s.len(),
        forall|q: int| 0 <= q < p ==> bits[q] == bit_at(#[trigger] s[q].0, j),
    ensures
        rank_of(bits, p, false) == s.take(p).filter(with_bit(j, false)).len(),
    decreases p,
{
    reveal(Seq::filter);
    if p > 0 {
        lemma_rank_counts_clear(bits, s, j, p - 1);
        assert(s.take(p).drop_last() =~= s.take(p - 1));
    }
}

/// Where the stretch `l..r` of `s` goes in the stable partition of `s`.
///
/// With `l0` and `r0` the numbers of items before `l` and before `r` whose
/// bit is clear, and `z` the number of all such items: the items of the
/// stretch whose bit is clear stand at `l0..r0`, and those whose bit is set
/// stand at `z + (l - l0)..z + (r - r0)`, in both cases in their old order.
pub proof fn lemma_partition_range<T>(s: Seq<(u64, T)>, j: int, l: int, r: int)
    requires
        0 <= l <= r <= s.len(),
    ensures
        ({
            let zero = with_bit::<T>(j, false);
            let one = with_bit::<T>(j, true);
            let l0 = s.take(l).filter(zero).len() as int;
            let r0 = s.take(r).filter(zero).len() as int;
            let z = s.filter(zero).len() as int;
            &&& l0 <= r0 <= z <= s.len()
            &&& l0 <= l
            &&& l - l0 <= r - r0 <= s.len() - z
            &&& stable_partition(s, j).len() == s.len()
            &&& stable_partition(s, j).subrange(l0, r0) == s.subrange(l, r).filter(zero)
            &&& stable_partition(s, j).subrange(z + l - l0, z + r - r0) == s.subrange(l, r).filter(
                one,
            )
        }),
{
    let zero = with_bit::<T>(j, false);
    let one = with_bit::<T>(j, true);
    let a = s.take(l);
    let b = s.subrange(l, r);
    let c = s.skip(r);
    assert(s.take(r) =~= a + b);
    assert(s =~= (a + b) + c);
    Seq::filter_distributes_over_add(a, b, zero);
    Seq::filter_distributes_over_add(a + b, c, zero);
    Seq::filter_distributes_over_add(a, b, one);
    Seq::filter_distributes_over_add(a + b, c, one);
    lemma_partition_len(a, j);
    lemma_partition_len(b, j);
    lemma_partition_len(c, j);
    lemma_partition_len(s, j);
    let p = stable_partition(s, j);
    let l0 = a.filter(zero).len() as int;
    let r0 = (a + b).filter(zero).len() as int;
    let z = s.filter(zero).len() as int;
    assert(p.subrange(l0, r0) =~= b.filter(zero));
    assert(p.subrange(z + l - l0, z + r - r0) =~= b.filter(one));
}

/// Where the item at position `p` of `s` goes in the stable partition of
/// `s`, and what it adds to the count of clear bits before it.
pub proof fn lemma_partition_index<T>(s: Seq<(u64, T)>, j: int, p: int)
    requires
        0 <= p < s.len(),
    ensures
        ({
            let zero = with_bit::<T>(j, false);
            let l0 = s.take(p).filter(zero).len() as int;
            let r0 = s.take(p + 1).filter(zero).len() as int;
            let z = s.filter(zero).len() as int;
            &&& l0 <= r0 <= z <= s.len()
            &&& l0 <= p
            &&& stable_partition(s, j).len() == s.len()
            &&& !bit_at(s[p].0, j) ==> r0 == l0 + 1 && stable_partition(s, j)[l0] == s[p]
            &&& bit_at(s[p].0, j) ==> r0 == l0 && z + p - l0 < s.len() && stable_partition(
                s,
                j,
            )[z + p - l0] == s[p]
        }),
{
    let zero = with_bit::<T>(j, false);
    let one = with_bit::<T>(j, true);
    lemma_partition_range(s, j, p, p + 1);
    let b = s.subrange(p, p + 1);
    let l0 = s.take(p).filter(zero).len() as int;
    let r0 = s.take(p + 1).filter(zero).len() as int;
    let z = s.filter(zero).len() as int;
    let part = stable_partition(s, j);
    reveal(Seq::filter);
    b.drop_last().lemma_filter_len(zero);
    b.drop_last().lemma_filter_len(one);
    assert(b.last() == s[p]);
    if bit_at(s[p].0, j) {
        assert(b.filter(one) =~= seq![s[p]]);
        assert(part.subrange(z + p - l0, z + p + 1 - r0)[0] == s[p]);
    } else {
        assert(b.filter(zero) =~= seq![s[p]]);
        assert(part.subrange(l0, r0)[0] == s[p]);
    }
}

/// The single bit `1 << j` and the mask of the bits below it express what
/// shifting right and left again by `j`, or by `j + 1`, does to a word.
pub proof fn lemma_clear_low_masks(x: u64, j: u64)
    requires
        j < 64,
    ensures
        1u64 << j >= 1,
        (1u64 << j) & (((1u64 << j) - 1) as u64) == 0,
        clear_low(x, j as int) == x & !(((1u64 << j) - 1) as u64),
        clear_low(x, j + 1) == x & !((((1u64 << j) - 1) as u64) | (1u64 << j)),
        bit_at(x, j as int) <==> x & (1u64 << j) != 0,
{
    let m = 1u64 << j;
    assert(m >= 1 && m & ((m - 1) as u64) == 0) by (bit_vector)
        requires
            j < 64,
            m == 1u64 << j,
    ;
    let low = (m - 1) as u64;
    let k: u64 = if j == 63 {
        0
    } else {
        (j + 1) as u64
    };
    let lx = if j == 0 {
        x
    } else {
        (x >> j) << j
    };
    let hx = if j == 63 {
        0
    } else {
        (x >> k) << k
    };
    assert(lx == clear_low(x, j as int));
    assert(hx == clear_low(x, j + 1));
    assert(lx == x & !low) by (bit_vector)
        requires
            j < 64,
            m == 1u64 << j,
            low == m - 1,
            lx == if j == 0 {
                x
            } else {
                (x >> j) << j
            },
    ;
    assert(hx == x & !(low | m)) by (bit_vector)
        requires
            j < 64,
            k == if j == 63 {
                0
            } else {
                j + 1
            },
            m == 1u64 << j,
            low == m - 1,
            hx == if j == 63 {
                0
            } else {
                (x >> k) << k
            },
    ;
    assert(((x >> j) & 1 == 1) <==> x & m != 0) by (bit_vector)
        requires
            j < 64,
            m == 1u64 << j,
    ;
}

/// How the keys that agree with `t` above bit `j` split by bit `j`, for a
/// `t` whose bits at `j` and below are clear.
pub proof fn lemma_descend_bits(x: u64, t: u64, j: u64)
    requires
        j < 64,
        clear_low(t, j + 1) == t,
    ensures
        (clear_low(x, j + 1) == t && !bit_at(x, j as int)) <==> clear_low(x, j as int) == t,
        (clear_low(x, j + 1) == t && bit_at(x, j as int)) <==> clear_low(x, j as int) == t | (1u64
            << j),
        clear_low(t, j as int) == t,
        clear_low(t | (1u64 << j), j as int) == t | (1u64 << j),
        x < (t | (1u64 << j)) <==> (x < t || clear_low(x, j as int) == t),
        !(x < t && clear_low(x, j as int) == t),
{
    let m = 1u64 << j;
    let t1 = t | m;
    lemma_clear_low_masks(x, j);
    lemma_clear_low_masks(t, j);
    lemma_clear_low_masks(t1, j);
    let low = (m - 1) as u64;
    assert({
        &&& (x & !(low | m) == t && x & m == 0) <==> x & !low == t
        &&& (x & !(low | m) == t && x & m != 0) <==> x & !low == t | m
        &&& t & !low == t
        &&& (t | m) & !low == t | m
        &&& !(x < t && x & !low == t)
    }) by (bit_vector)
        requires
            m != 0,
            m & low == 0,
            low == m - 1,
            t & !(low | m) == t,
    ;
    assert(x < (t | m) <==> (x < t || x & !low == t)) by (bit_vector)
        requires
            m != 0,
            m & low == 0,
            low == m - 1,
            t & !(low | m) == t,
    ;
}

/// One step down the levels, for the items of `s` whose keys agree with `t`
/// above bit `j`.
///
/// Those with bit `j` clear are the items that agree with `t` from bit `j`
/// up; those with bit `j` set are the items that agree with `t` with bit `j`
/// set. The keys below `t` with bit `j` set are those below `t` together with
/// those that agree with `t` from bit `j` up.
pub proof fn lemma_descend<T>(s: Seq<(u64, T)>, t: u64, j: int)
    requires
        0 <= j < 64,
        clear_low(t, j + 1) == t,
    ensures
        ({
            let t1 = t | (1u64 << (j as u64));
            &&& clear_low(t, j) == t
            &&& clear_low(t1, j) == t1
            &&& s.filter(with_prefix(t, j + 1)).filter(with_bit(j, false)) == s.filter(
                with_prefix(t, j),
            )
            &&& s.filter(with_prefix(t, j + 1)).filter(with_bit(j, true)) == s.filter(
                with_prefix(t1, j),
            )
            &&& s.filter(below(t1)).len() == s.filter(below(t)).len() + s.filter(
                with_prefix(t, j),
            ).len()
        }),
{
    let t1 = t | (1u64 << (j as u64));
    lemma_descend_bits(0, t, j as u64);
    assert forall|i: int| 0 <= i < s.len() implies {
        &&& with_prefix::<T>(t, j)(#[trigger] s[i]) == (with_prefix::<T>(t, j + 1)(s[i])
            && with_bit::<T>(j, false)(s[i]))
        &&& with_prefix::<T>(t1, j)(s[i]) == (with_prefix::<T>(t, j + 1)(s[i]) && with_bit::<T>(
            j,
            true,
        )(s[i]))
        &&& below::<T>(t1)(s[i]) == (below::<T>(t)(s[i]) || with_prefix::<T>(t, j)(s[i]))
        &&& !(below::<T>(t)(s[i]) && with_prefix::<T>(t, j)(s[i]))
    } by {
        lemma_descend_bits(s[i].0, t, j as u64);
    }
    lemma_filter_twice(s, with_prefix(t, j + 1), with_bit(j, false), with_prefix(t, j));
    lemma_filter_twice(s, with_prefix(t, j + 1), with_bit(j, true), with_prefix(t1, j));
    lemma_filter_disjoint_len(s, below(t), with_prefix(t, j), below(t1));
}

/// The weighted part of [`lemma_descend`]: the items below `t` with bit `j`
/// set weigh what those below `t` and those that agree with `t` from bit `j`
/// up weigh together.
pub proof fn lemma_descend_weight<T: Weight>(s: Seq<(u64, T)>, t: u64, j: int)
    requires
        0 <= j < 64,
        clear_low(t, j + 1) == t,
    ensures
        total_weight(s.filter(below(t | (1u64 << (j as u64))))) == total_weight(
            s.filter(below(t)),
        ) + total_weight(s.filter(with_prefix(t, j))),
{
    let t1 = t | (1u64 << (j as u64));
    assert forall|i: int| 0 <= i < s.len() implies {
        &&& below::<T>(t1)(#[trigger] s[i]) == (below::<T>(t)(s[i]) || with_prefix::<T>(t, j)(
            s[i],
        ))
        &&& !(below::<T>(t)(s[i]) && with_prefix::<T>(t, j)(s[i]))
    } by {
        lemma_descend_bits(s[i].0, t, j as u64);
    }
    lemma_filter_disjoint_weight(s, below(t), with_prefix(t, j), below(t1));
}

/// How the part of `upper` above bit `j` grows when bit `j` joins it.
pub proof fn lemma_clear_low_step(upper: u64, j: u64)
    requires
        j < 64,
    ensures
        clear_low(clear_low(upper, j + 1), j + 1) == clear_low(upper, j + 1),
        clear_low(upper, j as int) == if bit_at(upper, j as int) {
            clear_low(upper, j + 1) | (1u64 << j)
        } else {
            clear_low(upper, j + 1)
        },
{
    let m = 1u64 << j;
    let hu = clear_low(upper, j + 1);
    lemma_clear_low_masks(upper, j);
    lemma_clear_low_masks(hu, j);
    let low = (m - 1) as u64;
    assert({
        &&& hu & !(low | m) == hu
        &&& upper & !low == if upper & m != 0 {
            hu | m
        } else {
            hu
        }
    }) by (bit_vector)
        requires
            j < 64,
            m == 1u64 << j,
            low == m - 1,
            hu == upper & !(low | m),
    ;
}

/// Where one filter lets through all that another does, it lets through at
/// least as many elements.
pub proof fn lemma_filter_len_monotone<A>(s: Seq<A>, f: spec_fn(A) -> bool, g: spec_fn(A) -> bool)
    requires
        forall|i: int| 0 <= i < s.len() ==> (f(#[trigger] s[i]) ==> g(s[i])),
    ensures
        s.filter(f).len() <= s.filter(g).len(),
    decreases s.len(),
{
    reveal(Seq::filter);
    if s.len() > 0 {
        lemma_filter_len_monotone(s.drop_last(), f, g);
    }
}

/// Where one filter lets through all that another does and one element
/// more, it lets through more elements.
pub proof fn lemma_filter_len_strict<A>(
    s: Seq<A>,
    f: spec_fn(A) -> bool,
    g: spec_fn(A) -> bool,
    k: int,
)
    requires
        forall|i: int| 0 <= i < s.len() ==> (f(#[trigger] s[i]) ==> g(s[i])),
        0 <= k < s.len(),
        g(s[k]),
        !f(s[k]),
    ensures
        s.filter(f).len() < s.filter(g).len(),
    decreases s.len(),
{
    reveal(Seq::filter);
    if k == s.len() - 1 {
        lemma_filter_len_monotone(s.drop_last(), f, g);
    } else {
        lemma_filter_len_strict(s.drop_last(), f, g, k);
    }
}

/// A filter that lets nothing through is passed by no element, and one
/// that lets as many elements through as there are is passed by all.
pub proof fn lemma_filter_len_extremes<A>(s: Seq<A>, f: spec_fn(A) -> bool)
    ensures
        s.filter(f).len() <= s.len(),
        s.filter(f).len() == 0 ==> forall|i: int| 0 <= i < s.len() ==> !f(#[trigger] s[i]),
        s.filter(f).len() == s.len() ==> forall|i: int| 0 <= i < s.len() ==> f(#[trigger] s[i]),
    decreases s.len(),
{
    reveal(Seq::filter);
    if s.len() > 0 {
        lemma_filter_len_extremes(s.drop_last(), f);
        assert forall|i: int| 0 <= i < s.len() && s.filter(f).len() == 0 implies !f(
            #[trigger] s[i],
        ) by {
            if i < s.len() - 1 {
                assert(s.drop_last()[i] == s[i]);
            }
        }
        assert forall|i: int| 0 <= i < s.len() && s.filter(f).len() == s.len() implies f(
            #[trigger] s[i],
        ) by {
            if i < s.len() - 1 {
                assert(s.drop_last()[i] == s[i]);
            }
        }
    }
}

} // verus!

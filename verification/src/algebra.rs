//! Algebraic structures: semigroups, bands (idempotent semigroups) and
//! monoids, each as a trait that states its laws, and the usual ones on the
//! integer types.
//!
//! Whoever implements one of the traits proves its laws: the structures that
//! take a semigroup, a band or a monoid rely on them.

use vstd::prelude::*;
use vstd::arithmetic::div_mod::{lemma_mul_mod_noop_general, lemma_mod_twice, lemma_small_mod, lemma_mod_bound, lemma_mod_multiples_vanish};

verus! {

/// A set with an associative operation.
pub trait SemiGroup {
    /// The set.
    type S;

    /// What the operation computes.
    spec fn op_spec(lhs: Self::S, rhs: Self::S) -> Self::S;

    /// The operation is associative.
    proof fn lemma_associative(a: Self::S, b: Self::S, c: Self::S)
        ensures
            Self::op_spec(Self::op_spec(a, b), c) == Self::op_spec(a, Self::op_spec(b, c)),
    ;

    /// The operation.
    fn op(lhs: &Self::S, rhs: &Self::S) -> (r: Self::S)
        ensures
            r == Self::op_spec(*lhs, *rhs),
    ;
}

/// A set with an associative and idempotent operation.
pub trait Band {
    /// The set.
    type S;

    /// What the operation computes.
    spec fn op_spec(lhs: Self::S, rhs: Self::S) -> Self::S;

    /// The operation is associative.
    proof fn lemma_associative(a: Self::S, b: Self::S, c: Self::S)
        ensures
            Self::op_spec(Self::op_spec(a, b), c) == Self::op_spec(a, Self::op_spec(b, c)),
    ;

    /// The operation is idempotent.
    proof fn lemma_idempotent(a: Self::S)
        ensures
            Self::op_spec(a, a) == a,
    ;

    /// The operation.
    fn op(lhs: &Self::S, rhs: &Self::S) -> (r: Self::S)
        ensures
            r == Self::op_spec(*lhs, *rhs),
    ;
}

/// A set with an associative operation and a unit for it.
pub trait Monoid {
    /// The set.
    type S: Copy + PartialEq + Eq;

    /// What the operation computes.
    spec fn op_spec(lhs: Self::S, rhs: Self::S) -> Self::S;

    /// The operation is associative.
    proof fn lemma_associative(a: Self::S, b: Self::S, c: Self::S)
        ensures
            Self::op_spec(Self::op_spec(a, b), c) == Self::op_spec(a, Self::op_spec(b, c)),
    ;

    /// `E` is a unit on both sides.
    proof fn lemma_unit(a: Self::S)
        ensures
            Self::op_spec(Self::E, a) == a,
            Self::op_spec(a, Self::E) == a,
    ;

    /// The operation.
    fn op(lhs: &Self::S, rhs: &Self::S) -> (r: Self::S)
        ensures
            r == Self::op_spec(*lhs, *rhs),
    ;

    /// The unit of the operation.
    const E: Self::S;
}

/// The lesser of two numbers.
pub struct Min<T> {
    _marker: std::marker::PhantomData<T>,
}

/// The greater of two numbers.
pub struct Max<T> {
    _marker: std::marker::PhantomData<T>,
}

/// Addition, modulo the range of the type.
pub struct Add<T> {
    _marker: std::marker::PhantomData<T>,
}

/// Multiplication, modulo the range of the type.
pub struct Mul<T> {
    _marker: std::marker::PhantomData<T>,
}

/// Bitwise and.
pub struct BitAnd<T> {
    _marker: std::marker::PhantomData<T>,
}

/// Bitwise or.
pub struct BitOr<T> {
    _marker: std::marker::PhantomData<T>,
}

/// Bitwise exclusive or.
pub struct BitXor<T> {
    _marker: std::marker::PhantomData<T>,
}

/// The laws of the bitwise operations on `u32`.
proof fn lemma_bitwise_u32(a: u32, b: u32, c: u32)
    by (bit_vector)
    ensures
        (a & b) & c == a & (b & c),
        (a | b) | c == a | (b | c),
        (a ^ b) ^ c == a ^ (b ^ c),
        a & a == a,
        a | a == a,
        a | 0 == a,
        0 | a == a,
        a ^ 0 == a,
        0 ^ a == a,
{
}

/// Bitwise and with the number of all ones changes nothing.
proof fn lemma_and_unit_u32(a: u32)
    by (bit_vector)
    ensures
        a & u32::MAX == a,
        u32::MAX & a == a,
{
}



/// Multiplication modulo the range of `u32` is associative and has the unit one.
proof fn lemma_wrapping_mul_u32(a: u32, b: u32, c: u32)
    ensures
        vstd::wrapping::u32_specs::wrapping_mul(vstd::wrapping::u32_specs::wrapping_mul(a, b), c) == vstd::wrapping::u32_specs::wrapping_mul(
            a,
            vstd::wrapping::u32_specs::wrapping_mul(b, c),
        ),
        vstd::wrapping::u32_specs::wrapping_mul(1, a) == a,
        vstd::wrapping::u32_specs::wrapping_mul(a, 1) == a,
{
    let r = 0x1_0000_0000 as int;
    let (x, y, z) = (a as int, b as int, c as int);
    assert(0 <= x * y && 0 <= y * z) by (nonlinear_arith)
        requires
            0 <= x,
            0 <= y,
            0 <= z,
    ;
    lemma_mod_bound(x * y, r);
    lemma_mod_bound(y * z, r);
    assert(0 <= ((x * y) % r) * z && 0 <= x * ((y * z) % r)) by (nonlinear_arith)
        requires
            0 <= x,
            0 <= z,
            0 <= (x * y) % r,
            0 <= (y * z) % r,
    ;
    lemma_mul_mod_noop_general(x * y, z, r);
    lemma_mul_mod_noop_general(x, y * z, r);
    assert((x * y) * z == x * (y * z)) by (nonlinear_arith);
    lemma_small_mod(x as nat, r as nat);
    assert(1 * x == x && x * 1 == x);
}

impl SemiGroup for Min<u32> {
    type S = u32;

    open spec fn op_spec(lhs: u32, rhs: u32) -> u32 {
        if lhs <= rhs {
            lhs
        } else {
            rhs
        }
    }

    proof fn lemma_associative(a: u32, b: u32, c: u32) {
    }

    fn op(lhs: &u32, rhs: &u32) -> (r: u32) {
        if *lhs <= *rhs {
            *lhs
        } else {
            *rhs
        }
    }
}

impl SemiGroup for Max<u32> {
    type S = u32;

    open spec fn op_spec(lhs: u32, rhs: u32) -> u32 {
        if lhs >= rhs {
            lhs
        } else {
            rhs
        }
    }

    proof fn lemma_associative(a: u32, b: u32, c: u32) {
    }

    fn op(lhs: &u32, rhs: &u32) -> (r: u32) {
        if *lhs >= *rhs {
            *lhs
        } else {
            *rhs
        }
    }
}

impl SemiGroup for Add<u32> {
    type S = u32;

    open spec fn op_spec(lhs: u32, rhs: u32) -> u32 {
        vstd::wrapping::u32_specs::wrapping_add(lhs, rhs)
    }

    proof fn lemma_associative(a: u32, b: u32, c: u32) {
    }

    fn op(lhs: &u32, rhs: &u32) -> (r: u32) {
        lhs.wrapping_add(*rhs)
    }
}

impl SemiGroup for Mul<u32> {
    type S = u32;

    open spec fn op_spec(lhs: u32, rhs: u32) -> u32 {
        vstd::wrapping::u32_specs::wrapping_mul(lhs, rhs)
    }

    proof fn lemma_associative(a: u32, b: u32, c: u32) {
        lemma_wrapping_mul_u32(a, b, c);
    }

    fn op(lhs: &u32, rhs: &u32) -> (r: u32) {
        lhs.wrapping_mul(*rhs)
    }
}

impl SemiGroup for BitAnd<u32> {
    type S = u32;

    open spec fn op_spec(lhs: u32, rhs: u32) -> u32 {
        lhs & rhs
    }

    proof fn lemma_associative(a: u32, b: u32, c: u32) {
        lemma_bitwise_u32(a, b, c);
    }

    fn op(lhs: &u32, rhs: &u32) -> (r: u32) {
        *lhs & *rhs
    }
}

impl SemiGroup for BitOr<u32> {
    type S = u32;

    open spec fn op_spec(lhs: u32, rhs: u32) -> u32 {
        lhs | rhs
    }

    proof fn lemma_associative(a: u32, b: u32, c: u32) {
        lemma_bitwise_u32(a, b, c);
    }

    fn op(lhs: &u32, rhs: &u32) -> (r: u32) {
        *lhs | *rhs
    }
}

impl SemiGroup for BitXor<u32> {
    type S = u32;

    open spec fn op_spec(lhs: u32, rhs: u32) -> u32 {
        lhs ^ rhs
    }

    proof fn lemma_associative(a: u32, b: u32, c: u32) {
        lemma_bitwise_u32(a, b, c);
    }

    fn op(lhs: &u32, rhs: &u32) -> (r: u32) {
        *lhs ^ *rhs
    }
}

impl Band for Min<u32> {
    type S = u32;

    open spec fn op_spec(lhs: u32, rhs: u32) -> u32 {
        if lhs <= rhs {
            lhs
        } else {
            rhs
        }
    }

    proof fn lemma_associative(a: u32, b: u32, c: u32) {
    }

    proof fn lemma_idempotent(a: u32) {
    }

    fn op(lhs: &u32, rhs: &u32) -> (r: u32) {
        if *lhs <= *rhs {
            *lhs
        } else {
            *rhs
        }
    }
}

impl Band for Max<u32> {
    type S = u32;

    open spec fn op_spec(lhs: u32, rhs: u32) -> u32 {
        if lhs >= rhs {
            lhs
        } else {
            rhs
        }
    }

    proof fn lemma_associative(a: u32, b: u32, c: u32) {
    }

    proof fn lemma_idempotent(a: u32) {
    }

    fn op(lhs: &u32, rhs: &u32) -> (r: u32) {
        if *lhs >= *rhs {
            *lhs
        } else {
            *rhs
        }
    }
}

impl Band for BitAnd<u32> {
    type S = u32;

    open spec fn op_spec(lhs: u32, rhs: u32) -> u32 {
        lhs & rhs
    }

    proof fn lemma_associative(a: u32, b: u32, c: u32) {
        lemma_bitwise_u32(a, b, c);
    }

    proof fn lemma_idempotent(a: u32) {
        lemma_bitwise_u32(a, a, a);
    }

    fn op(lhs: &u32, rhs: &u32) -> (r: u32) {
        *lhs & *rhs
    }
}

impl Band for BitOr<u32> {
    type S = u32;

    open spec fn op_spec(lhs: u32, rhs: u32) -> u32 {
        lhs | rhs
    }

    proof fn lemma_associative(a: u32, b: u32, c: u32) {
        lemma_bitwise_u32(a, b, c);
    }

    proof fn lemma_idempotent(a: u32) {
        lemma_bitwise_u32(a, a, a);
    }

    fn op(lhs: &u32, rhs: &u32) -> (r: u32) {
        *lhs | *rhs
    }
}

impl Monoid for Min<u32> {
    type S = u32;

    open spec fn op_spec(lhs: u32, rhs: u32) -> u32 {
        if lhs <= rhs {
            lhs
        } else {
            rhs
        }
    }

    proof fn lemma_associative(a: u32, b: u32, c: u32) {
    }

    proof fn lemma_unit(a: u32) {
    }

    fn op(lhs: &u32, rhs: &u32) -> (r: u32) {
        if *lhs <= *rhs {
            *lhs
        } else {
            *rhs
        }
    }

    const E: u32 = u32::MAX;
}

impl Monoid for Max<u32> {
    type S = u32;

    open spec fn op_spec(lhs: u32, rhs: u32) -> u32 {
        if lhs >= rhs {
            lhs
        } else {
            rhs
        }
    }

    proof fn lemma_associative(a: u32, b: u32, c: u32) {
    }

    proof fn lemma_unit(a: u32) {
    }

    fn op(lhs: &u32, rhs: &u32) -> (r: u32) {
        if *lhs >= *rhs {
            *lhs
        } else {
            *rhs
        }
    }

    const E: u32 = u32::MIN;
}

impl Monoid for Add<u32> {
    type S = u32;

    open spec fn op_spec(lhs: u32, rhs: u32) -> u32 {
        vstd::wrapping::u32_specs::wrapping_add(lhs, rhs)
    }

    proof fn lemma_associative(a: u32, b: u32, c: u32) {
    }

    proof fn lemma_unit(a: u32) {
    }

    fn op(lhs: &u32, rhs: &u32) -> (r: u32) {
        lhs.wrapping_add(*rhs)
    }

    const E: u32 = 0;
}

impl Monoid for Mul<u32> {
    type S = u32;

    open spec fn op_spec(lhs: u32, rhs: u32) -> u32 {
        vstd::wrapping::u32_specs::wrapping_mul(lhs, rhs)
    }

    proof fn lemma_associative(a: u32, b: u32, c: u32) {
        lemma_wrapping_mul_u32(a, b, c);
    }

    proof fn lemma_unit(a: u32) {
        lemma_wrapping_mul_u32(a, a, a);
    }

    fn op(lhs: &u32, rhs: &u32) -> (r: u32) {
        lhs.wrapping_mul(*rhs)
    }

    const E: u32 = 1;
}

impl Monoid for BitAnd<u32> {
    type S = u32;

    open spec fn op_spec(lhs: u32, rhs: u32) -> u32 {
        lhs & rhs
    }

    proof fn lemma_associative(a: u32, b: u32, c: u32) {
        lemma_bitwise_u32(a, b, c);
    }

    proof fn lemma_unit(a: u32) {
        lemma_and_unit_u32(a);
    }

    fn op(lhs: &u32, rhs: &u32) -> (r: u32) {
        *lhs & *rhs
    }

    const E: u32 = u32::MAX;
}

impl Monoid for BitOr<u32> {
    type S = u32;

    open spec fn op_spec(lhs: u32, rhs: u32) -> u32 {
        lhs | rhs
    }

    proof fn lemma_associative(a: u32, b: u32, c: u32) {
        lemma_bitwise_u32(a, b, c);
    }

    proof fn lemma_unit(a: u32) {
        lemma_bitwise_u32(a, a, a);
    }

    fn op(lhs: &u32, rhs: &u32) -> (r: u32) {
        *lhs | *rhs
    }

    const E: u32 = 0;
}

impl Monoid for BitXor<u32> {
    type S = u32;

    open spec fn op_spec(lhs: u32, rhs: u32) -> u32 {
        lhs ^ rhs
    }

    proof fn lemma_associative(a: u32, b: u32, c: u32) {
        lemma_bitwise_u32(a, b, c);
    }

    proof fn lemma_unit(a: u32) {
        lemma_bitwise_u32(a, a, a);
    }

    fn op(lhs: &u32, rhs: &u32) -> (r: u32) {
        *lhs ^ *rhs
    }

    const E: u32 = 0;
}

/// The laws of the bitwise operations on `u64`.
proof fn lemma_bitwise_u64(a: u64, b: u64, c: u64)
    by (bit_vector)
    ensures
        (a & b) & c == a & (b & c),
        (a | b) | c == a | (b | c),
        (a ^ b) ^ c == a ^ (b ^ c),
        a & a == a,
        a | a == a,
        a | 0 == a,
        0 | a == a,
        a ^ 0 == a,
        0 ^ a == a,
{
}

/// Bitwise and with the number of all ones changes nothing.
proof fn lemma_and_unit_u64(a: u64)
    by (bit_vector)
    ensures
        a & u64::MAX == a,
        u64::MAX & a == a,
{
}



/// Multiplication modulo the range of `u64` is associative and has the unit one.
proof fn lemma_wrapping_mul_u64(a: u64, b: u64, c: u64)
    ensures
        vstd::wrapping::u64_specs::wrapping_mul(vstd::wrapping::u64_specs::wrapping_mul(a, b), c) == vstd::wrapping::u64_specs::wrapping_mul(
            a,
            vstd::wrapping::u64_specs::wrapping_mul(b, c),
        ),
        vstd::wrapping::u64_specs::wrapping_mul(1, a) == a,
        vstd::wrapping::u64_specs::wrapping_mul(a, 1) == a,
{
    let r = 0x1_0000_0000_0000_0000 as int;
    let (x, y, z) = (a as int, b as int, c as int);
    assert(0 <= x * y && 0 <= y * z) by (nonlinear_arith)
        requires
            0 <= x,
            0 <= y,
            0 <= z,
    ;
    lemma_mod_bound(x * y, r);
    lemma_mod_bound(y * z, r);
    assert(0 <= ((x * y) % r) * z && 0 <= x * ((y * z) % r)) by (nonlinear_arith)
        requires
            0 <= x,
            0 <= z,
            0 <= (x * y) % r,
            0 <= (y * z) % r,
    ;
    lemma_mul_mod_noop_general(x * y, z, r);
    lemma_mul_mod_noop_general(x, y * z, r);
    assert((x * y) * z == x * (y * z)) by (nonlinear_arith);
    lemma_small_mod(x as nat, r as nat);
    assert(1 * x == x && x * 1 == x);
}

impl SemiGroup for Min<u64> {
    type S = u64;

    open spec fn op_spec(lhs: u64, rhs: u64) -> u64 {
        if lhs <= rhs {
            lhs
        } else {
            rhs
        }
    }

    proof fn lemma_associative(a: u64, b: u64, c: u64) {
    }

    fn op(lhs: &u64, rhs: &u64) -> (r: u64) {
        if *lhs <= *rhs {
            *lhs
        } else {
            *rhs
        }
    }
}

impl SemiGroup for Max<u64> {
    type S = u64;

    open spec fn op_spec(lhs: u64, rhs: u64) -> u64 {
        if lhs >= rhs {
            lhs
        } else {
            rhs
        }
    }

    proof fn lemma_associative(a: u64, b: u64, c: u64) {
    }

    fn op(lhs: &u64, rhs: &u64) -> (r: u64) {
        if *lhs >= *rhs {
            *lhs
        } else {
            *rhs
        }
    }
}

impl SemiGroup for Add<u64> {
    type S = u64;

    open spec fn op_spec(lhs: u64, rhs: u64) -> u64 {
        vstd::wrapping::u64_specs::wrapping_add(lhs, rhs)
    }

    proof fn lemma_associative(a: u64, b: u64, c: u64) {
    }

    fn op(lhs: &u64, rhs: &u64) -> (r: u64) {
        lhs.wrapping_add(*rhs)
    }
}

impl SemiGroup for Mul<u64> {
    type S = u64;

    open spec fn op_spec(lhs: u64, rhs: u64) -> u64 {
        vstd::wrapping::u64_specs::wrapping_mul(lhs, rhs)
    }

    proof fn lemma_associative(a: u64, b: u64, c: u64) {
        lemma_wrapping_mul_u64(a, b, c);
    }

    fn op(lhs: &u64, rhs: &u64) -> (r: u64) {
        lhs.wrapping_mul(*rhs)
    }
}

impl SemiGroup for BitAnd<u64> {
    type S = u64;

    open spec fn op_spec(lhs: u64, rhs: u64) -> u64 {
        lhs & rhs
    }

    proof fn lemma_associative(a: u64, b: u64, c: u64) {
        lemma_bitwise_u64(a, b, c);
    }

    fn op(lhs: &u64, rhs: &u64) -> (r: u64) {
        *lhs & *rhs
    }
}

impl SemiGroup for BitOr<u64> {
    type S = u64;

    open spec fn op_spec(lhs: u64, rhs: u64) -> u64 {
        lhs | rhs
    }

    proof fn lemma_associative(a: u64, b: u64, c: u64) {
        lemma_bitwise_u64(a, b, c);
    }

    fn op(lhs: &u64, rhs: &u64) -> (r: u64) {
        *lhs | *rhs
    }
}

impl SemiGroup for BitXor<u64> {
    type S = u64;

    open spec fn op_spec(lhs: u64, rhs: u64) -> u64 {
        lhs ^ rhs
    }

    proof fn lemma_associative(a: u64, b: u64, c: u64) {
        lemma_bitwise_u64(a, b, c);
    }

    fn op(lhs: &u64, rhs: &u64) -> (r: u64) {
        *lhs ^ *rhs
    }
}

impl Band for Min<u64> {
    type S = u64;

    open spec fn op_spec(lhs: u64, rhs: u64) -> u64 {
        if lhs <= rhs {
            lhs
        } else {
            rhs
        }
    }

    proof fn lemma_associative(a: u64, b: u64, c: u64) {
    }

    proof fn lemma_idempotent(a: u64) {
    }

    fn op(lhs: &u64, rhs: &u64) -> (r: u64) {
        if *lhs <= *rhs {
            *lhs
        } else {
            *rhs
        }
    }
}

impl Band for Max<u64> {
    type S = u64;

    open spec fn op_spec(lhs: u64, rhs: u64) -> u64 {
        if lhs >= rhs {
            lhs
        } else {
            rhs
        }
    }

    proof fn lemma_associative(a: u64, b: u64, c: u64) {
    }

    proof fn lemma_idempotent(a: u64) {
    }

    fn op(lhs: &u64, rhs: &u64) -> (r: u64) {
        if *lhs >= *rhs {
            *lhs
        } else {
            *rhs
        }
    }
}

impl Band for BitAnd<u64> {
    type S = u64;

    open spec fn op_spec(lhs: u64, rhs: u64) -> u64 {
        lhs & rhs
    }

    proof fn lemma_associative(a: u64, b: u64, c: u64) {
        lemma_bitwise_u64(a, b, c);
    }

    proof fn lemma_idempotent(a: u64) {
        lemma_bitwise_u64(a, a, a);
    }

    fn op(lhs: &u64, rhs: &u64) -> (r: u64) {
        *lhs & *rhs
    }
}

impl Band for BitOr<u64> {
    type S = u64;

    open spec fn op_spec(lhs: u64, rhs: u64) -> u64 {
        lhs | rhs
    }

    proof fn lemma_associative(a: u64, b: u64, c: u64) {
        lemma_bitwise_u64(a, b, c);
    }

    proof fn lemma_idempotent(a: u64) {
        lemma_bitwise_u64(a, a, a);
    }

    fn op(lhs: &u64, rhs: &u64) -> (r: u64) {
        *lhs | *rhs
    }
}

impl Monoid for Min<u64> {
    type S = u64;

    open spec fn op_spec(lhs: u64, rhs: u64) -> u64 {
        if lhs <= rhs {
            lhs
        } else {
            rhs
        }
    }

    proof fn lemma_associative(a: u64, b: u64, c: u64) {
    }

    proof fn lemma_unit(a: u64) {
    }

    fn op(lhs: &u64, rhs: &u64) -> (r: u64) {
        if *lhs <= *rhs {
            *lhs
        } else {
            *rhs
        }
    }

    const E: u64 = u64::MAX;
}

impl Monoid for Max<u64> {
    type S = u64;

    open spec fn op_spec(lhs: u64, rhs: u64) -> u64 {
        if lhs >= rhs {
            lhs
        } else {
            rhs
        }
    }

    proof fn lemma_associative(a: u64, b: u64, c: u64) {
    }

    proof fn lemma_unit(a: u64) {
    }

    fn op(lhs: &u64, rhs: &u64) -> (r: u64) {
        if *lhs >= *rhs {
            *lhs
        } else {
            *rhs
        }
    }

    const E: u64 = u64::MIN;
}

impl Monoid for Add<u64> {
    type S = u64;

    open spec fn op_spec(lhs: u64, rhs: u64) -> u64 {
        vstd::wrapping::u64_specs::wrapping_add(lhs, rhs)
    }

    proof fn lemma_associative(a: u64, b: u64, c: u64) {
    }

    proof fn lemma_unit(a: u64) {
    }

    fn op(lhs: &u64, rhs: &u64) -> (r: u64) {
        lhs.wrapping_add(*rhs)
    }

    const E: u64 = 0;
}

impl Monoid for Mul<u64> {
    type S = u64;

    open spec fn op_spec(lhs: u64, rhs: u64) -> u64 {
        vstd::wrapping::u64_specs::wrapping_mul(lhs, rhs)
    }

    proof fn lemma_associative(a: u64, b: u64, c: u64) {
        lemma_wrapping_mul_u64(a, b, c);
    }

    proof fn lemma_unit(a: u64) {
        lemma_wrapping_mul_u64(a, a, a);
    }

    fn op(lhs: &u64, rhs: &u64) -> (r: u64) {
        lhs.wrapping_mul(*rhs)
    }

    const E: u64 = 1;
}

impl Monoid for BitAnd<u64> {
    type S = u64;

    open spec fn op_spec(lhs: u64, rhs: u64) -> u64 {
        lhs & rhs
    }

    proof fn lemma_associative(a: u64, b: u64, c: u64) {
        lemma_bitwise_u64(a, b, c);
    }

    proof fn lemma_unit(a: u64) {
        lemma_and_unit_u64(a);
    }

    fn op(lhs: &u64, rhs: &u64) -> (r: u64) {
        *lhs & *rhs
    }

    const E: u64 = u64::MAX;
}

impl Monoid for BitOr<u64> {
    type S = u64;

    open spec fn op_spec(lhs: u64, rhs: u64) -> u64 {
        lhs | rhs
    }

    proof fn lemma_associative(a: u64, b: u64, c: u64) {
        lemma_bitwise_u64(a, b, c);
    }

    proof fn lemma_unit(a: u64) {
        lemma_bitwise_u64(a, a, a);
    }

    fn op(lhs: &u64, rhs: &u64) -> (r: u64) {
        *lhs | *rhs
    }

    const E: u64 = 0;
}

impl Monoid for BitXor<u64> {
    type S = u64;

    open spec fn op_spec(lhs: u64, rhs: u64) -> u64 {
        lhs ^ rhs
    }

    proof fn lemma_associative(a: u64, b: u64, c: u64) {
        lemma_bitwise_u64(a, b, c);
    }

    proof fn lemma_unit(a: u64) {
        lemma_bitwise_u64(a, a, a);
    }

    fn op(lhs: &u64, rhs: &u64) -> (r: u64) {
        *lhs ^ *rhs
    }

    const E: u64 = 0;
}

/// The laws of the bitwise operations on `usize`.
proof fn lemma_bitwise_usize(a: usize, b: usize, c: usize)
    by (bit_vector)
    ensures
        (a & b) & c == a & (b & c),
        (a | b) | c == a | (b | c),
        (a ^ b) ^ c == a ^ (b ^ c),
        a & a == a,
        a | a == a,
        a | 0 == a,
        0 | a == a,
        a ^ 0 == a,
        0 ^ a == a,
{
}

/// Bitwise and with the number of all ones changes nothing.
proof fn lemma_and_unit_usize(a: usize)
    ensures
        a & usize::MAX == a,
        usize::MAX & a == a,
{
    let wide = a as u64;
    let ones = usize::MAX as u64;
    assert(wide & ones == wide && ones & wide == wide) by (bit_vector)
        requires
            ones == 0xffff_ffffu64 || ones == 0xffff_ffff_ffff_ffffu64,
            wide <= ones,
    ;
}



/// Multiplication modulo the range of `usize` is associative and has the unit one.
proof fn lemma_wrapping_mul_usize(a: usize, b: usize, c: usize)
    ensures
        vstd::wrapping::usize_specs::wrapping_mul(vstd::wrapping::usize_specs::wrapping_mul(a, b), c) == vstd::wrapping::usize_specs::wrapping_mul(
            a,
            vstd::wrapping::usize_specs::wrapping_mul(b, c),
        ),
        vstd::wrapping::usize_specs::wrapping_mul(1, a) == a,
        vstd::wrapping::usize_specs::wrapping_mul(a, 1) == a,
{
    let r = (usize::MAX + 1) as int;
    let (x, y, z) = (a as int, b as int, c as int);
    assert(0 <= x * y && 0 <= y * z) by (nonlinear_arith)
        requires
            0 <= x,
            0 <= y,
            0 <= z,
    ;
    lemma_mod_bound(x * y, r);
    lemma_mod_bound(y * z, r);
    assert(0 <= ((x * y) % r) * z && 0 <= x * ((y * z) % r)) by (nonlinear_arith)
        requires
            0 <= x,
            0 <= z,
            0 <= (x * y) % r,
            0 <= (y * z) % r,
    ;
    lemma_mul_mod_noop_general(x * y, z, r);
    lemma_mul_mod_noop_general(x, y * z, r);
    assert((x * y) * z == x * (y * z)) by (nonlinear_arith);
    lemma_small_mod(x as nat, r as nat);
    assert(1 * x == x && x * 1 == x);
}

impl SemiGroup for Min<usize> {
    type S = usize;

    open spec fn op_spec(lhs: usize, rhs: usize) -> usize {
        if lhs <= rhs {
            lhs
        } else {
            rhs
        }
    }

    proof fn lemma_associative(a: usize, b: usize, c: usize) {
    }

    fn op(lhs: &usize, rhs: &usize) -> (r: usize) {
        if *lhs <= *rhs {
            *lhs
        } else {
            *rhs
        }
    }
}

impl SemiGroup for Max<usize> {
    type S = usize;

    open spec fn op_spec(lhs: usize, rhs: usize) -> usize {
        if lhs >= rhs {
            lhs
        } else {
            rhs
        }
    }

    proof fn lemma_associative(a: usize, b: usize, c: usize) {
    }

    fn op(lhs: &usize, rhs: &usize) -> (r: usize) {
        if *lhs >= *rhs {
            *lhs
        } else {
            *rhs
        }
    }
}

impl SemiGroup for Add<usize> {
    type S = usize;

    open spec fn op_spec(lhs: usize, rhs: usize) -> usize {
        vstd::wrapping::usize_specs::wrapping_add(lhs, rhs)
    }

    proof fn lemma_associative(a: usize, b: usize, c: usize) {
    }

    fn op(lhs: &usize, rhs: &usize) -> (r: usize) {
        lhs.wrapping_add(*rhs)
    }
}

impl SemiGroup for Mul<usize> {
    type S = usize;

    open spec fn op_spec(lhs: usize, rhs: usize) -> usize {
        vstd::wrapping::usize_specs::wrapping_mul(lhs, rhs)
    }

    proof fn lemma_associative(a: usize, b: usize, c: usize) {
        lemma_wrapping_mul_usize(a, b, c);
    }

    fn op(lhs: &usize, rhs: &usize) -> (r: usize) {
        lhs.wrapping_mul(*rhs)
    }
}

impl SemiGroup for BitAnd<usize> {
    type S = usize;

    open spec fn op_spec(lhs: usize, rhs: usize) -> usize {
        lhs & rhs
    }

    proof fn lemma_associative(a: usize, b: usize, c: usize) {
        lemma_bitwise_usize(a, b, c);
    }

    fn op(lhs: &usize, rhs: &usize) -> (r: usize) {
        *lhs & *rhs
    }
}

impl SemiGroup for BitOr<usize> {
    type S = usize;

    open spec fn op_spec(lhs: usize, rhs: usize) -> usize {
        lhs | rhs
    }

    proof fn lemma_associative(a: usize, b: usize, c: usize) {
        lemma_bitwise_usize(a, b, c);
    }

    fn op(lhs: &usize, rhs: &usize) -> (r: usize) {
        *lhs | *rhs
    }
}

impl SemiGroup for BitXor<usize> {
    type S = usize;

    open spec fn op_spec(lhs: usize, rhs: usize) -> usize {
        lhs ^ rhs
    }

    proof fn lemma_associative(a: usize, b: usize, c: usize) {
        lemma_bitwise_usize(a, b, c);
    }

    fn op(lhs: &usize, rhs: &usize) -> (r: usize) {
        *lhs ^ *rhs
    }
}

impl Band for Min<usize> {
    type S = usize;

    open spec fn op_spec(lhs: usize, rhs: usize) -> usize {
        if lhs <= rhs {
            lhs
        } else {
            rhs
        }
    }

    proof fn lemma_associative(a: usize, b: usize, c: usize) {
    }

    proof fn lemma_idempotent(a: usize) {
    }

    fn op(lhs: &usize, rhs: &usize) -> (r: usize) {
        if *lhs <= *rhs {
            *lhs
        } else {
            *rhs
        }
    }
}

impl Band for Max<usize> {
    type S = usize;

    open spec fn op_spec(lhs: usize, rhs: usize) -> usize {
        if lhs >= rhs {
            lhs
        } else {
            rhs
        }
    }

    proof fn lemma_associative(a: usize, b: usize, c: usize) {
    }

    proof fn lemma_idempotent(a: usize) {
    }

    fn op(lhs: &usize, rhs: &usize) -> (r: usize) {
        if *lhs >= *rhs {
            *lhs
        } else {
            *rhs
        }
    }
}

impl Band for BitAnd<usize> {
    type S = usize;

    open spec fn op_spec(lhs: usize, rhs: usize) -> usize {
        lhs & rhs
    }

    proof fn lemma_associative(a: usize, b: usize, c: usize) {
        lemma_bitwise_usize(a, b, c);
    }

    proof fn lemma_idempotent(a: usize) {
        lemma_bitwise_usize(a, a, a);
    }

    fn op(lhs: &usize, rhs: &usize) -> (r: usize) {
        *lhs & *rhs
    }
}

impl Band for BitOr<usize> {
    type S = usize;

    open spec fn op_spec(lhs: usize, rhs: usize) -> usize {
        lhs | rhs
    }

    proof fn lemma_associative(a: usize, b: usize, c: usize) {
        lemma_bitwise_usize(a, b, c);
    }

    proof fn lemma_idempotent(a: usize) {
        lemma_bitwise_usize(a, a, a);
    }

    fn op(lhs: &usize, rhs: &usize) -> (r: usize) {
        *lhs | *rhs
    }
}

impl Monoid for Min<usize> {
    type S = usize;

    open spec fn op_spec(lhs: usize, rhs: usize) -> usize {
        if lhs <= rhs {
            lhs
        } else {
            rhs
        }
    }

    proof fn lemma_associative(a: usize, b: usize, c: usize) {
    }

    proof fn lemma_unit(a: usize) {
    }

    fn op(lhs: &usize, rhs: &usize) -> (r: usize) {
        if *lhs <= *rhs {
            *lhs
        } else {
            *rhs
        }
    }

    const E: usize = usize::MAX;
}

impl Monoid for Max<usize> {
    type S = usize;

    open spec fn op_spec(lhs: usize, rhs: usize) -> usize {
        if lhs >= rhs {
            lhs
        } else {
            rhs
        }
    }

    proof fn lemma_associative(a: usize, b: usize, c: usize) {
    }

    proof fn lemma_unit(a: usize) {
    }

    fn op(lhs: &usize, rhs: &usize) -> (r: usize) {
        if *lhs >= *rhs {
            *lhs
        } else {
            *rhs
        }
    }

    const E: usize = usize::MIN;
}

impl Monoid for Add<usize> {
    type S = usize;

    open spec fn op_spec(lhs: usize, rhs: usize) -> usize {
        vstd::wrapping::usize_specs::wrapping_add(lhs, rhs)
    }

    proof fn lemma_associative(a: usize, b: usize, c: usize) {
    }

    proof fn lemma_unit(a: usize) {
    }

    fn op(lhs: &usize, rhs: &usize) -> (r: usize) {
        lhs.wrapping_add(*rhs)
    }

    const E: usize = 0;
}

impl Monoid for Mul<usize> {
    type S = usize;

    open spec fn op_spec(lhs: usize, rhs: usize) -> usize {
        vstd::wrapping::usize_specs::wrapping_mul(lhs, rhs)
    }

    proof fn lemma_associative(a: usize, b: usize, c: usize) {
        lemma_wrapping_mul_usize(a, b, c);
    }

    proof fn lemma_unit(a: usize) {
        lemma_wrapping_mul_usize(a, a, a);
    }

    fn op(lhs: &usize, rhs: &usize) -> (r: usize) {
        lhs.wrapping_mul(*rhs)
    }

    const E: usize = 1;
}

impl Monoid for BitAnd<usize> {
    type S = usize;

    open spec fn op_spec(lhs: usize, rhs: usize) -> usize {
        lhs & rhs
    }

    proof fn lemma_associative(a: usize, b: usize, c: usize) {
        lemma_bitwise_usize(a, b, c);
    }

    proof fn lemma_unit(a: usize) {
        lemma_and_unit_usize(a);
    }

    fn op(lhs: &usize, rhs: &usize) -> (r: usize) {
        *lhs & *rhs
    }

    const E: usize = usize::MAX;
}

impl Monoid for BitOr<usize> {
    type S = usize;

    open spec fn op_spec(lhs: usize, rhs: usize) -> usize {
        lhs | rhs
    }

    proof fn lemma_associative(a: usize, b: usize, c: usize) {
        lemma_bitwise_usize(a, b, c);
    }

    proof fn lemma_unit(a: usize) {
        lemma_bitwise_usize(a, a, a);
    }

    fn op(lhs: &usize, rhs: &usize) -> (r: usize) {
        *lhs | *rhs
    }

    const E: usize = 0;
}

impl Monoid for BitXor<usize> {
    type S = usize;

    open spec fn op_spec(lhs: usize, rhs: usize) -> usize {
        lhs ^ rhs
    }

    proof fn lemma_associative(a: usize, b: usize, c: usize) {
        lemma_bitwise_usize(a, b, c);
    }

    proof fn lemma_unit(a: usize) {
        lemma_bitwise_usize(a, a, a);
    }

    fn op(lhs: &usize, rhs: &usize) -> (r: usize) {
        *lhs ^ *rhs
    }

    const E: usize = 0;
}

/// The laws of the bitwise operations on `i32`.
proof fn lemma_bitwise_i32(a: i32, b: i32, c: i32)
    by (bit_vector)
    ensures
        (a & b) & c == a & (b & c),
        (a | b) | c == a | (b | c),
        (a ^ b) ^ c == a ^ (b ^ c),
        a & a == a,
        a | a == a,
        a | 0 == a,
        0 | a == a,
        a ^ 0 == a,
        0 ^ a == a,
{
}

/// What is left of an integer modulo the range of `i32`, as a `i32`, is
/// congruent to it, and congruent integers leave the same.
proof fn lemma_signed_crop_i32(x: int, y: int)
    ensures
        (vstd::wrapping::i32_specs::signed_crop(x) as int) % (0x1_0000_0000 as int) == x % (0x1_0000_0000 as int),
        x % (0x1_0000_0000 as int) == y % (0x1_0000_0000 as int) ==> vstd::wrapping::i32_specs::signed_crop(x) == vstd::wrapping::i32_specs::signed_crop(y),
{
    let r = 0x1_0000_0000 as int;
    lemma_mod_bound(x, r);
    lemma_mod_twice(x, r);
    if x % r > i32::MAX as int {
        lemma_mod_multiples_vanish(-1, x % r, r);
    }
}

/// Multiplication modulo the range of `i32` is associative and has the unit one.
proof fn lemma_wrapping_mul_i32(a: i32, b: i32, c: i32)
    ensures
        vstd::wrapping::i32_specs::wrapping_mul(vstd::wrapping::i32_specs::wrapping_mul(a, b), c) == vstd::wrapping::i32_specs::wrapping_mul(
            a,
            vstd::wrapping::i32_specs::wrapping_mul(b, c),
        ),
        vstd::wrapping::i32_specs::wrapping_mul(1, a) == a,
        vstd::wrapping::i32_specs::wrapping_mul(a, 1) == a,
{
    let r = 0x1_0000_0000 as int;
    let (x, y, z) = (a as int, b as int, c as int);
    let xy = vstd::wrapping::i32_specs::signed_crop(x * y) as int;
    let yz = vstd::wrapping::i32_specs::signed_crop(y * z) as int;
    lemma_signed_crop_i32(x * y, 0);
    lemma_signed_crop_i32(y * z, 0);
    lemma_mul_mod_noop_general(xy, z, r);
    lemma_mul_mod_noop_general(x * y, z, r);
    lemma_mul_mod_noop_general(x, yz, r);
    lemma_mul_mod_noop_general(x, y * z, r);
    assert((x * y) * z == x * (y * z)) by (nonlinear_arith);
    lemma_signed_crop_i32(xy * z, x * yz);
    assert(1 * x == x && x * 1 == x);
    if x >= 0 {
        lemma_small_mod(x as nat, r as nat);
    } else {
        lemma_small_mod((x + r) as nat, r as nat);
        lemma_mod_multiples_vanish(1, x, r);
    }
}

impl SemiGroup for Min<i32> {
    type S = i32;

    open spec fn op_spec(lhs: i32, rhs: i32) -> i32 {
        if lhs <= rhs {
            lhs
        } else {
            rhs
        }
    }

    proof fn lemma_associative(a: i32, b: i32, c: i32) {
    }

    fn op(lhs: &i32, rhs: &i32) -> (r: i32) {
        if *lhs <= *rhs {
            *lhs
        } else {
            *rhs
        }
    }
}

impl SemiGroup for Max<i32> {
    type S = i32;

    open spec fn op_spec(lhs: i32, rhs: i32) -> i32 {
        if lhs >= rhs {
            lhs
        } else {
            rhs
        }
    }

    proof fn lemma_associative(a: i32, b: i32, c: i32) {
    }

    fn op(lhs: &i32, rhs: &i32) -> (r: i32) {
        if *lhs >= *rhs {
            *lhs
        } else {
            *rhs
        }
    }
}

impl SemiGroup for Add<i32> {
    type S = i32;

    open spec fn op_spec(lhs: i32, rhs: i32) -> i32 {
        vstd::wrapping::i32_specs::wrapping_add(lhs, rhs)
    }

    proof fn lemma_associative(a: i32, b: i32, c: i32) {
    }

    fn op(lhs: &i32, rhs: &i32) -> (r: i32) {
        lhs.wrapping_add(*rhs)
    }
}

impl SemiGroup for Mul<i32> {
    type S = i32;

    open spec fn op_spec(lhs: i32, rhs: i32) -> i32 {
        vstd::wrapping::i32_specs::wrapping_mul(lhs, rhs)
    }

    proof fn lemma_associative(a: i32, b: i32, c: i32) {
        lemma_wrapping_mul_i32(a, b, c);
    }

    fn op(lhs: &i32, rhs: &i32) -> (r: i32) {
        lhs.wrapping_mul(*rhs)
    }
}

impl SemiGroup for BitAnd<i32> {
    type S = i32;

    open spec fn op_spec(lhs: i32, rhs: i32) -> i32 {
        lhs & rhs
    }

    proof fn lemma_associative(a: i32, b: i32, c: i32) {
        lemma_bitwise_i32(a, b, c);
    }

    fn op(lhs: &i32, rhs: &i32) -> (r: i32) {
        *lhs & *rhs
    }
}

impl SemiGroup for BitOr<i32> {
    type S = i32;

    open spec fn op_spec(lhs: i32, rhs: i32) -> i32 {
        lhs | rhs
    }

    proof fn lemma_associative(a: i32, b: i32, c: i32) {
        lemma_bitwise_i32(a, b, c);
    }

    fn op(lhs: &i32, rhs: &i32) -> (r: i32) {
        *lhs | *rhs
    }
}

impl SemiGroup for BitXor<i32> {
    type S = i32;

    open spec fn op_spec(lhs: i32, rhs: i32) -> i32 {
        lhs ^ rhs
    }

    proof fn lemma_associative(a: i32, b: i32, c: i32) {
        lemma_bitwise_i32(a, b, c);
    }

    fn op(lhs: &i32, rhs: &i32) -> (r: i32) {
        *lhs ^ *rhs
    }
}

impl Band for Min<i32> {
    type S = i32;

    open spec fn op_spec(lhs: i32, rhs: i32) -> i32 {
        if lhs <= rhs {
            lhs
        } else {
            rhs
        }
    }

    proof fn lemma_associative(a: i32, b: i32, c: i32) {
    }

    proof fn lemma_idempotent(a: i32) {
    }

    fn op(lhs: &i32, rhs: &i32) -> (r: i32) {
        if *lhs <= *rhs {
            *lhs
        } else {
            *rhs
        }
    }
}

impl Band for Max<i32> {
    type S = i32;

    open spec fn op_spec(lhs: i32, rhs: i32) -> i32 {
        if lhs >= rhs {
            lhs
        } else {
            rhs
        }
    }

    proof fn lemma_associative(a: i32, b: i32, c: i32) {
    }

    proof fn lemma_idempotent(a: i32) {
    }

    fn op(lhs: &i32, rhs: &i32) -> (r: i32) {
        if *lhs >= *rhs {
            *lhs
        } else {
            *rhs
        }
    }
}

impl Band for BitAnd<i32> {
    type S = i32;

    open spec fn op_spec(lhs: i32, rhs: i32) -> i32 {
        lhs & rhs
    }

    proof fn lemma_associative(a: i32, b: i32, c: i32) {
        lemma_bitwise_i32(a, b, c);
    }

    proof fn lemma_idempotent(a: i32) {
        lemma_bitwise_i32(a, a, a);
    }

    fn op(lhs: &i32, rhs: &i32) -> (r: i32) {
        *lhs & *rhs
    }
}

impl Band for BitOr<i32> {
    type S = i32;

    open spec fn op_spec(lhs: i32, rhs: i32) -> i32 {
        lhs | rhs
    }

    proof fn lemma_associative(a: i32, b: i32, c: i32) {
        lemma_bitwise_i32(a, b, c);
    }

    proof fn lemma_idempotent(a: i32) {
        lemma_bitwise_i32(a, a, a);
    }

    fn op(lhs: &i32, rhs: &i32) -> (r: i32) {
        *lhs | *rhs
    }
}

impl Monoid for Min<i32> {
    type S = i32;

    open spec fn op_spec(lhs: i32, rhs: i32) -> i32 {
        if lhs <= rhs {
            lhs
        } else {
            rhs
        }
    }

    proof fn lemma_associative(a: i32, b: i32, c: i32) {
    }

    proof fn lemma_unit(a: i32) {
    }

    fn op(lhs: &i32, rhs: &i32) -> (r: i32) {
        if *lhs <= *rhs {
            *lhs
        } else {
            *rhs
        }
    }

    const E: i32 = i32::MAX;
}

impl Monoid for Max<i32> {
    type S = i32;

    open spec fn op_spec(lhs: i32, rhs: i32) -> i32 {
        if lhs >= rhs {
            lhs
        } else {
            rhs
        }
    }

    proof fn lemma_associative(a: i32, b: i32, c: i32) {
    }

    proof fn lemma_unit(a: i32) {
    }

    fn op(lhs: &i32, rhs: &i32) -> (r: i32) {
        if *lhs >= *rhs {
            *lhs
        } else {
            *rhs
        }
    }

    const E: i32 = i32::MIN;
}

impl Monoid for Add<i32> {
    type S = i32;

    open spec fn op_spec(lhs: i32, rhs: i32) -> i32 {
        vstd::wrapping::i32_specs::wrapping_add(lhs, rhs)
    }

    proof fn lemma_associative(a: i32, b: i32, c: i32) {
    }

    proof fn lemma_unit(a: i32) {
    }

    fn op(lhs: &i32, rhs: &i32) -> (r: i32) {
        lhs.wrapping_add(*rhs)
    }

    const E: i32 = 0;
}

impl Monoid for Mul<i32> {
    type S = i32;

    open spec fn op_spec(lhs: i32, rhs: i32) -> i32 {
        vstd::wrapping::i32_specs::wrapping_mul(lhs, rhs)
    }

    proof fn lemma_associative(a: i32, b: i32, c: i32) {
        lemma_wrapping_mul_i32(a, b, c);
    }

    proof fn lemma_unit(a: i32) {
        lemma_wrapping_mul_i32(a, a, a);
    }

    fn op(lhs: &i32, rhs: &i32) -> (r: i32) {
        lhs.wrapping_mul(*rhs)
    }

    const E: i32 = 1;
}

impl Monoid for BitOr<i32> {
    type S = i32;

    open spec fn op_spec(lhs: i32, rhs: i32) -> i32 {
        lhs | rhs
    }

    proof fn lemma_associative(a: i32, b: i32, c: i32) {
        lemma_bitwise_i32(a, b, c);
    }

    proof fn lemma_unit(a: i32) {
        lemma_bitwise_i32(a, a, a);
    }

    fn op(lhs: &i32, rhs: &i32) -> (r: i32) {
        *lhs | *rhs
    }

    const E: i32 = 0;
}

impl Monoid for BitXor<i32> {
    type S = i32;

    open spec fn op_spec(lhs: i32, rhs: i32) -> i32 {
        lhs ^ rhs
    }

    proof fn lemma_associative(a: i32, b: i32, c: i32) {
        lemma_bitwise_i32(a, b, c);
    }

    proof fn lemma_unit(a: i32) {
        lemma_bitwise_i32(a, a, a);
    }

    fn op(lhs: &i32, rhs: &i32) -> (r: i32) {
        *lhs ^ *rhs
    }

    const E: i32 = 0;
}

/// The laws of the bitwise operations on `i64`.
proof fn lemma_bitwise_i64(a: i64, b: i64, c: i64)
    by (bit_vector)
    ensures
        (a & b) & c == a & (b & c),
        (a | b) | c == a | (b | c),
        (a ^ b) ^ c == a ^ (b ^ c),
        a & a == a,
        a | a == a,
        a | 0 == a,
        0 | a == a,
        a ^ 0 == a,
        0 ^ a == a,
{
}

/// What is left of an integer modulo the range of `i64`, as a `i64`, is
/// congruent to it, and congruent integers leave the same.
proof fn lemma_signed_crop_i64(x: int, y: int)
    ensures
        (vstd::wrapping::i64_specs::signed_crop(x) as int) % (0x1_0000_0000_0000_0000 as int) == x % (0x1_0000_0000_0000_0000 as int),
        x % (0x1_0000_0000_0000_0000 as int) == y % (0x1_0000_0000_0000_0000 as int) ==> vstd::wrapping::i64_specs::signed_crop(x) == vstd::wrapping::i64_specs::signed_crop(y),
{
    let r = 0x1_0000_0000_0000_0000 as int;
    lemma_mod_bound(x, r);
    lemma_mod_twice(x, r);
    if x % r > i64::MAX as int {
        lemma_mod_multiples_vanish(-1, x % r, r);
    }
}

/// Multiplication modulo the range of `i64` is associative and has the unit one.
proof fn lemma_wrapping_mul_i64(a: i64, b: i64, c: i64)
    ensures
        vstd::wrapping::i64_specs::wrapping_mul(vstd::wrapping::i64_specs::wrapping_mul(a, b), c) == vstd::wrapping::i64_specs::wrapping_mul(
            a,
            vstd::wrapping::i64_specs::wrapping_mul(b, c),
        ),
        vstd::wrapping::i64_specs::wrapping_mul(1, a) == a,
        vstd::wrapping::i64_specs::wrapping_mul(a, 1) == a,
{
    let r = 0x1_0000_0000_0000_0000 as int;
    let (x, y, z) = (a as int, b as int, c as int);
    let xy = vstd::wrapping::i64_specs::signed_crop(x * y) as int;
    let yz = vstd::wrapping::i64_specs::signed_crop(y * z) as int;
    lemma_signed_crop_i64(x * y, 0);
    lemma_signed_crop_i64(y * z, 0);
    lemma_mul_mod_noop_general(xy, z, r);
    lemma_mul_mod_noop_general(x * y, z, r);
    lemma_mul_mod_noop_general(x, yz, r);
    lemma_mul_mod_noop_general(x, y * z, r);
    assert((x * y) * z == x * (y * z)) by (nonlinear_arith);
    lemma_signed_crop_i64(xy * z, x * yz);
    assert(1 * x == x && x * 1 == x);
    if x >= 0 {
        lemma_small_mod(x as nat, r as nat);
    } else {
        lemma_small_mod((x + r) as nat, r as nat);
        lemma_mod_multiples_vanish(1, x, r);
    }
}

impl SemiGroup for Min<i64> {
    type S = i64;

    open spec fn op_spec(lhs: i64, rhs: i64) -> i64 {
        if lhs <= rhs {
            lhs
        } else {
            rhs
        }
    }

    proof fn lemma_associative(a: i64, b: i64, c: i64) {
    }

    fn op(lhs: &i64, rhs: &i64) -> (r: i64) {
        if *lhs <= *rhs {
            *lhs
        } else {
            *rhs
        }
    }
}

impl SemiGroup for Max<i64> {
    type S = i64;

    open spec fn op_spec(lhs: i64, rhs: i64) -> i64 {
        if lhs >= rhs {
            lhs
        } else {
            rhs
        }
    }

    proof fn lemma_associative(a: i64, b: i64, c: i64) {
    }

    fn op(lhs: &i64, rhs: &i64) -> (r: i64) {
        if *lhs >= *rhs {
            *lhs
        } else {
            *rhs
        }
    }
}

impl SemiGroup for Add<i64> {
    type S = i64;

    open spec fn op_spec(lhs: i64, rhs: i64) -> i64 {
        vstd::wrapping::i64_specs::wrapping_add(lhs, rhs)
    }

    proof fn lemma_associative(a: i64, b: i64, c: i64) {
    }

    fn op(lhs: &i64, rhs: &i64) -> (r: i64) {
        lhs.wrapping_add(*rhs)
    }
}

impl SemiGroup for Mul<i64> {
    type S = i64;

    open spec fn op_spec(lhs: i64, rhs: i64) -> i64 {
        vstd::wrapping::i64_specs::wrapping_mul(lhs, rhs)
    }

    proof fn lemma_associative(a: i64, b: i64, c: i64) {
        lemma_wrapping_mul_i64(a, b, c);
    }

    fn op(lhs: &i64, rhs: &i64) -> (r: i64) {
        lhs.wrapping_mul(*rhs)
    }
}

impl SemiGroup for BitAnd<i64> {
    type S = i64;

    open spec fn op_spec(lhs: i64, rhs: i64) -> i64 {
        lhs & rhs
    }

    proof fn lemma_associative(a: i64, b: i64, c: i64) {
        lemma_bitwise_i64(a, b, c);
    }

    fn op(lhs: &i64, rhs: &i64) -> (r: i64) {
        *lhs & *rhs
    }
}

impl SemiGroup for BitOr<i64> {
    type S = i64;

    open spec fn op_spec(lhs: i64, rhs: i64) -> i64 {
        lhs | rhs
    }

    proof fn lemma_associative(a: i64, b: i64, c: i64) {
        lemma_bitwise_i64(a, b, c);
    }

    fn op(lhs: &i64, rhs: &i64) -> (r: i64) {
        *lhs | *rhs
    }
}

impl SemiGroup for BitXor<i64> {
    type S = i64;

    open spec fn op_spec(lhs: i64, rhs: i64) -> i64 {
        lhs ^ rhs
    }

    proof fn lemma_associative(a: i64, b: i64, c: i64) {
        lemma_bitwise_i64(a, b, c);
    }

    fn op(lhs: &i64, rhs: &i64) -> (r: i64) {
        *lhs ^ *rhs
    }
}

impl Band for Min<i64> {
    type S = i64;

    open spec fn op_spec(lhs: i64, rhs: i64) -> i64 {
        if lhs <= rhs {
            lhs
        } else {
            rhs
        }
    }

    proof fn lemma_associative(a: i64, b: i64, c: i64) {
    }

    proof fn lemma_idempotent(a: i64) {
    }

    fn op(lhs: &i64, rhs: &i64) -> (r: i64) {
        if *lhs <= *rhs {
            *lhs
        } else {
            *rhs
        }
    }
}

impl Band for Max<i64> {
    type S = i64;

    open spec fn op_spec(lhs: i64, rhs: i64) -> i64 {
        if lhs >= rhs {
            lhs
        } else {
            rhs
        }
    }

    proof fn lemma_associative(a: i64, b: i64, c: i64) {
    }

    proof fn lemma_idempotent(a: i64) {
    }

    fn op(lhs: &i64, rhs: &i64) -> (r: i64) {
        if *lhs >= *rhs {
            *lhs
        } else {
            *rhs
        }
    }
}

impl Band for BitAnd<i64> {
    type S = i64;

    open spec fn op_spec(lhs: i64, rhs: i64) -> i64 {
        lhs & rhs
    }

    proof fn lemma_associative(a: i64, b: i64, c: i64) {
        lemma_bitwise_i64(a, b, c);
    }

    proof fn lemma_idempotent(a: i64) {
        lemma_bitwise_i64(a, a, a);
    }

    fn op(lhs: &i64, rhs: &i64) -> (r: i64) {
        *lhs & *rhs
    }
}

impl Band for BitOr<i64> {
    type S = i64;

    open spec fn op_spec(lhs: i64, rhs: i64) -> i64 {
        lhs | rhs
    }

    proof fn lemma_associative(a: i64, b: i64, c: i64) {
        lemma_bitwise_i64(a, b, c);
    }

    proof fn lemma_idempotent(a: i64) {
        lemma_bitwise_i64(a, a, a);
    }

    fn op(lhs: &i64, rhs: &i64) -> (r: i64) {
        *lhs | *rhs
    }
}

impl Monoid for Min<i64> {
    type S = i64;

    open spec fn op_spec(lhs: i64, rhs: i64) -> i64 {
        if lhs <= rhs {
            lhs
        } else {
            rhs
        }
    }

    proof fn lemma_associative(a: i64, b: i64, c: i64) {
    }

    proof fn lemma_unit(a: i64) {
    }

    fn op(lhs: &i64, rhs: &i64) -> (r: i64) {
        if *lhs <= *rhs {
            *lhs
        } else {
            *rhs
        }
    }

    const E: i64 = i64::MAX;
}

impl Monoid for Max<i64> {
    type S = i64;

    open spec fn op_spec(lhs: i64, rhs: i64) -> i64 {
        if lhs >= rhs {
            lhs
        } else {
            rhs
        }
    }

    proof fn lemma_associative(a: i64, b: i64, c: i64) {
    }

    proof fn lemma_unit(a: i64) {
    }

    fn op(lhs: &i64, rhs: &i64) -> (r: i64) {
        if *lhs >= *rhs {
            *lhs
        } else {
            *rhs
        }
    }

    const E: i64 = i64::MIN;
}

impl Monoid for Add<i64> {
    type S = i64;

    open spec fn op_spec(lhs: i64, rhs: i64) -> i64 {
        vstd::wrapping::i64_specs::wrapping_add(lhs, rhs)
    }

    proof fn lemma_associative(a: i64, b: i64, c: i64) {
    }

    proof fn lemma_unit(a: i64) {
    }

    fn op(lhs: &i64, rhs: &i64) -> (r: i64) {
        lhs.wrapping_add(*rhs)
    }

    const E: i64 = 0;
}

impl Monoid for Mul<i64> {
    type S = i64;

    open spec fn op_spec(lhs: i64, rhs: i64) -> i64 {
        vstd::wrapping::i64_specs::wrapping_mul(lhs, rhs)
    }

    proof fn lemma_associative(a: i64, b: i64, c: i64) {
        lemma_wrapping_mul_i64(a, b, c);
    }

    proof fn lemma_unit(a: i64) {
        lemma_wrapping_mul_i64(a, a, a);
    }

    fn op(lhs: &i64, rhs: &i64) -> (r: i64) {
        lhs.wrapping_mul(*rhs)
    }

    const E: i64 = 1;
}

impl Monoid for BitOr<i64> {
    type S = i64;

    open spec fn op_spec(lhs: i64, rhs: i64) -> i64 {
        lhs | rhs
    }

    proof fn lemma_associative(a: i64, b: i64, c: i64) {
        lemma_bitwise_i64(a, b, c);
    }

    proof fn lemma_unit(a: i64) {
        lemma_bitwise_i64(a, a, a);
    }

    fn op(lhs: &i64, rhs: &i64) -> (r: i64) {
        *lhs | *rhs
    }

    const E: i64 = 0;
}

impl Monoid for BitXor<i64> {
    type S = i64;

    open spec fn op_spec(lhs: i64, rhs: i64) -> i64 {
        lhs ^ rhs
    }

    proof fn lemma_associative(a: i64, b: i64, c: i64) {
        lemma_bitwise_i64(a, b, c);
    }

    proof fn lemma_unit(a: i64) {
        lemma_bitwise_i64(a, a, a);
    }

    fn op(lhs: &i64, rhs: &i64) -> (r: i64) {
        *lhs ^ *rhs
    }

    const E: i64 = 0;
}

} // verus!

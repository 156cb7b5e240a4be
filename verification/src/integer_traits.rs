//! The largest and the least value of each integer type, by a trait.

use vstd::prelude::*;

verus! {

/// A type with a largest value.
pub trait HasMaxValue: Sized {
    /// The largest value.
    const MAX: Self;
}

/// A type with a least value.
pub trait HasMinValue: Sized {
    /// The least value.
    const MIN: Self;
}

impl HasMaxValue for u8 {
    const MAX: u8 = u8::MAX;
}

impl HasMinValue for u8 {
    const MIN: u8 = u8::MIN;
}

impl HasMaxValue for u16 {
    const MAX: u16 = u16::MAX;
}

impl HasMinValue for u16 {
    const MIN: u16 = u16::MIN;
}

impl HasMaxValue for u32 {
    const MAX: u32 = u32::MAX;
}

impl HasMinValue for u32 {
    const MIN: u32 = u32::MIN;
}

impl HasMaxValue for u64 {
    const MAX: u64 = u64::MAX;
}

impl HasMinValue for u64 {
    const MIN: u64 = u64::MIN;
}

impl HasMaxValue for u128 {
    const MAX: u128 = u128::MAX;
}

impl HasMinValue for u128 {
    const MIN: u128 = u128::MIN;
}

impl HasMaxValue for usize {
    const MAX: usize = usize::MAX;
}

impl HasMinValue for usize {
    const MIN: usize = usize::MIN;
}

impl HasMaxValue for i8 {
    const MAX: i8 = i8::MAX;
}

impl HasMinValue for i8 {
    const MIN: i8 = i8::MIN;
}

impl HasMaxValue for i16 {
    const MAX: i16 = i16::MAX;
}

impl HasMinValue for i16 {
    const MIN: i16 = i16::MIN;
}

impl HasMaxValue for i32 {
    const MAX: i32 = i32::MAX;
}

impl HasMinValue for i32 {
    const MIN: i32 = i32::MIN;
}

impl HasMaxValue for i64 {
    const MAX: i64 = i64::MAX;
}

impl HasMinValue for i64 {
    const MIN: i64 = i64::MIN;
}

impl HasMaxValue for i128 {
    const MAX: i128 = i128::MAX;
}

impl HasMinValue for i128 {
    const MIN: i128 = i128::MIN;
}

impl HasMaxValue for isize {
    const MAX: isize = isize::MAX;
}

impl HasMinValue for isize {
    const MIN: isize = isize::MIN;
}

} // verus!

//! Types with a total order that contracts can speak of: each value has a
//! position on the integer line, and comparing two values is comparing their
//! positions.

use vstd::prelude::*;

verus! {

/// A totally ordered type.
pub trait Ordered: Copy + Sized {
    /// The place of the value in the order.
    spec fn position(self) -> int;

    /// Different values have different places.
    proof fn lemma_position_injective(self, other: Self)
        ensures
            self.position() == other.position() ==> self == other,
    ;

    /// Whether this value comes before `other`.
    fn less(self, other: Self) -> (b: bool)
        ensures
            b == (self.position() < other.position()),
    ;

    /// Whether this value is `other`.
    fn same(self, other: Self) -> (b: bool)
        ensures
            b == (self == other),
    ;
}

impl Ordered for u8 {
    open spec fn position(self) -> int {
        self as int
    }

    proof fn lemma_position_injective(self, other: Self) {
    }

    fn less(self, other: Self) -> (b: bool) {
        self < other
    }

    fn same(self, other: Self) -> (b: bool) {
        self == other
    }
}

impl Ordered for u16 {
    open spec fn position(self) -> int {
        self as int
    }

    proof fn lemma_position_injective(self, other: Self) {
    }

    fn less(self, other: Self) -> (b: bool) {
        self < other
    }

    fn same(self, other: Self) -> (b: bool) {
        self == other
    }
}

impl Ordered for u32 {
    open spec fn position(self) -> int {
        self as int
    }

    proof fn lemma_position_injective(self, other: Self) {
    }

    fn less(self, other: Self) -> (b: bool) {
        self < other
    }

    fn same(self, other: Self) -> (b: bool) {
        self == other
    }
}

impl Ordered for u64 {
    open spec fn position(self) -> int {
        self as int
    }

    proof fn lemma_position_injective(self, other: Self) {
    }

    fn less(self, other: Self) -> (b: bool) {
        self < other
    }

    fn same(self, other: Self) -> (b: bool) {
        self == other
    }
}

impl Ordered for u128 {
    open spec fn position(self) -> int {
        self as int
    }

    proof fn lemma_position_injective(self, other: Self) {
    }

    fn less(self, other: Self) -> (b: bool) {
        self < other
    }

    fn same(self, other: Self) -> (b: bool) {
        self == other
    }
}

impl Ordered for usize {
    open spec fn position(self) -> int {
        self as int
    }

    proof fn lemma_position_injective(self, other: Self) {
    }

    fn less(self, other: Self) -> (b: bool) {
        self < other
    }

    fn same(self, other: Self) -> (b: bool) {
        self == other
    }
}

impl Ordered for i8 {
    open spec fn position(self) -> int {
        self as int
    }

    proof fn lemma_position_injective(self, other: Self) {
    }

    fn less(self, other: Self) -> (b: bool) {
        self < other
    }

    fn same(self, other: Self) -> (b: bool) {
        self == other
    }
}

impl Ordered for i16 {
    open spec fn position(self) -> int {
        self as int
    }

    proof fn lemma_position_injective(self, other: Self) {
    }

    fn less(self, other: Self) -> (b: bool) {
        self < other
    }

    fn same(self, other: Self) -> (b: bool) {
        self == other
    }
}

impl Ordered for i32 {
    open spec fn position(self) -> int {
        self as int
    }

    proof fn lemma_position_injective(self, other: Self) {
    }

    fn less(self, other: Self) -> (b: bool) {
        self < other
    }

    fn same(self, other: Self) -> (b: bool) {
        self == other
    }
}

impl Ordered for i64 {
    open spec fn position(self) -> int {
        self as int
    }

    proof fn lemma_position_injective(self, other: Self) {
    }

    fn less(self, other: Self) -> (b: bool) {
        self < other
    }

    fn same(self, other: Self) -> (b: bool) {
        self == other
    }
}

impl Ordered for i128 {
    open spec fn position(self) -> int {
        self as int
    }

    proof fn lemma_position_injective(self, other: Self) {
    }

    fn less(self, other: Self) -> (b: bool) {
        self < other
    }

    fn same(self, other: Self) -> (b: bool) {
        self == other
    }
}

impl Ordered for isize {
    open spec fn position(self) -> int {
        self as int
    }

    proof fn lemma_position_injective(self, other: Self) {
    }

    fn less(self, other: Self) -> (b: bool) {
        self < other
    }

    fn same(self, other: Self) -> (b: bool) {
        self == other
    }
}

/// Whether each element of `s` comes before the next.
pub open spec fn strictly_increasing<T: Ordered>(s: Seq<T>) -> bool {
    forall|i: int, j: int| 0 <= i < j < s.len() ==> s[i].position() < s[j].position()
}

} // verus!

//! Unsigned integer widths usable as dictionary codes.

use vstd::prelude::*;

verus! {

/// `num_traits::Bounded::max_value` for `u8` (num-traits 0.2.19, `bounded_impl!`)
/// returns the constant `u8::MAX`; that is all this specification claims.
pub assume_specification[ <u8 as num_traits::Bounded>::max_value ]() -> (r: u8)
    ensures
        r == u8::MAX,
;

/// `num_traits::Bounded::max_value` for `u16` (num-traits 0.2.19, `bounded_impl!`)
/// returns the constant `u16::MAX`; that is all this specification claims.
pub assume_specification[ <u16 as num_traits::Bounded>::max_value ]() -> (r: u16)
    ensures
        r == u16::MAX,
;

/// `num_traits::Bounded::max_value` for `u32` (num-traits 0.2.19, `bounded_impl!`)
/// returns the constant `u32::MAX`; that is all this specification claims.
pub assume_specification[ <u32 as num_traits::Bounded>::max_value ]() -> (r: u32)
    ensures
        r == u32::MAX,
;

/// `num_traits::Bounded::max_value` for `u64` (num-traits 0.2.19, `bounded_impl!`)
/// returns the constant `u64::MAX`; that is all this specification claims.
pub assume_specification[ <u64 as num_traits::Bounded>::max_value ]() -> (r: u64)
    ensures
        r == u64::MAX,
;

/// An unsigned integer type used for dictionary codes.
pub trait Integer: Copy + Sized {
    /// The number this code stands for.
    spec fn as_nat(&self) -> nat;

    /// The largest number the type can represent.
    spec fn max_nat() -> nat;

    /// Two codes are the same value exactly when they stand for the same number.
    proof fn lemma_as_nat_injective(a: Self, b: Self)
        ensures
            a.as_nat() == b.as_nat() <==> a == b,
            a.as_nat() <= Self::max_nat(),
    ;

    /// The largest value of the type.
    fn type_max() -> (r: Self)
        ensures
            r.as_nat() == Self::max_nat(),
    ;

    /// The code as a `usize`, saturating at `usize::MAX`.
    fn to_usize(&self) -> (r: usize)
        ensures
            self.as_nat() <= usize::MAX ==> r == self.as_nat(),
            self.as_nat() > usize::MAX ==> r == usize::MAX,
    ;

    /// The code that stands for `n`.
    fn from_usize(n: usize) -> (r: Self)
        requires
            n <= Self::max_nat(),
        ensures
            r.as_nat() == n,
    ;
}

impl Integer for u8 {
    open spec fn as_nat(&self) -> nat {
        *self as nat
    }

    open spec fn max_nat() -> nat {
        u8::MAX as nat
    }

    proof fn lemma_as_nat_injective(a: Self, b: Self) {
    }

    fn type_max() -> (r: Self) {
        <u8 as num_traits::Bounded>::max_value()
    }

    fn to_usize(&self) -> (r: usize) {
        *self as usize
    }

    fn from_usize(n: usize) -> (r: Self) {
        n as u8
    }
}

impl Integer for u16 {
    open spec fn as_nat(&self) -> nat {
        *self as nat
    }

    open spec fn max_nat() -> nat {
        u16::MAX as nat
    }

    proof fn lemma_as_nat_injective(a: Self, b: Self) {
    }

    fn type_max() -> (r: Self) {
        <u16 as num_traits::Bounded>::max_value()
    }

    fn to_usize(&self) -> (r: usize) {
        *self as usize
    }

    fn from_usize(n: usize) -> (r: Self) {
        n as u16
    }
}

impl Integer for u32 {
    open spec fn as_nat(&self) -> nat {
        *self as nat
    }

    open spec fn max_nat() -> nat {
        u32::MAX as nat
    }

    proof fn lemma_as_nat_injective(a: Self, b: Self) {
    }

    fn type_max() -> (r: Self) {
        <u32 as num_traits::Bounded>::max_value()
    }

    fn to_usize(&self) -> (r: usize) {
        *self as usize
    }

    fn from_usize(n: usize) -> (r: Self) {
        n as u32
    }
}

impl Integer for u64 {
    open spec fn as_nat(&self) -> nat {
        *self as nat
    }

    open spec fn max_nat() -> nat {
        u64::MAX as nat
    }

    proof fn lemma_as_nat_injective(a: Self, b: Self) {
    }

    fn type_max() -> (r: Self) {
        <u64 as num_traits::Bounded>::max_value()
    }

    fn to_usize(&self) -> (r: usize) {
        if *self > usize::MAX as u64 {
            usize::MAX
        } else {
            *self as usize
        }
    }

    fn from_usize(n: usize) -> (r: Self) {
        n as u64
    }
}

/// At every code width the number a code stands for is the machine integer
/// itself, so a code handed out for position `n` is the integer `n`.
pub proof fn law_codes_are_machine_integers()
    ensures
        forall|c: u8| #[trigger] c.as_nat() == c as nat,
        forall|c: u16| #[trigger] c.as_nat() == c as nat,
        forall|c: u32| #[trigger] c.as_nat() == c as nat,
        forall|c: u64| #[trigger] c.as_nat() == c as nat,
        <u8 as Integer>::max_nat() == u8::MAX,
        <u16 as Integer>::max_nat() == u16::MAX,
        <u32 as Integer>::max_nat() == u32::MAX,
        <u64 as Integer>::max_nat() == u64::MAX,
{
}

} // verus!

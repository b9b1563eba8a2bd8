//! Number types that token ids can be written in.

use vstd::pervasive::cloned;
use vstd::prelude::*;
use vstd::std_specs::cmp::PartialEqSpec;

verus! {

/// A representation of token ids. Ids are `u64` at heart; a representation
/// says how one is written in it and read back, and which value is zero.
pub trait TokenID: PartialEq + Clone {
    /// The zero of this representation.
    spec fn zero_value() -> Self;

    /// The id `t` written in this representation.
    spec fn coerced(t: u64) -> Self;

    /// The id that a value of this representation stands for.
    spec fn restored(self) -> u64;

    /// `==` on this representation tells whether two values are the same.
    proof fn eq_is_sameness(a: Self, b: Self)
        ensures
            Self::obeys_eq_spec(),
            a.eq_spec(&b) <==> a == b,
    ;

    /// A clone is the same value.
    proof fn clone_is_sameness(a: Self, b: Self)
        requires
            cloned(a, b),
        ensures
            a == b,
    ;

    /// The id 1 is not written as zero.
    proof fn one_is_not_zero()
        ensures
            Self::coerced(1) != Self::zero_value(),
    ;

    /// Get a zero value
    fn zero() -> (r: Self)
        ensures
            r == Self::zero_value(),
    ;

    /// Convert a `u64` to `Self`
    fn coerce(t: u64) -> (r: Self)
        ensures
            r == Self::coerced(t),
    ;

    /// Convert back into `u64`
    fn restore(self) -> (r: u64)
        ensures
            r == self.restored(),
    ;
}

impl TokenID for u64 {
    open spec fn zero_value() -> Self {
        0
    }

    open spec fn coerced(t: u64) -> Self {
        t
    }

    open spec fn restored(self) -> u64 {
        self
    }

    proof fn eq_is_sameness(a: Self, b: Self) {
    }

    proof fn clone_is_sameness(a: Self, b: Self) {
    }

    proof fn one_is_not_zero() {
    }

    fn zero() -> Self {
        0
    }

    #[inline(always)]
    fn coerce(t: u64) -> Self {
        t
    }

    #[inline(always)]
    fn restore(self) -> u64 {
        self
    }
}

/// Ids as `i64`: the same 64 bits read as a signed number.
impl TokenID for i64 {
    open spec fn zero_value() -> Self {
        0
    }

    open spec fn coerced(t: u64) -> Self {
        t as i64
    }

    open spec fn restored(self) -> u64 {
        self as u64
    }

    proof fn eq_is_sameness(a: Self, b: Self) {
    }

    proof fn clone_is_sameness(a: Self, b: Self) {
    }

    proof fn one_is_not_zero() {
    }

    fn zero() -> Self {
        0
    }

    #[inline(always)]
    fn coerce(t: u64) -> Self {
        #[verifier::truncate]
        (t as i64)
    }

    #[inline(always)]
    fn restore(self) -> u64 {
        #[verifier::truncate]
        (self as u64)
    }
}

/// Ids as `i32`: the low 32 bits read as a signed number, and read back
/// with the sign carried into the upper bits.
impl TokenID for i32 {
    open spec fn zero_value() -> Self {
        0
    }

    open spec fn coerced(t: u64) -> Self {
        t as i32
    }

    open spec fn restored(self) -> u64 {
        self as u64
    }

    proof fn eq_is_sameness(a: Self, b: Self) {
    }

    proof fn clone_is_sameness(a: Self, b: Self) {
    }

    proof fn one_is_not_zero() {
    }

    fn zero() -> Self {
        0
    }

    #[inline(always)]
    fn coerce(t: u64) -> Self {
        #[verifier::truncate]
        (t as i32)
    }

    #[inline(always)]
    fn restore(self) -> u64 {
        #[verifier::truncate]
        (self as u64)
    }
}

/// Ids below 2^31 come back from `i32` as they went in.
pub proof fn lemma_i32_round_trip(t: u64)
    requires
        t < 0x8000_0000,
    ensures
        <i32 as TokenID>::coerced(t).restored() == t,
{
    assert((t as i32) as u64 == t) by (bit_vector)
        requires
            t < 0x8000_0000,
    ;
}

/// Every id comes back from `i64` as it went in.
pub proof fn lemma_i64_round_trip(t: u64)
    ensures
        <i64 as TokenID>::coerced(t).restored() == t,
{
    assert((t as i64) as u64 == t) by (bit_vector);
}

} // verus!

//! Fixed-point helpers over the 64.64 unsigned format of `substrate_fixed`.
//!
//! A fixed-point value is carried as its raw bits in a `u128`; the real
//! number it stands for is `bits / 2^64`.
use substrate_fixed::transcendental::exp;
use substrate_fixed::types::{I64F64, U64F64};
use vstd::prelude::*;

verus! {

/// The raw bits of the fixed-point value one.
pub const FIXED_ONE: u128 = 0x1_0000_0000_0000_0000;

/// `FIXED_ONE` as a mathematical integer.
pub open spec fn one() -> int {
    0x1_0000_0000_0000_0000
}

/// Bits of the exact quotient `a / b`, rounded down, of two fixed-point values.
pub open spec fn div_bits(a: int, b: int) -> int {
    (a * one()) / b
}

/// Bits of the exact product `a * b`, rounded down, of two fixed-point values.
pub open spec fn mul_bits(a: int, b: int) -> int {
    (a * b) / one()
}

/// Relies on `U64F64::checked_div`: `None` for a zero divisor or a quotient
/// that does not fit, else the quotient `(a << 64) / b` rounded down.
#[verifier::external_body]
pub(crate) fn fx_div(a: u128, b: u128) -> (r: Option<u128>)
    ensures
        b == 0 ==> r is None,
        b != 0 ==> (r is Some <==> div_bits(a as int, b as int) <= u128::MAX),
        r matches Some(q) ==> q == div_bits(a as int, b as int),
{
    U64F64::from_bits(a).checked_div(U64F64::from_bits(b)).map(|q| q.to_bits())
}

/// Relies on `U64F64::checked_mul`: `None` when the product does not fit,
/// else the product `(a * b) >> 64` rounded down.
#[verifier::external_body]
pub(crate) fn fx_mul(a: u128, b: u128) -> (r: Option<u128>)
    ensures
        r is Some <==> mul_bits(a as int, b as int) <= u128::MAX,
        r matches Some(p) ==> p == mul_bits(a as int, b as int),
{
    U64F64::from_bits(a).checked_mul(U64F64::from_bits(b)).map(|p| p.to_bits())
}

/// The name of `e^x` in the signed 64.64 format, on raw bits: `None` where
/// the series that computes it overflows.
pub uninterp spec fn exp_of(x: i128) -> Option<i128>;

/// Relies on `substrate_fixed::transcendental::exp` over `I64F64`: its
/// result depends on the operand alone, and is an error where its series
/// overflows.
#[verifier::external_body]
pub(crate) fn fx_exp(x: i128) -> (r: Option<i128>)
    ensures
        r == exp_of(x),
{
    exp::<I64F64, I64F64>(I64F64::from_bits(x)).ok().map(|v: I64F64| v.to_bits())
}

} // verus!

//! IEEE-754 binary32 operations on raw 32-bit patterns.
//!
//! The machine stores every word as a `u32`; an instruction whose `OpType`
//! is `Float` reinterprets its operands as binary32 values. The operations
//! themselves are performed by the `rustc_apfloat` software implementation
//! of IEEE-754 (round to nearest, ties to even), called through the trusted
//! wrappers below. Each result is a function of the two operand patterns
//! alone, so it is given a name that the rest of the library's contracts
//! speak of exactly.
use vstd::prelude::*;
use rustc_apfloat::Float;

verus! {

/// The binary32 sum pattern of two binary32 patterns.
pub uninterp spec fn float_add_bits(a: u32, b: u32) -> u32;

/// The binary32 difference pattern of two binary32 patterns.
pub uninterp spec fn float_sub_bits(a: u32, b: u32) -> u32;

/// The binary32 product pattern of two binary32 patterns.
pub uninterp spec fn float_mul_bits(a: u32, b: u32) -> u32;

/// The binary32 quotient pattern of two binary32 patterns.
pub uninterp spec fn float_div_bits(a: u32, b: u32) -> u32;

/// The binary32 remainder (`fmod`) pattern of two binary32 patterns.
pub uninterp spec fn float_rem_bits(a: u32, b: u32) -> u32;

/// Whether the first binary32 pattern compares less than the second.
pub uninterp spec fn float_lt(a: u32, b: u32) -> bool;

/// Whether the first binary32 pattern compares less than or equal.
pub uninterp spec fn float_le(a: u32, b: u32) -> bool;

/// Whether the first binary32 pattern compares greater than the second.
pub uninterp spec fn float_gt(a: u32, b: u32) -> bool;

/// Whether the first binary32 pattern compares greater than or equal.
pub uninterp spec fn float_ge(a: u32, b: u32) -> bool;

/// The binary32 pattern that a decimal literal token denotes, if any.
pub uninterp spec fn float_lit_bits(token: Seq<u8>) -> Option<u32>;

/// Relies on rustc_apfloat's `Add` for `ieee::Single`: the IEEE-754
/// binary32 sum, rounded to nearest even; a function of the operand
/// patterns alone.
#[verifier::external_body]
pub(crate) fn float_add(a: u32, b: u32) -> (r: u32)
    ensures
        r == float_add_bits(a, b),
{
    let x = rustc_apfloat::ieee::Single::from_bits(a as u128);
    let y = rustc_apfloat::ieee::Single::from_bits(b as u128);
    (x + y).value.to_bits() as u32
}

/// Relies on rustc_apfloat's `Sub` for `ieee::Single`: the IEEE-754
/// binary32 difference; a function of the operand patterns alone.
#[verifier::external_body]
pub(crate) fn float_sub(a: u32, b: u32) -> (r: u32)
    ensures
        r == float_sub_bits(a, b),
{
    let x = rustc_apfloat::ieee::Single::from_bits(a as u128);
    let y = rustc_apfloat::ieee::Single::from_bits(b as u128);
    (x - y).value.to_bits() as u32
}

/// Relies on rustc_apfloat's `Mul` for `ieee::Single`: the IEEE-754
/// binary32 product; a function of the operand patterns alone.
#[verifier::external_body]
pub(crate) fn float_mul(a: u32, b: u32) -> (r: u32)
    ensures
        r == float_mul_bits(a, b),
{
    let x = rustc_apfloat::ieee::Single::from_bits(a as u128);
    let y = rustc_apfloat::ieee::Single::from_bits(b as u128);
    (x * y).value.to_bits() as u32
}

/// Relies on rustc_apfloat's `Div` for `ieee::Single`: the IEEE-754
/// binary32 quotient (division by zero yields an infinity or NaN, never a
/// trap); a function of the operand patterns alone.
#[verifier::external_body]
pub(crate) fn float_div(a: u32, b: u32) -> (r: u32)
    ensures
        r == float_div_bits(a, b),
{
    let x = rustc_apfloat::ieee::Single::from_bits(a as u128);
    let y = rustc_apfloat::ieee::Single::from_bits(b as u128);
    (x / y).value.to_bits() as u32
}

/// Relies on rustc_apfloat's `Rem` for `ieee::Single` (`c_fmod`): the
/// binary32 remainder with the dividend's sign; a function of the operand
/// patterns alone.
#[verifier::external_body]
pub(crate) fn float_rem(a: u32, b: u32) -> (r: u32)
    ensures
        r == float_rem_bits(a, b),
{
    let x = rustc_apfloat::ieee::Single::from_bits(a as u128);
    let y = rustc_apfloat::ieee::Single::from_bits(b as u128);
    (x % y).value.to_bits() as u32
}

/// Relies on rustc_apfloat's `PartialOrd::lt` for `ieee::Single`: IEEE-754
/// ordered comparison (false whenever an operand is NaN).
#[verifier::external_body]
pub(crate) fn float_less_than(a: u32, b: u32) -> (r: bool)
    ensures
        r == float_lt(a, b),
{
    rustc_apfloat::ieee::Single::from_bits(a as u128)
        < rustc_apfloat::ieee::Single::from_bits(b as u128)
}

/// Relies on rustc_apfloat's `PartialOrd::le` for `ieee::Single`: IEEE-754
/// ordered comparison (false whenever an operand is NaN).
#[verifier::external_body]
pub(crate) fn float_less_equal(a: u32, b: u32) -> (r: bool)
    ensures
        r == float_le(a, b),
{
    rustc_apfloat::ieee::Single::from_bits(a as u128)
        <= rustc_apfloat::ieee::Single::from_bits(b as u128)
}

/// Relies on rustc_apfloat's `PartialOrd::gt` for `ieee::Single`: IEEE-754
/// ordered comparison (false whenever an operand is NaN).
#[verifier::external_body]
pub(crate) fn float_greater_than(a: u32, b: u32) -> (r: bool)
    ensures
        r == float_gt(a, b),
{
    rustc_apfloat::ieee::Single::from_bits(a as u128)
        > rustc_apfloat::ieee::Single::from_bits(b as u128)
}

/// Relies on rustc_apfloat's `PartialOrd::ge` for `ieee::Single`: IEEE-754
/// ordered comparison (false whenever an operand is NaN).
#[verifier::external_body]
pub(crate) fn float_greater_equal(a: u32, b: u32) -> (r: bool)
    ensures
        r == float_ge(a, b),
{
    rustc_apfloat::ieee::Single::from_bits(a as u128)
        >= rustc_apfloat::ieee::Single::from_bits(b as u128)
}

/// Relies on rustc_apfloat's `FromStr` for `ieee::Single`: converts a
/// decimal literal to the nearest binary32 pattern; the result depends on
/// the token's bytes alone.
#[verifier::external_body]
pub(crate) fn float_bits_of_token(token: &Vec<u8>) -> (r: Option<u32>)
    ensures
        r == float_lit_bits(token@),
{
    let s = match core::str::from_utf8(token.as_slice()) {
        Ok(s) => s,
        Err(_) => return None,
    };
    match s.parse::<rustc_apfloat::ieee::Single>() {
        Ok(v) => Some(v.to_bits() as u32),
        Err(_) => None,
    }
}

} // verus!

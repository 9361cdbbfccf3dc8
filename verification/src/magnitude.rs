//! Magnitude arithmetic.
//!
//! Magnitudes of units and constants are IEEE-754 double-precision numbers,
//! carried through the library as their 64-bit patterns.  The primitive
//! operations, multiplication and division, are computed by the software
//! implementation of IEEE-754 in `rustc_apfloat`, which is exactly rounded
//! and fully deterministic: each result, NaN payloads included, is a function
//! of the operand bit patterns alone.  Powers are taken by squaring over
//! those two primitives in verified code.

use vstd::prelude::*;

verus! {

/// Bit pattern of the double 1.0.
pub const MAG_ONE: u64 = 0x3FF0_0000_0000_0000;

pub uninterp spec fn mul_bits(a: u64, b: u64) -> u64;

pub uninterp spec fn div_bits(a: u64, b: u64) -> u64;

/// The product of two magnitudes.
///
/// Relies on `rustc_apfloat::ieee::Double`'s multiplication (round to nearest,
/// ties to even): a software implementation of the exactly rounded IEEE-754
/// product, a deterministic function of the two operand bit patterns.
#[verifier::external_body]
pub fn mag_mul(a: u64, b: u64) -> (r: u64)
    ensures
        r == mul_bits(a, b),
{
    let x = <rustc_apfloat::ieee::Double as rustc_apfloat::Float>::from_bits(a as u128);
    let y = <rustc_apfloat::ieee::Double as rustc_apfloat::Float>::from_bits(b as u128);
    <rustc_apfloat::ieee::Double as rustc_apfloat::Float>::to_bits((x * y).value) as u64
}

/// The quotient of two magnitudes.
///
/// Relies on `rustc_apfloat::ieee::Double`'s division (round to nearest, ties
/// to even): a software implementation of the exactly rounded IEEE-754
/// quotient, a deterministic function of the two operand bit patterns.
#[verifier::external_body]
pub fn mag_div(a: u64, b: u64) -> (r: u64)
    ensures
        r == div_bits(a, b),
{
    let x = <rustc_apfloat::ieee::Double as rustc_apfloat::Float>::from_bits(a as u128);
    let y = <rustc_apfloat::ieee::Double as rustc_apfloat::Float>::from_bits(b as u128);
    <rustc_apfloat::ieee::Double as rustc_apfloat::Float>::to_bits((x / y).value) as u64
}

/// `a` raised to the power `n`, by squaring over `mul_bits`.
pub open spec fn pow_bits(a: u64, n: nat) -> u64
    decreases n,
{
    if n == 0 {
        MAG_ONE
    } else if n % 2 == 0 {
        let h = pow_bits(a, n / 2);
        mul_bits(h, h)
    } else {
        mul_bits(pow_bits(a, (n - 1) as nat), a)
    }
}

/// `a` raised to a signed power: a negative exponent inverts via 1.0 / a^|n|.
pub open spec fn powi_bits(a: u64, n: int) -> u64 {
    if n >= 0 {
        pow_bits(a, n as nat)
    } else {
        div_bits(MAG_ONE, pow_bits(a, (-n) as nat))
    }
}

/// A magnitude raised to an unsigned power.
pub fn mag_pow(a: u64, n: u64) -> (r: u64)
    ensures
        r == pow_bits(a, n as nat),
    decreases n,
{
    if n == 0 {
        MAG_ONE
    } else if n % 2 == 0 {
        let h = mag_pow(a, n / 2);
        mag_mul(h, h)
    } else {
        let p = mag_pow(a, n - 1);
        mag_mul(p, a)
    }
}

/// A magnitude raised to a signed power.
pub fn mag_powi(a: u64, n: i64) -> (r: u64)
    ensures
        r == powi_bits(a, n as int),
{
    if n >= 0 {
        mag_pow(a, n as u64)
    } else {
        let m: u64 = ((-(n + 1)) as u64) + 1;
        mag_div(MAG_ONE, mag_pow(a, m))
    }
}

} // verus!

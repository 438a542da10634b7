//! The coefficient type: complex numbers from `num_complex`.
//!
//! Verus sees `num_complex::Complex64` as an opaque type. Every operation on
//! it goes through a small trusted wrapper, and what each wrapper returns is
//! pinned by an uninterpreted spec function, so the contracts elsewhere in the
//! crate can say exactly which tree of complex operations produced a value.

use vstd::prelude::*;
use num_complex::Complex64;

verus! {

#[verifier::external_type_specification]
#[verifier::external_body]
#[verifier::reject_recursive_types(T)]
pub struct ExComplex<T>(num_complex::Complex<T>);

/// The complex number with the given small integer real and imaginary parts.
pub uninterp spec fn c_of_u32(re: u32, im: u32) -> Complex64;

/// What complex addition returns.
pub uninterp spec fn c_add_val(a: Complex64, b: Complex64) -> Complex64;

/// What complex subtraction returns.
pub uninterp spec fn c_sub_val(a: Complex64, b: Complex64) -> Complex64;

/// What complex multiplication returns.
pub uninterp spec fn c_mul_val(a: Complex64, b: Complex64) -> Complex64;

/// What complex division returns.
pub uninterp spec fn c_div_val(a: Complex64, b: Complex64) -> Complex64;

/// What raising a complex number to a real power returns.
pub uninterp spec fn c_powf_val(x: Complex64, e: int) -> Complex64;

/// What raising a complex number to a complex power returns.
pub uninterp spec fn c_powc_val(x: Complex64, e: Complex64) -> Complex64;

/// Relies on `Complex64::new`, with `From<u32>` for the two parts.
#[verifier::external_body]
pub(crate) fn complex_of_u32(re: u32, im: u32) -> (r: Complex64)
    ensures
        r == c_of_u32(re, im),
{
    Complex64::new(re.into(), im.into())
}

/// Relies on the `Add` impl of `num_complex::Complex`.
#[verifier::external_body]
pub(crate) fn c_add(a: Complex64, b: Complex64) -> (r: Complex64)
    ensures
        r == c_add_val(a, b),
{
    a + b
}

/// Relies on the `Sub` impl of `num_complex::Complex`.
#[verifier::external_body]
pub(crate) fn c_sub(a: Complex64, b: Complex64) -> (r: Complex64)
    ensures
        r == c_sub_val(a, b),
{
    a - b
}

/// Relies on the `Mul` impl of `num_complex::Complex`.
#[verifier::external_body]
pub(crate) fn c_mul(a: Complex64, b: Complex64) -> (r: Complex64)
    ensures
        r == c_mul_val(a, b),
{
    a * b
}

/// Relies on the `Div` impl of `num_complex::Complex`.
#[verifier::external_body]
pub(crate) fn c_div(a: Complex64, b: Complex64) -> (r: Complex64)
    ensures
        r == c_div_val(a, b),
{
    a / b
}

/// Relies on `Complex64::powf`, with `From<u32>` for the exponent.
#[verifier::external_body]
pub(crate) fn c_powf(x: Complex64, e: u32) -> (r: Complex64)
    ensures
        r == c_powf_val(x, e as int),
{
    x.powf(e.into())
}

/// Relies on `Complex64::powc`.
#[verifier::external_body]
pub(crate) fn c_powc(x: Complex64, e: Complex64) -> (r: Complex64)
    ensures
        r == c_powc_val(x, e),
{
    x.powc(e)
}

} // verus!

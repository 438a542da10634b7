//! A polynomial with complex coefficients, evaluated at the n-th roots of
//! unity by four strategies (naive powers, Horner's rule, an incremental-power
//! naive method, and a recursive Cooley-Tukey FFT), each returning its value
//! together with an exact multiplication count; plus a small text codec that
//! reads and writes the coefficient list.

#![allow(non_snake_case)]

pub mod codec;
pub mod complex;
pub mod poly;

//! The polynomial model and the four evaluation strategies.
//!
//! A polynomial is an ordered list of complex coefficients: the entry at
//! index `i` is the coefficient of `x^i`. Its "degree" is the coefficient
//! count, the convention the file format uses as well. Each evaluation
//! strategy returns the computed value together with the exact number of
//! complex multiplications it performed, for algorithm comparison.

use vstd::prelude::*;
use vstd::string::StringExecFns;
use num_complex::Complex64;
use crate::codec::{
    complex_finite, err_reflects, parse_poly, parse_spec, serial_bytes, serialize_poly,
    ParseError, ParseOutcome,
};
use crate::complex::{
    c_add, c_add_val, c_div, c_div_val, c_mul, c_mul_val, c_of_u32, c_powc, c_powc_val, c_powf,
    c_powf_val, c_sub, c_sub_val, complex_of_u32,
};

verus! {

/// A polynomial is the vector of its complex coefficients; index = exponent.
pub type Polynomial = Vec<Complex64>;

/// The k-th of the n n-th roots of unity, `e^(2*pi*i*k/n)`, obtained as
/// `i^(4k/n)`: the imaginary unit raised to the complex power `(k/n)*4`.
pub open spec fn root_val(n: int, k: int) -> Complex64 {
    c_powc_val(
        c_of_u32(0, 1),
        c_mul_val(c_div_val(c_of_u32(k as u32, 0), c_of_u32(n as u32, 0)), c_of_u32(4, 0)),
    )
}

/// One root of unity, via the trusted complex operations.
fn root_of_unity(n: u32, k: u32) -> (r: Complex64)
    requires
        1 <= n,
        k < n,
    ensures
        r == root_val(n as int, k as int),
{
    let ratio = c_div(complex_of_u32(k, 0), complex_of_u32(n, 0));
    let scaled = c_mul(ratio, complex_of_u32(4, 0));
    c_powc(complex_of_u32(0, 1), scaled)
}

/// The n n-th roots of unity, in order: entry k is `e^(2*pi*i*k/n)`.
/// For n = 0 the list is empty and no division is attempted.
pub fn rootsOfUnity(n: i32) -> (r: Vec<Complex64>)
    requires
        n >= 0,
    ensures
        r@.len() == n as int,
        forall|k: int| 0 <= k < n as int ==> r@[k] == root_val(n as int, k),
{
    let nn: u32 = n as u32;
    let mut roots: Vec<Complex64> = Vec::new();
    let mut k: u32 = 0;
    while k < nn
        invariant
            k <= nn,
            nn == n as int,
            roots@.len() == k as int,
            forall|j: int| 0 <= j < k as int ==> roots@[j] == root_val(nn as int, j),
        decreases nn - k,
    {
        roots.push(root_of_unity(nn, k));
        k = k + 1;
    }
    roots
}

/// The multiplication count of the naive method on n coefficients: term i
/// costs i + 1 multiplications, so the total is 1 + 2 + ... + n.
pub open spec fn naive_count(n: int) -> int
    decreases n,
{
    if n <= 0 {
        0
    } else {
        naive_count(n - 1) + n
    }
}

/// The closed form of the naive count: n(n+1)/2.
pub proof fn lemma_naive_count_closed_form(n: int)
    requires
        n >= 0,
    ensures
        naive_count(n) == n * (n + 1) / 2,
    decreases n,
{
    if n > 0 {
        lemma_naive_count_closed_form(n - 1);
        assert(naive_count(n) == naive_count(n - 1) + n);
        assert(naive_count(n - 1) == (n - 1) * n / 2);
        assert((n - 1) * n / 2 + n == n * (n + 1) / 2) by (nonlinear_arith);
    } else {
        assert(naive_count(0) == 0);
    }
}

proof fn lemma_naive_count_mono(a: int, b: int)
    requires
        a <= b,
    ensures
        naive_count(a) <= naive_count(b),
    decreases b,
{
    if b > 0 && a < b {
        lemma_naive_count_mono(a, b - 1);
    }
}

/// The value the naive method computes: the left-to-right sum of
/// `coeff[i] * x^i`, each power taken from scratch with `powf`.
pub open spec fn naive_value(cs: Seq<Complex64>, x: Complex64) -> Complex64
    decreases cs.len(),
{
    if cs.len() == 0 {
        c_of_u32(0, 0)
    } else {
        c_add_val(
            naive_value(cs.drop_last(), x),
            c_mul_val(cs.last(), c_powf_val(x, cs.len() - 1)),
        )
    }
}

/// The value Horner's method computes: fold from the highest coefficient
/// down, `acc = acc * x + coeff`, starting from zero.
pub open spec fn horner_value(cs: Seq<Complex64>, x: Complex64) -> Complex64
    decreases cs.len(),
{
    if cs.len() == 0 {
        c_of_u32(0, 0)
    } else {
        c_add_val(c_mul_val(horner_value(cs.drop_first(), x), x), cs[0])
    }
}

/// The running power of x kept by the improved naive method: x multiplied
/// onto 1, k times.
pub open spec fn xpow_val(x: Complex64, k: int) -> Complex64
    decreases k,
{
    if k <= 0 {
        c_of_u32(1, 0)
    } else {
        c_mul_val(xpow_val(x, k - 1), x)
    }
}

/// The value the improved naive method computes: the left-to-right sum of
/// `coeff[i] * p_i` where `p_i` is the running power of x.
pub open spec fn improved_value(cs: Seq<Complex64>, x: Complex64) -> Complex64
    decreases cs.len(),
{
    if cs.len() == 0 {
        c_of_u32(0, 0)
    } else {
        c_add_val(
            improved_value(cs.drop_last(), x),
            c_mul_val(cs.last(), xpow_val(x, cs.len() - 1)),
        )
    }
}

/// Whether n is a power of two (1, 2, 4, ...).
pub open spec fn is_pow2(n: int) -> bool
    decreases n,
{
    if n <= 0 {
        false
    } else if n == 1 {
        true
    } else {
        n % 2 == 0 && is_pow2(n / 2)
    }
}

/// The even-indexed coefficients: 0, 2, 4, ...
pub open spec fn even_coeffs(cs: Seq<Complex64>) -> Seq<Complex64> {
    Seq::new(((cs.len() + 1) / 2) as nat, |i: int| cs[2 * i])
}

/// The odd-indexed coefficients: 1, 3, 5, ...
pub open spec fn odd_coeffs(cs: Seq<Complex64>) -> Seq<Complex64> {
    Seq::new((cs.len() / 2) as nat, |i: int| cs[2 * i + 1])
}

/// The multiplication count of the FFT: one per combine step, n/2 at each
/// level on top of the two half-size calls.
pub open spec fn fft_count(n: int) -> int
    decreases n,
{
    if n <= 1 {
        0
    } else {
        fft_count(n / 2) + fft_count(n / 2) + n / 2
    }
}

proof fn lemma_fft_count_nonneg(n: int)
    ensures
        fft_count(n) >= 0,
    decreases n,
{
    if n > 1 {
        lemma_fft_count_nonneg(n / 2);
    }
}

/// The values the recursive Cooley-Tukey FFT computes. Entry j of the result
/// is the evaluation at the j-th n-th root of unity: for j below n/2 it is
/// `even[j] + root(n, j) * odd[j]`, and for j at or above n/2 it is
/// `even[j - n/2] - root(n, j - n/2) * odd[j - n/2]`, where `even` and `odd`
/// are the recursive results on the even- and odd-indexed halves.
pub open spec fn fft_values(cs: Seq<Complex64>) -> Seq<Complex64>
    decreases cs.len(),
{
    let n = cs.len() as int;
    if n <= 1 {
        cs
    } else {
        let e = fft_values(even_coeffs(cs));
        let d = fft_values(odd_coeffs(cs));
        Seq::new(
            cs.len(),
            |j: int|
                if j < n / 2 {
                    c_add_val(e[j], c_mul_val(root_val(n, j), d[j]))
                } else {
                    c_sub_val(e[j - n / 2], c_mul_val(root_val(n, j - n / 2), d[j - n / 2]))
                },
        )
    }
}

/// The recursive FFT on the coefficient vector. The length must be zero or a
/// power of two: the even/odd split recurses without padding, so any other
/// length is a precondition violation, not a runtime error.
fn fft_rec(cs: &Vec<Complex64>) -> (r: (Vec<Complex64>, usize))
    requires
        cs@.len() == 0 || is_pow2(cs@.len() as int),
        fft_count(cs@.len() as int) <= usize::MAX,
        cs@.len() <= u32::MAX,
    ensures
        r.0@ == fft_values(cs@),
        r.1 == fft_count(cs@.len() as int),
    decreases cs@.len(),
{
    let n = cs.len();
    if n == 0 {
        let empty: Vec<Complex64> = Vec::new();
        proof {
            assert(empty@ =~= fft_values(cs@));
        }
        return (empty, 0);
    }
    if n == 1 {
        let mut single: Vec<Complex64> = Vec::new();
        single.push(cs[0]);
        proof {
            assert(single@ =~= fft_values(cs@));
        }
        return (single, 0);
    }
    let half = n / 2;
    let mut even: Vec<Complex64> = Vec::new();
    let mut odd: Vec<Complex64> = Vec::new();
    let mut i: usize = 0;
    while i < n
        invariant
            i <= n,
            n == cs@.len(),
            even@.len() == (i + 1) / 2,
            odd@.len() == i / 2,
            forall|j: int| 0 <= j < even@.len() ==> even@[j] == cs@[2 * j],
            forall|j: int| 0 <= j < odd@.len() ==> odd@[j] == cs@[2 * j + 1],
        decreases n - i,
    {
        if i % 2 == 0 {
            even.push(cs[i]);
        } else {
            odd.push(cs[i]);
        }
        i = i + 1;
    }
    proof {
        assert(even@ =~= even_coeffs(cs@));
        assert(odd@ =~= odd_coeffs(cs@));
        assert(is_pow2(n as int) && n >= 2);
        assert(n as int % 2 == 0 && is_pow2(n as int / 2));
        assert(even_coeffs(cs@).len() == half as int);
        assert(odd_coeffs(cs@).len() == half as int);
        lemma_fft_count_nonneg(half as int);
        assert(fft_count(n as int) == fft_count(half as int) + fft_count(half as int) + half);
    }
    let (e, e_count) = fft_rec(&even);
    let (d, d_count) = fft_rec(&odd);
    let mut count: usize = e_count + d_count;
    let mut lows: Vec<Complex64> = Vec::new();
    let mut highs: Vec<Complex64> = Vec::new();
    let mut k: usize = 0;
    while k < half
        invariant
            k <= half,
            half == n as int / 2,
            2 <= n <= u32::MAX,
            n == cs@.len(),
            e@ == fft_values(even_coeffs(cs@)),
            d@ == fft_values(odd_coeffs(cs@)),
            e@.len() == half as int,
            d@.len() == half as int,
            count == fft_count(half as int) + fft_count(half as int) + k,
            fft_count(n as int) <= usize::MAX,
            fft_count(half as int) >= 0,
            lows@.len() == k as int,
            highs@.len() == k as int,
            forall|j: int|
                0 <= j < k as int ==> lows@[j] == c_add_val(
                    e@[j],
                    c_mul_val(root_val(n as int, j), d@[j]),
                ),
            forall|j: int|
                0 <= j < k as int ==> highs@[j] == c_sub_val(
                    e@[j],
                    c_mul_val(root_val(n as int, j), d@[j]),
                ),
        decreases half - k,
    {
        let root = root_of_unity(n as u32, k as u32);
        let right = c_mul(root, d[k]);
        lows.push(c_add(e[k], right));
        highs.push(c_sub(e[k], right));
        count = count + 1;
        k = k + 1;
    }
    let mut answer = lows;
    answer.append(&mut highs);
    proof {
        assert(answer@ =~= fft_values(cs@));
    }
    (answer, count)
}

/// The decision part of random polynomial generation: whether to generate,
/// and how many coefficients to draw. The degree must not be negative, and
/// the bounds must be positive -- only their sign matters here, and the
/// degree check comes first. The drawing itself is floating-point sampling
/// and stays with the caller.
pub fn randomCoefficientCount(degree: i32, bounds_positive: bool) -> (r: Result<usize, String>)
    ensures
        match r {
            Ok(n) => degree >= 0 && bounds_positive && n == degree,
            Err(m) => (degree < 0 && m@
                == "You can't have a polynomial of degree less than zero."@) || (degree >= 0
                && !bounds_positive && m@ == "Range is negative or zero."@),
        },
{
    if degree < 0 {
        Err(String::from_str("You can't have a polynomial of degree less than zero."))
    } else if !bounds_positive {
        Err(String::from_str("Range is negative or zero."))
    } else {
        Ok(degree as usize)
    }
}

/// What a polynomial can do.
pub trait Poly: Sized {
    /// The coefficient sequence, index = exponent.
    spec fn coeffs(&self) -> Seq<Complex64>;

    /// Read a polynomial from the text format: the declared coefficient
    /// count, then one line per coefficient. The outcome is exactly
    /// `parse_spec` of the input, error taxonomy included.
    fn parse(text: &Vec<u8>) -> (r: Result<Self, ParseError>)
        ensures
            match r {
                Ok(p) => parse_spec(text@) == ParseOutcome::Coeffs(p.coeffs()),
                Err(e) => err_reflects(e, text@),
            },
    ;

    /// Write the polynomial in the text format. When every coefficient is
    /// finite (and the count fits i64), parsing the output back yields the
    /// same coefficients.
    fn serialize(&self) -> (r: Vec<u8>)
        ensures
            r@ == serial_bytes(self.coeffs()),
            (self.coeffs().len() <= i64::MAX && (forall|k: int|
                0 <= k < self.coeffs().len() ==> complex_finite(#[trigger] self.coeffs()[k])))
                ==> parse_spec(r@) == ParseOutcome::Coeffs(self.coeffs()),
    ;

    /// Evaluate at x with the naive method: one fresh power per term.
    /// Returns the value and the multiplication count, 1 + 2 + ... + n.
    fn evaluateAtNaive(&self, x: Complex64) -> (r: (Complex64, usize))
        requires
            naive_count(self.coeffs().len() as int) <= usize::MAX,
            self.coeffs().len() <= u32::MAX,
        ensures
            r.0 == naive_value(self.coeffs(), x),
            r.1 == naive_count(self.coeffs().len() as int),
    ;

    /// Evaluate at x with Horner's method: one multiplication per
    /// coefficient, n in total.
    fn evaluateAtHorner(&self, x: Complex64) -> (r: (Complex64, usize))
        ensures
            r.0 == horner_value(self.coeffs(), x),
            r.1 == self.coeffs().len(),
    ;

    /// Evaluate at x with the improved naive method, keeping a running power
    /// of x: two multiplications per coefficient, 2n in total.
    fn evaluateAtNaiveImproved(&self, x: Complex64) -> (r: (Complex64, usize))
        requires
            2 * self.coeffs().len() <= usize::MAX,
        ensures
            r.0 == improved_value(self.coeffs(), x),
            r.1 == 2 * self.coeffs().len(),
    ;

    /// Evaluate at all n-th roots of unity at once with the recursive
    /// Cooley-Tukey FFT; entry j of the result is the value at the j-th root,
    /// aligned with `rootsOfUnity`. The coefficient count must be zero or a
    /// power of two.
    fn evaluateAtFFT(&self) -> (r: (Vec<Complex64>, usize))
        requires
            self.coeffs().len() == 0 || is_pow2(self.coeffs().len() as int),
            fft_count(self.coeffs().len() as int) <= usize::MAX,
            self.coeffs().len() <= u32::MAX,
        ensures
            r.0@ == fft_values(self.coeffs()),
            r.1 == fft_count(self.coeffs().len() as int),
    ;
}

impl Poly for Vec<Complex64> {
    open spec fn coeffs(&self) -> Seq<Complex64> {
        self@
    }

    fn parse(text: &Vec<u8>) -> (r: Result<Self, ParseError>) {
        parse_poly(text)
    }

    fn serialize(&self) -> (r: Vec<u8>) {
        serialize_poly(self)
    }

    fn evaluateAtNaive(&self, x: Complex64) -> (r: (Complex64, usize)) {
        let ghost cs = self@;
        let mut sum = complex_of_u32(0, 0);
        let mut count: usize = 0;
        let mut i: usize = 0;
        while i < self.len()
            invariant
                i <= cs.len(),
                cs == self@,
                cs.len() <= u32::MAX,
                naive_count(cs.len() as int) <= usize::MAX,
                sum == naive_value(cs.take(i as int), x),
                count == naive_count(i as int),
            decreases cs.len() - i,
        {
            proof {
                lemma_naive_count_mono(i + 1, cs.len() as int);
            }
            let term = c_mul(self[i], c_powf(x, i as u32));
            sum = c_add(sum, term);
            count = count + 1 + i;
            i = i + 1;
            proof {
                assert(cs.take(i as int).drop_last() =~= cs.take(i - 1));
                assert(cs.take(i as int).last() == cs[i - 1]);
            }
        }
        proof {
            assert(cs.take(cs.len() as int) =~= cs);
        }
        (sum, count)
    }

    fn evaluateAtHorner(&self, x: Complex64) -> (r: (Complex64, usize)) {
        let ghost cs = self@;
        let n = self.len();
        let mut sum = complex_of_u32(0, 0);
        let mut count: usize = 0;
        let mut i: usize = n;
        while i > 0
            invariant
                i <= n,
                n == cs.len(),
                cs == self@,
                sum == horner_value(cs.subrange(i as int, n as int), x),
                count == n - i,
            decreases i,
        {
            i = i - 1;
            sum = c_add(c_mul(sum, x), self[i]);
            count = count + 1;
            proof {
                assert(cs.subrange(i as int, n as int).drop_first() =~= cs.subrange(
                    i + 1,
                    n as int,
                ));
            }
        }
        proof {
            assert(cs.subrange(0, n as int) =~= cs);
        }
        (sum, count)
    }

    fn evaluateAtNaiveImproved(&self, x: Complex64) -> (r: (Complex64, usize)) {
        let ghost cs = self@;
        let mut sum = complex_of_u32(0, 0);
        let mut xpower = complex_of_u32(1, 0);
        let mut count: usize = 0;
        let mut i: usize = 0;
        while i < self.len()
            invariant
                i <= cs.len(),
                cs == self@,
                2 * cs.len() <= usize::MAX,
                sum == improved_value(cs.take(i as int), x),
                xpower == xpow_val(x, i as int),
                count == 2 * i,
            decreases cs.len() - i,
        {
            sum = c_add(sum, c_mul(self[i], xpower));
            xpower = c_mul(xpower, x);
            count = count + 2;
            i = i + 1;
            proof {
                assert(cs.take(i as int).drop_last() =~= cs.take(i - 1));
                assert(cs.take(i as int).last() == cs[i - 1]);
            }
        }
        proof {
            assert(cs.take(cs.len() as int) =~= cs);
        }
        (sum, count)
    }

    fn evaluateAtFFT(&self) -> (r: (Vec<Complex64>, usize)) {
        fft_rec(self)
    }
}

} // verus!

//! The text codec for polynomials.
//!
//! The format is a line holding the coefficient count, one or more newlines,
//! then one line per coefficient: a decimal real part, a comma, optional
//! spaces or tabs, and a decimal imaginary part. A decimal number is an
//! optional minus, one or more digits, and an optional fraction (a dot
//! followed by one or more digits). Blank lines may precede a coefficient
//! line, and trailing whitespace after the last coefficient is tolerated.
//!
//! The grammar lives here as spec functions over byte sequences; the
//! executable parser and serializer are proved against them, and the
//! serializer's output is proved to parse back to the same coefficients.

use vstd::prelude::*;
use vstd::string::StringExecFns;
use num_complex::Complex64;

verus! {

// ---------------------------------------------------------------------------
// Byte classes and maximal munch.
// ---------------------------------------------------------------------------

pub open spec fn is_digit_byte(b: u8) -> bool {
    48 <= b && b <= 57
}

pub open spec fn is_nl_byte(b: u8) -> bool {
    b == 10
}

pub open spec fn is_sp_byte(b: u8) -> bool {
    b == 32 || b == 9
}

/// The six ASCII whitespace bytes that `trim` would drop.
pub open spec fn is_ws_byte(b: u8) -> bool {
    b == 9 || b == 10 || b == 11 || b == 12 || b == 13 || b == 32
}

pub open spec fn digit_pred() -> spec_fn(u8) -> bool {
    |b: u8| is_digit_byte(b)
}

pub open spec fn nl_pred() -> spec_fn(u8) -> bool {
    |b: u8| is_nl_byte(b)
}

pub open spec fn sp_pred() -> spec_fn(u8) -> bool {
    |b: u8| is_sp_byte(b)
}

pub open spec fn not_nl_pred() -> spec_fn(u8) -> bool {
    |b: u8| !is_nl_byte(b)
}

/// The end of the maximal run of bytes satisfying p that starts at i.
pub open spec fn munch_end(s: Seq<u8>, i: int, p: spec_fn(u8) -> bool) -> int
    decreases s.len() - i,
{
    if i < s.len() && p(s[i]) {
        munch_end(s, i + 1, p)
    } else {
        i
    }
}

proof fn lemma_munch_end(s: Seq<u8>, i: int, p: spec_fn(u8) -> bool)
    requires
        0 <= i <= s.len(),
    ensures
        i <= munch_end(s, i, p) <= s.len(),
        forall|k: int| i <= k < munch_end(s, i, p) ==> p(s[k]),
        munch_end(s, i, p) < s.len() ==> !p(s[munch_end(s, i, p)]),
    decreases s.len() - i,
{
    if i < s.len() && p(s[i]) {
        lemma_munch_end(s, i + 1, p);
    }
}

/// The munch ends exactly at j when everything in [i, j) satisfies p and the
/// byte at j (if any) does not.
proof fn lemma_munch_end_is(s: Seq<u8>, i: int, j: int, p: spec_fn(u8) -> bool)
    requires
        0 <= i <= j <= s.len(),
        forall|k: int| i <= k < j ==> p(s[k]),
        j == s.len() || !p(s[j]),
    ensures
        munch_end(s, i, p) == j,
    decreases j - i,
{
    if i < j {
        lemma_munch_end_is(s, i + 1, j, p);
    }
}

// ---------------------------------------------------------------------------
// Decimal numbers.
// ---------------------------------------------------------------------------

/// Where the optional leading minus ends.
pub open spec fn sign_end(s: Seq<u8>, i: int) -> int {
    if i < s.len() && s[i] == 45 {
        i + 1
    } else {
        i
    }
}

/// Where a decimal number starting at i ends, or None if none starts there.
/// The digit runs are maximal, and a dot counts only if a digit follows it.
pub open spec fn fp_end(s: Seq<u8>, i: int) -> Option<int> {
    let start = sign_end(s, i);
    let d = munch_end(s, start, digit_pred());
    if d == start {
        None
    } else if d < s.len() && s[d] == 46 && munch_end(s, d + 1, digit_pred()) > d + 1 {
        Some(munch_end(s, d + 1, digit_pred()))
    } else {
        Some(d)
    }
}

pub open spec fn all_digits_in(b: Seq<u8>, i: int, j: int) -> bool {
    forall|k: int| i <= k < j ==> is_digit_byte(b[k])
}

/// A decomposition witnessing that b is one whole decimal number: an optional
/// minus, digits up to d, then either nothing or a dot and digits to the end.
pub open spec fn is_fp_shape(b: Seq<u8>, d: int) -> bool {
    let s = if b.len() > 0 && b[0] == 45 {
        1int
    } else {
        0int
    };
    &&& s < d <= b.len()
    &&& all_digits_in(b, s, d)
    &&& (d == b.len() || (b[d] == 46 && d + 1 < b.len() && all_digits_in(b, d + 1, b.len() as int)))
}

/// b is exactly one decimal number of the grammar.
pub open spec fn is_fp_bytes(b: Seq<u8>) -> bool {
    exists|d: int| is_fp_shape(b, d)
}

proof fn lemma_fp_bytes_first(b: Seq<u8>)
    requires
        is_fp_bytes(b),
    ensures
        b.len() > 0,
        b[0] == 45 || is_digit_byte(b[0]),
{
    let d = choose|d: int| is_fp_shape(b, d);
    if !(b.len() > 0 && b[0] == 45) {
        assert(is_digit_byte(b[0]));
    }
}

/// A whole decimal number embedded in s at i, followed by the end of s or by
/// a byte that cannot extend it, is matched by `fp_end` exactly.
proof fn lemma_fp_embed(s: Seq<u8>, i: int, b: Seq<u8>)
    requires
        0 <= i,
        i + b.len() <= s.len(),
        s.subrange(i, i + b.len()) == b,
        is_fp_bytes(b),
        i + b.len() == s.len() || (!is_digit_byte(s[i + b.len()]) && s[i + b.len()] != 46),
    ensures
        fp_end(s, i) == Some(i + b.len()),
{
    let d = choose|d: int| is_fp_shape(b, d);
    let bs = if b.len() > 0 && b[0] == 45 {
        1int
    } else {
        0int
    };
    assert forall|k: int| 0 <= k < b.len() implies s[i + k] == b[k] by {
        assert(b[k] == s.subrange(i, i + b.len() as int)[k]);
    }
    assert(sign_end(s, i) == i + bs);
    assert forall|k: int| i + bs <= k < i + d implies is_digit_byte(s[k]) by {
        assert(is_digit_byte(b[k - i]));
        assert(s[i + (k - i)] == b[k - i]);
    }
    if d == b.len() {
        lemma_munch_end_is(s, i + bs, i + d, digit_pred());
        assert(munch_end(s, sign_end(s, i), digit_pred()) == i + d);
        assert(i + d == s.len() || s[i + d] != 46);
    } else {
        assert(b[d] == 46);
        assert(!is_digit_byte(b[d]));
        lemma_munch_end_is(s, i + bs, i + d, digit_pred());
        assert(s[i + d] == 46);
        assert forall|k: int| i + d + 1 <= k < i + b.len() implies is_digit_byte(s[k]) by {
            assert(is_digit_byte(b[k - i]));
            assert(s[i + (k - i)] == b[k - i]);
        }
        lemma_munch_end_is(s, i + d + 1, i + b.len(), digit_pred());
        assert(munch_end(s, i + d + 1, digit_pred()) == i + b.len());
        assert(i + b.len() > i + d + 1);
    }
}

/// The value of the digit run s[i..j), most significant first.
pub open spec fn digits_val(s: Seq<u8>, i: int, j: int) -> int
    decreases j - i,
{
    if i < j {
        digits_val(s, i, j - 1) * 10 + (s[j - 1] - 48)
    } else {
        0
    }
}

proof fn lemma_digits_val_nonneg(s: Seq<u8>, i: int, j: int)
    requires
        all_digits_in(s, i, j),
    ensures
        digits_val(s, i, j) >= 0,
    decreases j - i,
{
    if i < j {
        lemma_digits_val_nonneg(s, i, j - 1);
    }
}

/// The value only depends on the bytes of the run itself.
proof fn lemma_digits_val_embed(s: Seq<u8>, i: int, j: int, t: Seq<u8>)
    requires
        0 <= i <= j <= s.len(),
        t == s.subrange(i, j),
    ensures
        digits_val(s, i, j) == digits_val(t, 0, t.len() as int),
    decreases j - i,
{
    if i < j {
        lemma_digits_val_embed(s, i, j - 1, s.subrange(i, j - 1));
        assert(s.subrange(i, j - 1) =~= t.subrange(0, t.len() - 1));
        lemma_digits_val_embed(t, 0, t.len() - 1, t.subrange(0, t.len() - 1));
        assert(t[t.len() - 1] == s[j - 1]);
    }
}

/// The decimal digits of n, for n >= 0.
pub open spec fn dec_bytes(n: int) -> Seq<u8>
    decreases n,
{
    if n < 10 {
        seq![(48 + n) as u8]
    } else {
        dec_bytes(n / 10) + seq![(48 + n % 10) as u8]
    }
}

proof fn lemma_dec_bytes_digits(n: int)
    requires
        n >= 0,
    ensures
        dec_bytes(n).len() >= 1,
        all_digits_in(dec_bytes(n), 0, dec_bytes(n).len() as int),
    decreases n,
{
    if n >= 10 {
        lemma_dec_bytes_digits(n / 10);
    }
}

proof fn lemma_dec_bytes_val(n: int)
    requires
        n >= 0,
    ensures
        digits_val(dec_bytes(n), 0, dec_bytes(n).len() as int) == n,
    decreases n,
{
    let b = dec_bytes(n);
    if n < 10 {
        assert(digits_val(b, 0, 0) == 0);
        assert(digits_val(b, 0, 1) == b[0] - 48);
        assert(b[0] == (48 + n) as u8);
    } else {
        lemma_dec_bytes_val(n / 10);
        let h = dec_bytes(n / 10);
        assert(b =~= h + seq![(48 + n % 10) as u8]);
        assert(b.subrange(0, h.len() as int) =~= h);
        lemma_digits_val_embed(b, 0, h.len() as int, h);
        assert(digits_val(b, 0, b.len() as int) == digits_val(b, 0, b.len() - 1) * 10 + (b[b.len()
            - 1] - 48));
        assert(b[b.len() - 1] == (48 + n % 10) as u8);
        assert(n / 10 * 10 + n % 10 == n);
    }
}

/// The decimal digits of n, as a vector.
pub fn u64_dec_bytes(n: u64) -> (r: Vec<u8>)
    ensures
        r@ == dec_bytes(n as int),
    decreases n,
{
    if n < 10 {
        let mut v: Vec<u8> = Vec::new();
        v.push(48 + n as u8);
        proof {
            assert(v@ =~= dec_bytes(n as int));
        }
        v
    } else {
        let mut v = u64_dec_bytes(n / 10);
        v.push(48 + (n % 10) as u8);
        proof {
            assert(v@ =~= dec_bytes(n as int));
        }
        v
    }
}

// ---------------------------------------------------------------------------
// Executable munchers and number scanner.
// ---------------------------------------------------------------------------

/// The end of the digit run starting at i.
fn digits_to(s: &Vec<u8>, i: usize) -> (r: usize)
    requires
        i <= s@.len(),
    ensures
        r as int == munch_end(s@, i as int, digit_pred()),
        i <= r <= s@.len(),
{
    let mut j = i;
    while j < s.len() && 48 <= s[j] && s[j] <= 57
        invariant
            i <= j <= s@.len(),
            munch_end(s@, i as int, digit_pred()) == munch_end(s@, j as int, digit_pred()),
        decreases s@.len() - j,
    {
        j = j + 1;
    }
    j
}

/// The end of the newline run starting at i.
fn newlines_to(s: &Vec<u8>, i: usize) -> (r: usize)
    requires
        i <= s@.len(),
    ensures
        r as int == munch_end(s@, i as int, nl_pred()),
        i <= r <= s@.len(),
{
    let mut j = i;
    while j < s.len() && s[j] == 10
        invariant
            i <= j <= s@.len(),
            munch_end(s@, i as int, nl_pred()) == munch_end(s@, j as int, nl_pred()),
        decreases s@.len() - j,
    {
        j = j + 1;
    }
    j
}

/// The end of the space-or-tab run starting at i.
fn spaces_to(s: &Vec<u8>, i: usize) -> (r: usize)
    requires
        i <= s@.len(),
    ensures
        r as int == munch_end(s@, i as int, sp_pred()),
        i <= r <= s@.len(),
{
    let mut j = i;
    while j < s.len() && (s[j] == 32 || s[j] == 9)
        invariant
            i <= j <= s@.len(),
            munch_end(s@, i as int, sp_pred()) == munch_end(s@, j as int, sp_pred()),
        decreases s@.len() - j,
    {
        j = j + 1;
    }
    j
}

/// Scan one decimal number starting at i: Ok(end), or Err(p) with p the spot
/// where a digit was missing (after the optional minus).
fn fp_to(s: &Vec<u8>, i: usize) -> (r: Result<usize, usize>)
    requires
        i <= s@.len(),
    ensures
        match r {
            Ok(e) => fp_end(s@, i as int) == Some(e as int) && i < e <= s@.len(),
            Err(p) => fp_end(s@, i as int) is None && p as int == sign_end(s@, i as int) && i <= p
                <= s@.len(),
        },
{
    let start = if i < s.len() && s[i] == 45 {
        i + 1
    } else {
        i
    };
    let d = digits_to(s, start);
    if d == start {
        return Err(start);
    }
    if d < s.len() && s[d] == 46 {
        let f = digits_to(s, d + 1);
        if f > d + 1 {
            return Ok(f);
        }
    }
    Ok(d)
}

/// A successful `fp_end` match is one whole decimal number.
proof fn lemma_fp_matched(s: Seq<u8>, i: int, e: int)
    requires
        0 <= i <= s.len(),
        fp_end(s, i) == Some(e),
    ensures
        i < e <= s.len(),
        is_fp_bytes(s.subrange(i, e)),
{
    let bs = sign_end(s, i);
    let d = munch_end(s, bs, digit_pred());
    lemma_munch_end(s, bs, digit_pred());
    let b = s.subrange(i, e);
    if d < s.len() && s[d] == 46 && munch_end(s, d + 1, digit_pred()) > d + 1 {
        let f = munch_end(s, d + 1, digit_pred());
        lemma_munch_end(s, d + 1, digit_pred());
        assert(e == f);
        assert(b.len() == e - i);
        assert(b[0] == s[i]);
        assert forall|k: int| bs - i <= k < d - i implies is_digit_byte(b[k]) by {
            assert(b[k] == s[i + k]);
        }
        assert forall|k: int| d - i + 1 <= k < b.len() implies is_digit_byte(b[k]) by {
            assert(b[k] == s[i + k]);
        }
        assert(b[d - i] == s[d]);
        assert(is_fp_shape(b, d - i));
    } else {
        assert(e == d);
        assert(b.len() == e - i);
        assert(b[0] == s[i]);
        assert forall|k: int| bs - i <= k < d - i implies is_digit_byte(b[k]) by {
            assert(b[k] == s[i + k]);
        }
        assert(is_fp_shape(b, d - i));
    }
}

// ---------------------------------------------------------------------------
// Coefficient lines.
// ---------------------------------------------------------------------------

/// The complex number the two decimal texts denote: real part, then
/// imaginary part.
pub uninterp spec fn complex_of_bytes(re: Seq<u8>, im: Seq<u8>) -> Complex64;

/// Relies on `str::from_utf8`, `f64::from_str` and `Complex64::new`. The two
/// byte strings are decimal numbers of the grammar (an optional minus, digits,
/// an optional fraction), which are ASCII and which `f64::from_str` accepts,
/// so neither conversion can fail; the call builds the complex number whose
/// parts they denote.
#[verifier::external_body]
fn complex_of_parts(re: &Vec<u8>, im: &Vec<u8>) -> (c: Complex64)
    requires
        is_fp_bytes(re@),
        is_fp_bytes(im@),
    ensures
        c == complex_of_bytes(re@, im@),
{
    let re_val = core::str::from_utf8(re).unwrap().parse().unwrap();
    let im_val = core::str::from_utf8(im).unwrap().parse().unwrap();
    Complex64::new(re_val, im_val)
}

/// One coefficient line starting at i: optional blank lines, a decimal real
/// part, a comma, optional spaces or tabs, a decimal imaginary part. Yields
/// the coefficient and the position just after it (before any newline).
pub open spec fn item_at(s: Seq<u8>, i: int) -> Option<(Complex64, int)> {
    let j0 = munch_end(s, i, nl_pred());
    match fp_end(s, j0) {
        None => None,
        Some(re_end) => if re_end < s.len() && s[re_end] == 44 {
            let im_start = munch_end(s, re_end + 1, sp_pred());
            match fp_end(s, im_start) {
                None => None,
                Some(im_end) => Some(
                    (complex_of_bytes(s.subrange(j0, re_end), s.subrange(im_start, im_end)), im_end),
                ),
            }
        } else {
            None
        },
    }
}

/// As many coefficient lines as match, starting at i, with the position
/// where matching stopped (the start of the failed attempt).
pub open spec fn items_from(s: Seq<u8>, i: int) -> (Seq<Complex64>, int)
    decreases s.len() - i,
{
    match item_at(s, i) {
        Some((c, j)) => if i < j <= s.len() {
            let (rest, end) = items_from(s, j);
            (seq![c] + rest, end)
        } else {
            (Seq::empty(), i)
        },
        None => (Seq::empty(), i),
    }
}

// ---------------------------------------------------------------------------
// The declared count and the whole-input outcome.
// ---------------------------------------------------------------------------

/// Clamp a nonnegative value into i64 range.
pub open spec fn sat_to_i64(v: int) -> int {
    if v > i64::MAX {
        i64::MAX as int
    } else {
        v
    }
}

/// The declared coefficient count: the integer digits of the first number,
/// truncated toward zero (any fraction is dropped) and clamped into i64.
pub open spec fn declared_val(s: Seq<u8>) -> int {
    let i1 = sign_end(s, 0);
    let i2 = munch_end(s, i1, digit_pred());
    let dv = digits_val(s, i1, i2);
    if i1 == 1 {
        -sat_to_i64(dv)
    } else {
        sat_to_i64(dv)
    }
}

/// What parsing a whole input yields.
pub enum ParseOutcome {
    /// The input matches and declares as many coefficients as it holds.
    Coeffs(Seq<Complex64>),
    /// The grammar stops matching at this position.
    SyntaxAt(int),
    /// The declared count is negative.
    NegativeCount,
    /// The number of coefficient lines differs from the declared count:
    /// actual, then declared.
    WrongCount(int, int),
}

/// The outcome of parsing s: the declared count, at least one newline, as
/// many coefficient lines as match, then only whitespace may remain. A
/// syntax failure wins over the count checks; the negative-count check wins
/// over the mismatch check.
pub open spec fn parse_spec(s: Seq<u8>) -> ParseOutcome {
    match fp_end(s, 0) {
        None => ParseOutcome::SyntaxAt(sign_end(s, 0)),
        Some(deg_end) => if !(deg_end < s.len() && s[deg_end] == 10) {
            ParseOutcome::SyntaxAt(deg_end)
        } else {
            let body = munch_end(s, deg_end, nl_pred());
            let (cs, end) = items_from(s, body);
            if exists|k: int| end <= k < s.len() && !is_ws_byte(s[k]) {
                ParseOutcome::SyntaxAt(end)
            } else {
                let declared = declared_val(s);
                if declared < 0 {
                    ParseOutcome::NegativeCount
                } else if declared != cs.len() {
                    ParseOutcome::WrongCount(cs.len() as int, declared)
                } else {
                    ParseOutcome::Coeffs(cs)
                }
            }
        },
    }
}

/// The position of the syntax failure, where there is one.
pub open spec fn syntax_pos(s: Seq<u8>) -> int {
    match parse_spec(s) {
        ParseOutcome::SyntaxAt(p) => p,
        _ => 0,
    }
}

/// The error snippet for a failure at pos: the unmatched input truncated to
/// at most 7 bytes, cut at its first line break; if that cut leaves fewer
/// than 3 bytes, the whole truncated leftover is kept instead.
pub open spec fn snippet_of(s: Seq<u8>, pos: int) -> Seq<u8> {
    let stop = if pos + 7 < s.len() {
        pos + 7
    } else {
        s.len() as int
    };
    let t = s.subrange(pos, stop);
    let line_end = munch_end(t, 0, not_nl_pred());
    if line_end < 3 {
        t
    } else {
        t.subrange(0, line_end)
    }
}

/// Why a polynomial could not be read or written. The two file-level
/// variants are produced by the caller doing the I/O, never by `parse`.
#[derive(Debug)]
pub enum ParseError {
    /// The input source could not be opened or read.
    FileOpen,
    /// The grammar stopped matching; the snippet shows where.
    Syntax { snippet: Vec<u8> },
    /// The declared coefficient count is negative.
    NegativeDegree,
    /// As many coefficient lines as actual were found, declared expected.
    CountMismatch { actual: usize, declared: i64 },
    /// The output destination could not be created or written.
    Write,
}

/// The error a failed parse returns reflects the spec-level outcome.
pub open spec fn err_reflects(e: ParseError, s: Seq<u8>) -> bool {
    match e {
        ParseError::Syntax { snippet } => parse_spec(s) == ParseOutcome::SyntaxAt(syntax_pos(s))
            && snippet@ == snippet_of(s, syntax_pos(s)),
        ParseError::NegativeDegree => parse_spec(s) == ParseOutcome::NegativeCount,
        ParseError::CountMismatch { actual, declared } => parse_spec(s) == ParseOutcome::WrongCount(
            actual as int,
            declared as int,
        ),
        ParseError::FileOpen => false,
        ParseError::Write => false,
    }
}

// ---------------------------------------------------------------------------
// The executable parser.
// ---------------------------------------------------------------------------

/// Copy the bytes [a, b) out of s.
fn copy_range(s: &Vec<u8>, a: usize, b: usize) -> (r: Vec<u8>)
    requires
        a <= b <= s@.len(),
    ensures
        r@ == s@.subrange(a as int, b as int),
{
    let mut v: Vec<u8> = Vec::new();
    let mut j = a;
    proof {
        assert(v@ =~= s@.subrange(a as int, a as int));
    }
    while j < b
        invariant
            a <= j <= b <= s@.len(),
            v@ == s@.subrange(a as int, j as int),
        decreases b - j,
    {
        v.push(s[j]);
        j = j + 1;
        proof {
            assert(s@.subrange(a as int, j as int) =~= s@.subrange(a as int, j - 1).push(
                s@[j - 1],
            ));
        }
    }
    v
}

/// The end of the run of bytes other than newline starting at i.
fn line_to(s: &Vec<u8>, i: usize) -> (r: usize)
    requires
        i <= s@.len(),
    ensures
        r as int == munch_end(s@, i as int, not_nl_pred()),
        i <= r <= s@.len(),
{
    let mut j = i;
    while j < s.len() && s[j] != 10
        invariant
            i <= j <= s@.len(),
            munch_end(s@, i as int, not_nl_pred()) == munch_end(s@, j as int, not_nl_pred()),
        decreases s@.len() - j,
    {
        j = j + 1;
    }
    j
}

/// Build the syntax error for a failure at pos.
fn syntax_error(s: &Vec<u8>, pos: usize) -> (e: ParseError)
    requires
        pos <= s@.len(),
    ensures
        match e {
            ParseError::Syntax { snippet } => snippet@ == snippet_of(s@, pos as int),
            _ => false,
        },
{
    let take = if s.len() - pos < 7 {
        s.len() - pos
    } else {
        7
    };
    let t = copy_range(s, pos, pos + take);
    let line_end = line_to(&t, 0);
    if line_end < 3 {
        ParseError::Syntax { snippet: t }
    } else {
        let first_line = copy_range(&t, 0, line_end);
        ParseError::Syntax { snippet: first_line }
    }
}

/// Scan one coefficient line starting at i.
fn try_item(s: &Vec<u8>, i: usize) -> (r: Option<(Complex64, usize)>)
    requires
        i <= s@.len(),
    ensures
        match r {
            Some((c, j)) => item_at(s@, i as int) == Some((c, j as int)) && i < j <= s@.len(),
            None => item_at(s@, i as int) is None,
        },
{
    let j0 = newlines_to(s, i);
    let re_end = match fp_to(s, j0) {
        Err(_) => {
            return None;
        },
        Ok(e) => e,
    };
    if !(re_end < s.len() && s[re_end] == 44) {
        return None;
    }
    let im_start = spaces_to(s, re_end + 1);
    let im_end = match fp_to(s, im_start) {
        Err(_) => {
            return None;
        },
        Ok(e) => e,
    };
    let re_v = copy_range(s, j0, re_end);
    let im_v = copy_range(s, im_start, im_end);
    proof {
        lemma_fp_matched(s@, j0 as int, re_end as int);
        lemma_fp_matched(s@, im_start as int, im_end as int);
    }
    let c = complex_of_parts(&re_v, &im_v);
    Some((c, im_end))
}

/// The declared count, read from the first number of the input with i64
/// saturation.
fn read_declared(s: &Vec<u8>) -> (r: i64)
    ensures
        r as int == declared_val(s@),
{
    let i1: usize = if s.len() > 0 && s[0] == 45 {
        1
    } else {
        0
    };
    let i2 = digits_to(s, i1);
    proof {
        lemma_munch_end(s@, i1 as int, digit_pred());
        lemma_digits_val_nonneg(s@, i1 as int, i2 as int);
    }
    let mut acc: i64 = 0;
    let mut sat = false;
    let mut j = i1;
    while j < i2
        invariant
            i1 <= j <= i2 <= s@.len(),
            i2 as int == munch_end(s@, i1 as int, digit_pred()),
            forall|k: int| i1 <= k < i2 ==> is_digit_byte(s@[k]),
            acc >= 0,
            !sat ==> acc == digits_val(s@, i1 as int, j as int),
            sat ==> digits_val(s@, i1 as int, j as int) > i64::MAX,
        decreases i2 - j,
    {
        let d = s[j] - 48;
        proof {
            lemma_digits_val_nonneg(s@, i1 as int, j as int);
            vstd::arithmetic::div_mod::lemma_fundamental_div_mod(
                i64::MAX - d as int,
                10,
            );
        }
        if sat || acc > (i64::MAX - d as i64) / 10 {
            sat = true;
        } else {
            acc = acc * 10 + d as i64;
        }
        j = j + 1;
        proof {
            assert(digits_val(s@, i1 as int, j as int) == digits_val(s@, i1 as int, j - 1) * 10 + (
            s@[j - 1] - 48));
        }
    }
    let mag: i64 = if sat {
        i64::MAX
    } else {
        acc
    };
    if i1 == 1 {
        -mag
    } else {
        mag
    }
}

/// Parse a whole input into the coefficient list.
///
/// The outcome is exactly `parse_spec` of the input: the coefficients on a
/// match whose declared count is right, and otherwise the syntax error with
/// its snippet, the negative-count error, or the count-mismatch error, in
/// that order of precedence.
pub fn parse_poly(text: &Vec<u8>) -> (r: Result<Vec<Complex64>, ParseError>)
    ensures
        match r {
            Ok(p) => parse_spec(text@) == ParseOutcome::Coeffs(p@),
            Err(e) => err_reflects(e, text@),
        },
{
    let deg_end = match fp_to(text, 0) {
        Err(p) => {
            return Err(syntax_error(text, p));
        },
        Ok(e) => e,
    };
    if !(deg_end < text.len() && text[deg_end] == 10) {
        return Err(syntax_error(text, deg_end));
    }
    let body = newlines_to(text, deg_end);
    let mut coeffs: Vec<Complex64> = Vec::new();
    let mut i = body;
    let mut done = false;
    while !done
        invariant
            body <= text@.len(),
            body <= i <= text@.len(),
            items_from(text@, body as int).0 == coeffs@ + items_from(text@, i as int).0,
            items_from(text@, body as int).1 == items_from(text@, i as int).1,
            done ==> item_at(text@, i as int) is None,
        decreases text@.len() - i + (if done {
            0int
        } else {
            1int
        }),
    {
        match try_item(text, i) {
            None => {
                done = true;
            },
            Some((c, j)) => {
                proof {
                    assert(items_from(text@, i as int) == (
                        seq![c] + items_from(text@, j as int).0,
                        items_from(text@, j as int).1,
                    ));
                    assert(coeffs@ + (seq![c] + items_from(text@, j as int).0) =~= coeffs@.push(c)
                        + items_from(text@, j as int).0);
                }
                coeffs.push(c);
                i = j;
            },
        }
    }
    proof {
        assert(items_from(text@, i as int) == (Seq::<Complex64>::empty(), i as int));
        assert(coeffs@ + Seq::<Complex64>::empty() =~= coeffs@);
        assert(items_from(text@, body as int).0 == coeffs@);
        assert(items_from(text@, body as int).1 == i as int);
    }
    let mut k = i;
    while k < text.len()
        invariant
            i <= k <= text@.len(),
            forall|m: int| i <= m < k ==> is_ws_byte(text@[m]),
            fp_end(text@, 0) == Some(deg_end as int),
            deg_end < text@.len() && text@[deg_end as int] == 10,
            body as int == munch_end(text@, deg_end as int, nl_pred()),
            items_from(text@, body as int) == (coeffs@, i as int),
        decreases text@.len() - k,
    {
        let b = text[k];
        if !(b == 9 || b == 10 || b == 11 || b == 12 || b == 13 || b == 32) {
            proof {
                assert(k < text@.len() && !is_ws_byte(text@[k as int]));
                assert(exists|m: int| i as int <= m < text@.len() && !is_ws_byte(text@[m]));
                assert(parse_spec(text@) == ParseOutcome::SyntaxAt(i as int));
            }
            return Err(syntax_error(text, i));
        }
        k = k + 1;
    }
    let declared = read_declared(text);
    if declared < 0 {
        return Err(ParseError::NegativeDegree);
    }
    if coeffs.len() as u128 != declared as u128 {
        return Err(ParseError::CountMismatch { actual: coeffs.len(), declared });
    }
    Ok(coeffs)
}

// ---------------------------------------------------------------------------
// Error messages.
// ---------------------------------------------------------------------------

/// Bytes below 128, which UTF-8 decoding maps one-to-one to characters.
pub open spec fn is_ascii_bytes(b: Seq<u8>) -> bool {
    forall|k: int| 0 <= k < b.len() ==> b[k] < 128
}

/// Each byte read as the character with its code.
pub open spec fn ascii_chars(b: Seq<u8>) -> Seq<char> {
    Seq::new(b.len(), |k: int| b[k] as char)
}

/// What lossy UTF-8 decoding makes of the bytes.
pub uninterp spec fn lossy_chars(b: Seq<u8>) -> Seq<char>;

/// Relies on `String::from_utf8_lossy`: its result is a function of the
/// bytes alone, and on ASCII bytes the documented decoding reads each byte
/// as the character with its code.
#[verifier::external_body]
fn lossy_string(b: &Vec<u8>) -> (r: String)
    ensures
        r@ == lossy_chars(b@),
        is_ascii_bytes(b@) ==> r@ == ascii_chars(b@),
{
    String::from_utf8_lossy(b).into_owned()
}

/// The decimal text of a signed value: a minus for negatives, then digits.
pub open spec fn signed_dec_chars(v: int) -> Seq<char> {
    if v < 0 {
        seq!['-'] + ascii_chars(dec_bytes(-v))
    } else {
        ascii_chars(dec_bytes(v))
    }
}

proof fn lemma_dec_bytes_ascii(n: int)
    requires
        n >= 0,
    ensures
        is_ascii_bytes(dec_bytes(n)),
{
    lemma_dec_bytes_digits(n);
}

/// The decimal text of n.
fn u64_string(n: u64) -> (r: String)
    ensures
        r@ == ascii_chars(dec_bytes(n as int)),
{
    let v = u64_dec_bytes(n);
    proof {
        lemma_dec_bytes_ascii(n as int);
    }
    lossy_string(&v)
}

/// The decimal text of d, with its sign.
fn i64_string(d: i64) -> (r: String)
    ensures
        r@ == signed_dec_chars(d as int),
{
    if d >= 0 {
        u64_string(d as u64)
    } else {
        let mag: u64 = (-(d as i128)) as u64;
        proof {
            assert(mag as int == -(d as int));
        }
        let mut m = String::from_str("-");
        let digits = u64_string(mag);
        m.append(digits.as_str());
        proof {
            reveal_strlit("-");
            assert(m@ =~= signed_dec_chars(d as int));
        }
        m
    }
}

/// The message text for each error, exactly as the menu prints it.
pub open spec fn message_chars(e: ParseError) -> Seq<char> {
    match e {
        ParseError::FileOpen => "Failed to open file."@,
        ParseError::Syntax { snippet } => "Parsing failed. Invalid syntax '"@ + lossy_chars(
            snippet@,
        ) + "' in file."@,
        ParseError::NegativeDegree => "Polynomial degree cannot be negative."@,
        ParseError::CountMismatch { actual, declared } => "Incorrect number of coefficients, "@
            + ascii_chars(dec_bytes(actual as int)) + " instead of "@ + signed_dec_chars(
            declared as int,
        ) + "."@,
        ParseError::Write => "Could not write to file."@,
    }
}

impl ParseError {
    /// The human-readable message for this error.
    pub fn message(&self) -> (r: String)
        ensures
            r@ == message_chars(*self),
    {
        match self {
            ParseError::FileOpen => String::from_str("Failed to open file."),
            ParseError::Syntax { snippet } => {
                let mut m = String::from_str("Parsing failed. Invalid syntax '");
                let snip = lossy_string(snippet);
                m.append(snip.as_str());
                m.append("' in file.");
                proof {
                    assert(m@ =~= message_chars(*self));
                }
                m
            },
            ParseError::NegativeDegree => String::from_str("Polynomial degree cannot be negative."),
            ParseError::CountMismatch { actual, declared } => {
                let mut m = String::from_str("Incorrect number of coefficients, ");
                let a = u64_string(*actual as u64);
                m.append(a.as_str());
                m.append(" instead of ");
                let d = i64_string(*declared);
                m.append(d.as_str());
                m.append(".");
                proof {
                    assert(m@ =~= message_chars(*self));
                }
                m
            },
            ParseError::Write => String::from_str("Could not write to file."),
        }
    }
}

// ---------------------------------------------------------------------------
// The serializer, and the round trip.
// ---------------------------------------------------------------------------

/// The decimal text of the real part of c, as `f64` Display prints it.
pub uninterp spec fn re_bytes_of(c: Complex64) -> Seq<u8>;

/// The decimal text of the imaginary part of c, as `f64` Display prints it.
pub uninterp spec fn im_bytes_of(c: Complex64) -> Seq<u8>;

/// Whether both parts of c are finite (no infinity, no NaN).
pub uninterp spec fn complex_finite(c: Complex64) -> bool;

/// One serialized coefficient line: real part, comma, imaginary part,
/// newline.
pub open spec fn line_bytes(c: Complex64) -> Seq<u8> {
    re_bytes_of(c) + seq![44u8] + im_bytes_of(c) + seq![10u8]
}

/// The serialized coefficient lines, in order.
pub open spec fn lines_bytes(cs: Seq<Complex64>) -> Seq<u8>
    decreases cs.len(),
{
    if cs.len() == 0 {
        Seq::empty()
    } else {
        lines_bytes(cs.drop_last()) + line_bytes(cs.last())
    }
}

/// A whole serialized polynomial: the coefficient count, a newline, then one
/// line per coefficient.
pub open spec fn serial_bytes(cs: Seq<Complex64>) -> Seq<u8> {
    dec_bytes(cs.len() as int) + seq![10u8] + lines_bytes(cs)
}

/// The textual facts about one coefficient that the round trip rests on.
pub open spec fn coeff_text_facts(c: Complex64) -> bool {
    &&& is_fp_bytes(re_bytes_of(c))
    &&& is_fp_bytes(im_bytes_of(c))
    &&& complex_of_bytes(re_bytes_of(c), im_bytes_of(c)) == c
}

/// Relies on the `Display` impl of `f64` (through `format!`): Rust documents
/// its output as the shortest decimal that parses back to the same value, in
/// plain decimal notation without an exponent. For a finite part that text is
/// an optional minus, digits, and an optional fraction -- a decimal number of
/// this codec's grammar -- and `f64::from_str` returns the very same value,
/// so the printed pair re-reads as the same complex number.
#[verifier::external_body]
fn complex_to_parts(c: Complex64) -> (p: (Vec<u8>, Vec<u8>))
    ensures
        p.0@ == re_bytes_of(c),
        p.1@ == im_bytes_of(c),
        complex_finite(c) ==> is_fp_bytes(p.0@) && is_fp_bytes(p.1@) && complex_of_bytes(
            p.0@,
            p.1@,
        ) == c,
{
    (format!("{}", c.re).into_bytes(), format!("{}", c.im).into_bytes())
}

/// The serialized lines can also be peeled from the front.
proof fn lemma_lines_head(cs: Seq<Complex64>)
    requires
        cs.len() >= 1,
    ensures
        lines_bytes(cs) == line_bytes(cs[0]) + lines_bytes(cs.drop_first()),
    decreases cs.len(),
{
    if cs.len() == 1 {
        assert(cs.drop_last() =~= Seq::<Complex64>::empty());
        assert(cs.drop_first() =~= Seq::<Complex64>::empty());
        assert(cs.last() == cs[0]);
        assert(Seq::<u8>::empty() + line_bytes(cs[0]) =~= line_bytes(cs[0])
            + Seq::<u8>::empty());
    } else {
        let dl = cs.drop_last();
        lemma_lines_head(dl);
        assert(dl[0] == cs[0]);
        assert(cs.drop_first().len() >= 1);
        assert(cs.drop_first().last() == cs.last());
        assert(cs.drop_first().drop_last() =~= dl.drop_first());
        assert((line_bytes(cs[0]) + lines_bytes(dl.drop_first())) + line_bytes(cs.last())
            =~= line_bytes(cs[0]) + (lines_bytes(dl.drop_first()) + line_bytes(cs.last())));
    }
}

/// Bytes that spell the serialized lines of cs, reaching to the end of s,
/// parse back as exactly the coefficients cs, stopping just before the final
/// newline.
proof fn lemma_items_parse(s: Seq<u8>, pos: int, cs: Seq<Complex64>)
    requires
        cs.len() >= 1,
        0 <= pos <= s.len(),
        munch_end(s, pos, nl_pred()) + lines_bytes(cs).len() == s.len(),
        s.subrange(munch_end(s, pos, nl_pred()), s.len() as int) == lines_bytes(cs),
        forall|k: int| 0 <= k < cs.len() ==> coeff_text_facts(#[trigger] cs[k]),
    ensures
        items_from(s, pos) == (cs, s.len() - 1),
    decreases cs.len(),
{
    let ls = munch_end(s, pos, nl_pred());
    lemma_munch_end(s, pos, nl_pred());
    let ll = lines_bytes(cs);
    lemma_lines_head(cs);
    assert(coeff_text_facts(cs[0]));
    let re = re_bytes_of(cs[0]);
    let im = im_bytes_of(cs[0]);
    let line = line_bytes(cs[0]);
    let rest = lines_bytes(cs.drop_first());
    assert forall|k: int| 0 <= k < ll.len() implies s[ls + k] == ll[k] by {
        assert(ll[k] == s.subrange(ls, s.len() as int)[k]);
    }
    lemma_fp_bytes_first(re);
    lemma_fp_bytes_first(im);
    let re_end = ls + re.len();
    let im_start = re_end + 1;
    let im_end = im_start + im.len();
    assert(line[re.len() as int] == 44);
    assert(line[line.len() - 1] == 10);
    assert(forall|k: int| 0 <= k < re.len() ==> line[k] == re[k]);
    assert(forall|k: int| 0 <= k < im.len() ==> line[re.len() + 1 + k] == im[k]);
    assert(forall|k: int| 0 <= k < line.len() ==> ll[k] == line[k]);
    assert(s.subrange(ls, re_end) =~= re);
    assert(s.subrange(im_start, im_end) =~= im);
    assert(s[re_end] == 44);
    assert(s[im_end] == 10);
    lemma_fp_embed(s, ls, re);
    lemma_fp_embed(s, im_start, im);
    lemma_munch_end_is(s, im_start, im_start, sp_pred());
    assert(item_at(s, pos) == Some((complex_of_bytes(re, im), im_end)));
    assert(complex_of_bytes(re, im) == cs[0]);
    let q = im_end;
    if cs.len() == 1 {
        assert(rest =~= Seq::<u8>::empty());
        assert(q + 1 == s.len());
        lemma_munch_end_is(s, q, s.len() as int, nl_pred());
        lemma_munch_end_is(s, s.len() as int, s.len() as int, digit_pred());
        assert(fp_end(s, s.len() as int) is None);
        assert(item_at(s, q) is None);
        assert(items_from(s, q) == (Seq::<Complex64>::empty(), q));
        assert(seq![cs[0]] + Seq::<Complex64>::empty() =~= cs);
        assert(items_from(s, pos) == (cs, s.len() - 1));
    } else {
        lemma_lines_head(cs.drop_first());
        let re1 = re_bytes_of(cs.drop_first()[0]);
        assert(coeff_text_facts(cs[1]));
        assert(cs.drop_first()[0] == cs[1]);
        lemma_fp_bytes_first(re1);
        assert(rest[0] == re1[0]);
        assert(ll[line.len() as int] == rest[0]);
        assert(s[q + 1] == rest[0]);
        assert(s[q + 1] != 10);
        lemma_munch_end_is(s, q, q + 1, nl_pred());
        assert(q + 1 == ls + line.len());
        assert forall|k: int| 0 <= k < rest.len() implies s.subrange(q + 1, s.len() as int)[k]
            == rest[k] by {
            assert(ll[line.len() + k] == rest[k]);
            assert(s[ls + (line.len() + k)] == ll[line.len() + k]);
        }
        assert(s.subrange(q + 1, s.len() as int) =~= rest);
        assert forall|k: int| 0 <= k < cs.drop_first().len() implies coeff_text_facts(
            #[trigger] cs.drop_first()[k],
        ) by {
            assert(cs.drop_first()[k] == cs[k + 1]);
        }
        lemma_items_parse(s, q, cs.drop_first());
        assert(items_from(s, q) == (cs.drop_first(), s.len() - 1));
        assert(seq![cs[0]] + cs.drop_first() =~= cs);
        assert(items_from(s, pos) == (cs, s.len() - 1));
    }
}

/// Serializing and parsing back returns the same coefficients.
pub proof fn lemma_round_trip(cs: Seq<Complex64>)
    requires
        cs.len() <= i64::MAX,
        forall|k: int| 0 <= k < cs.len() ==> coeff_text_facts(#[trigger] cs[k]),
    ensures
        parse_spec(serial_bytes(cs)) == ParseOutcome::Coeffs(cs),
{
    let s = serial_bytes(cs);
    let n = cs.len() as int;
    let h = dec_bytes(n);
    let hl = h.len() as int;
    let ll = lines_bytes(cs);
    lemma_dec_bytes_digits(n);
    lemma_dec_bytes_val(n);
    assert forall|k: int| 0 <= k < hl implies s[k] == h[k] by {
        assert(s[k] == (h + seq![10u8])[k]);
    }
    assert(s[hl] == (h + seq![10u8])[hl]);
    assert(s[hl] == 10);
    assert forall|k: int| 0 <= k < ll.len() implies s[hl + 1 + k] == ll[k] by {
        assert(s[hl + 1 + k] == ll[k]);
    }
    assert(s.subrange(0, hl) =~= h);
    assert(is_digit_byte(h[0]));
    assert(h[0] != 45);
    assert(is_fp_shape(h, hl));
    assert(is_fp_bytes(h));
    lemma_fp_embed(s, 0, h);
    assert(fp_end(s, 0) == Some(hl));
    // the declared count reads back as n
    assert(sign_end(s, 0) == 0);
    lemma_munch_end_is(s, 0, hl, digit_pred());
    lemma_digits_val_embed(s, 0, hl, h);
    assert(digits_val(s, 0, hl) == n);
    assert(declared_val(s) == n);
    if cs.len() == 0 {
        assert(ll =~= Seq::<u8>::empty());
        assert(s.len() == hl + 1);
        lemma_munch_end_is(s, hl, s.len() as int, nl_pred());
        lemma_munch_end_is(s, s.len() as int, s.len() as int, digit_pred());
        assert(fp_end(s, s.len() as int) is None);
        assert(item_at(s, s.len() as int) is None);
        assert(items_from(s, s.len() as int) == (Seq::<Complex64>::empty(), s.len() as int));
        assert(!(exists|k: int| s.len() <= k < s.len() && !is_ws_byte(s[k])));
        assert(parse_spec(s) == ParseOutcome::Coeffs(Seq::<Complex64>::empty()));
        assert(Seq::<Complex64>::empty() =~= cs);
    } else {
        lemma_lines_head(cs);
        assert(coeff_text_facts(cs[0]));
        lemma_fp_bytes_first(re_bytes_of(cs[0]));
        assert(ll[0] == re_bytes_of(cs[0])[0]);
        assert(s[hl + 1] == ll[0]);
        assert(s[hl + 1] != 10);
        lemma_munch_end_is(s, hl, hl + 1, nl_pred());
        let body = hl + 1;
        assert(s.subrange(body, s.len() as int) =~= ll);
        lemma_munch_end_is(s, body, body, nl_pred());
        lemma_items_parse(s, body, cs);
        assert(items_from(s, body) == (cs, s.len() - 1));
        // the one remaining byte is the final newline
        assert(ll[ll.len() - 1] == line_bytes(cs.last())[line_bytes(cs.last()).len() - 1]);
        assert(s[s.len() - 1] == 10);
        assert forall|k: int| s.len() - 1 <= k < s.len() implies is_ws_byte(s[k]) by {
            assert(s[k] == 10);
        }
        assert(!(exists|k: int| s.len() - 1 <= k < s.len() && !is_ws_byte(s[k])));
        assert(parse_spec(s) == ParseOutcome::Coeffs(cs));
    }
}

/// Serialize the coefficient list: the count line, then one line per
/// coefficient. When every coefficient is finite (and the count fits i64),
/// parsing the output back yields exactly the same coefficients.
pub fn serialize_poly(cs: &Vec<Complex64>) -> (r: Vec<u8>)
    ensures
        r@ == serial_bytes(cs@),
        (cs@.len() <= i64::MAX && (forall|k: int|
            0 <= k < cs@.len() ==> complex_finite(#[trigger] cs@[k]))) ==> parse_spec(r@)
            == ParseOutcome::Coeffs(cs@),
{
    let mut out = u64_dec_bytes(cs.len() as u64);
    out.push(10);
    proof {
        assert(lines_bytes(cs@.take(0)) =~= Seq::<u8>::empty());
        assert(out@ =~= dec_bytes(cs@.len() as int) + seq![10u8] + lines_bytes(cs@.take(0)));
    }
    let mut idx: usize = 0;
    while idx < cs.len()
        invariant
            idx <= cs@.len(),
            out@ == dec_bytes(cs@.len() as int) + seq![10u8] + lines_bytes(cs@.take(idx as int)),
            forall|k: int|
                0 <= k < idx ==> (complex_finite(#[trigger] cs@[k]) ==> coeff_text_facts(cs@[k])),
        decreases cs@.len() - idx,
    {
        let c = cs[idx];
        let (mut re_v, mut im_v) = complex_to_parts(c);
        out.append(&mut re_v);
        out.push(44);
        out.append(&mut im_v);
        out.push(10);
        proof {
            assert(cs@.take(idx + 1).drop_last() =~= cs@.take(idx as int));
            assert(cs@.take(idx + 1).last() == cs@[idx as int]);
            assert(lines_bytes(cs@.take(idx + 1)) == lines_bytes(cs@.take(idx as int))
                + line_bytes(cs@[idx as int]));
            assert(out@ =~= dec_bytes(cs@.len() as int) + seq![10u8] + lines_bytes(
                cs@.take(idx + 1),
            ));
        }
        idx = idx + 1;
    }
    proof {
        assert(cs@.take(cs@.len() as int) =~= cs@);
        if cs@.len() <= i64::MAX && (forall|k: int|
            0 <= k < cs@.len() ==> complex_finite(#[trigger] cs@[k])) {
            lemma_round_trip(cs@);
        }
    }
    out
}

} // verus!

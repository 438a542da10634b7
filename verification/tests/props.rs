use num_complex::Complex64;
use polyeval::codec::ParseError;
use polyeval::poly::{rootsOfUnity, Poly, Polynomial};

const TOLERANCE: f64 = 0.0001;

fn close(a: Complex64, b: Complex64) -> bool {
    (a - b).re.abs() <= TOLERANCE && (a - b).im.abs() <= TOLERANCE
}

fn parse_text(text: &str) -> Result<Polynomial, ParseError> {
    Polynomial::parse(&text.as_bytes().to_vec())
}

#[test]
fn roots_have_unit_modulus() {
    for n in 0..17 {
        let roots = rootsOfUnity(n);
        assert_eq!(roots.len(), n as usize);
        for z in roots {
            let modulus = (z.re * z.re + z.im * z.im).sqrt();
            assert!((modulus - 1.0).abs() <= TOLERANCE, "n={} z={:?}", n, z);
        }
    }
}

#[test]
fn single_point_methods_agree() {
    let poly = vec![
        Complex64::new(1.5, -2.0),
        Complex64::new(0.0, 3.25),
        Complex64::new(-4.75, 0.5),
        Complex64::new(2.0, 2.0),
        Complex64::new(-0.125, -1.0),
    ];
    let points = [
        Complex64::new(0.7, -0.3),
        Complex64::new(-1.2, 2.5),
        Complex64::new(0.0, 0.0),
        Complex64::new(1.0, 0.0),
    ];
    for x in points {
        let (naive, _) = poly.evaluateAtNaive(x);
        let (horner, _) = poly.evaluateAtHorner(x);
        let (improved, _) = poly.evaluateAtNaiveImproved(x);
        assert!(close(naive, horner), "x={:?} naive={:?} horner={:?}", x, naive, horner);
        assert!(close(naive, improved), "x={:?} naive={:?} improved={:?}", x, naive, improved);
    }
}

#[test]
fn fft_agrees_with_single_point_methods() {
    let poly = vec![
        Complex64::new(0.5, 1.0),
        Complex64::new(-1.0, 0.25),
        Complex64::new(2.75, -3.0),
        Complex64::new(0.0, 0.125),
        Complex64::new(-4.5, 2.0),
        Complex64::new(1.0, 1.0),
        Complex64::new(3.25, -0.75),
        Complex64::new(-2.0, -2.5),
    ];
    let (fft, fft_count) = poly.evaluateAtFFT();
    let roots = rootsOfUnity(poly.len() as i32);
    assert_eq!(fft.len(), roots.len());
    for j in 0..roots.len() {
        let (naive, _) = poly.evaluateAtNaive(roots[j]);
        let (horner, _) = poly.evaluateAtHorner(roots[j]);
        assert!(close(fft[j], naive), "j={} fft={:?} naive={:?}", j, fft[j], naive);
        assert!(close(fft[j], horner), "j={} fft={:?} horner={:?}", j, fft[j], horner);
    }
    // n/2 * log2(n) combine multiplications for n = 8
    assert_eq!(fft_count, 12);
}

#[test]
fn empty_polynomial_evaluates_to_zero() {
    let poly: Polynomial = Vec::new();
    let x = Complex64::new(2.5, -1.0);
    let (naive, naive_count) = poly.evaluateAtNaive(x);
    let (horner, horner_count) = poly.evaluateAtHorner(x);
    let (improved, improved_count) = poly.evaluateAtNaiveImproved(x);
    let (fft, fft_count) = poly.evaluateAtFFT();
    assert_eq!(naive, Complex64::new(0.0, 0.0));
    assert_eq!(horner, Complex64::new(0.0, 0.0));
    assert_eq!(improved, Complex64::new(0.0, 0.0));
    assert_eq!(fft, Vec::new());
    assert_eq!((naive_count, horner_count, improved_count, fft_count), (0, 0, 0, 0));
}

#[test]
fn serialize_writes_the_exact_format() {
    let poly = vec![Complex64::new(1.0, 0.0), Complex64::new(2.0, 3.25)];
    assert_eq!(poly.serialize(), b"2\n1,0\n2,3.25\n".to_vec());
    let empty: Polynomial = Vec::new();
    assert_eq!(empty.serialize(), b"0\n".to_vec());
}

#[test]
fn parse_serialize_round_trip_is_exact() {
    let polys: Vec<Polynomial> = vec![
        Vec::new(),
        vec![Complex64::new(0.0, 0.0)],
        vec![
            Complex64::new(1.5, -2.25),
            Complex64::new(-0.5, 123456.789),
            Complex64::new(0.0000003, -7.0),
            Complex64::new(-0.0, 42.0),
        ],
        vec![
            Complex64::new(1.0 / 3.0, -2.0 / 7.0),
            Complex64::new(1e300, -1e-300),
        ],
    ];
    for poly in polys {
        let text = poly.serialize();
        let back = Polynomial::parse(&text).unwrap();
        assert_eq!(back, poly);
    }
}

#[test]
fn parse_tolerates_blank_lines_and_spacing() {
    let result = parse_text("2\n\n1, 0\n2,\t3\n\n  \n").unwrap();
    assert_eq!(result, vec![Complex64::new(1.0, 0.0), Complex64::new(2.0, 3.0)]);
}

#[test]
fn parse_truncates_the_declared_count_toward_zero() {
    let result = parse_text("3.9\n1,0\n2,0\n3,0\n").unwrap();
    assert_eq!(result.len(), 3);
}

#[test]
fn parse_rejects_a_negative_declared_count() {
    let result = parse_text("-2\n1,0\n2,0\n");
    assert_eq!(
        result.unwrap_err().message(),
        "Polynomial degree cannot be negative.".to_string()
    );
}

#[test]
fn parse_reports_too_few_coefficients() {
    let result = parse_text("3\n1,0\n");
    assert_eq!(
        result.unwrap_err().message(),
        "Incorrect number of coefficients, 1 instead of 3.".to_string()
    );
}

#[test]
fn snippet_is_truncated_to_seven_bytes() {
    let result = parse_text("junkjunkjunk\n1,0\n");
    assert_eq!(
        result.unwrap_err().message(),
        "Parsing failed. Invalid syntax 'junkjun' in file.".to_string()
    );
}

#[test]
fn short_first_line_keeps_the_whole_leftover() {
    // The first unmatched line has fewer than 3 bytes, so the snippet keeps
    // the whole 7-byte leftover, line break included.
    let result = parse_text("ab\n1,0\n");
    assert_eq!(
        result.unwrap_err().message(),
        "Parsing failed. Invalid syntax 'ab\n1,0\n' in file.".to_string()
    );
}

#[test]
fn trailing_junk_after_coefficients_is_a_syntax_error() {
    // The leftover starts where the last coefficient line ended, so the
    // separating newline is part of it; its first line is then empty and
    // the whole truncated leftover becomes the snippet.
    let result = parse_text("1\n1,0\nrest\n");
    assert_eq!(
        result.unwrap_err().message(),
        "Parsing failed. Invalid syntax '\nrest\n' in file.".to_string()
    );
}

#[test]
fn broken_coefficient_line_is_a_syntax_error() {
    let result = parse_text("2\n1,0\n2;0\n");
    assert!(matches!(result, Err(ParseError::Syntax { .. })));
}

#[test]
fn missing_newline_after_count_is_a_syntax_error() {
    let result = parse_text("3");
    assert_eq!(
        result.unwrap_err().message(),
        "Parsing failed. Invalid syntax '' in file.".to_string()
    );
}

#[test]
fn empty_input_is_a_syntax_error() {
    let result = parse_text("");
    assert!(matches!(result, Err(ParseError::Syntax { .. })));
}

#[test]
fn huge_declared_count_saturates() {
    let result = parse_text("99999999999999999999999999\n");
    assert_eq!(
        result.unwrap_err().message(),
        "Incorrect number of coefficients, 0 instead of 9223372036854775807.".to_string()
    );
}

#[test]
fn write_error_message_is_exact() {
    assert_eq!(ParseError::Write.message(), "Could not write to file.".to_string());
}

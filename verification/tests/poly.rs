use num_complex::Complex64;
use polyeval::codec::ParseError;
use polyeval::poly::{randomCoefficientCount, rootsOfUnity, Poly, Polynomial};

const TOLERANCE: f64 = 0.0001;

fn compare_within_tolerance(left: &[Complex64], right: &[Complex64]) {
    if left.len() != right.len() {
        panic!("Lengths are not equal. Left: {:?}, Right: {:?}", left, right);
    }
    for i in 0..left.len() {
        let diff = left[i] - right[i];
        let diff_real = diff.re.abs();
        let diff_imag = diff.im.abs();
        if diff_real > TOLERANCE {
            panic!(
                "Difference on real part {} is greater than tolerance {}. Index: {}, Left: {:?}, Right: {:?}",
                diff_real, TOLERANCE, i, left, right
            );
        } else if diff_imag > TOLERANCE {
            panic!(
                "Difference on imag part {} is greater than tolerance {}. Index: {}, Left: {:?}, Right: {:?}",
                diff_imag, TOLERANCE, i, left, right
            );
        }
    }
}

fn parse_text(text: &str) -> Result<Polynomial, ParseError> {
    Polynomial::parse(&text.as_bytes().to_vec())
}

// The four-coefficient fixture 1 + 2x + 3x^2 + 4x^3 and its values at the
// fourth roots of unity 1, i, -1, -i.
fn fixture() -> Polynomial {
    parse_text("4\n1,0\n2,0\n3,0\n4,0\n").unwrap()
}

fn fixture_answers() -> Polynomial {
    vec![
        Complex64::new(10.0, 0.0),
        Complex64::new(-2.0, -2.0),
        Complex64::new(-2.0, 0.0),
        Complex64::new(-2.0, 2.0),
    ]
}

#[test]
fn test_roots_of_unity() {
    let roots = rootsOfUnity(1);
    compare_within_tolerance(&roots, &vec![Complex64::new(1.0, 0.0)]);

    let roots = rootsOfUnity(2);
    compare_within_tolerance(
        &roots,
        &vec![Complex64::new(1.0, 0.0), Complex64::new(-1.0, 0.0)],
    );

    let roots = rootsOfUnity(4);
    compare_within_tolerance(
        &roots,
        &vec![
            Complex64::new(1.0, 0.0),
            Complex64::new(0.0, 1.0),
            Complex64::new(-1.0, 0.0),
            Complex64::new(0.0, -1.0),
        ],
    );
}

#[test]
fn test_read_file() {
    let result = parse_text("3\n1,0\n2,3.25\n3.25,1\n").unwrap();
    assert_eq!(
        result,
        vec![
            Complex64::new(1.0, 0.0),
            Complex64::new(2.0, 3.25),
            Complex64::new(3.25, 1.0)
        ]
    );
}

#[test]
fn test_read_file_nonexistant() {
    // Opening the file is the caller's job; the error it surfaces carries
    // this exact message.
    assert_eq!(ParseError::FileOpen.message(), "Failed to open file.".to_string());
}

#[test]
fn test_read_file_zero_degree() {
    let result = parse_text("0\n").unwrap();
    assert_eq!(result, Vec::new());
}

#[test]
fn test_read_file_invalid_has_junk_degree() {
    let result = parse_text("junk\n1,0\n2,3.25\n3.25,1\n");
    assert_eq!(
        result.unwrap_err().message(),
        "Parsing failed. Invalid syntax 'junk' in file.".to_string()
    );
}

#[test]
fn test_read_file_invalid_has_junk_coeffs() {
    let result = parse_text("3\njunk\n1,0\n2,3.25\n3.25,1\n");
    assert_eq!(
        result.unwrap_err().message(),
        "Parsing failed. Invalid syntax 'junk' in file.".to_string()
    );
}

#[test]
fn test_read_file_invalid_has_more_coeffs() {
    let result = parse_text("3\n1,0\n2,3.25\n3.25,1\n4,4\n");
    assert_eq!(
        result.unwrap_err().message(),
        "Incorrect number of coefficients, 4 instead of 3.".to_string()
    );
}

#[test]
fn test_random_poly() {
    // random(3, 5.0): positive bounds, so three coefficients are drawn.
    let result = randomCoefficientCount(3, true).unwrap();
    assert_eq!(result, 3);
}

#[test]
fn test_random_poly_zero_degree() {
    let result = randomCoefficientCount(-1, true);
    assert_eq!(
        result.unwrap_err(),
        "You can't have a polynomial of degree less than zero.".to_string()
    );
}

#[test]
fn test_random_poly_zero_range() {
    let result = randomCoefficientCount(3, false);
    assert_eq!(result.unwrap_err(), "Range is negative or zero.".to_string());
}

#[test]
fn test_evaluate_naive() {
    let poly = fixture();
    let answer = fixture_answers();
    let roots = rootsOfUnity(poly.len() as i32);

    let mut attempt = Vec::with_capacity(poly.len());
    let mut counts = 0;

    for root in roots {
        let (value, count) = poly.evaluateAtNaive(root);
        attempt.push(value);
        counts += count;
    }

    compare_within_tolerance(&attempt, &answer);
    assert_eq!(counts, 40);
}

#[test]
fn test_evaluate_horner() {
    let poly = fixture();
    let answer = fixture_answers();
    let roots = rootsOfUnity(poly.len() as i32);

    let mut attempt = Vec::with_capacity(poly.len());
    let mut counts = 0;

    for root in roots {
        let (value, count) = poly.evaluateAtHorner(root);
        attempt.push(value);
        counts += count;
    }

    compare_within_tolerance(&attempt, &answer);
    assert_eq!(counts, 16);
}

#[test]
fn test_evaluate_naive_improved() {
    let poly = fixture();
    let answer = fixture_answers();
    let roots = rootsOfUnity(poly.len() as i32);

    let mut attempt = Vec::with_capacity(poly.len());
    let mut counts = 0;

    for root in roots {
        let (value, count) = poly.evaluateAtNaiveImproved(root);
        attempt.push(value);
        counts += count;
    }

    compare_within_tolerance(&attempt, &answer);
    assert_eq!(counts, 32);
}

#[test]
fn test_evaluate_fft() {
    let poly = fixture();
    let answer = fixture_answers();
    let (attempt, count) = poly.evaluateAtFFT();

    compare_within_tolerance(&attempt, &answer);
    assert_eq!(count, 4);
}

use diffpoly::arith::{factorial, falling_factorial, gcd_i64};
use diffpoly::coeffs::Rational;
use diffpoly::eval::summation_intermediate;
use diffpoly::format::format_polynomial;
use diffpoly::render::render_rank;
use diffpoly::stirling::stirling_first;
use diffpoly::table::{differences_between_numbers, vec_is_0s};

fn rats(pairs: &[(i64, i64)]) -> Vec<Rational> {
    pairs.iter().map(|&(n, d)| Rational::new(n, d)).collect()
}

#[test]
fn vec_is_0s_detects_zero_rows() {
    assert!(vec_is_0s(&vec![0, 0, 0]));
    assert!(vec_is_0s(&Vec::new()));
    assert!(!vec_is_0s(&vec![0, 1, 0]));
}

#[test]
fn differences_of_a_row() {
    assert_eq!(differences_between_numbers(&vec![1, 4, 9, 16, 25]), vec![3, 5, 7, 9]);
    assert_eq!(differences_between_numbers(&vec![5, 2]), vec![-3]);
    assert_eq!(differences_between_numbers(&vec![7]), Vec::<i64>::new());
}

#[test]
fn falling_factorial_values() {
    assert_eq!(falling_factorial(5, 0), 1);
    assert_eq!(falling_factorial(5, 1), 5);
    assert_eq!(falling_factorial(5, 3), 60);
    assert_eq!(falling_factorial(-1, 2), 2);
    assert_eq!(falling_factorial(2, 4), 0);
}

#[test]
fn factorial_values() {
    assert_eq!(factorial(0), 1);
    assert_eq!(factorial(1), 1);
    assert_eq!(factorial(4), 24);
}

#[test]
fn gcd_values() {
    assert_eq!(gcd_i64(0, 6), 6);
    assert_eq!(gcd_i64(3, 6), 3);
    assert_eq!(gcd_i64(9, 6), 3);
    assert_eq!(gcd_i64(7, 5), 1);
}

#[test]
fn stirling_first_five_rows() {
    // the documented example: five rows of signed Stirling numbers
    let rows = stirling_first(5);
    assert_eq!(
        rows,
        vec![
            vec![1],
            vec![-1, 1],
            vec![2, -3, 1],
            vec![-6, 11, -6, 1],
            vec![24, -50, 35, -10, 1],
        ]
    );
}

#[test]
fn stirling_first_zero_still_yields_one_row() {
    assert_eq!(stirling_first(0), vec![vec![1]]);
    assert_eq!(stirling_first(1), vec![vec![1]]);
}

#[test]
fn summation_intermediate_terms() {
    // c * x(x-1)...(x-deg+1) / deg!
    assert_eq!(summation_intermediate(0, 7, 3), 7);
    assert_eq!(summation_intermediate(2, 2, 5), 20);
    assert_eq!(summation_intermediate(2, 1, -1), 1);
    assert_eq!(summation_intermediate(3, -2, 4), -8);
}

#[test]
fn format_bare_x() {
    assert_eq!(format_polynomial(&rats(&[(0, 1), (1, 1)])), "x");
}

#[test]
fn format_negative_bare_x() {
    assert_eq!(format_polynomial(&rats(&[(0, 1), (-1, 1)])), "-x");
}

#[test]
fn format_skips_zero_terms() {
    assert_eq!(format_polynomial(&rats(&[(2, 1), (0, 1), (1, 1)])), "x^2 + 2");
}

#[test]
fn format_all_zero_is_empty() {
    assert_eq!(format_polynomial(&rats(&[(0, 1), (0, 1), (0, 1)])), "");
    assert_eq!(format_polynomial(&Vec::new()), "");
}

#[test]
fn format_full_polynomial() {
    assert_eq!(
        format_polynomial(&rats(&[(6, 6), (12, 6), (6, 6), (0, 6)])),
        "x^2 + 2x + 1"
    );
}

#[test]
fn format_negative_and_constant_one() {
    // degree 0 shows the numeral even when it is 1
    assert_eq!(format_polynomial(&rats(&[(1, 1), (-3, 1)])), "-3x + 1");
    assert_eq!(format_polynomial(&rats(&[(-1, 1), (2, 1)])), "2x - 1");
}

#[test]
fn format_reduces_fractions() {
    assert_eq!(
        format_polynomial(&rats(&[(0, 6), (3, 6), (3, 6), (0, 6)])),
        "1/2x^2 + 1/2x"
    );
}

#[test]
fn render_rank_pads_and_indents() {
    let lines = render_rank(&vec![vec![1, 4, 9, 16, 25], vec![3, 5, 7, 9]]);
    assert_eq!(lines.len(), 2);
    assert_eq!(lines[0], "  1   4   9  16  25 ");
    assert_eq!(lines[1], "    3   5   7   9 ");
}

#[test]
fn render_rank_keeps_wide_values() {
    let lines = render_rank(&vec![vec![-1234, 10]]);
    assert_eq!(lines[0], "-1234  10 ");
}

use diffpoly::coeffs::{reconstruct_coefficients, Rational};
use diffpoly::eval::evaluate_forward_difference;
use diffpoly::table::{build_difference_table, TerminalState};

fn table_of(values: &[i64]) -> (Vec<Vec<i64>>, TerminalState) {
    build_difference_table(&values.to_vec())
}

#[test]
fn squares_difference_table() {
    let (rows, state) = table_of(&[1, 4, 9, 16, 25]);
    assert_eq!(
        rows,
        vec![
            vec![1, 4, 9, 16, 25],
            vec![3, 5, 7, 9],
            vec![2, 2, 2],
            vec![0, 0],
        ]
    );
    assert_eq!(state, TerminalState::Exact);
}

#[test]
fn squares_row_lengths_strictly_decrease_within_len_steps() {
    let (rows, _) = table_of(&[1, 4, 9, 16, 25]);
    // at most len(sequence) rows are appended below row 0
    assert!(rows.len() - 1 <= 5);
    for i in 1..rows.len() {
        assert_eq!(rows[i].len(), rows[i - 1].len() - 1);
    }
}

#[test]
fn linear_difference_table() {
    let (rows, state) = table_of(&[1, 2, 3]);
    assert_eq!(rows, vec![vec![1, 2, 3], vec![1, 1], vec![0]]);
    // the appended row [0] has length 1, which is degenerate by the
    // termination rule even though its single value is zero
    assert_eq!(state, TerminalState::Degenerate);
}

#[test]
fn single_element_is_exact_with_appended_empty_row() {
    // the boundary case: the zero test never sees the length-1 row 0; the
    // appended row is empty, hence all zeros, so the table ends Exact
    let (rows, state) = table_of(&[5]);
    assert_eq!(rows.len(), 2);
    assert_eq!(rows[0], vec![5]);
    assert!(rows[1].is_empty());
    assert_eq!(state, TerminalState::Exact);
}

#[test]
fn single_zero_is_exact_with_one_row() {
    let (rows, state) = table_of(&[0]);
    assert_eq!(rows, vec![vec![0]]);
    assert_eq!(state, TerminalState::Exact);
}

#[test]
fn length_two_constant_row_is_degenerate() {
    // a row of length 1 is never tested for zero: degenerate even at [0]
    let (rows, state) = table_of(&[3, 3]);
    assert_eq!(rows, vec![vec![3, 3], vec![0]]);
    assert_eq!(state, TerminalState::Degenerate);
}

#[test]
fn irregular_sequence_is_degenerate() {
    let (rows, state) = table_of(&[1, 5, 2]);
    assert_eq!(rows, vec![vec![1, 5, 2], vec![4, -3], vec![-7]]);
    assert_eq!(state, TerminalState::Degenerate);
}

#[test]
fn evaluator_reproduces_squares_and_extrapolates() {
    let (rows, _) = table_of(&[1, 4, 9, 16, 25]);
    for x in 0..5 {
        assert_eq!(evaluate_forward_difference(&rows, x), (x + 1) * (x + 1));
    }
    assert_eq!(evaluate_forward_difference(&rows, 5), 36);
}

#[test]
fn evaluator_reproduces_degenerate_sequence() {
    let (rows, _) = table_of(&[1, 5, 2]);
    assert_eq!(evaluate_forward_difference(&rows, 0), 1);
    assert_eq!(evaluate_forward_difference(&rows, 1), 5);
    assert_eq!(evaluate_forward_difference(&rows, 2), 2);
}

#[test]
fn evaluator_at_negative_position() {
    let (rows, _) = table_of(&[1, 4, 9, 16, 25]);
    // (x + 1)^2 at x = -1; the falling factorials divide evenly here
    assert_eq!(evaluate_forward_difference(&rows, -1), 0);
}

#[test]
fn squares_coefficients_are_exact() {
    let (rows, _) = table_of(&[1, 4, 9, 16, 25]);
    let coeffs = reconstruct_coefficients(&rows);
    // (x + 1)^2 = x^2 + 2x + 1, over the common denominator 3! = 6
    let expected: Vec<(i64, i64)> = vec![(6, 6), (12, 6), (6, 6), (0, 6)];
    let got: Vec<(i64, i64)> = coeffs.iter().map(|c| (c.num, c.den)).collect();
    assert_eq!(got, expected);
}

#[test]
fn linear_coefficients_are_exact() {
    let (rows, _) = table_of(&[1, 2, 3]);
    let coeffs = reconstruct_coefficients(&rows);
    // x + 1 over the common denominator 2! = 2
    let got: Vec<(i64, i64)> = coeffs.iter().map(|c| (c.num, c.den)).collect();
    assert_eq!(got, vec![(2, 2), (2, 2), (0, 2)]);
}

#[test]
fn triangular_coefficients_are_halves() {
    let (rows, state) = table_of(&[0, 1, 3, 6, 10]);
    assert_eq!(state, TerminalState::Exact);
    let coeffs = reconstruct_coefficients(&rows);
    // x(x+1)/2 = x^2/2 + x/2 over the common denominator 3! = 6
    let got: Vec<(i64, i64)> = coeffs.iter().map(|c| (c.num, c.den)).collect();
    assert_eq!(got, vec![(0, 6), (3, 6), (3, 6), (0, 6)]);
}

#[test]
fn round_trip_power_basis_reproduces_sequence() {
    // evaluate the reconstructed power-basis polynomial as a rational sum
    let input: Vec<i64> = vec![2, 3, 10, 29, 66, 127];
    let (rows, state) = build_difference_table(&input);
    assert_eq!(state, TerminalState::Exact);
    let coeffs = reconstruct_coefficients(&rows);
    for x in 0..input.len() {
        let mut num: i64 = 0;
        let den = coeffs[0].den;
        let mut power: i64 = 1;
        for c in &coeffs {
            assert_eq!(c.den, den);
            num += c.num * power;
            power *= x as i64;
        }
        assert_eq!(num, input[x] * den);
    }
}

#[test]
fn rational_new_keeps_parts() {
    let r = Rational::new(3, 4);
    assert_eq!(r.num, 3);
    assert_eq!(r.den, 4);
}

//! Newton forward-difference evaluation: the value at position `x` is the
//! sum over the table's rows of `leading value of row k` times `C(x, k)`,
//! the binomial computed as a falling factorial divided (with truncation)
//! by `k!`. This module also proves that the evaluation reproduces the
//! input sequence at positions `0 .. sequence.len()`.
use vstd::prelude::*;
use crate::arith::{
    in_i64, fact, falling_fact, binom, trunc_div, lemma_fact_pos, lemma_ff_binom,
    lemma_binom_above, lemma_trunc_div_exact, falling_factorial, factorial,
};
use crate::table::{
    diff_row, diff_k, is_zero_row, table_depth, table_exact, table_rows, rows_of, ints_of,
    lemma_diff_k_len, lemma_depth_pos,
};

verus! {

/// The `k`-th product of the Newton formula before the division.
pub open spec fn newton_prod(rows: Seq<Seq<int>>, x: int, k: nat) -> int {
    rows[k as int][0] * falling_fact(x, k)
}

/// The sum of the first `m` terms of the Newton forward-difference formula.
pub open spec fn newton_eval_upto(rows: Seq<Seq<int>>, x: int, m: nat) -> int
    decreases m,
{
    if m == 0 {
        0
    } else {
        newton_eval_upto(rows, x, (m - 1) as nat) + trunc_div(
            newton_prod(rows, x, (m - 1) as nat),
            fact((m - 1) as nat) as int,
        )
    }
}

/// The full Newton forward-difference value of a table at position `x`.
pub open spec fn newton_eval(rows: Seq<Seq<int>>, x: int) -> int {
    newton_eval_upto(rows, x, rows.len())
}

/// All intermediate machine values of the evaluation fit in `i64`.
pub open spec fn eval_fits(rows: Seq<Seq<int>>, x: int) -> bool {
    &&& rows.len() <= i64::MAX
    &&& (rows.len() <= 1 || x - (rows.len() - 2) >= i64::MIN)
    &&& (forall|i: nat| i < rows.len() ==> in_i64(#[trigger] falling_fact(x, i)))
    &&& (forall|i: nat| i < rows.len() ==> #[trigger] fact(i) <= i64::MAX)
    &&& (forall|k: nat|
        k < rows.len() ==> i64::MIN < #[trigger] newton_prod(rows, x, k) <= i64::MAX)
    &&& (forall|m: nat| m <= rows.len() ==> in_i64(#[trigger] newton_eval_upto(rows, x, m)))
}

/// One term of the Newton formula: `c * x(x-1)...(x-deg+1) / deg!`, the
/// division truncating toward zero.
pub fn summation_intermediate(deg: i64, c: i64, x: i64) -> (r: i64)
    requires
        deg >= 0,
        deg == 0 || x as int - (deg - 1) >= i64::MIN,
        forall|i: nat| i <= deg ==> in_i64(#[trigger] falling_fact(x as int, i)),
        forall|i: nat| i <= deg ==> #[trigger] fact(i) <= i64::MAX,
        i64::MIN < c * falling_fact(x as int, deg as nat) <= i64::MAX,
    ensures
        r == trunc_div(c * falling_fact(x as int, deg as nat), fact(deg as nat) as int),
{
    let f = falling_factorial(x, deg);
    let p = factorial(deg);
    let prod = c * f;
    if prod >= 0 {
        proof {
            assert(prod / p <= prod && prod / p >= 0) by (nonlinear_arith)
                requires
                    prod >= 0,
                    p >= 1,
            ;
        }
        prod / p
    } else {
        let neg = -prod;
        proof {
            assert(neg / p <= neg && neg / p >= 0) by (nonlinear_arith)
                requires
                    neg >= 0,
                    p >= 1,
            ;
        }
        -(neg / p)
    }
}

/// Evaluates the Newton forward-difference formula of a difference table at
/// an arbitrary position `x`; positions `0 .. sequence.len()` reproduce the
/// sequence the table was built from (`lemma_evaluate_reproduces`).
pub fn evaluate_forward_difference(table: &Vec<Vec<i64>>, x: i64) -> (r: i64)
    requires
        forall|k: int| 0 <= k < table@.len() ==> (#[trigger] table@[k])@.len() >= 1,
        eval_fits(rows_of(table@), x as int),
    ensures
        r == newton_eval(rows_of(table@), x as int),
{
    let ghost rows = rows_of(table@);
    let mut sum: i64 = 0;
    let mut k: usize = 0;
    while k < table.len()
        invariant
            0 <= k <= table@.len(),
            rows == rows_of(table@),
            forall|i: int| 0 <= i < table@.len() ==> (#[trigger] table@[i])@.len() >= 1,
            eval_fits(rows, x as int),
            sum == newton_eval_upto(rows, x as int, k as nat),
        decreases table@.len() - k,
    {
        proof {
            assert(rows[k as int] == ints_of(table@[k as int]@));
            assert(rows[k as int][0] == table@[k as int]@[0] as int);
            assert(in_i64(falling_fact(x as int, k as nat)));
            assert(i64::MIN < newton_prod(rows, x as int, k as nat) <= i64::MAX);
            assert(in_i64(newton_eval_upto(rows, x as int, (k + 1) as nat)));
        }
        let c = table[k][0];
        let t = summation_intermediate(k as i64, c, x);
        proof {
            assert(newton_eval_upto(rows, x as int, (k + 1) as nat) == newton_eval_upto(
                rows,
                x as int,
                k as nat,
            ) + trunc_div(newton_prod(rows, x as int, k as nat), fact(k as nat) as int));
        }
        sum = sum + t;
        k = k + 1;
    }
    sum
}

/// The partial sums of leading differences times binomials.
pub open spec fn binom_sum(s: Seq<int>, x: int, m: nat) -> int
    decreases m,
{
    if m == 0 {
        0
    } else {
        binom_sum(s, x, (m - 1) as nat) + diff_k(s, (m - 1) as nat)[0] * binom(x, (m - 1) as nat)
    }
}

/// Taking differences first and iterating is iterating one step further.
pub proof fn lemma_diff_k_comm(s: Seq<int>, k: nat)
    ensures
        diff_k(diff_row(s), k) == diff_k(s, (k + 1) as nat),
    decreases k,
{
    reveal_with_fuel(diff_k, 3);
    if k > 0 {
        lemma_diff_k_comm(s, (k - 1) as nat);
    }
}

/// Stepping the position: the sum over `s` at `x + 1` is the sum over `s`
/// at `x` plus the sum over the difference row at `x`.
pub proof fn lemma_binom_sum_step(s: Seq<int>, x: int, m: nat)
    requires
        x >= 0,
        m >= 1,
    ensures
        binom_sum(s, x + 1, m) == binom_sum(s, x, m) + binom_sum(diff_row(s), x, (m - 1) as nat),
    decreases m,
{
    let g = diff_row(s);
    if m == 1 {
        assert(binom(x + 1, 0) == 1);
        assert(binom(x, 0) == 1);
        assert(diff_k(s, 0) == s);
        assert(binom_sum(g, x, 0) == 0);
        assert(binom_sum(s, x + 1, 1) == binom_sum(s, x + 1, 0) + diff_k(s, 0)[0] * binom(
            x + 1,
            0,
        ));
        assert(binom_sum(s, x, 1) == binom_sum(s, x, 0) + diff_k(s, 0)[0] * binom(x, 0));
    } else {
        let m1 = (m - 1) as nat;
        let m2 = (m - 2) as nat;
        lemma_binom_sum_step(s, x, m1);
        lemma_diff_k_comm(s, m2);
        let c = diff_k(s, m1)[0];
        assert(diff_k(g, m2) == diff_k(s, m1));
        assert(binom(x + 1, m1) == binom(x, m1) + binom(x, m2));
        assert(binom_sum(s, x + 1, m) == binom_sum(s, x + 1, m1) + c * binom(x + 1, m1));
        assert(binom_sum(s, x, m) == binom_sum(s, x, m1) + c * binom(x, m1));
        assert(binom_sum(g, x, m1) == binom_sum(g, x, m2) + c * binom(x, m2));
        assert(c * binom(x + 1, m1) == c * binom(x, m1) + c * binom(x, m2)) by (nonlinear_arith)
            requires
                binom(x + 1, m1) == binom(x, m1) + binom(x, m2),
        ;
    }
}

/// The heart of the Newton identity: the first `x + 1` terms reproduce the
/// sequence entry at `x`.
pub proof fn lemma_binom_sum_core(s: Seq<int>, x: int)
    requires
        0 <= x < s.len(),
    ensures
        binom_sum(s, x, (x + 1) as nat) == s[x],
    decreases x,
{
    if x == 0 {
        assert(binom_sum(s, 0, 1) == binom_sum(s, 0, 0) + diff_k(s, 0)[0] * binom(0, 0));
        assert(binom(0, 0) == 1);
    } else {
        let g = diff_row(s);
        lemma_binom_sum_step(s, x - 1, (x + 1) as nat);
        lemma_binom_sum_core(s, x - 1);
        lemma_binom_sum_core(g, x - 1);
        lemma_binom_above(x - 1, x as nat);
        assert(binom_sum(s, x - 1, (x + 1) as nat) == binom_sum(s, x - 1, x as nat) + diff_k(
            s,
            x as nat,
        )[0] * binom(x - 1, x as nat));
        assert(g[x - 1] == s[x] - s[x - 1]);
    }
}

/// Terms beyond the position contribute nothing: `C(x, k) == 0` for `k > x`.
pub proof fn lemma_binom_sum_tail(s: Seq<int>, x: int, m: nat)
    requires
        0 <= x,
        m >= x + 1,
    ensures
        binom_sum(s, x, m) == binom_sum(s, x, (x + 1) as nat),
    decreases m,
{
    if m > x + 1 {
        lemma_binom_sum_tail(s, x, (m - 1) as nat);
        lemma_binom_above(x, (m - 1) as nat);
    }
}

/// The difference row of an all-zero row is all zeros.
pub proof fn lemma_zero_diff(r: Seq<int>)
    requires
        is_zero_row(r),
    ensures
        is_zero_row(diff_row(r)),
{
}

/// Once a row is all zeros, every later row is all zeros.
pub proof fn lemma_diff_k_zero(s: Seq<int>, d: nat, k: nat)
    requires
        is_zero_row(diff_k(s, d)),
        k >= d,
    ensures
        is_zero_row(diff_k(s, k)),
    decreases k,
{
    if k > d {
        lemma_diff_k_zero(s, d, (k - 1) as nat);
        lemma_zero_diff(diff_k(s, (k - 1) as nat));
    }
}

/// Terms taken from all-zero rows contribute nothing to the sum.
pub proof fn lemma_binom_sum_zero_tail(s: Seq<int>, x: int, d: nat, m: nat)
    requires
        1 <= d <= m,
        m <= s.len(),
        is_zero_row(diff_k(s, (d - 1) as nat)),
    ensures
        binom_sum(s, x, m) == binom_sum(s, x, d),
    decreases m,
{
    if m > d {
        let m1 = (m - 1) as nat;
        lemma_binom_sum_zero_tail(s, x, d, m1);
        lemma_diff_k_zero(s, (d - 1) as nat, m1);
        lemma_diff_k_len(s, m1);
        assert(diff_k(s, m1).len() >= 1);
        assert(diff_k(s, m1)[0] == 0);
    }
}

/// A table in the `Exact` state ends with an all-zero row.
pub proof fn lemma_exact_zero_last(r: Seq<int>)
    requires
        table_exact(r),
    ensures
        is_zero_row(diff_k(r, (table_depth(r) - 1) as nat)),
    decreases r.len(),
{
    if is_zero_row(r) {
        assert(table_depth(r) == 1);
    } else if r.len() == 1 {
        reveal_with_fuel(diff_k, 3);
        assert(table_depth(r) == 2);
        assert(diff_row(r).len() == 0);
        assert(diff_k(r, 1) == diff_row(r));
    } else {
        let g = diff_row(r);
        assert(r.len() > 2);
        lemma_exact_zero_last(g);
        lemma_depth_pos(g);
        lemma_diff_k_comm(r, (table_depth(g) - 1) as nat);
        assert(table_depth(r) == 1 + table_depth(g));
    }
}

/// A table in the `Degenerate` state has exactly as many rows as the
/// sequence has entries.
pub proof fn lemma_degenerate_depth(r: Seq<int>)
    requires
        !table_exact(r),
        r.len() >= 1,
    ensures
        table_depth(r) == r.len(),
    decreases r.len(),
{
    if r.len() > 2 {
        lemma_degenerate_depth(diff_row(r));
    }
}

/// Each Newton term on the built table equals the corresponding
/// leading-difference-times-binomial term, for `x >= 0`.
pub proof fn lemma_newton_matches(s: Seq<int>, x: int, m: nat)
    requires
        x >= 0,
        m <= table_depth(s),
    ensures
        newton_eval_upto(table_rows(s), x, m) == binom_sum(s, x, m),
    decreases m,
{
    if m > 0 {
        let km = (m - 1) as nat;
        lemma_newton_matches(s, x, km);
        lemma_fact_pos(km);
        lemma_ff_binom(x, km);
        let c = diff_k(s, km)[0];
        let b = binom(x, km);
        let f = fact(km) as int;
        assert(table_rows(s)[km as int] == diff_k(s, km));
        assert(c * (b * f) == (c * b) * f) by (nonlinear_arith);
        lemma_trunc_div_exact(c * b, f);
        assert(newton_prod(table_rows(s), x, km) == c * falling_fact(x, km));
        assert(trunc_div(c * falling_fact(x, km), f) == c * b);
    }
}

/// The binomial-weighted sum of the leading differences, taken over the
/// full depth of the table, reproduces the sequence at every position
/// `0 <= x < s.len()`.
pub proof fn lemma_binom_sum_at_depth(s: Seq<int>, x: int)
    requires
        s.len() >= 1,
        0 <= x < s.len(),
    ensures
        binom_sum(s, x, table_depth(s)) == s[x],
{
    let d = table_depth(s);
    lemma_depth_pos(s);
    if x + 1 <= d {
        lemma_binom_sum_tail(s, x, d);
        lemma_binom_sum_core(s, x);
    } else {
        if !table_exact(s) {
            lemma_degenerate_depth(s);
            assert(false);
        }
        lemma_exact_zero_last(s);
        lemma_binom_sum_zero_tail(s, x, d, (x + 1) as nat);
        lemma_binom_sum_core(s, x);
    }
}

/// The Newton forward-difference formula over the finished difference table
/// reproduces the sequence it was built from at every position `0 <= x < s.len()`.
pub proof fn lemma_evaluate_reproduces(s: Seq<int>, x: int)
    requires
        s.len() >= 1,
        0 <= x < s.len(),
    ensures
        newton_eval(table_rows(s), x) == s[x],
{
    let d = table_depth(s);
    lemma_depth_pos(s);
    assert(table_rows(s).len() == d);
    lemma_newton_matches(s, x, d);
    lemma_binom_sum_at_depth(s, x);
}

} // verus!

//! Reconstruction of the power-basis coefficients of the interpolating
//! polynomial. Each Newton term `c_i * x(x-1)...(x-i) / (i+1)!` is expanded
//! over the basis-conversion table and accumulated exactly: every
//! coefficient is kept as a rational with the common denominator
//! `(depth - 1)!`, so no precision is lost.
use vstd::prelude::*;
use crate::arith::{
    in_i64, fact, factorial, lemma_fact_pos, pow_int, fact_ratio, lemma_fact_ratio,
    lemma_div_multiple, falling_fact, binom, lemma_ff_binom,
};
use crate::eval::{binom_sum, lemma_binom_sum_at_depth};
use crate::stirling::{stirling_row, stirling_first, st_eval, lemma_st_eval_ff};
use crate::table::{rows_of, ints_of, diff_k, table_depth, table_rows, lemma_depth_pos};

verus! {

/// An exact ratio of two machine integers; the denominator is positive.
#[derive(Clone, Copy, Debug, PartialEq, Eq, Structural)]
pub struct Rational {
    pub num: i64,
    pub den: i64,
}

/// A well-formed rational: positive denominator, and a numerator whose
/// negation also fits in an `i64`.
pub open spec fn rational_wf(r: Rational) -> bool {
    r.den >= 1 && r.num > i64::MIN
}

impl Rational {
    /// Builds the rational `num / den`.
    pub fn new(num: i64, den: i64) -> (r: Rational)
        requires
            den >= 1,
            num > i64::MIN,
        ensures
            r.num == num,
            r.den == den,
            rational_wf(r),
    {
        Rational { num, den }
    }
}

/// The common denominator of all reconstructed coefficients of a table
/// with `depth` rows: `(depth - 1)!`.
pub open spec fn common_den(depth: nat) -> int {
    fact((depth - 1) as nat) as int
}

/// The leading value of row `i + 1` times the basis-conversion entry that
/// row `i + 1`'s falling factorial contributes to degree `j`.
pub open spec fn cs_prod(rows: Seq<Seq<int>>, j: int, i: int) -> int {
    rows[i + 1][0] * stirling_row(i as nat)[j - 1]
}

/// What processing basis row `i` adds to the numerator of coefficient `j`,
/// over the common denominator.
pub open spec fn contribution(rows: Seq<Seq<int>>, j: int, i: int) -> int {
    if 1 <= j && j <= i + 1 {
        cs_prod(rows, j, i) * (common_den(rows.len()) / (fact((i + 1) as nat) as int))
    } else {
        0
    }
}

/// The numerator of coefficient `j` after the first `m` basis rows.
pub open spec fn coeff_partial(rows: Seq<Seq<int>>, j: int, m: nat) -> int
    decreases m,
{
    if m == 0 {
        0
    } else {
        coeff_partial(rows, j, (m - 1) as nat) + contribution(rows, j, m - 1)
    }
}

/// The numerator of the reconstructed coefficient of `x^j`, over the common
/// denominator `common_den(rows.len())`.
pub open spec fn coeff_num(rows: Seq<Seq<int>>, j: int) -> int {
    if j == 0 {
        rows[0][0] * common_den(rows.len())
    } else {
        coeff_partial(rows, j, (rows.len() - 1) as nat)
    }
}

/// All intermediate machine values of the reconstruction fit in `i64`.
pub open spec fn reconstruct_fits(rows: Seq<Seq<int>>) -> bool {
    let depth = rows.len() as int;
    &&& depth <= i64::MAX
    &&& (forall|i: nat| i < depth ==> #[trigger] fact(i) <= i64::MAX)
    &&& i64::MIN < rows[0][0] * common_den(rows.len()) <= i64::MAX
    &&& (forall|i: nat, k: int|
        i < depth - 1 && 0 <= k <= i ==> in_i64(#[trigger] stirling_row(i)[k]))
    &&& (forall|i: nat, k: int|
        1 <= i < depth - 1 && 0 <= k < i ==> in_i64(
            i * #[trigger] stirling_row((i - 1) as nat)[k],
        ))
    &&& (forall|j: int, i: int|
        0 <= i < depth - 1 && 1 <= j <= i + 1 ==> in_i64(#[trigger] cs_prod(rows, j, i)))
    &&& (forall|j: int, i: int|
        0 <= i < depth - 1 && 1 <= j <= i + 1 ==> in_i64(#[trigger] contribution(rows, j, i)))
    &&& (forall|j: int, m: nat|
        1 <= j < depth && m <= depth - 1 ==> i64::MIN < #[trigger] coeff_partial(rows, j, m)
            <= i64::MAX)
}

/// The reconstructed polynomial's numerator value at `x`: the sum of the
/// first `m` coefficient numerators times `x^j`. Dividing by the common
/// denominator gives the polynomial's value.
pub open spec fn poly_num_eval(rows: Seq<Seq<int>>, x: int, m: nat) -> int
    decreases m,
{
    if m == 0 {
        0
    } else {
        poly_num_eval(rows, x, (m - 1) as nat) + coeff_num(rows, m - 1) * pow_int(
            x,
            (m - 1) as nat,
        )
    }
}

/// The value contributed by basis row `i` to the first `m` coefficient
/// numerators, evaluated at `x`.
pub open spec fn contrib_eval(rows: Seq<Seq<int>>, x: int, i: int, m: nat) -> int
    decreases m,
{
    if m == 0 {
        0
    } else {
        contrib_eval(rows, x, i, (m - 1) as nat) + contribution(rows, m - 1, i) * pow_int(
            x,
            (m - 1) as nat,
        )
    }
}

/// The value of the first `m` partial coefficient numerators after `b`
/// basis rows, evaluated at `x`.
pub open spec fn partial_eval(rows: Seq<Seq<int>>, x: int, b: nat, m: nat) -> int
    decreases m,
{
    if m == 0 {
        0
    } else {
        partial_eval(rows, x, b, (m - 1) as nat) + coeff_partial(rows, m - 1, b) * pow_int(
            x,
            (m - 1) as nat,
        )
    }
}

/// Degree 0 collects no contribution from any basis row.
pub proof fn lemma_coeff_partial_degree0(rows: Seq<Seq<int>>, b: nat)
    ensures
        coeff_partial(rows, 0, b) == 0,
    decreases b,
{
    if b > 0 {
        lemma_coeff_partial_degree0(rows, (b - 1) as nat);
    }
}

/// The contribution of basis row `i` evaluates to a multiple of the
/// basis row's polynomial value.
pub proof fn lemma_contrib_eval(rows: Seq<Seq<int>>, x: int, i: int, m: nat)
    requires
        0 <= i,
        m <= i + 2,
    ensures
        contrib_eval(rows, x, i, m) == (rows[i + 1][0] * (common_den(rows.len()) / (fact(
            (i + 1) as nat,
        ) as int))) * st_eval(
            stirling_row(i as nat),
            x,
            (if m == 0 {
                0nat
            } else {
                (m - 1) as nat
            }),
        ),
    decreases m,
{
    reveal_with_fuel(contrib_eval, 3);
    reveal_with_fuel(crate::stirling::st_eval, 3);
    let c = rows[i + 1][0];
    let q = common_den(rows.len()) / (fact((i + 1) as nat) as int);
    let sti = stirling_row(i as nat);
    if m == 0 {
        assert((c * q) * 0 == 0) by (nonlinear_arith);
    } else if m == 1 {
        assert(contribution(rows, 0, i) == 0);
        assert((c * q) * 0 == 0) by (nonlinear_arith);
    } else {
        lemma_contrib_eval(rows, x, i, (m - 1) as nat);
        let p1 = pow_int(x, (m - 1) as nat);
        assert(contribution(rows, m - 1, i) == cs_prod(rows, m - 1, i) * q);
        assert(cs_prod(rows, m - 1, i) == c * sti[m - 2]);
        assert(st_eval(sti, x, (m - 1) as nat) == st_eval(sti, x, (m - 2) as nat) + sti[m - 2]
            * p1);
        assert((c * sti[m - 2] * q) * p1 == (c * q) * (sti[m - 2] * p1)) by (nonlinear_arith);
        assert((c * q) * (st_eval(sti, x, (m - 2) as nat) + sti[m - 2] * p1) == (c * q) * st_eval(
            sti,
            x,
            (m - 2) as nat,
        ) + (c * q) * (sti[m - 2] * p1)) by (nonlinear_arith);
    }
}

/// Contributions beyond the basis row's own degree are zero.
pub proof fn lemma_contrib_eval_tail(rows: Seq<Seq<int>>, x: int, i: int, m: nat)
    requires
        0 <= i,
        m >= i + 2,
    ensures
        contrib_eval(rows, x, i, m) == contrib_eval(rows, x, i, (i + 2) as nat),
    decreases m,
{
    if m > i + 2 {
        lemma_contrib_eval_tail(rows, x, i, (m - 1) as nat);
        assert(contribution(rows, m - 1, i) == 0);
    }
}

/// With no basis rows processed, every partial evaluation is zero.
pub proof fn lemma_partial_eval_zero(rows: Seq<Seq<int>>, x: int, m: nat)
    ensures
        partial_eval(rows, x, 0, m) == 0,
    decreases m,
{
    if m > 0 {
        lemma_partial_eval_zero(rows, x, (m - 1) as nat);
    }
}

/// Processing one more basis row adds that row's contribution value.
pub proof fn lemma_partial_eval_step(rows: Seq<Seq<int>>, x: int, b: nat, m: nat)
    ensures
        partial_eval(rows, x, (b + 1) as nat, m) == partial_eval(rows, x, b, m) + contrib_eval(
            rows,
            x,
            b as int,
            m,
        ),
    decreases m,
{
    if m > 0 {
        lemma_partial_eval_step(rows, x, b, (m - 1) as nat);
        let p1 = pow_int(x, (m - 1) as nat);
        assert(coeff_partial(rows, m - 1, (b + 1) as nat) == coeff_partial(rows, m - 1, b)
            + contribution(rows, m - 1, b as int));
        assert((coeff_partial(rows, m - 1, b) + contribution(rows, m - 1, b as int)) * p1
            == coeff_partial(rows, m - 1, b) * p1 + contribution(rows, m - 1, b as int) * p1)
            by (nonlinear_arith);
    }
}

/// After `b` basis rows the evaluated numerators equal the common
/// denominator times the binomial-weighted sum of rows `1 ..= b`.
pub proof fn lemma_partial_eval_scaled(s: Seq<int>, x: int, b: nat)
    requires
        x >= 0,
        s.len() >= 1,
        b <= table_depth(s) - 1,
    ensures
        partial_eval(table_rows(s), x, b, table_depth(s)) == common_den(table_depth(s)) * (
        binom_sum(s, x, (b + 1) as nat) - s[0]),
    decreases b,
{
    reveal_with_fuel(crate::eval::binom_sum, 3);
    let rows = table_rows(s);
    let d = table_depth(s);
    let dd = common_den(d);
    lemma_depth_pos(s);
    assert(rows.len() == d);
    if b == 0 {
        lemma_partial_eval_zero(rows, x, d);
        assert(binom(x, 0) == 1);
        assert(binom_sum(s, x, 1) == binom_sum(s, x, 0) + diff_k(s, 0)[0] * binom(x, 0));
        assert(diff_k(s, 0) == s);
        assert(binom_sum(s, x, 1) == s[0]);
        assert(dd * 0 == 0) by (nonlinear_arith);
    } else {
        let b1 = (b - 1) as nat;
        lemma_partial_eval_scaled(s, x, b1);
        lemma_partial_eval_step(rows, x, b1, d);
        // the contribution of basis row b-1 evaluates to c * q * ff(x, b)
        let c = rows[b as int][0];
        let p = fact(b) as int;
        let q = dd / p;
        if d > b + 1 {
            lemma_contrib_eval_tail(rows, x, b - 1, d);
        }
        lemma_contrib_eval(rows, x, b - 1, (b + 1) as nat);
        lemma_st_eval_ff(b1, x);
        assert(st_eval(stirling_row(b1), x, b) == falling_fact(x, b));
        assert(contrib_eval(rows, x, b - 1, d) == (c * q) * falling_fact(x, b));
        // q * b! recovers the common denominator, since b! divides (d-1)!
        lemma_fact_pos(b);
        lemma_fact_ratio(b, (d - 1) as nat);
        let r = fact_ratio(b, (d - 1) as nat);
        lemma_div_multiple(r, p);
        assert(q == r);
        // and ff(x, b) is binom(x, b) * b! for x >= 0
        lemma_ff_binom(x, b);
        assert((c * q) * (binom(x, b) * p) == (c * binom(x, b)) * (q * p)) by (nonlinear_arith);
        assert(q * p == dd) by (nonlinear_arith)
            requires
                q == r,
                r * p == dd,
        ;
        // fold the new term into the binomial-weighted sum
        assert(binom_sum(s, x, (b + 1) as nat) == binom_sum(s, x, b) + diff_k(s, b)[0] * binom(
            x,
            b,
        ));
        assert(rows[b as int] == diff_k(s, b));
        assert(dd * ((binom_sum(s, x, b) - s[0]) + diff_k(s, b)[0] * binom(x, b)) == dd * (
        binom_sum(s, x, b) - s[0]) + (diff_k(s, b)[0] * binom(x, b)) * dd) by (nonlinear_arith);
    }
}

/// The full evaluated numerator splits into the constant term and the
/// evaluated partial sums.
pub proof fn lemma_poly_vs_partial(rows: Seq<Seq<int>>, x: int, m: nat)
    requires
        rows.len() >= 1,
        m >= 1,
    ensures
        poly_num_eval(rows, x, m) == rows[0][0] * common_den(rows.len()) + partial_eval(
            rows,
            x,
            (rows.len() - 1) as nat,
            m,
        ),
    decreases m,
{
    reveal_with_fuel(poly_num_eval, 3);
    reveal_with_fuel(partial_eval, 3);
    let b = (rows.len() - 1) as nat;
    if m == 1 {
        lemma_coeff_partial_degree0(rows, b);
        assert(coeff_num(rows, 0) == rows[0][0] * common_den(rows.len()));
        assert(pow_int(x, 0) == 1);
    } else {
        lemma_poly_vs_partial(rows, x, (m - 1) as nat);
        assert(coeff_num(rows, m - 1) == coeff_partial(rows, m - 1, b));
    }
}

/// The round trip: evaluating the reconstructed power-basis polynomial at
/// any position `0 <= x < s.len()` reproduces the sequence entry exactly,
/// as rationals over the common denominator.
pub proof fn lemma_reconstruct_round_trip(s: Seq<int>, x: int)
    requires
        s.len() >= 1,
        0 <= x < s.len(),
    ensures
        poly_num_eval(table_rows(s), x, table_depth(s)) == s[x] * common_den(table_depth(s)),
{
    let rows = table_rows(s);
    let d = table_depth(s);
    let dd = common_den(d);
    lemma_depth_pos(s);
    assert(rows.len() == d);
    lemma_poly_vs_partial(rows, x, d);
    lemma_partial_eval_scaled(s, x, (d - 1) as nat);
    lemma_binom_sum_at_depth(s, x);
    assert(diff_k(s, 0) == s);
    assert(rows[0] == diff_k(s, 0));
    assert(s[0] * dd + dd * (s[x] - s[0]) == s[x] * dd) by (nonlinear_arith);
}

/// Reconstructs the power-basis coefficients of the polynomial behind a
/// difference table, ascending by degree, as exact rationals over the
/// common denominator `(depth - 1)!`.
pub fn reconstruct_coefficients(table: &Vec<Vec<i64>>) -> (r: Vec<Rational>)
    requires
        table@.len() >= 1,
        forall|k: int| 0 <= k < table@.len() ==> (#[trigger] table@[k])@.len() >= 1,
        reconstruct_fits(rows_of(table@)),
    ensures
        r@.len() == table@.len(),
        forall|j: int| 0 <= j < r@.len() ==> (#[trigger] r@[j]).den as int == common_den(
            table@.len() as nat,
        ),
        forall|j: int| 0 <= j < r@.len() ==> (#[trigger] r@[j]).num as int == coeff_num(
            rows_of(table@),
            j,
        ),
        forall|j: int| 0 <= j < r@.len() ==> rational_wf(#[trigger] r@[j]),
{
    let ghost rows = rows_of(table@);
    let depth = table.len();
    proof {
        assert(fact(((depth - 1) as usize) as nat) <= i64::MAX);
        lemma_fact_pos((depth - 1) as nat);
    }
    let dd = factorial((depth - 1) as i64);
    proof {
        assert(dd as int == common_den(depth as nat));
        assert(rows[0][0] == table@[0]@[0] as int);
    }
    let c0 = table[0][0];
    let mut nums: Vec<i64> = Vec::new();
    nums.push(c0 * dd);
    let mut j: usize = 1;
    while j < depth
        invariant
            1 <= j <= depth,
            nums@.len() == j,
            nums@[0] as int == coeff_num(rows, 0),
            rows == rows_of(table@),
            depth == table@.len(),
            dd as int == common_den(depth as nat),
            forall|t: int| 1 <= t < j ==> nums@[t] == 0,
        decreases depth - j,
    {
        nums.push(0);
        j = j + 1;
    }

    let st = stirling_first(depth - 1);
    let mut i: usize = 0;
    while i < depth - 1
        invariant
            0 <= i <= depth - 1,
            depth == table@.len(),
            depth >= 1,
            depth <= i64::MAX,
            rows == rows_of(table@),
            forall|k: int| 0 <= k < table@.len() ==> (#[trigger] table@[k])@.len() >= 1,
            reconstruct_fits(rows),
            dd as int == common_den(depth as nat),
            dd >= 1,
            st@.len() >= depth - 1,
            forall|t: int| 0 <= t < st@.len() ==> ints_of((#[trigger] st@[t])@) == stirling_row(
                t as nat,
            ),
            nums@.len() == depth,
            nums@[0] as int == coeff_num(rows, 0),
            forall|t: int| 1 <= t < depth ==> #[trigger] nums@[t] as int == coeff_partial(
                rows,
                t,
                i as nat,
            ),
        decreases depth - 1 - i,
    {
        let c = table[i + 1][0];
        proof {
            assert(c as int == rows[i + 1][0]);
            assert(fact(((i + 1) as usize) as nat) <= i64::MAX);
        }
        let p = factorial((i + 1) as i64);
        proof {
            assert(dd as int / p as int <= dd as int && dd as int / p as int >= 0)
                by (nonlinear_arith)
                requires
                    dd >= 1,
                    p >= 1,
            ;
        }
        let q = dd / p;
        proof {
            assert(q as int == common_den(depth as nat) / (fact((i + 1) as nat) as int));
        }
        let sti = &st[i];
        let sti_len = sti.len();
        proof {
            assert(ints_of(sti@) == stirling_row(i as nat));
            assert(sti_len == i + 1);
        }
        let mut k: usize = 0;
        while k < sti_len
            invariant
                0 <= k <= sti_len,
                sti_len == i + 1,
                0 <= i < depth - 1,
                depth == table@.len(),
                depth <= i64::MAX,
                rows == rows_of(table@),
                reconstruct_fits(rows),
                c as int == rows[i + 1][0],
                q as int == common_den(depth as nat) / (fact((i + 1) as nat) as int),
                sti@.len() == i + 1,
                ints_of(sti@) == stirling_row(i as nat),
                nums@.len() == depth,
                nums@[0] as int == coeff_num(rows, 0),
                forall|t: int| 1 <= t <= k ==> #[trigger] nums@[t] as int == coeff_partial(
                    rows,
                    t,
                    (i + 1) as nat,
                ),
                forall|t: int| k < t < depth ==> #[trigger] nums@[t] as int == coeff_partial(
                    rows,
                    t,
                    i as nat,
                ),
            decreases sti_len - k,
        {
            let ghost jj = (k + 1) as int;
            proof {
                assert(sti@[k as int] as int == stirling_row(i as nat)[k as int]);
                assert(cs_prod(rows, jj, i as int) == rows[i + 1][0] * stirling_row(i as nat)[
                    jj - 1]);
                assert(in_i64(cs_prod(rows, jj, i as int)));
                assert(in_i64(contribution(rows, jj, i as int)));
                assert(i64::MIN < coeff_partial(rows, jj, (i + 1) as nat) <= i64::MAX);
                assert(coeff_partial(rows, jj, (i + 1) as nat) == coeff_partial(rows, jj, i as nat)
                    + contribution(rows, jj, i as int));
            }
            let prod = c * sti[k];
            let add = prod * q;
            proof {
                assert(prod as int == cs_prod(rows, jj, i as int));
                assert(add as int == contribution(rows, jj, i as int));
            }
            let old_v = nums[k + 1];
            nums[k + 1] = old_v + add;
            proof {
                assert(forall|t: int| 1 <= t <= k ==> #[trigger] nums@[t] as int == coeff_partial(
                    rows,
                    t,
                    (i + 1) as nat,
                ));
            }
            k = k + 1;
        }
        proof {
            // coefficients above the processed basis row get no contribution
            assert forall|t: int| 1 <= t < depth implies #[trigger] nums@[t] as int
                == coeff_partial(rows, t, (i + 1) as nat) by {
                if t > i + 1 {
                    assert(contribution(rows, t, i as int) == 0);
                    assert(coeff_partial(rows, t, (i + 1) as nat) == coeff_partial(
                        rows,
                        t,
                        i as nat,
                    ));
                }
            }
        }
        i = i + 1;
    }

    let mut out: Vec<Rational> = Vec::new();
    let mut t: usize = 0;
    while t < depth
        invariant
            0 <= t <= depth,
            depth == table@.len(),
            rows == rows_of(table@),
            reconstruct_fits(rows),
            dd as int == common_den(depth as nat),
            dd >= 1,
            nums@.len() == depth,
            nums@[0] as int == coeff_num(rows, 0),
            forall|u: int| 1 <= u < depth ==> #[trigger] nums@[u] as int == coeff_partial(
                rows,
                u,
                (depth - 1) as nat,
            ),
            out@.len() == t,
            forall|u: int| 0 <= u < t ==> (#[trigger] out@[u]).num as int == coeff_num(rows, u)
                && out@[u].den as int == common_den(depth as nat) && rational_wf(out@[u]),
        decreases depth - t,
    {
        proof {
            if t >= 1 {
                assert(coeff_num(rows, t as int) == coeff_partial(rows, t as int, (depth
                    - 1) as nat));
            }
        }
        out.push(Rational { num: nums[t], den: dd });
        t = t + 1;
    }
    out
}

} // verus!

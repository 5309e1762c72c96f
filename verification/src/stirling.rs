//! The basis-conversion table: row `i` holds the power-basis coefficients
//! (ascending degree, the zero constant term omitted) of the falling-factorial
//! polynomial `x (x-1) (x-2) ... (x-i)`; its entries are the signed Stirling
//! numbers of the first kind.
use vstd::prelude::*;
use crate::arith::pow_int;
use crate::arith::{in_i64, falling_fact};
use crate::table::ints_of;

verus! {

/// Row `i` of the basis-conversion table; it has `i + 1` entries and is
/// derived from row `i - 1` by prepending a zero and subtracting `i` times
/// row `i - 1` entrywise.
pub open spec fn stirling_row(i: nat) -> Seq<int>
    decreases i,
{
    if i == 0 {
        seq![1int]
    } else {
        let prev = stirling_row((i - 1) as nat);
        Seq::new(
            i + 1,
            |k: int|
                (if k == 0 {
                    0int
                } else {
                    prev[k - 1]
                }) - i * (if k < i {
                    prev[k]
                } else {
                    0int
                }),
        )
    }
}

/// The polynomial a basis row stands for, evaluated at `x`: the sum of its
/// first `m` entries times `x^(k+1)` (the constant term is implicitly 0).
pub open spec fn st_eval(row: Seq<int>, x: int, m: nat) -> int
    decreases m,
{
    if m == 0 {
        0
    } else {
        st_eval(row, x, (m - 1) as nat) + row[m - 1] * pow_int(x, m)
    }
}

/// Splitting a basis row by its recurrence: its partial evaluation is `x`
/// times the previous row's shifted evaluation minus `i` times the
/// previous row's evaluation.
pub proof fn lemma_st_eval_split(i: nat, x: int, m: nat)
    requires
        1 <= i,
        m <= i + 1,
    ensures
        st_eval(stirling_row(i), x, m) == x * st_eval(
            stirling_row((i - 1) as nat),
            x,
            (if m == 0 {
                0nat
            } else {
                (m - 1) as nat
            }),
        ) - i * st_eval(
            stirling_row((i - 1) as nat),
            x,
            (if m <= i {
                m
            } else {
                i
            }),
        ),
    decreases m,
{
    reveal_with_fuel(st_eval, 3);
    let prev = stirling_row((i - 1) as nat);
    let row = stirling_row(i);
    if m == 0 {
        assert(x * 0 == 0) by (nonlinear_arith);
        assert(i * 0 == 0) by (nonlinear_arith);
    } else if m == 1 {
        assert(row[0] == 0 - i * prev[0]);
        assert(st_eval(row, x, 1) == row[0] * pow_int(x, 1));
        assert(st_eval(prev, x, 1) == prev[0] * pow_int(x, 1));
        assert(x * st_eval(prev, x, 0) == 0) by (nonlinear_arith)
            requires
                st_eval(prev, x, 0) == 0,
        ;
        assert((0 - i * prev[0]) * pow_int(x, 1) == 0 - i * (prev[0] * pow_int(x, 1)))
            by (nonlinear_arith);
    } else {
        lemma_st_eval_split(i, x, (m - 1) as nat);
        let p1 = pow_int(x, (m - 1) as nat);
        let pm = pow_int(x, m);
        assert(pm == x * p1);
        let a = prev[m - 2];
        assert(st_eval(prev, x, (m - 1) as nat) == st_eval(prev, x, (m - 2) as nat) + a * p1);
        if m <= i {
            // both the shifted and the subtracted part gain a term
            let b = prev[m - 1];
            assert(row[m - 1] == a - i * b);
            assert(st_eval(prev, x, m) == st_eval(prev, x, (m - 1) as nat) + b * pm);
            assert(x * (st_eval(prev, x, (m - 2) as nat) + a * p1) == x * st_eval(
                prev,
                x,
                (m - 2) as nat,
            ) + a * pm) by (nonlinear_arith)
                requires
                    pm == x * p1,
            ;
            assert(i * (st_eval(prev, x, (m - 1) as nat) + b * pm) == i * st_eval(
                prev,
                x,
                (m - 1) as nat,
            ) + i * (b * pm)) by (nonlinear_arith);
            assert((a - i * b) * pm == a * pm - i * (b * pm)) by (nonlinear_arith);
        } else {
            // m == i + 1: the subtracted part is already complete
            assert(m == i + 1);
            assert(row[m - 1] == a);
            assert(x * (st_eval(prev, x, (m - 2) as nat) + a * p1) == x * st_eval(
                prev,
                x,
                (m - 2) as nat,
            ) + a * pm) by (nonlinear_arith)
                requires
                    pm == x * p1,
            ;
        }
    }
}

/// Basis row `i` evaluates to the falling factorial `x (x-1) ... (x-i)`:
/// the correctness of the triangular recurrence.
pub proof fn lemma_st_eval_ff(i: nat, x: int)
    ensures
        st_eval(stirling_row(i), x, (i + 1) as nat) == falling_fact(x, (i + 1) as nat),
    decreases i,
{
    if i == 0 {
        reveal_with_fuel(st_eval, 3);
        assert(pow_int(x, 0) == 1);
        assert(pow_int(x, 1) == x * pow_int(x, 0));
        assert(stirling_row(0)[0] == 1);
        assert(st_eval(stirling_row(0), x, 1) == stirling_row(0)[0] * pow_int(x, 1));
        assert(falling_fact(x, 1) == falling_fact(x, 0) * (x - 0));
    } else {
        let prev = stirling_row((i - 1) as nat);
        lemma_st_eval_ff((i - 1) as nat, x);
        lemma_st_eval_split(i, x, (i + 1) as nat);
        assert(st_eval(stirling_row(i), x, (i + 1) as nat) == x * st_eval(prev, x, i) - i
            * st_eval(prev, x, i));
        assert(falling_fact(x, (i + 1) as nat) == falling_fact(x, i) * (x - i));
        assert(x * falling_fact(x, i) - i * falling_fact(x, i) == falling_fact(x, i) * (x - i))
            by (nonlinear_arith);
    }
}

/// Returns the first `n` rows of the signed Stirling numbers of the first
/// kind (one row, `[1]`, when `n` is 0), each row in ascending degree order
/// with the zero constant term skipped.
pub fn stirling_first(n: usize) -> (r: Vec<Vec<i64>>)
    requires
        n <= i64::MAX,
        forall|i: nat, k: int|
            i < n && 0 <= k <= i ==> in_i64(#[trigger] stirling_row(i)[k]),
        forall|i: nat, k: int|
            1 <= i < n && 0 <= k < i ==> in_i64(i * #[trigger] stirling_row((i - 1) as nat)[k]),
    ensures
        r@.len() == if n == 0 {
            1int
        } else {
            n as int
        },
        forall|i: int| 0 <= i < r@.len() ==> ints_of((#[trigger] r@[i])@) == stirling_row(i as nat),
{
    let mut rows: Vec<Vec<i64>> = Vec::new();
    let mut first: Vec<i64> = Vec::new();
    first.push(1);
    proof {
        assert(ints_of(first@) =~= stirling_row(0));
    }
    rows.push(first);

    let mut i: usize = 1;
    while i < n
        invariant
            1 <= i,
            n == 0 ==> i == 1,
            n == 0 || i <= n,
            n <= i64::MAX,
            rows@.len() == i,
            forall|j: int| 0 <= j < i ==> ints_of((#[trigger] rows@[j])@) == stirling_row(j as nat),
            forall|j: nat, k: int|
                j < n && 0 <= k <= j ==> in_i64(#[trigger] stirling_row(j)[k]),
            forall|j: nat, k: int|
                1 <= j < n && 0 <= k < j ==> in_i64(
                    j * #[trigger] stirling_row((j - 1) as nat)[k],
                ),
        decreases n - i,
    {
        let ghost cur = stirling_row(i as nat);
        let ghost prev_s = stirling_row((i - 1) as nat);
        let prev_len = rows[i - 1].len();
        proof {
            assert(ints_of(rows@[i - 1]@) == prev_s);
            assert(prev_len == prev_s.len());
            assert(prev_s.len() == i);
        }
        let ii = i as i64;
        let mut row: Vec<i64> = Vec::new();
        let mut k: usize = 0;
        while k < prev_len + 1
            invariant
                0 <= k <= prev_len + 1,
                1 <= i < n,
                n <= i64::MAX,
                ii == i,
                i < rows@.len() + 1,
                rows@.len() == i,
                prev_len == i,
                prev_s == stirling_row((i - 1) as nat),
                cur == stirling_row(i as nat),
                ints_of(rows@[i - 1]@) == prev_s,
                rows@[i - 1]@.len() == prev_len,
                row@.len() == k,
                forall|t: int| 0 <= t < k ==> #[trigger] row@[t] as int == cur[t],
                forall|j: nat, kk: int|
                    j < n && 0 <= kk <= j ==> in_i64(#[trigger] stirling_row(j)[kk]),
                forall|j: nat, kk: int|
                    1 <= j < n && 0 <= kk < j ==> in_i64(
                        j * #[trigger] stirling_row((j - 1) as nat)[kk],
                    ),
            decreases prev_len + 1 - k,
        {
            let a: i64 = if k == 0 {
                0
            } else {
                rows[i - 1][k - 1]
            };
            let b: i64 = if k < prev_len {
                rows[i - 1][k]
            } else {
                0
            };
            proof {
                assert(a as int == (if k == 0 {
                    0int
                } else {
                    prev_s[k - 1]
                }));
                assert(b as int == (if k < i {
                    prev_s[k as int]
                } else {
                    0int
                }));
                if k < prev_len {
                    assert(in_i64((i as nat) * stirling_row((i - 1) as nat)[k as int]));
                    assert(ii * b == (i as nat) * prev_s[k as int]);
                } else {
                    assert(ii * b == 0) by (nonlinear_arith)
                        requires
                            b == 0,
                    ;
                }
                assert(cur[k as int] == a - ii * b);
                assert(in_i64(cur[k as int]));
            }
            row.push(a - ii * b);
            k = k + 1;
        }
        proof {
            assert(ints_of(row@) =~= cur);
        }
        rows.push(row);
        i = i + 1;
    }
    rows
}

} // verus!

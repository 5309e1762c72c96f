//! Integer arithmetic underlying the reconstruction pipeline: factorials,
//! falling factorials, binomial coefficients, truncating division and gcd.
use vstd::prelude::*;

verus! {

/// The value fits in an `i64`.
pub open spec fn in_i64(x: int) -> bool {
    i64::MIN <= x <= i64::MAX
}

/// `k!`
pub open spec fn fact(k: nat) -> nat
    decreases k,
{
    if k == 0 {
        1
    } else {
        k * fact((k - 1) as nat)
    }
}

/// The falling factorial `x (x-1) (x-2) ... (x-k+1)`; `1` for `k == 0`.
pub open spec fn falling_fact(x: int, k: nat) -> int
    decreases k,
{
    if k == 0 {
        1
    } else {
        falling_fact(x, (k - 1) as nat) * (x - (k - 1))
    }
}

/// Binomial coefficient `C(x, k)` for `x >= 0`, by Pascal's rule.
pub open spec fn binom(x: int, k: nat) -> int
    decreases x, k,
{
    if x < 0 {
        0
    } else if k == 0 {
        1
    } else if x == 0 {
        0
    } else {
        binom(x - 1, k) + binom(x - 1, (k - 1) as nat)
    }
}

/// Division that truncates toward zero, as Rust's `/` does; exact for `b > 0`
/// whenever `b` divides `a`.
pub open spec fn trunc_div(a: int, b: int) -> int {
    if a >= 0 {
        a / b
    } else {
        -((-a) / b)
    }
}

/// Greatest common divisor by Euclid's algorithm.
pub open spec fn gcd(a: nat, b: nat) -> nat
    decreases b,
{
    if b == 0 {
        a
    } else {
        gcd(b, a % b)
    }
}

/// A factorial is always at least 1.
pub proof fn lemma_fact_pos(k: nat)
    ensures
        fact(k) >= 1,
    decreases k,
{
    if k > 0 {
        lemma_fact_pos((k - 1) as nat);
        assert(fact(k) == k * fact((k - 1) as nat));
        assert(k * fact((k - 1) as nat) >= 1) by (nonlinear_arith)
            requires
                k >= 1,
                fact((k - 1) as nat) >= 1,
        ;
    }
}

/// The gcd of two numbers that are not both zero is at least 1.
pub proof fn lemma_gcd_pos(a: nat, b: nat)
    requires
        a >= 1 || b >= 1,
    ensures
        gcd(a, b) >= 1,
    decreases b,
{
    if b != 0 {
        lemma_gcd_pos(b, a % b);
    }
}

/// Peeling the first factor instead of the last:
/// `x (x-1) ... (x-k+1) == x * ((x-1) (x-2) ... (x-1-(k-2)))`.
pub proof fn lemma_ff_shift(x: int, k: nat)
    requires
        k >= 1,
    ensures
        falling_fact(x, k) == x * falling_fact(x - 1, (k - 1) as nat),
    decreases k,
{
    if k == 1 {
        assert(falling_fact(x, 1) == falling_fact(x, 0) * x);
    } else {
        lemma_ff_shift(x, (k - 1) as nat);
        let km1 = (k - 1) as nat;
        let km2 = (k - 2) as nat;
        assert(falling_fact(x, k) == falling_fact(x, km1) * (x - (k - 1)));
        assert(falling_fact(x - 1, km1) == falling_fact(x - 1, km2) * (x - (k - 1)));
        assert((x * falling_fact(x - 1, km2)) * (x - (k - 1)) == x * (falling_fact(
            x - 1,
            km2,
        ) * (x - (k - 1)))) by (nonlinear_arith);
    }
}

/// The addition rule for falling factorials, the analogue of Pascal's rule.
pub proof fn lemma_ff_pascal(x: int, k: nat)
    requires
        k >= 1,
    ensures
        falling_fact(x, k) == falling_fact(x - 1, k) + k * falling_fact(x - 1, (k - 1) as nat),
{
    let km1 = (k - 1) as nat;
    lemma_ff_shift(x, k);
    assert(falling_fact(x - 1, k) == falling_fact(x - 1, km1) * ((x - 1) - (k - 1)));
    assert(falling_fact(x - 1, km1) * (x - k) + k * falling_fact(x - 1, km1) == x * falling_fact(
        x - 1,
        km1,
    )) by (nonlinear_arith);
}

/// For `x >= 0` the falling factorial is the binomial times the factorial.
pub proof fn lemma_ff_binom(x: int, k: nat)
    requires
        x >= 0,
    ensures
        falling_fact(x, k) == binom(x, k) * fact(k),
    decreases x, k,
{
    if k == 0 {
    } else if x == 0 {
        lemma_ff_binom(x, (k - 1) as nat);
        assert(falling_fact(0, k) == falling_fact(0, (k - 1) as nat) * (0 - (k - 1)));
        if k == 1 {
        } else {
            // some factor of falling_fact(0, k) is zero; show it is zero by induction
            lemma_ff_zero_at_zero(k);
        }
        assert(binom(0, k) == 0);
    } else {
        let km1 = (k - 1) as nat;
        lemma_ff_pascal(x, k);
        lemma_ff_binom(x - 1, k);
        lemma_ff_binom(x - 1, km1);
        assert(fact(k) == k * fact(km1));
        assert(binom(x, k) == binom(x - 1, k) + binom(x - 1, km1));
        let a = binom(x - 1, k);
        let b = binom(x - 1, km1);
        let f = fact(km1) as int;
        assert(a * (k * f) + k * (b * f) == (a + b) * (k * f)) by (nonlinear_arith);
    }
}

/// `falling_fact(0, k) == 0` for `k >= 1`.
pub proof fn lemma_ff_zero_at_zero(k: nat)
    requires
        k >= 1,
    ensures
        falling_fact(0, k) == 0,
    decreases k,
{
    assert(falling_fact(0, k) == falling_fact(0, (k - 1) as nat) * (0 - (k - 1)));
    if k == 1 {
        assert(falling_fact(0, 0) == 1);
    } else {
        lemma_ff_zero_at_zero((k - 1) as nat);
    }
}

/// `C(x, k) == 0` when `0 <= x < k`.
pub proof fn lemma_binom_above(x: int, k: nat)
    requires
        0 <= x < k,
    ensures
        binom(x, k) == 0,
    decreases x,
{
    if x > 0 {
        lemma_binom_above(x - 1, k);
        lemma_binom_above(x - 1, (k - 1) as nat);
    }
}

/// Truncating division is exact on exact multiples of a positive divisor.
pub proof fn lemma_trunc_div_exact(q: int, b: int)
    requires
        b > 0,
    ensures
        trunc_div(q * b, b) == q,
{
    if q >= 0 {
        assert(q * b >= 0) by (nonlinear_arith)
            requires
                q >= 0,
                b > 0,
        ;
        assert((q * b) / b == q) by (nonlinear_arith)
            requires
                b > 0,
        ;
    } else {
        assert(q * b < 0) by (nonlinear_arith)
            requires
                q < 0,
                b > 0,
        ;
        assert(-(q * b) == (-q) * b) by (nonlinear_arith);
        assert(((-q) * b) / b == -q) by (nonlinear_arith)
            requires
                b > 0,
        ;
    }
}

/// `b` to the power `e`.
pub open spec fn pow_int(b: int, e: nat) -> int
    decreases e,
{
    if e == 0 {
        1
    } else {
        b * pow_int(b, (e - 1) as nat)
    }
}

/// The product of the integers `a+1 ..= b`; `1` when `b <= a`.
pub open spec fn fact_ratio(a: nat, b: nat) -> int
    decreases b,
{
    if b <= a {
        1
    } else {
        b * fact_ratio(a, (b - 1) as nat)
    }
}

/// `fact(b) == fact_ratio(a, b) * fact(a)` for `a <= b`: one factorial
/// divides another.
pub proof fn lemma_fact_ratio(a: nat, b: nat)
    requires
        a <= b,
    ensures
        fact_ratio(a, b) * fact(a) == fact(b),
        fact_ratio(a, b) >= 1,
    decreases b,
{
    if b > a {
        lemma_fact_ratio(a, (b - 1) as nat);
        let r = fact_ratio(a, (b - 1) as nat);
        let fa = fact(a) as int;
        assert(fact(b) == b * fact((b - 1) as nat));
        assert((b * r) * fa == b * (r * fa)) by (nonlinear_arith);
        assert(b * r >= 1) by (nonlinear_arith)
            requires
                b >= 1,
                r >= 1,
        ;
    }
}

/// Dividing an exact multiple of a positive `b` by `b` recovers the factor.
pub proof fn lemma_div_multiple(q: int, b: int)
    requires
        b >= 1,
    ensures
        (q * b) / b == q,
{
    assert((q * b) / b == q) by (nonlinear_arith)
        requires
            b >= 1,
    ;
}

/// Computes the falling factorial `n (n-1) ... (n-k+1)`.
pub fn falling_factorial(n: i64, k: i64) -> (r: i64)
    requires
        k >= 0,
        k == 0 || n as int - (k - 1) >= i64::MIN,
        forall|i: nat| i <= k ==> in_i64(#[trigger] falling_fact(n as int, i)),
    ensures
        r == falling_fact(n as int, k as nat),
{
    let mut ret: i64 = 1;
    let mut i: i64 = 0;
    while i < k
        invariant
            0 <= i <= k,
            ret == falling_fact(n as int, i as nat),
            k == 0 || n as int - (k - 1) >= i64::MIN,
            forall|j: nat| j <= k ==> in_i64(#[trigger] falling_fact(n as int, j)),
        decreases k - i,
    {
        proof {
            assert(falling_fact(n as int, (i + 1) as nat) == falling_fact(n as int, i as nat) * (
            n - i));
        }
        ret = ret * (n - i);
        i = i + 1;
    }
    ret
}

/// Computes `k!`.
pub fn factorial(k: i64) -> (r: i64)
    requires
        k >= 0,
        forall|i: nat| i <= k ==> #[trigger] fact(i) <= i64::MAX,
    ensures
        r == fact(k as nat),
        r >= 1,
{
    let mut ret: i64 = 1;
    let mut i: i64 = 0;
    proof {
        lemma_fact_pos(k as nat);
    }
    while i < k
        invariant
            0 <= i <= k,
            ret == fact(i as nat),
            ret >= 1,
            forall|j: nat| j <= k ==> #[trigger] fact(j) <= i64::MAX,
        decreases k - i,
    {
        proof {
            let ii = i as nat;
            assert(fact((ii + 1) as nat) == (ii + 1) * fact(ii));
            lemma_fact_pos((ii + 1) as nat);
            assert(ret * (ii + 1) == fact((ii + 1) as nat)) by (nonlinear_arith)
                requires
                    ret == fact(ii),
                    fact((ii + 1) as nat) == (ii + 1) * fact(ii),
            ;
        }
        ret = ret * (i + 1);
        i = i + 1;
    }
    ret
}

/// Computes `gcd(a, b)` for `a >= 0`, `b >= 1`.
pub fn gcd_i64(a: i64, b: i64) -> (r: i64)
    requires
        a >= 0,
        b >= 1,
    ensures
        r == gcd(a as nat, b as nat),
        1 <= r <= b,
{
    proof {
        lemma_gcd_pos(a as nat, b as nat);
        lemma_gcd_bound(a as nat, b as nat);
    }
    let mut x: i64 = a;
    let mut y: i64 = b;
    while y != 0
        invariant
            x >= 0,
            y >= 0,
            gcd(x as nat, y as nat) == gcd(a as nat, b as nat),
        decreases y,
    {
        let t: i64 = x % y;
        x = y;
        y = t;
    }
    x
}

/// `gcd(a, b) <= b` when `b >= 1`.
pub proof fn lemma_gcd_bound(a: nat, b: nat)
    requires
        b >= 1,
    ensures
        gcd(a, b) <= b,
    decreases b,
{
    if a % b == 0 {
        assert(gcd(a, b) == gcd(b, 0));
    } else {
        lemma_gcd_bound(b, a % b);
        assert(a % b < b);
    }
}

} // verus!


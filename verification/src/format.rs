//! Rendering of the reconstructed polynomial: terms in descending degree,
//! zero coefficients omitted, signs spaced between terms, a coefficient of
//! magnitude 1 hidden in front of `x`, and `x^d` only from degree 2 up.
//! Non-integer coefficients are rendered as reduced fractions.
use vstd::prelude::*;
use vstd::string::StringExecFns;
use crate::arith::gcd;
use crate::arith::gcd_i64;
use crate::coeffs::Rational;
use crate::coeffs::rational_wf;

verus! {

/// The decimal digit character for `0 <= d <= 9`.
pub open spec fn digit_char(d: int) -> char {
    if d == 0 {
        '0'
    } else if d == 1 {
        '1'
    } else if d == 2 {
        '2'
    } else if d == 3 {
        '3'
    } else if d == 4 {
        '4'
    } else if d == 5 {
        '5'
    } else if d == 6 {
        '6'
    } else if d == 7 {
        '7'
    } else if d == 8 {
        '8'
    } else {
        '9'
    }
}

/// The decimal rendering of a non-negative integer.
pub open spec fn dec_nat(n: int) -> Seq<char>
    decreases n,
{
    if n < 10 {
        seq![digit_char(n)]
    } else {
        dec_nat(n / 10).push(digit_char(n % 10))
    }
}

/// The decimal rendering of an integer, with a leading `-` when negative.
pub open spec fn dec_int(n: int) -> Seq<char> {
    if n < 0 {
        seq!['-'] + dec_nat(-n)
    } else {
        dec_nat(n)
    }
}

/// The sign that precedes a term: bare `-` on the leading term, spaced
/// ` - ` or ` + ` on the others, nothing before a leading positive term.
pub open spec fn spec_sign(negative: bool, first: bool) -> Seq<char> {
    if negative {
        if first {
            seq!['-']
        } else {
            seq![' ', '-', ' ']
        }
    } else {
        if first {
            Seq::empty()
        } else {
            seq![' ', '+', ' ']
        }
    }
}

/// The numeral for the magnitude `mag / den`: a plain integer when the
/// division is exact, otherwise the fraction in lowest terms.
pub open spec fn spec_numeral(mag: int, den: int) -> Seq<char> {
    if mag % den == 0 {
        dec_nat(mag / den)
    } else {
        let g = gcd(mag as nat, den as nat) as int;
        dec_nat(mag / g) + seq!['/'] + dec_nat(den / g)
    }
}

/// The power part of a term: nothing at degree 0, `x` at degree 1,
/// `x^d` above.
pub open spec fn spec_power(deg: nat) -> Seq<char> {
    if deg == 0 {
        Seq::empty()
    } else if deg == 1 {
        seq!['x']
    } else {
        seq!['x', '^'] + dec_nat(deg as int)
    }
}

/// One rendered term of the polynomial; empty for a zero coefficient, and
/// the numeral hidden when its magnitude is 1 at degree 1 or above.
pub open spec fn spec_term(deg: nat, c: Rational, first: bool) -> Seq<char> {
    if c.num == 0 {
        Seq::empty()
    } else {
        let mag = if c.num < 0 {
            -(c.num as int)
        } else {
            c.num as int
        };
        spec_sign(c.num < 0, first) + (if mag == c.den && deg != 0 {
            Seq::empty()
        } else {
            spec_numeral(mag, c.den as int)
        }) + spec_power(deg)
    }
}

/// The rendered polynomial from degree `d` downward; `first` says whether
/// no term has been emitted yet.
pub open spec fn spec_format_from(cs: Seq<Rational>, d: int, first: bool) -> Seq<char>
    decreases d + 1,
{
    if d < 0 {
        Seq::empty()
    } else if cs[d].num == 0 {
        spec_format_from(cs, d - 1, first)
    } else {
        spec_term(d as nat, cs[d], first) + spec_format_from(cs, d - 1, false)
    }
}

/// The rendered polynomial, terms in descending degree; the empty string
/// when every coefficient is zero.
pub open spec fn spec_format(cs: Seq<Rational>) -> Seq<char> {
    spec_format_from(cs, cs.len() - 1, true)
}

/// Relies on `i64`'s `Display` implementation: `to_string` renders the
/// value in decimal with a leading `-` when it is negative.
#[verifier::external_body]
pub fn i64_to_string(n: i64) -> (r: String)
    ensures
        r@ == dec_int(n as int),
{
    n.to_string()
}

/// Renders one term `c * x^deg`: the sign first (spaced unless the term
/// leads), then the numeral unless its
/// magnitude is exactly 1 at degree 1 or above, then the power of `x`.
pub fn x_to_the_power_of(deg: usize, c: Rational, first: bool) -> (s: String)
    requires
        rational_wf(c),
        deg <= i64::MAX,
    ensures
        s@ == spec_term(deg as nat, c, first),
{
    let mut s = String::new();
    if c.num == 0 {
        return s;
    }
    let negative = c.num < 0;
    if negative {
        if first {
            s.append("-");
            proof {
                reveal_strlit("-");
                assert(s@ =~= spec_sign(true, true));
            }
        } else {
            s.append(" - ");
            proof {
                reveal_strlit(" - ");
                assert(s@ =~= spec_sign(true, false));
            }
        }
    } else if !first {
        s.append(" + ");
        proof {
            reveal_strlit(" + ");
            assert(s@ =~= spec_sign(false, false));
        }
    }
    proof {
        assert(s@ =~= spec_sign(negative, first));
    }
    let ghost sign_part = s@;
    let mag = if c.num < 0 {
        -c.num
    } else {
        c.num
    };
    let ghost numeral_part: Seq<char> = if mag as int == c.den && deg != 0 {
        Seq::empty()
    } else {
        spec_numeral(mag as int, c.den as int)
    };
    if !(mag == c.den && deg != 0) {
        proof {
            assert(mag as int % c.den as int >= 0 && mag as int / c.den as int >= 0 && mag as int
                / c.den as int <= mag as int) by (nonlinear_arith)
                requires
                    mag >= 0,
                    c.den >= 1,
            ;
        }
        if mag % c.den == 0 {
            let word = i64_to_string(mag / c.den);
            s.append(word.as_str());
        } else {
            let g = gcd_i64(mag, c.den);
            proof {
                assert(mag as int / g as int >= 0 && mag as int / g as int <= mag as int && c.den
                    as int / g as int >= 0 && c.den as int / g as int <= c.den as int)
                    by (nonlinear_arith)
                    requires
                        mag >= 0,
                        c.den >= 1,
                        g >= 1,
                ;
            }
            let w1 = i64_to_string(mag / g);
            s.append(w1.as_str());
            s.append("/");
            let w2 = i64_to_string(c.den / g);
            s.append(w2.as_str());
            proof {
                reveal_strlit("/");
                assert(s@ =~= sign_part + numeral_part);
            }
        }
    }
    proof {
        assert(s@ =~= sign_part + numeral_part);
    }
    if deg == 0 {
        proof {
            assert(s@ =~= spec_term(deg as nat, c, first));
        }
        return s;
    }
    s.append("x");
    if deg > 1 {
        s.append("^");
        let word = i64_to_string(deg as i64);
        s.append(word.as_str());
        proof {
            reveal_strlit("x");
            reveal_strlit("^");
            assert(dec_int(deg as i64 as int) == dec_nat(deg as int));
            assert(s@ =~= sign_part + numeral_part + spec_power(deg as nat));
        }
    } else {
        proof {
            reveal_strlit("x");
            assert(s@ =~= sign_part + numeral_part + spec_power(deg as nat));
        }
    }
    proof {
        assert(s@ =~= spec_term(deg as nat, c, first));
    }
    s
}

/// Renders the whole coefficient list as a polynomial in descending
/// degree, omitting zero terms; all coefficients zero yield the empty
/// string.
pub fn format_polynomial(coefficients: &Vec<Rational>) -> (s: String)
    requires
        coefficients@.len() <= i64::MAX,
        forall|j: int| 0 <= j < coefficients@.len() ==> rational_wf(#[trigger] coefficients@[j]),
    ensures
        s@ == spec_format(coefficients@),
{
    let ghost cs = coefficients@;
    let mut s = String::new();
    let mut first = true;
    let mut d = coefficients.len();
    while d > 0
        invariant
            0 <= d <= coefficients@.len(),
            cs == coefficients@,
            coefficients@.len() <= i64::MAX,
            forall|j: int| 0 <= j < coefficients@.len() ==> rational_wf(
                #[trigger] coefficients@[j],
            ),
            s@ + spec_format_from(cs, d - 1, first) == spec_format(cs),
        decreases d,
    {
        let idx = d - 1;
        let c = coefficients[idx];
        if c.num != 0 {
            let t = x_to_the_power_of(idx, c, first);
            proof {
                assert(spec_format_from(cs, idx as int, first) == spec_term(idx as nat, c, first)
                    + spec_format_from(cs, idx as int - 1, false));
                assert((s@ + t@) + spec_format_from(cs, idx as int - 1, false) =~= s@ + (t@
                    + spec_format_from(cs, idx as int - 1, false)));
            }
            s.append(t.as_str());
            first = false;
        }
        d = d - 1;
    }
    proof {
        assert(spec_format_from(cs, -1, first) == Seq::<char>::empty());
        assert(s@ + Seq::<char>::empty() =~= s@);
    }
    s
}

} // verus!

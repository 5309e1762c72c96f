//! Rendering of the difference table for display: one line per row, each
//! row indented by two spaces per depth, every value left-padded to width
//! 3, values separated by single spaces, and a trailing space.
use vstd::prelude::*;
use vstd::string::StringExecFns;
use crate::format::{dec_nat, dec_int, digit_char, i64_to_string};
use crate::table::ints_of;

verus! {

/// `s` left-padded with spaces to width `w` (unchanged when already as
/// wide).
pub open spec fn spec_leftpad(s: Seq<char>, w: int) -> Seq<char> {
    if s.len() >= w {
        s
    } else {
        Seq::new((w - s.len()) as nat, |j: int| ' ') + s
    }
}

/// The first `m` values of a row, each left-padded to width 3, joined by
/// single spaces.
pub open spec fn spec_row_body(row: Seq<int>, m: int) -> Seq<char>
    decreases m,
{
    if m <= 0 {
        Seq::empty()
    } else if m == 1 {
        spec_leftpad(dec_int(row[0]), 3)
    } else {
        spec_row_body(row, m - 1) + seq![' '] + spec_leftpad(dec_int(row[m - 1]), 3)
    }
}

/// `2 * i` spaces of indentation.
pub open spec fn spec_indent(i: int) -> Seq<char> {
    Seq::new(if i >= 0 {
        (2 * i) as nat
    } else {
        0
    }, |j: int| ' ')
}

/// One printed line of the table: indentation, the padded values, and a
/// trailing space.
pub open spec fn spec_rank_line(row: Seq<int>, i: int) -> Seq<char> {
    spec_indent(i) + spec_row_body(row, row.len() as int) + seq![' ']
}

/// Every character of a decimal rendering is ASCII.
pub proof fn lemma_dec_nat_ascii(n: int)
    ensures
        forall|i: int| 0 <= i < dec_nat(n).len() ==> (#[trigger] dec_nat(n)[i] as u32) < 128,
    decreases n,
{
    if n < 10 {
        assert(dec_nat(n) == seq![digit_char(n)]);
        assert((digit_char(n) as u32) < 128);
    } else {
        lemma_dec_nat_ascii(n / 10);
        assert((digit_char(n % 10) as u32) < 128);
        assert(forall|i: int| 0 <= i < dec_nat(n).len() - 1 ==> dec_nat(n)[i] == dec_nat(
            n / 10,
        )[i]);
    }
}

/// Every character of a signed decimal rendering is ASCII.
pub proof fn lemma_dec_int_ascii(n: int)
    ensures
        forall|i: int| 0 <= i < dec_int(n).len() ==> (#[trigger] dec_int(n)[i] as u32) < 128,
{
    if n < 0 {
        lemma_dec_nat_ascii(-n);
        assert(('-' as u32) < 128);
        assert(forall|i: int| 1 <= i < dec_int(n).len() ==> dec_int(n)[i] == dec_nat(-n)[i - 1]);
        assert(dec_int(n)[0] == '-');
    } else {
        lemma_dec_nat_ascii(n);
        assert(forall|i: int| 0 <= i < dec_int(n).len() ==> dec_int(n)[i] == dec_nat(n)[i]);
    }
}

/// Relies on `left_pad::leftpad`: it pads the string on the left with
/// spaces up to the requested width, counting bytes (equal to characters
/// here, as the input is ASCII), and returns a string already that wide
/// unchanged.
#[verifier::external_body]
fn leftpad_str(s: String, width: usize) -> (r: String)
    requires
        forall|i: int| 0 <= i < s@.len() ==> (#[trigger] s@[i] as u32) < 128,
    ensures
        r@ == spec_leftpad(s@, width as int),
{
    left_pad::leftpad(s, width).into_owned()
}

/// Renders the difference table, one line per row, as `print_rank`
/// displays it: row `i` indented by `2 * i` spaces, each value left-padded
/// to width 3 and joined by single spaces, with a trailing space.
pub fn render_rank(rank: &Vec<Vec<i64>>) -> (r: Vec<String>)
    ensures
        r@.len() == rank@.len(),
        forall|i: int| 0 <= i < rank@.len() ==> (#[trigger] r@[i])@ == spec_rank_line(
            ints_of(rank@[i]@),
            i,
        ),
{
    let mut lines: Vec<String> = Vec::new();
    let mut i: usize = 0;
    while i < rank.len()
        invariant
            0 <= i <= rank@.len(),
            lines@.len() == i,
            forall|t: int| 0 <= t < i ==> (#[trigger] lines@[t])@ == spec_rank_line(
                ints_of(rank@[t]@),
                t,
            ),
        decreases rank@.len() - i,
    {
        let row = &rank[i];
        let ghost rowv = ints_of(row@);
        let mut line = String::new();
        let mut t: usize = 0;
        while t < i
            invariant
                0 <= t <= i,
                line@ =~= spec_indent(t as int),
            decreases i - t,
        {
            line.append("  ");
            proof {
                reveal_strlit("  ");
                assert(line@ =~= spec_indent(t + 1));
            }
            t = t + 1;
        }
        let mut j: usize = 0;
        while j < row.len()
            invariant
                0 <= j <= row@.len(),
                rowv == ints_of(row@),
                line@ =~= spec_indent(i as int) + spec_row_body(rowv, j as int),
            decreases row@.len() - j,
        {
            if j > 0 {
                line.append(" ");
                proof {
                    reveal_strlit(" ");
                }
            }
            let word = i64_to_string(row[j]);
            proof {
                lemma_dec_int_ascii(row@[j as int] as int);
                assert(word@ == dec_int(rowv[j as int]));
            }
            let padded = leftpad_str(word, 3);
            line.append(padded.as_str());
            proof {
                assert(line@ =~= spec_indent(i as int) + spec_row_body(rowv, j + 1));
            }
            j = j + 1;
        }
        line.append(" ");
        proof {
            reveal_strlit(" ");
            assert(line@ =~= spec_rank_line(rowv, i as int));
        }
        lines.push(line);
        i = i + 1;
    }
    lines
}

} // verus!

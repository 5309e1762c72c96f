//! The difference table: row 0 is the input sequence, each later row holds
//! the consecutive differences of the row above; construction stops on an
//! all-zero row (a pattern was found) or right after a row of length 1 was
//! appended (no pattern).
use vstd::prelude::*;
use crate::arith::in_i64;

verus! {

/// A difference table ends in exactly one of these two states.
#[derive(Clone, Copy, Debug, PartialEq, Eq, Structural)]
pub enum TerminalState {
    /// The last row is entirely zeros: the sequence comes from a polynomial.
    Exact,
    /// A row of length 1 was appended before an all-zero row occurred.
    Degenerate,
}

/// A sequence of machine integers as a sequence of mathematical integers.
pub open spec fn ints_of(v: Seq<i64>) -> Seq<int> {
    v.map(|i: int, x: i64| x as int)
}

/// The rows of a table of machine integers, as mathematical integers.
pub open spec fn rows_of(t: Seq<Vec<i64>>) -> Seq<Seq<int>> {
    t.map(|i: int, row: Vec<i64>| ints_of(row@))
}

/// The consecutive differences of a row: entry `j` is `r[j+1] - r[j]`.
pub open spec fn diff_row(r: Seq<int>) -> Seq<int> {
    if r.len() == 0 {
        Seq::empty()
    } else {
        Seq::new((r.len() - 1) as nat, |j: int| r[j + 1] - r[j])
    }
}

/// The `k`-th iterated difference row of a sequence; row 0 is the sequence.
pub open spec fn diff_k(s: Seq<int>, k: nat) -> Seq<int>
    decreases k,
{
    if k == 0 {
        s
    } else {
        diff_row(diff_k(s, (k - 1) as nat))
    }
}

/// Every entry of the row is zero (vacuously true of an empty row).
pub open spec fn is_zero_row(r: Seq<int>) -> bool {
    forall|j: int| 0 <= j < r.len() ==> r[j] == 0
}

/// How many rows the builder ends with, starting from row `r`.
pub open spec fn table_depth(r: Seq<int>) -> nat
    decreases r.len(),
{
    if is_zero_row(r) {
        1
    } else if r.len() <= 2 {
        2
    } else {
        1 + table_depth(diff_row(r))
    }
}

/// Whether the builder ends in the `Exact` state, starting from row `r`.
pub open spec fn table_exact(r: Seq<int>) -> bool
    decreases r.len(),
{
    if is_zero_row(r) {
        true
    } else if r.len() == 1 {
        true  // the appended empty row is all zeros
    } else if r.len() == 2 {
        false  // the appended row has length 1
    } else {
        table_exact(diff_row(r))
    }
}

/// The finished table: rows `0 .. table_depth(s)`, row `i` the `i`-th
/// iterated difference of `s`.
pub open spec fn table_rows(s: Seq<int>) -> Seq<Seq<int>> {
    Seq::new(table_depth(s), |i: int| diff_k(s, i as nat))
}

/// Length of the `k`-th iterated difference row.
pub proof fn lemma_diff_k_len(s: Seq<int>, k: nat)
    ensures
        diff_k(s, k).len() == if s.len() >= k {
            s.len() - k
        } else {
            0
        },
    decreases k,
{
    if k > 0 {
        lemma_diff_k_len(s, (k - 1) as nat);
    }
}

/// A table has at least one row.
pub proof fn lemma_depth_pos(r: Seq<int>)
    ensures
        table_depth(r) >= 1,
{
    if is_zero_row(r) {
    } else if r.len() <= 2 {
    } else {
    }
}

/// Decides whether every entry of the row is zero.
pub fn vec_is_0s(vec: &Vec<i64>) -> (r: bool)
    ensures
        r == is_zero_row(ints_of(vec@)),
{
    let mut i: usize = 0;
    while i < vec.len()
        invariant
            0 <= i <= vec@.len(),
            forall|j: int| 0 <= j < i ==> ints_of(vec@)[j] == 0,
        decreases vec@.len() - i,
    {
        if vec[i] != 0 {
            proof {
                assert(ints_of(vec@)[i as int] != 0);
            }
            return false;
        }
        i = i + 1;
    }
    true
}

/// Computes the consecutive differences of a row.
pub fn differences_between_numbers(vec: &Vec<i64>) -> (r: Vec<i64>)
    requires
        vec@.len() >= 1,
        forall|j: int| 0 <= j < vec@.len() - 1 ==> in_i64(
            #[trigger] diff_row(ints_of(vec@))[j],
        ),
    ensures
        ints_of(r@) == diff_row(ints_of(vec@)),
{
    let mut differences: Vec<i64> = Vec::new();
    let mut i: usize = 0;
    while i < vec.len() - 1
        invariant
            vec@.len() >= 1,
            0 <= i <= vec@.len() - 1,
            differences@.len() == i,
            forall|j: int| 0 <= j < vec@.len() - 1 ==> in_i64(
                #[trigger] diff_row(ints_of(vec@))[j],
            ),
            forall|j: int| 0 <= j < i ==> #[trigger] differences@[j] as int == vec@[j + 1] as int
                - vec@[j] as int,
        decreases vec@.len() - 1 - i,
    {
        proof {
            assert(diff_row(ints_of(vec@))[i as int] == vec@[i + 1] - vec@[i as int]);
        }
        differences.push(vec[i + 1] - vec[i]);
        i = i + 1;
    }
    proof {
        assert forall|j: int| 0 <= j < differences@.len() implies ints_of(differences@)[j]
            == diff_row(ints_of(vec@))[j] by {
            assert(diff_row(ints_of(vec@))[j] == vec@[j + 1] - vec@[j]);
        }
        assert(ints_of(differences@) =~= diff_row(ints_of(vec@)));
    }
    differences
}

/// Builds the difference table of a non-empty sequence and reports how the
/// construction terminated. Row `i` is the `i`-th iterated difference of the
/// input; each row is one shorter than its predecessor, and at most
/// `sequence.len()` rows are appended below row 0.
pub fn build_difference_table(sequence: &Vec<i64>) -> (r: (Vec<Vec<i64>>, TerminalState))
    requires
        sequence@.len() >= 1,
        forall|k: nat, j: int|
            1 <= k < table_depth(ints_of(sequence@)) && 0 <= j < diff_k(ints_of(sequence@), k).len()
                ==> in_i64(#[trigger] diff_k(ints_of(sequence@), k)[j]),
    ensures
        rows_of(r.0@) == table_rows(ints_of(sequence@)),
        r.0@.len() == table_depth(ints_of(sequence@)),
        1 <= r.0@.len() <= sequence@.len() + 1,
        forall|i: int| 0 <= i < r.0@.len() ==> (#[trigger] r.0@[i])@.len() == sequence@.len() - i,
        (r.1 == TerminalState::Exact) == table_exact(ints_of(sequence@)),
{
    let ghost s: Seq<int> = ints_of(sequence@);
    let mut rank: Vec<Vec<i64>> = Vec::new();
    let mut row0: Vec<i64> = Vec::new();
    let mut i: usize = 0;
    while i < sequence.len()
        invariant
            0 <= i <= sequence@.len(),
            row0@.len() == i,
            forall|j: int| 0 <= j < i ==> row0@[j] == sequence@[j],
        decreases sequence@.len() - i,
    {
        row0.push(sequence[i]);
        i = i + 1;
    }
    proof {
        assert(row0@ =~= sequence@);
        assert(ints_of(row0@) =~= s);
    }
    rank.push(row0);

    let mut state = TerminalState::Degenerate;
    loop
        invariant_except_break
            table_depth(s) == rank@.len() - 1 + table_depth(diff_k(s, (rank@.len() - 1) as nat)),
            table_exact(s) == table_exact(diff_k(s, (rank@.len() - 1) as nat)),
            state == TerminalState::Degenerate,
        invariant
            sequence@.len() >= 1,
            s == ints_of(sequence@),
            1 <= rank@.len() <= sequence@.len() + 1,
            forall|i: int| 0 <= i < rank@.len() ==> ints_of((#[trigger] rank@[i])@) == diff_k(
                s,
                i as nat,
            ),
            forall|i: int| 0 <= i < rank@.len() ==> (#[trigger] rank@[i])@.len() == sequence@.len()
                - i,
            forall|k: nat, j: int|
                1 <= k < table_depth(s) && 0 <= j < diff_k(s, k).len() ==> in_i64(
                    #[trigger] diff_k(s, k)[j],
                ),
        ensures
            rank@.len() == table_depth(s),
            forall|i: int| 0 <= i < rank@.len() ==> ints_of((#[trigger] rank@[i])@) == diff_k(
                s,
                i as nat,
            ),
            forall|i: int| 0 <= i < rank@.len() ==> (#[trigger] rank@[i])@.len() == sequence@.len()
                - i,
            (state == TerminalState::Exact) == table_exact(s),
        decreases sequence@.len() + 1 - rank@.len(),
    {
        let ghost kk = (rank@.len() - 1) as nat;
        let ghost last = diff_k(s, kk);
        let last_idx = rank.len() - 1;
        if vec_is_0s(&rank[last_idx]) {
            proof {
                assert(table_depth(last) == 1);
                assert(table_exact(last));
            }
            state = TerminalState::Exact;
            break ;
        }
        proof {
            // not all zeros, hence nonempty; the builder has at least one
            // more row to append, so the next row's entries fit in i64
            assert(!is_zero_row(last));
            assert(last.len() >= 1);
            lemma_depth_pos(diff_row(last));
            assert(table_depth(last) >= 2);
            lemma_diff_k_len(s, (kk + 1) as nat);
            assert(diff_k(s, (kk + 1) as nat) == diff_row(last));
            assert(forall|j: int| 0 <= j < last.len() - 1 ==> in_i64(
                #[trigger] diff_row(last)[j],
            ));
        }
        let differences = differences_between_numbers(&rank[last_idx]);
        let l = differences.len();
        rank.push(differences);
        if l == 1 {
            proof {
                assert(last.len() == 2);
                assert(table_depth(last) == 2);
                assert(!table_exact(last));
            }
            break ;
        }
        proof {
            if last.len() == 1 {
                // the appended row is empty, hence all zeros: next pass exits
                assert(diff_row(last).len() == 0);
                assert(is_zero_row(diff_row(last)));
                assert(table_depth(last) == 2);
                assert(table_depth(diff_row(last)) == 1);
                assert(table_exact(last));
                assert(table_exact(diff_row(last)));
            } else {
                assert(last.len() >= 3);
                assert(table_depth(last) == 1 + table_depth(diff_row(last)));
                assert(table_exact(last) == table_exact(diff_row(last)));
            }
        }
    }
    proof {
        assert(rows_of(rank@) =~= table_rows(s));
    }
    (rank, state)
}

} // verus!

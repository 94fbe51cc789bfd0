//! Filling in a suffix array by induction: the suffixes that sort before
//! their successor are put in place first, and every other suffix is put
//! into the first free row of the rows of its first symbol when the scan of
//! the rows reaches its successor.
use crate::rotation::{
    lemma_first_column_block, lemma_next_row, lemma_next_rows_ordered, lemma_prev_row, lemma_row_of,
    lemma_wrap, row_of, rows_sorted, smaller,
};
use crate::suffix_array::{lemma_suffix_array_rows, rows_of, suffix_less};
use crate::tables::count_smaller;
use crate::text::{is_suffix_array, lex_lt, suffix, valid_text};
use vstd::prelude::*;

verus! {

/// The suffix at `i` sorts before the suffix that starts one place later;
/// the last suffix counts as such.
pub open spec fn is_small(t: Seq<u8>, i: int) -> bool {
    i == t.len() - 1 || lex_lt(suffix(t, i), suffix(t, i + 1))
}

/// Row `r` holds its suffix once the rows below `j` have been scanned: its
/// suffix is small, or the row of its successor lies below `j`.
pub open spec fn is_filled(t: Seq<u8>, sa: Seq<usize>, j: int, r: int) -> bool {
    is_small(t, sa[r] as int) || row_of(t, rows_of(sa), sa[r] + 1) < j
}

/// What row `r` holds once the rows below `j` have been scanned.
pub open spec fn induced_row(t: Seq<u8>, sa: Seq<usize>, j: int, r: int) -> Option<usize> {
    if is_filled(t, sa, j, r) {
        Some(sa[r])
    } else {
        None
    }
}

/// The row that the scan of the rows below `j` filled last, 0 where it
/// filled none: a row is filled when the scan reaches the successor of a
/// suffix that is not small.
pub open spec fn last_induced(t: Seq<u8>, sa: Seq<usize>, j: int) -> int
    decreases j,
{
    if j <= 0 {
        0
    } else if sa[j - 1] > 0 && !is_small(t, sa[j - 1] - 1) {
        row_of(t, rows_of(sa), sa[j - 1] - 1)
    } else {
        last_induced(t, sa, j - 1)
    }
}

/// Whether the suffix at `i` sorts before the one that starts one place
/// later.
pub fn small(s: &[u8], i: usize) -> (r: bool)
    requires
        i < s@.len(),
    ensures
        r == is_small(s@, i as int),
{
    i == s.len() - 1 || suffix_less(s, i, i + 1)
}

/// Once every row has been scanned, every row holds its suffix: the
/// induction fills in the whole suffix array.
pub proof fn lemma_induction_complete(t: Seq<u8>, sa: Seq<usize>, r: int)
    requires
        valid_text(t),
        is_suffix_array(t, sa),
        0 <= r < t.len(),
    ensures
        induced_row(t, sa, t.len() as int, r) == Some(sa[r]),
{
    lemma_suffix_array_rows(t, sa);
    lemma_row_of(t, rows_of(sa), sa[r] + 1);
}

/// When the scan reaches row `j`, whose suffix has a predecessor that is not
/// small, the row of that predecessor is the first free row among the rows
/// of its first symbol.
proof fn lemma_first_free_row(t: Seq<u8>, sa: Seq<usize>, j: int, r: int)
    requires
        valid_text(t),
        is_suffix_array(t, sa),
        0 <= j < t.len(),
        sa[j] > 0,
        !is_small(t, sa[j] - 1),
        0 <= r <= row_of(t, rows_of(sa), sa[j] - 1),
    ensures
        smaller(t, t[sa[j] - 1]) <= row_of(t, rows_of(sa), sa[j] - 1) < t.len(),
        sa[row_of(t, rows_of(sa), sa[j] - 1)] == sa[j] - 1,
        smaller(t, t[sa[j] - 1]) <= r ==> (is_filled(t, sa, j, r) <==> r != row_of(
            t,
            rows_of(sa),
            sa[j] - 1,
        )),
{
    let n = t.len() as int;
    let rows = rows_of(sa);
    let c = t[sa[j] - 1];
    let target = row_of(t, rows, sa[j] - 1);
    lemma_suffix_array_rows(t, sa);
    lemma_prev_row(t, rows, j);
    lemma_row_of(t, rows, sa[j] - 1);
    lemma_wrap(sa[j] - 1, 0, n);
    lemma_first_column_block(t, rows, c, target);
    if smaller(t, c) <= r < target {
        lemma_first_column_block(t, rows, c, r);
        lemma_next_rows_ordered(t, rows, r, target);
    }
}

/// The rows that hold their suffix once the rows below `upto` have been
/// scanned, and the row that was filled last.
pub fn induce(s: &[u8], sa: &Vec<usize>, upto: usize) -> (r: (Vec<Option<usize>>, usize))
    requires
        valid_text(s@),
        is_suffix_array(s@, sa@),
        upto <= s@.len(),
    ensures
        r.0@.len() == s@.len(),
        forall|k: int| 0 <= k < s@.len() ==> #[trigger] r.0@[k] == induced_row(s@, sa@, upto as int, k),
        r.1 == last_induced(s@, sa@, upto as int),
        r.1 < s@.len(),
{
    let n = s.len();
    let ghost rows = rows_of(sa@);
    let mut partial: Vec<Option<usize>> = Vec::new();
    let mut k: usize = 0;
    while k < n
        invariant
            n == s@.len(),
            sa@.len() == n,
            is_suffix_array(s@, sa@),
            k <= n,
            partial@.len() == k,
            forall|r: int|
                0 <= r < k ==> #[trigger] partial@[r] == (if is_small(s@, sa@[r] as int) {
                    Some(sa@[r])
                } else {
                    None
                }),
        decreases n - k,
    {
        if small(s, sa[k]) {
            partial.push(Some(sa[k]));
        } else {
            partial.push(None);
        }
        k += 1;
    }
    proof {
        lemma_suffix_array_rows(s@, sa@);
        assert forall|r: int| 0 <= r < n implies #[trigger] partial@[r] == induced_row(
            s@,
            sa@,
            0,
            r,
        ) by {
            lemma_row_of(s@, rows, sa@[r] + 1);
        }
    }
    let mut new_j: usize = 0;
    let mut j: usize = 0;
    while j < upto
        invariant
            n == s@.len(),
            valid_text(s@),
            is_suffix_array(s@, sa@),
            rows == rows_of(sa@),
            rows_sorted(s@, rows),
            upto <= n,
            j <= upto,
            partial@.len() == n,
            forall|r: int| 0 <= r < n ==> #[trigger] partial@[r] == induced_row(s@, sa@, j as int, r),
            new_j == last_induced(s@, sa@, j as int),
            new_j < n,
        decreases upto - j,
    {
        let i = sa[j];
        if i > 0 && !small(s, i - 1) {
            let c = s[i - 1];
            let mut slot = count_smaller(s, c);
            let ghost target = row_of(s@, rows, i - 1);
            proof {
                lemma_row_of(s@, rows, i - 1);
                lemma_first_free_row(s@, sa@, j as int, target);
            }
            while partial[slot].is_some()
                invariant
                    n == s@.len(),
                    valid_text(s@),
                    is_suffix_array(s@, sa@),
                    rows == rows_of(sa@),
                    j < n,
                    i == sa@[j as int],
                    i > 0,
                    !is_small(s@, i - 1),
                    c == s@[i - 1],
                    target == row_of(s@, rows, i - 1),
                    smaller(s@, c) <= slot <= target < n,
                    partial@.len() == n,
                    forall|r: int|
                        0 <= r < n ==> #[trigger] partial@[r] == induced_row(s@, sa@, j as int, r),
                decreases target - slot,
            {
                proof {
                    lemma_first_free_row(s@, sa@, j as int, slot as int);
                }
                slot += 1;
            }
            proof {
                lemma_first_free_row(s@, sa@, j as int, slot as int);
            }
            partial.set(slot, Some(i - 1));
            new_j = slot;
            proof {
                assert forall|r: int| 0 <= r < n implies #[trigger] partial@[r] == induced_row(
                    s@,
                    sa@,
                    j + 1,
                    r,
                ) by {
                    lemma_successor_row(s@, sa@, j as int, r);
                }
            }
        } else {
            proof {
                assert forall|r: int| 0 <= r < n implies #[trigger] partial@[r] == induced_row(
                    s@,
                    sa@,
                    j + 1,
                    r,
                ) by {
                    lemma_successor_row(s@, sa@, j as int, r);
                    lemma_wrap(-1, 0, n as int);
                    lemma_wrap(n as int - 1, 0, n as int);
                    lemma_wrap(i as int - 1, 0, n as int);
                }
            }
        }
        j += 1;
    }
    (partial, new_j)
}

/// The successor of the suffix of row `r` stands at row `j` exactly when row
/// `r` is the row of the position before `sa[j]`.
proof fn lemma_successor_row(t: Seq<u8>, sa: Seq<usize>, j: int, r: int)
    requires
        valid_text(t),
        is_suffix_array(t, sa),
        0 <= j < t.len(),
        0 <= r < t.len(),
    ensures
        row_of(t, rows_of(sa), sa[r] + 1) == j <==> r == row_of(t, rows_of(sa), sa[j] - 1),
        sa[row_of(t, rows_of(sa), sa[j] - 1)] == (sa[j] - 1) % (t.len() as int),
{
    let rows = rows_of(sa);
    lemma_suffix_array_rows(t, sa);
    lemma_next_row(t, rows, r);
    lemma_prev_row(t, rows, j);
    lemma_row_of(t, rows, sa[j] - 1);
}

} // verus!

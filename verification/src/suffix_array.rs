//! Suffix arrays: construction by sorting, and the link between the order of
//! suffixes and the order of rotations that the index proofs use.
use crate::canvas::Canvas;
use crate::rotation::{lemma_wrap, rot, rot_lt, rot_lt_at, rows_sorted};
use crate::text::{
    agree_upto, ConstructionError, is_reverse_suffix_array, is_suffix_array, lemma_lex_decided,
    lemma_lex_irreflexive, lemma_lex_transitive, lemma_suffix_total, lex_lt, lex_lt_at,
    reversed_prefix, suffix, valid_text,
};
use crate::viz::Viz;
use vstd::prelude::*;

pub mod frames;

verus! {

/// The start positions that a suffix array lists, as integers.
pub open spec fn rows_of(sa: Seq<usize>) -> Seq<int> {
    Seq::new(sa.len(), |j: int| sa[j] as int)
}

/// The start positions in the reversed text that a reverse suffix array
/// stands for: the prefix of length `i` is the suffix of the reversed text
/// at `n - i`.
pub open spec fn mirrored_rows(sar: Seq<usize>) -> Seq<int> {
    Seq::new(sar.len(), |j: int| sar.len() - sar[j])
}

/// Whether the suffix at `i` sorts strictly before the suffix at `j`.
pub fn suffix_less(t: &[u8], i: usize, j: usize) -> (r: bool)
    requires
        i <= t.len(),
        j <= t.len(),
    ensures
        r == lex_lt(suffix(t@, i as int), suffix(t@, j as int)),
{
    let n = t.len();
    let ghost a = suffix(t@, i as int);
    let ghost b = suffix(t@, j as int);
    let mut k: usize = 0;
    while i + k < n && j + k < n && t[i + k] == t[j + k]
        invariant
            n == t.len(),
            i + k <= n,
            j + k <= n,
            a == suffix(t@, i as int),
            b == suffix(t@, j as int),
            agree_upto(a, b, k as int),
        decreases n - i - k,
    {
        k += 1;
    }
    proof {
        lemma_lex_decided(a, b, k as int);
    }
    if j + k >= n {
        false
    } else if i + k >= n {
        true
    } else {
        t[i + k] < t[j + k]
    }
}

/// The suffix array of `t`: all start positions, sorted by their suffixes.
pub fn sort_suffixes(t: &[u8]) -> (sa: Vec<usize>)
    ensures
        is_suffix_array(t@, sa@),
{
    let n = t.len();
    let mut sa: Vec<usize> = Vec::new();
    let mut i: usize = 0;
    while i < n
        invariant
            n == t.len(),
            i <= n,
            sa.len() == i,
            forall|j: int| 0 <= j < i ==> #[trigger] sa[j] < i,
            forall|a: int, b: int|
                0 <= a < b < i ==> lex_lt(
                    suffix(t@, #[trigger] sa[a] as int),
                    suffix(t@, #[trigger] sa[b] as int),
                ),
        decreases n - i,
    {
        let mut lo: usize = 0;
        let mut hi: usize = i;
        while lo < hi
            invariant
                n == t.len(),
                i < n,
                sa.len() == i,
                lo <= hi <= i,
                forall|j: int| 0 <= j < i ==> #[trigger] sa[j] < i,
                forall|a: int, b: int|
                    0 <= a < b < i ==> lex_lt(
                        suffix(t@, #[trigger] sa[a] as int),
                        suffix(t@, #[trigger] sa[b] as int),
                    ),
                forall|j: int|
                    0 <= j < lo ==> lex_lt(suffix(t@, #[trigger] sa[j] as int), suffix(t@, i as int)),
                forall|j: int|
                    hi <= j < i ==> lex_lt(suffix(t@, i as int), suffix(t@, #[trigger] sa[j] as int)),
            decreases hi - lo,
        {
            let mid = lo + (hi - lo) / 2;
            let before = suffix_less(t, sa[mid], i);
            proof {
                let pivot = suffix(t@, sa[mid as int] as int);
                let new = suffix(t@, i as int);
                if before {
                    assert forall|j: int| 0 <= j < mid + 1 implies lex_lt(
                        suffix(t@, #[trigger] sa[j] as int),
                        new,
                    ) by {
                        if j < mid {
                            lemma_lex_transitive(suffix(t@, sa[j] as int), pivot, new);
                        }
                    }
                } else {
                    lemma_suffix_total(t@, sa[mid as int] as int, i as int);
                    assert forall|j: int| mid <= j < i implies lex_lt(
                        new,
                        suffix(t@, #[trigger] sa[j] as int),
                    ) by {
                        if mid < j {
                            lemma_lex_transitive(new, pivot, suffix(t@, sa[j] as int));
                        }
                    }
                }
            }
            if before {
                lo = mid + 1;
            } else {
                hi = mid;
            }
        }
        let ghost old_sa = sa@;
        sa.insert(lo, i);
        proof {
            old_sa.insert_ensures(lo as int, i);
            assert forall|j: int| 0 <= j < i + 1 implies #[trigger] sa[j] < i + 1 by {
                if j < lo {
                    assert(sa[j] == old_sa[j]);
                } else if j > lo {
                    assert(sa[j] == old_sa[j - 1]);
                }
            }
            assert forall|a: int, b: int| 0 <= a < b < i + 1 implies lex_lt(
                suffix(t@, #[trigger] sa[a] as int),
                suffix(t@, #[trigger] sa[b] as int),
            ) by {
                let at = |k: int| if k < lo { k } else { k - 1 };
                if a != lo {
                    assert(sa[a] == old_sa[at(a)]);
                }
                if b != lo {
                    assert(sa[b] == old_sa[at(b)]);
                }
            }
        }
        i += 1;
    }
    proof {
        assert forall|a: int, b: int| 0 <= a < b < n implies #[trigger] sa[a] != #[trigger] sa[b] by {
            lemma_lex_irreflexive(suffix(t@, sa[a] as int));
        }
    }
    sa
}

/// The symbols of `s`, last one first.
pub fn rev(s: &[u8]) -> (r: Vec<u8>)
    ensures
        r@ == s@.reverse(),
{
    let n = s.len();
    let mut r: Vec<u8> = Vec::new();
    let mut i: usize = 0;
    while i < n
        invariant
            n == s.len(),
            i <= n,
            r.len() == i,
            forall|k: int| 0 <= k < i ==> #[trigger] r[k] == s[n - 1 - k],
        decreases n - i,
    {
        r.push(s[n - 1 - i]);
        i += 1;
    }
    assert(r@ =~= s@.reverse());
    r
}

/// Whether an index can be built over `t`, and if not, why.
pub fn check_text(t: &[u8]) -> (r: Result<(), ConstructionError>)
    ensures
        r is Ok <==> valid_text(t@),
        r == Err::<(), ConstructionError>(ConstructionError::EmptyInput) <==> t@.len() == 0,
{
    let n = t.len();
    if n == 0 {
        return Err(ConstructionError::EmptyInput);
    }
    let sentinel = t[n - 1];
    let mut i: usize = 0;
    while i < n - 1
        invariant
            n == t.len(),
            n > 0,
            i <= n - 1,
            sentinel == t[n - 1],
            forall|k: int| 0 <= k < i ==> sentinel < #[trigger] t[k],
        decreases n - i,
    {
        if t[i] <= sentinel {
            return Err(ConstructionError::MissingSentinel);
        }
        i += 1;
    }
    Ok(())
}

/// The suffix array of a text, or the reason why the text is refused.
pub fn build(text: &[u8]) -> (r: Result<Vec<usize>, ConstructionError>)
    ensures
        match r {
            Ok(sa) => valid_text(text@) && is_suffix_array(text@, sa@),
            Err(e) => !valid_text(text@) && (e == ConstructionError::EmptyInput <==> text@.len()
                == 0),
        },
{
    match check_text(text) {
        Ok(()) => Ok(sort_suffixes(text)),
        Err(e) => Err(e),
    }
}

/// The reverse suffix array of a text: the lengths of its non-empty prefixes,
/// sorted by the reversed prefixes; or the reason why the text is refused.
pub fn build_reverse(text: &[u8]) -> (r: Result<Vec<usize>, ConstructionError>)
    ensures
        match r {
            Ok(sar) => valid_text(text@) && is_reverse_suffix_array(text@, sar@),
            Err(e) => !valid_text(text@) && (e == ConstructionError::EmptyInput <==> text@.len()
                == 0),
        },
{
    match check_text(text) {
        Ok(()) => {},
        Err(e) => {
            return Err(e);
        },
    }
    let n = text.len();
    let reversed = rev(text);
    let sa = sort_suffixes(reversed.as_slice());
    let mut sar: Vec<usize> = Vec::new();
    let mut j: usize = 0;
    while j < n
        invariant
            n == text.len(),
            j <= n,
            sa.len() == n,
            sar.len() == j,
            forall|k: int| 0 <= k < n ==> #[trigger] sa[k] < n,
            forall|k: int| 0 <= k < j ==> #[trigger] sar[k] == n - sa[k],
        decreases n - j,
    {
        sar.push(n - sa[j]);
        j += 1;
    }
    proof {
        assert forall|a: int, b: int| 0 <= a < b < n implies lex_lt(
            reversed_prefix(text@, #[trigger] sar[a] as int),
            reversed_prefix(text@, #[trigger] sar[b] as int),
        ) by {
            lemma_reversed_prefix(text@, sar[a] as int);
            lemma_reversed_prefix(text@, sar[b] as int);
            assert(lex_lt(suffix(reversed@, sa[a] as int), suffix(reversed@, sa[b] as int)));
        }
    }
    Ok(sar)
}

/// A reversed prefix of `t` is a suffix of the reversed text.
pub proof fn lemma_reversed_prefix(t: Seq<u8>, i: int)
    requires
        0 <= i <= t.len(),
    ensures
        reversed_prefix(t, i) == suffix(t.reverse(), t.len() - i),
{
    assert(reversed_prefix(t, i) =~= suffix(t.reverse(), t.len() - i));
}

/// Over a text whose sentinel stands last, a suffix sorts before another
/// exactly as the rotations at the same positions do.
pub proof fn lemma_suffix_order_is_rotation_order(t: Seq<u8>, i: int, j: int)
    requires
        valid_text(t),
        0 <= i < t.len(),
        0 <= j < t.len(),
        lex_lt(suffix(t, i), suffix(t, j)),
    ensures
        rot_lt(t, i, j),
{
    let n = t.len() as int;
    let a = suffix(t, i);
    let b = suffix(t, j);
    let d = choose|d: int| lex_lt_at(a, b, d);
    if d == a.len() {
        // the sentinel would stand inside the suffix at j
        assert(a[d - 1] == b[d - 1]);
        assert(t[n - 1] < t[j + d - 1]);
    }
    assert forall|k: int| 0 <= k <= d implies #[trigger] rot(t, i, k) == a[k] && rot(t, j, k)
        == b[k] by {
        lemma_wrap(i + k, 0, n);
        lemma_wrap(j + k, 0, n);
    }
    assert forall|k: int| 0 <= k < d implies #[trigger] rot(t, i, k) == rot(t, j, k) by {
        assert(a[k] == b[k]);
    }
    assert(rot_lt_at(t, i, j, d));
}

/// Over a text whose sentinel stands first, as in a reversed text, a suffix
/// sorts before another exactly as the rotations at the same positions do.
pub proof fn lemma_suffix_order_is_rotation_order_reversed(r: Seq<u8>, i: int, j: int)
    requires
        valid_text(r.reverse()),
        0 <= i < r.len(),
        0 <= j < r.len(),
        lex_lt(suffix(r, i), suffix(r, j)),
    ensures
        rot_lt(r, i, j),
{
    let n = r.len() as int;
    let t = r.reverse();
    let a = suffix(r, i);
    let b = suffix(r, j);
    let d = choose|d: int| lex_lt_at(a, b, d);
    assert forall|k: int| 0 <= k < d implies #[trigger] rot(r, i, k) == rot(r, j, k) by {
        lemma_wrap(i + k, 0, n);
        lemma_wrap(j + k, 0, n);
        assert(a[k] == b[k]);
    }
    lemma_wrap(j + d, 0, n);
    if d == a.len() {
        // the rotation at i comes round to the sentinel, the one at j does not
        lemma_wrap(0, 0, n);
        lemma_wrap(i + d - n, 0, n);
        assert(r[0] == t[n - 1]);
        assert(r[j + d] == t[n - 1 - (j + d)]);
    } else {
        lemma_wrap(i + d, 0, n);
    }
    assert(rot_lt_at(r, i, j, d));
}

/// The suffix array of a valid text lists the rotations of the text in
/// increasing order.
pub proof fn lemma_suffix_array_rows(t: Seq<u8>, sa: Seq<usize>)
    requires
        valid_text(t),
        is_suffix_array(t, sa),
    ensures
        rows_sorted(t, rows_of(sa)),
{
    let rows = rows_of(sa);
    assert forall|a: int, b: int| 0 <= a < b < rows.len() implies rot_lt(
        t,
        #[trigger] rows[a],
        #[trigger] rows[b],
    ) by {
        assert(lex_lt(suffix(t, sa[a] as int), suffix(t, sa[b] as int)));
        lemma_suffix_order_is_rotation_order(t, sa[a] as int, sa[b] as int);
    }
}

/// The reverse suffix array of a valid text lists the rotations of the
/// reversed text in increasing order.
pub proof fn lemma_reverse_suffix_array_rows(t: Seq<u8>, sar: Seq<usize>)
    requires
        valid_text(t),
        is_reverse_suffix_array(t, sar),
    ensures
        rows_sorted(t.reverse(), mirrored_rows(sar)),
{
    let r = t.reverse();
    let rows = mirrored_rows(sar);
    assert(r.reverse() =~= t);
    assert forall|a: int, b: int| 0 <= a < b < rows.len() implies rot_lt(
        r,
        #[trigger] rows[a],
        #[trigger] rows[b],
    ) by {
        lemma_reversed_prefix(t, sar[a] as int);
        lemma_reversed_prefix(t, sar[b] as int);
        assert(lex_lt(reversed_prefix(t, sar[a] as int), reversed_prefix(t, sar[b] as int)));
        lemma_suffix_order_is_rotation_order_reversed(r, rows[a], rows[b]);
    }
}

/// The three steps in which the scan of one row is shown.
#[derive(PartialEq, Eq, PartialOrd, Ord, Clone, Copy, Debug, Structural)]
pub enum RowState {
    Step0,
    Step1,
    Step2,
}

/// The steps in which the suffix array is shown being filled in.
#[derive(PartialEq, Eq, PartialOrd, Ord, Clone, Copy, Debug, Structural)]
pub enum State {
    Init,
    Row(usize, RowState),
    End,
}

/// The `k`-th step of a row.
pub open spec fn row_step(k: int) -> RowState {
    if k == 0 {
        RowState::Step0
    } else if k == 1 {
        RowState::Step1
    } else {
        RowState::Step2
    }
}

/// The states of a text of `n` symbols: the start, three steps for each row,
/// and the end.
pub open spec fn state_list(n: nat) -> Seq<State> {
    seq![State::Init] + Seq::new(3 * n, |k: int| State::Row((k / 3) as usize, row_step(k % 3)))
        + seq![State::End]
}

/// Every step of a row in the list is a step of one of the `n` rows.
pub proof fn lemma_state_list(n: nat, at: int)
    requires
        0 <= at < state_list(n).len(),
        n <= usize::MAX,
    ensures
        state_list(n)[at] matches State::Row(j, _) ==> j < n,
{
}

/// The states in which the suffix array of a text of `n` symbols is shown,
/// in order.
pub fn states(n: usize) -> (v: Vec<State>)
    ensures
        v@ == state_list(n as nat),
{
    let mut v: Vec<State> = Vec::new();
    v.push(State::Init);
    let ghost head = v@;
    let mut j: usize = 0;
    assert(v@ =~= head + Seq::new(0, |k: int| State::Row((k / 3) as usize, row_step(k % 3))));
    while j < n
        invariant
            j <= n,
            v@ == head + Seq::new(
                3 * (j as nat),
                |k: int| State::Row((k / 3) as usize, row_step(k % 3)),
            ),
        decreases n - j,
    {
        v.push(State::Row(j, RowState::Step0));
        v.push(State::Row(j, RowState::Step1));
        v.push(State::Row(j, RowState::Step2));
        j += 1;
        assert(v@ =~= head + Seq::new(
            3 * (j as nat),
            |k: int| State::Row((k / 3) as usize, row_step(k % 3)),
        ));
    }
    v.push(State::End);
    assert(v@ =~= state_list(n as nat));
    v
}

/// A text with its suffix array, and the states in which the array is shown
/// being filled in.
pub struct SA {
    s: Vec<u8>,
    sa: Vec<usize>,
    states: Vec<State>,
}

impl View for SA {
    type V = Seq<u8>;

    closed spec fn view(&self) -> Seq<u8> {
        self.s@
    }
}

impl SA {
    /// The suffix array of the text.
    pub closed spec fn sa(&self) -> Seq<usize> {
        self.sa@
    }

    /// The array is the suffix array of the text, and the states are those
    /// of its rows.
    pub closed spec fn wf(&self) -> bool {
        &&& valid_text(self.s@)
        &&& is_suffix_array(self.s@, self.sa@)
        &&& self.states@ == state_list(self.s@.len())
    }

    /// What a well-formed value holds of its text.
    pub proof fn lemma_wf(&self)
        requires
            self.wf(),
        ensures
            valid_text(self@),
            is_suffix_array(self@, self.sa()),
    {
    }

    /// Sorts the suffixes of `s`. Refuses a text that is empty or whose last
    /// symbol is not strictly smaller than all others.
    pub fn new(s: Vec<u8>) -> (r: Result<SA, ConstructionError>)
        ensures
            match r {
                Ok(sa) => valid_text(s@) && sa.wf() && sa@ == s@,
                Err(e) => !valid_text(s@) && (e == ConstructionError::EmptyInput <==> s@.len()
                    == 0),
            },
    {
        let sa = match build(s.as_slice()) {
            Ok(sa) => sa,
            Err(e) => {
                return Err(e);
            },
        };
        let states = states(s.len());
        Ok(SA { s, sa, states })
    }

    /// The text.
    pub fn text(&self) -> (r: &Vec<u8>)
        ensures
            r@ == self@,
    {
        &self.s
    }

    /// The suffix array: the start positions of the suffixes in sorted order.
    pub fn suffix_array(&self) -> (r: &Vec<usize>)
        requires
            self.wf(),
        ensures
            r@ == self.sa(),
            is_suffix_array(self@, r@),
    {
        &self.sa
    }

    /// The states in which the suffix array is shown.
    pub fn states(&self) -> (r: &Vec<State>)
        requires
            self.wf(),
        ensures
            r@ == state_list(self@.len()),
    {
        &self.states
    }
}

} // verus!

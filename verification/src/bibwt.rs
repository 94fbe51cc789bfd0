//! The bidirectional index: the FM-index of a text and that of its reverse,
//! kept in step, so that a pattern can grow at either end.
use crate::bwt::{distinct_symbols, marked, s_stats, symbol_count};
use crate::canvas::{Color, GREEN};
use crate::mirror::{
    dual_range, extend_ranges, lemma_dual_range_size, lemma_extend, lemma_extend_back,
    lemma_extend_front, lemma_rot_reversed, lemma_smaller_reversed, lemma_turn,
};
use crate::rotation::{
    cyclic_occurrences, last_column, lemma_range_size, lemma_wrap, rot, rows_sorted,
};
use crate::scan::{is_scan_range, scan_range};
use crate::suffix_array::{
    build_reverse, lemma_reverse_suffix_array_rows, lemma_suffix_array_rows, mirrored_rows, rev,
    rows_of, sort_suffixes,
};
use crate::tables::{
    alphabet, char_counts, char_starts, count_smaller_in_range, is_alphabet, is_char_count,
    is_char_start, is_index, is_occ_table, last_column_of, lemma_last_column_symbols,
    lemma_rank_of_unknown, lemma_search_range, occ_table, search_range, search_step, symbol_index,
};
use crate::text::{ConstructionError, is_reverse_suffix_array, is_suffix_array, valid_text};
use crate::viz::Viz;
use std::ops::Range;
use vstd::prelude::*;
use vstd::slice::slice_to_vec;

pub mod frames;

verus! {

/// The steps in which one extension of the pattern is shown.
#[derive(PartialEq, Eq, PartialOrd, Ord, Clone, Copy, Debug, Structural)]
pub enum QueryStep {
    PreviousDone,
    HighlightChar,
    HighlightMatches,
    EquivalenceFirst,
    CountFirst,
    SmallerCountFirst,
    ExtendFirst,
    SmallerWindowSecond,
    EquivalenceSecond,
    CountSecond,
    ComputeSecond,
    ExtendStartSecond,
    ExtendEndSecond,
}

/// The steps in which the index is shown being built and queried.
#[derive(PartialEq, Eq, PartialOrd, Ord, Clone, Copy, Debug, Structural)]
pub enum State {
    Init,
    LeftSA(usize),
    RightSA(usize),
    BothSA,
    CharCounts,
    LeftOcc,
    RightOcc,
    /// The symbols before and after the rows of one symbol; one state per
    /// symbol.
    Equivalence(usize),
    Pause,
    Query(usize, QueryStep),
}

const DEFAULT: Color = (240, 240, 240);

const HIGHLIGHT: Color = GREEN;

const SOFT_HIGHLIGHT: Color = (180, 250, 180);

const NEXT_CHAR: Color = (180, 180, 250);

/// The colour of a cell: the marked one where `condition` holds, the plain
/// one where it does not.
pub fn to_c(condition: bool) -> (r: Color)
    ensures
        r == marked(condition),
{
    if condition {
        HIGHLIGHT
    } else {
        DEFAULT
    }
}

/// Where the matched part of a query of `ql` symbols begins after `step`
/// symbols are matched: the query is matched from its middle, first towards
/// its start, then towards its end.
pub open spec fn done_start(ql: nat, step: nat) -> nat {
    if step <= (ql + 1) / 2 {
        ((ql + 1) / 2 - step) as nat
    } else {
        0
    }
}

/// Where the matched part of a query of `ql` symbols ends after `step`
/// symbols are matched.
pub open spec fn done_end(ql: nat, step: nat) -> nat {
    if step <= (ql + 1) / 2 {
        (ql + 1) / 2
    } else {
        step
    }
}

/// The `k`-th step of an extension.
pub open spec fn query_step(k: int) -> QueryStep {
    if k == 0 {
        QueryStep::PreviousDone
    } else if k == 1 {
        QueryStep::HighlightChar
    } else if k == 2 {
        QueryStep::HighlightMatches
    } else if k == 3 {
        QueryStep::EquivalenceFirst
    } else if k == 4 {
        QueryStep::CountFirst
    } else if k == 5 {
        QueryStep::SmallerCountFirst
    } else if k == 6 {
        QueryStep::ExtendFirst
    } else if k == 7 {
        QueryStep::SmallerWindowSecond
    } else if k == 8 {
        QueryStep::EquivalenceSecond
    } else if k == 9 {
        QueryStep::CountSecond
    } else if k == 10 {
        QueryStep::ComputeSecond
    } else if k == 11 {
        QueryStep::ExtendStartSecond
    } else {
        QueryStep::ExtendEndSecond
    }
}

/// The states before any query: the two suffix arrays in three steps each,
/// the tables, and one state per symbol of the alphabet.
pub open spec fn build_states(num_chars: nat) -> Seq<State> {
    seq![
        State::Init,
        State::LeftSA(0),
        State::LeftSA(1),
        State::LeftSA(2),
        State::RightSA(0),
        State::RightSA(1),
        State::RightSA(2),
        State::BothSA,
        State::CharCounts,
        State::LeftOcc,
        State::RightOcc,
    ] + Seq::new(num_chars, |i: int| State::Equivalence(i as usize))
}

/// The states of the first `rounds` extensions: thirteen steps each, the
/// extensions numbered from 1.
pub open spec fn query_states(rounds: nat) -> Seq<State> {
    Seq::new(13 * rounds, |k: int| State::Query((1 + k / 13) as usize, query_step(k % 13)))
}

/// The states of a text with `num_chars` different symbols and a query of
/// `ql` symbols: those of the build, a pause, thirteen for each extension
/// but the last, and the end of the query.
pub open spec fn state_list(num_chars: nat, ql: nat) -> Seq<State> {
    build_states(num_chars) + seq![State::Pause] + query_states(
        if ql >= 1 {
            (ql - 1) as nat
        } else {
            0
        },
    ) + seq![State::Query(ql as usize, QueryStep::PreviousDone)]
}

/// The `k`-th step of an extension.
fn step_at(k: usize) -> (r: QueryStep)
    requires
        k < 13,
    ensures
        r == query_step(k as int),
{
    if k == 0 {
        QueryStep::PreviousDone
    } else if k == 1 {
        QueryStep::HighlightChar
    } else if k == 2 {
        QueryStep::HighlightMatches
    } else if k == 3 {
        QueryStep::EquivalenceFirst
    } else if k == 4 {
        QueryStep::CountFirst
    } else if k == 5 {
        QueryStep::SmallerCountFirst
    } else if k == 6 {
        QueryStep::ExtendFirst
    } else if k == 7 {
        QueryStep::SmallerWindowSecond
    } else if k == 8 {
        QueryStep::EquivalenceSecond
    } else if k == 9 {
        QueryStep::CountSecond
    } else if k == 10 {
        QueryStep::ComputeSecond
    } else if k == 11 {
        QueryStep::ExtendStartSecond
    } else {
        QueryStep::ExtendEndSecond
    }
}

/// The states in which the index over `s` and the search for a query of `ql`
/// symbols are shown, in order.
pub fn states(s: &[u8], ql: usize) -> (v: Vec<State>)
    ensures
        v@ == state_list(distinct_symbols(s@), ql as nat),
{
    let mut v: Vec<State> = Vec::new();
    v.push(State::Init);
    v.push(State::LeftSA(0));
    v.push(State::LeftSA(1));
    v.push(State::LeftSA(2));
    v.push(State::RightSA(0));
    v.push(State::RightSA(1));
    v.push(State::RightSA(2));
    v.push(State::BothSA);
    v.push(State::CharCounts);
    v.push(State::LeftOcc);
    v.push(State::RightOcc);
    let num_chars = s_stats(s).0;
    let ghost head = v@;
    assert(v@ =~= build_states(0));
    let mut i: usize = 0;
    while i < num_chars
        invariant
            i <= num_chars,
            v@ == build_states(i as nat),
        decreases num_chars - i,
    {
        v.push(State::Equivalence(i));
        i += 1;
        assert(v@ =~= build_states(i as nat));
    }
    v.push(State::Pause);
    let ghost head = v@;
    assert(head =~= build_states(num_chars as nat) + seq![State::Pause]);
    assert(v@ =~= head + query_states(0));
    let mut i: usize = 1;
    while i < ql
        invariant
            1 <= i,
            i <= ql || (ql == 0 && i == 1),
            v@ == head + query_states((i - 1) as nat),
        decreases ql - i,
    {
        let ghost round = v@;
        let mut k: usize = 0;
        while k < 13
            invariant
                1 <= i < ql,
                k <= 13,
                v@ == round + Seq::new(
                    k as nat,
                    |j: int| State::Query(i, query_step(j)),
                ),
            decreases 13 - k,
        {
            v.push(State::Query(i, step_at(k)));
            k += 1;
            assert(v@ =~= round + Seq::new(k as nat, |j: int| State::Query(i, query_step(j))));
        }
        i += 1;
        assert(v@ =~= head + query_states((i - 1) as nat));
    }
    v.push(State::Query(ql, QueryStep::PreviousDone));
    assert(v@ =~= state_list(distinct_symbols(s@), ql as nat));
    v
}

/// Every state of the list numbers something that there is: a step of a
/// suffix array, a symbol, or an extension of the query; only the last
/// extension has no steps of its own.
pub proof fn lemma_state_list(num_chars: nat, ql: nat, at: int)
    requires
        0 <= at < state_list(num_chars, ql).len(),
        num_chars <= usize::MAX,
        ql <= usize::MAX,
    ensures
        match state_list(num_chars, ql)[at] {
            State::LeftSA(k) => k <= 2,
            State::RightSA(k) => k <= 2,
            State::Equivalence(k) => k < num_chars,
            State::Query(step, qs) => step <= ql && (ql >= 1 ==> step >= 1) && (qs
                != QueryStep::PreviousDone ==> step < ql),
            _ => true,
        },
{
    let build = build_states(num_chars);
    let rounds: nat = if ql >= 1 {
        (ql - 1) as nat
    } else {
        0
    };
    let k = at - build.len() - 1;
    if 0 <= k < 13 * rounds {
        assert(state_list(num_chars, ql)[at] == query_states(rounds)[k]);
    }
}

/// What a bidirectional index is an index of: the text, and the query it was
/// made with.
pub struct BiView {
    pub text: Seq<u8>,
    pub query: Seq<u8>,
}

/// The bidirectional index of a text.
pub struct BiBWT {
    s: Vec<u8>,
    q: Vec<u8>,
    s2: Vec<u8>,
    s_r: Vec<u8>,
    alph: Vec<u8>,
    char_count: Vec<usize>,
    char_start: Vec<usize>,
    sa: Vec<usize>,
    last: Vec<u8>,
    occ: Vec<Vec<usize>>,
    sa_r: Vec<usize>,
    last_r: Vec<u8>,
    occ_r: Vec<Vec<usize>>,
    states: Vec<State>,
}

/// A pattern together with its two ranges: `s..t` over the rows of the
/// suffix array and `sr..tr` over the rows of the reverse suffix array.
pub struct BiState {
    pub pattern: Vec<u8>,
    pub s: usize,
    pub t: usize,
    pub sr: usize,
    pub tr: usize,
}

/// A pattern together with its two ranges, as contracts speak of it.
pub struct BiStateView {
    pub pattern: Seq<u8>,
    pub s: int,
    pub t: int,
    pub sr: int,
    pub tr: int,
}

/// Where a search stands: nothing matched yet, a pattern that occurs, or a
/// pattern that does not occur, which no extension brings back.
#[derive(PartialEq, Eq, Clone, Copy, Debug, Structural)]
pub enum Phase {
    Unconstrained,
    Matching,
    Empty,
}

/// One extension of a pattern: a symbol put before it or behind it.
pub enum Extension {
    Left(u8),
    Right(u8),
}

/// The pattern that a sequence of extensions assembles, from none.
pub open spec fn assembled(moves: Seq<Extension>) -> Seq<u8>
    decreases moves.len(),
{
    if moves.len() == 0 {
        Seq::empty()
    } else {
        let p = assembled(moves.drop_last());
        match moves.last() {
            Extension::Left(c) => seq![c] + p,
            Extension::Right(c) => p.push(c),
        }
    }
}

impl View for BiState {
    type V = BiStateView;

    open spec fn view(&self) -> BiStateView {
        BiStateView {
            pattern: self.pattern@,
            s: self.s as int,
            t: self.t as int,
            sr: self.sr as int,
            tr: self.tr as int,
        }
    }
}

impl BiState {
    /// The number of rows in the range; none where the range is empty.
    pub fn range_size(&self) -> (r: usize)
        ensures
            r == if self@.s <= self@.t {
                self@.t - self@.s
            } else {
                0
            },
    {
        if self.s <= self.t {
            self.t - self.s
        } else {
            0
        }
    }

    /// The pattern that the ranges belong to.
    pub fn matched_pattern(&self) -> (r: &Vec<u8>)
        ensures
            r@ == self@.pattern,
    {
        &self.pattern
    }

    /// Where the search stands.
    pub fn phase(&self) -> (r: Phase)
        ensures
            r == phase_of(self@),
    {
        if self.s >= self.t {
            Phase::Empty
        } else if self.pattern.len() == 0 {
            Phase::Unconstrained
        } else {
            Phase::Matching
        }
    }
}

/// The phase of a state: `Empty` where the range holds no row,
/// `Unconstrained` where no symbol is matched yet, else `Matching`.
pub open spec fn phase_of(st: BiStateView) -> Phase {
    if st.s >= st.t {
        Phase::Empty
    } else if st.pattern.len() == 0 {
        Phase::Unconstrained
    } else {
        Phase::Matching
    }
}

/// The last column of the sorted rotations of the reversed text: for each
/// row of the reverse suffix array the symbol that follows the prefix, the
/// first symbol of the text after the whole text.
fn mirrored_last_column(t: &[u8], sar: &Vec<usize>) -> (l: Vec<u8>)
    requires
        t@.len() > 0,
        sar@.len() == t@.len(),
        forall|j: int| 0 <= j < sar@.len() ==> 1 <= #[trigger] sar[j] <= t@.len(),
    ensures
        l@ == last_column(t@.reverse(), mirrored_rows(sar@)),
{
    let n = t.len();
    let ghost rows = mirrored_rows(sar@);
    let mut l: Vec<u8> = Vec::new();
    let mut j: usize = 0;
    while j < n
        invariant
            n == t@.len(),
            n > 0,
            sar@.len() == n,
            rows == mirrored_rows(sar@),
            forall|k: int| 0 <= k < n ==> 1 <= #[trigger] sar[k] <= n,
            j <= n,
            l.len() == j,
            forall|k: int| 0 <= k < j ==> #[trigger] l[k] == rot(t@.reverse(), rows[k], -1),
        decreases n - j,
    {
        let x = sar[j];
        proof {
            lemma_rot_reversed(t@, rows[j as int], -1);
            lemma_wrap(x as int, 0, n as int);
            lemma_wrap(0, 0, n as int);
            assert(-1 - rows[j as int] + 1 == x - n);
        }
        if x == n {
            l.push(t[0]);
        } else {
            l.push(t[x]);
        }
        j += 1;
    }
    assert(l@ =~= last_column(t@.reverse(), rows));
    l
}

/// A reversed text has the alphabet and the C-array of the text.
proof fn lemma_tables_reversed(t: Seq<u8>, alph: Seq<u8>, starts: Seq<usize>)
    requires
        is_alphabet(alph, t),
        is_char_start(starts, alph, t),
    ensures
        is_alphabet(alph, t.reverse()),
        is_char_start(starts, alph, t.reverse()),
{
    let r = t.reverse();
    let n = t.len() as int;
    assert forall|k: int| 0 <= k < alph.len() implies r.contains(#[trigger] alph[k]) by {
        let i = choose|i: int| 0 <= i < t.len() && t[i] == alph[k];
        assert(r[n - 1 - i] == alph[k]);
    }
    assert forall|i: int| 0 <= i < r.len() implies alph.contains(#[trigger] r[i]) by {
        assert(alph.contains(t[n - 1 - i]));
    }
    assert forall|k: int| 0 <= k < alph.len() implies #[trigger] starts[k] == crate::rotation::smaller(
        r,
        alph[k],
    ) by {
        lemma_smaller_reversed(t, alph[k]);
    }
}

/// One extension over the tables of one side.
fn extend(
    alph: &Vec<u8>,
    starts: &Vec<usize>,
    occ: &Vec<Vec<usize>>,
    c: u8,
    s: usize,
    e: usize,
    s2: usize,
    Ghost(u): Ghost<Seq<u8>>,
    Ghost(urows): Ghost<Seq<int>>,
    Ghost(vrows): Ghost<Seq<int>>,
    Ghost(p): Ghost<Seq<u8>>,
    Ghost(e2): Ghost<int>,
) -> (r: (usize, usize, usize, usize))
    requires
        is_index(u, urows, alph@, starts@, occ@),
        rows_sorted(u.reverse(), vrows),
        dual_range(u, urows, vrows, p, s as int, e as int, s2 as int, e2),
        e2 <= usize::MAX,
    ensures
        (r.0 as int, r.1 as int, r.2 as int, r.3 as int) == extend_ranges(
            u,
            urows,
            c,
            s as int,
            e as int,
            s2 as int,
        ),
        dual_range(u, urows, vrows, seq![c] + p, r.0 as int, r.1 as int, r.2 as int, r.3 as int),
        r.1 - r.0 == r.3 - r.2,
{
    let ghost l = last_column(u, urows);
    proof {
        lemma_extend(u, urows, vrows, p, s as int, e as int, s2 as int, e2, c);
    }
    match symbol_index(alph, c) {
        None => {
            proof {
                assert(!u.contains(c)) by {
                    if u.contains(c) {
                        let i = choose|i: int| 0 <= i < u.len() && u[i] == c;
                        assert(alph@.contains(u[i]));
                    }
                }
                lemma_rank_of_unknown(u, urows, c, s as int);
                lemma_rank_of_unknown(u, urows, c, e as int);
            }
            (0, 0, 0, 0)
        },
        Some(ci) => {
            let (ns, ne) = search_step(starts, occ, ci, s, e, Ghost(u), Ghost(urows), Ghost(alph@));
            if ns >= ne {
                (0, 0, 0, 0)
            } else {
                proof {
                    assert forall|j: int| 0 <= j < l.len() implies alph@.contains(
                        #[trigger] l[j],
                    ) by {
                        lemma_last_column_symbols(u, urows, alph@, j);
                    }
                }
                let less = count_smaller_in_range(occ, ci, s, e, Ghost(alph@), Ghost(l));
                (ns, ne, s2 + less, s2 + less + (ne - ns))
            }
        },
    }
}

impl View for BiBWT {
    type V = BiView;

    closed spec fn view(&self) -> BiView {
        BiView { text: self.s@, query: self.q@ }
    }
}

impl BiBWT {
    /// The suffix array of the text.
    pub closed spec fn sa(&self) -> Seq<usize> {
        self.sa@
    }

    /// The reverse suffix array of the text.
    pub closed spec fn sar(&self) -> Seq<usize> {
        self.sa_r@
    }

    /// The alphabet of the text.
    pub closed spec fn symbols(&self) -> Seq<u8> {
        self.alph@
    }

    /// The start positions of the sorted rotations of the text.
    pub open spec fn rows(&self) -> Seq<int> {
        rows_of(self.sa())
    }

    /// The start positions of the sorted rotations of the reversed text.
    pub open spec fn rows_r(&self) -> Seq<int> {
        mirrored_rows(self.sar())
    }

    /// The tables are those of the text and of its reverse.
    #[verifier::opaque]
    pub closed spec fn wf(&self) -> bool {
        &&& valid_text(self.s@)
        &&& self.s2@ == self.s@ + self.s@ + self.s@
        &&& self.s_r@ == self.s@.reverse()
        &&& is_suffix_array(self.s@, self.sa@)
        &&& is_reverse_suffix_array(self.s@, self.sa_r@)
        &&& is_char_count(self.char_count@, self.alph@, self.s@)
        &&& self.last@ == last_column(self.s@, rows_of(self.sa@))
        &&& self.last_r@ == last_column(self.s@.reverse(), mirrored_rows(self.sa_r@))
        &&& is_index(self.s@, rows_of(self.sa@), self.alph@, self.char_start@, self.occ@)
        &&& is_index(
            self.s@.reverse(),
            mirrored_rows(self.sa_r@),
            self.alph@,
            self.char_start@,
            self.occ_r@,
        )
        &&& self.states@ == state_list(distinct_symbols(self.s@), self.q@.len())
    }

    /// What the pictures read off the index: how long its tables are, and
    /// what they hold.
    spec fn shape(&self) -> bool {
        let n = self.s@.len();
        let na = self.alph@.len();
        &&& n > 0
        &&& self.s2@ == self.s@ + self.s@ + self.s@
        &&& self.sa@.len() == n
        &&& forall|j: int| 0 <= j < n ==> #[trigger] self.sa@[j] < n
        &&& self.sa_r@.len() == n
        &&& forall|j: int| 0 <= j < n ==> 1 <= #[trigger] self.sa_r@[j] <= n
        &&& forall|a: int, b: int|
            0 <= a < b < na ==> #[trigger] self.alph@[a] < #[trigger] self.alph@[b]
        &&& self.char_count@.len() == na
        &&& self.char_start@.len() == na
        &&& forall|k: int|
            0 <= k < na ==> #[trigger] self.char_start@[k] == crate::rotation::smaller(
                self.s@,
                self.alph@[k],
            )
        &&& forall|k: int|
            0 <= k < na ==> #[trigger] self.char_count@[k] == symbol_count(
                self.s@,
                self.alph@[k] as int,
            )
        &&& self.last@ == last_column(self.s@, rows_of(self.sa@))
        &&& self.last_r@ == last_column(self.s@.reverse(), mirrored_rows(self.sa_r@))
        &&& self.occ@.len() == na
        &&& self.occ_r@.len() == na
        &&& forall|k: int| 0 <= k < na ==> (#[trigger] self.occ@[k])@.len() == n + 1
        &&& forall|k: int| 0 <= k < na ==> (#[trigger] self.occ_r@[k])@.len() == n + 1
        &&& forall|k: int, j: int|
            0 <= k < na && 0 <= j <= n ==> #[trigger] self.occ@[k]@[j] == crate::rotation::rank(
                self.last@,
                self.alph@[k],
                j,
            )
        &&& forall|k: int, j: int|
            0 <= k < na && 0 <= j <= n ==> #[trigger] self.occ_r@[k]@[j] == crate::rotation::rank(
                self.last_r@,
                self.alph@[k],
                j,
            )
        &&& self.states@ == state_list(distinct_symbols(self.s@), self.q@.len())
    }

    /// A well-formed index has the shape that the pictures rely on.
    proof fn lemma_shape(&self)
        requires
            self.wf(),
        ensures
            self.shape(),
    {
        reveal(BiBWT::wf);
    }

    /// What a well-formed index holds of its text.
    pub proof fn lemma_wf(&self)
        requires
            self.wf(),
        ensures
            valid_text(self@.text),
            is_suffix_array(self@.text, self.sa()),
            is_reverse_suffix_array(self@.text, self.sar()),
            rows_sorted(self@.text, self.rows()),
            rows_sorted(self@.text.reverse(), self.rows_r()),
            is_alphabet(self.symbols(), self@.text),
    {
        reveal(BiBWT::wf);
    }

    /// The ranges of the state are those of its pattern: `s..t` are the rows
    /// of the suffix array whose rotation begins with the pattern, and
    /// `sr..tr` the rows of the reverse suffix array whose rotation of the
    /// reversed text begins with the pattern reversed.
    pub open spec fn valid_state(&self, st: BiStateView) -> bool {
        dual_range(self@.text, self.rows(), self.rows_r(), st.pattern, st.s, st.t, st.sr, st.tr)
    }

    /// The state with no symbol matched: both ranges hold every row.
    pub open spec fn initial(&self) -> BiStateView {
        BiStateView {
            pattern: Seq::empty(),
            s: 0,
            t: self@.text.len() as int,
            sr: 0,
            tr: self@.text.len() as int,
        }
    }

    /// The state after `c` is put before the pattern of `st`.
    pub open spec fn extended_left(&self, st: BiStateView, c: u8) -> BiStateView {
        let r = extend_ranges(self@.text, self.rows(), c, st.s, st.t, st.sr);
        BiStateView { pattern: seq![c] + st.pattern, s: r.0, t: r.1, sr: r.2, tr: r.3 }
    }

    /// The state after `c` is put behind the pattern of `st`.
    pub open spec fn extended_right(&self, st: BiStateView, c: u8) -> BiStateView {
        let r = extend_ranges(self@.text.reverse(), self.rows_r(), c, st.sr, st.tr, st.s);
        BiStateView { pattern: st.pattern.push(c), s: r.2, t: r.3, sr: r.0, tr: r.1 }
    }

    /// The state that a sequence of extensions leads to from the initial
    /// state.
    pub open spec fn run(&self, moves: Seq<Extension>) -> BiStateView
        decreases moves.len(),
    {
        if moves.len() == 0 {
            self.initial()
        } else {
            let st = self.run(moves.drop_last());
            match moves.last() {
                Extension::Left(c) => self.extended_left(st, c),
                Extension::Right(c) => self.extended_right(st, c),
            }
        }
    }

    /// An extension at the front keeps a state valid, and leaves a state
    /// without rows without rows.
    pub proof fn lemma_extended_left(&self, st: BiStateView, c: u8)
        requires
            self.wf(),
            self.valid_state(st),
        ensures
            self.valid_state(self.extended_left(st, c)),
            phase_of(st) == Phase::Empty ==> phase_of(self.extended_left(st, c)) == Phase::Empty,
    {
        self.lemma_wf();
        lemma_extend_front(
            self@.text,
            self.rows(),
            self.rows_r(),
            st.pattern,
            st.s,
            st.t,
            st.sr,
            st.tr,
            c,
        );
    }

    /// An extension at the end keeps a state valid, and leaves a state
    /// without rows without rows.
    pub proof fn lemma_extended_right(&self, st: BiStateView, c: u8)
        requires
            self.wf(),
            self.valid_state(st),
        ensures
            self.valid_state(self.extended_right(st, c)),
            phase_of(st) == Phase::Empty ==> phase_of(self.extended_right(st, c)) == Phase::Empty,
    {
        self.lemma_wf();
        lemma_extend_back(
            self@.text,
            self.rows(),
            self.rows_r(),
            st.pattern,
            st.s,
            st.t,
            st.sr,
            st.tr,
            c,
        );
        lemma_dual_range_size(
            self@.text,
            self.rows(),
            self.rows_r(),
            st.pattern,
            st.s,
            st.t,
            st.sr,
            st.tr,
        );
    }

    /// The order of extensions does not matter. Whatever sequence of
    /// extensions at the front and at the end assembles a pattern, the state
    /// it leads to holds that pattern, its two ranges have the same length,
    /// which is the number of rotations of the text that begin with the
    /// pattern, and each range is the one that backward search over the
    /// index of its side finds for the whole pattern.
    pub proof fn lemma_order_independence(&self, moves: Seq<Extension>)
        requires
            self.wf(),
        ensures
            ({
                let st = self.run(moves);
                let p = assembled(moves);
                &&& st.pattern == p
                &&& self.valid_state(st)
                &&& st.t - st.s == st.tr - st.sr
                &&& st.t - st.s == cyclic_occurrences(self@.text, p)
                &&& (st.s, st.t) == search_range(self@.text, self.rows(), p)
                &&& (st.sr, st.tr) == search_range(self@.text.reverse(), self.rows_r(), p.reverse())
            }),
        decreases moves.len(),
    {
        self.lemma_wf();
        let text = self@.text;
        let turned = text.reverse();
        let st = self.run(moves);
        let p = assembled(moves);
        if moves.len() == 0 {
            crate::rotation::lemma_range_of_empty(text, self.rows());
            crate::rotation::lemma_range_of_empty(turned, self.rows_r());
            assert(p.reverse() =~= Seq::<u8>::empty());
        } else {
            let before = self.run(moves.drop_last());
            self.lemma_order_independence(moves.drop_last());
            match moves.last() {
                Extension::Left(c) => {
                    self.lemma_extended_left(before, c);
                },
                Extension::Right(c) => {
                    self.lemma_extended_right(before, c);
                },
            }
        }
        lemma_search_range(text, self.rows(), p);
        lemma_search_range(turned, self.rows_r(), p.reverse());
        let found = search_range(text, self.rows(), p);
        let found_r = search_range(turned, self.rows_r(), p.reverse());
        crate::rotation::lemma_range_unique(text, self.rows(), p, st.s, st.t, found.0, found.1);
        crate::rotation::lemma_range_unique(
            turned,
            self.rows_r(),
            p.reverse(),
            st.sr,
            st.tr,
            found_r.0,
            found_r.1,
        );
        lemma_dual_range_size(text, self.rows(), self.rows_r(), p, st.s, st.t, st.sr, st.tr);
        lemma_range_size(text, self.rows(), p, st.s, st.t);
    }

    /// Builds the bidirectional index of the text `s`, with the states of a
    /// search for the query `q`. Refuses a text that is empty or whose last
    /// symbol is not strictly smaller than all others.
    pub fn new(s: Vec<u8>, q: Vec<u8>) -> (r: Result<BiBWT, ConstructionError>)
        ensures
            match r {
                Ok(index) => valid_text(s@) && index.wf() && index@.text == s@ && index@.query
                    == q@,
                Err(e) => !valid_text(s@) && (e == ConstructionError::EmptyInput <==> s@.len()
                    == 0),
            },
    {
        reveal(BiBWT::wf);
        let sa_r = match build_reverse(s.as_slice()) {
            Ok(sa_r) => sa_r,
            Err(e) => {
                return Err(e);
            },
        };
        let alph = alphabet(s.as_slice());
        let sa = sort_suffixes(s.as_slice());
        let char_count = char_counts(&alph, s.as_slice());
        let char_start = char_starts(&alph, s.as_slice());
        let last = last_column_of(s.as_slice(), &sa);
        let occ = occ_table(&alph, last.as_slice());
        let s_r = rev(s.as_slice());
        let last_r = mirrored_last_column(s.as_slice(), &sa_r);
        let occ_r = occ_table(&alph, last_r.as_slice());
        let states = states(s.as_slice(), q.len());
        let mut s2 = slice_to_vec(s.as_slice());
        s2.extend_from_slice(s.as_slice());
        s2.extend_from_slice(s.as_slice());
        assert(s2@ =~= s@ + s@ + s@);
        proof {
            lemma_suffix_array_rows(s@, sa@);
            lemma_reverse_suffix_array_rows(s@, sa_r@);
            lemma_tables_reversed(s@, alph@, char_start@);
        }
        Ok(
            BiBWT {
                s,
                q,
                s2,
                s_r,
                alph,
                char_count,
                char_start,
                sa,
                last,
                occ,
                sa_r,
                last_r,
                occ_r,
                states,
            },
        )
    }

    /// Builds the bidirectional index of `text`, with no query.
    pub fn build(text: Vec<u8>) -> (r: Result<BiBWT, ConstructionError>)
        ensures
            match r {
                Ok(index) => valid_text(text@) && index.wf() && index@.text == text@
                    && index@.query.len() == 0,
                Err(e) => !valid_text(text@) && (e == ConstructionError::EmptyInput
                    <==> text@.len() == 0),
            },
    {
        BiBWT::new(text, Vec::new())
    }

    /// The state with no symbol matched.
    pub fn initial_state(&self) -> (r: BiState)
        requires
            self.wf(),
        ensures
            r@ == self.initial(),
            self.valid_state(r@),
    {
        reveal(BiBWT::wf);
        let n = self.s.len();
        proof {
            self.lemma_wf();
            crate::rotation::lemma_range_of_empty(self.s@, rows_of(self.sa@));
            crate::rotation::lemma_range_of_empty(self.s@.reverse(), mirrored_rows(self.sa_r@));
            assert(Seq::<u8>::empty().reverse() =~= Seq::<u8>::empty());
        }
        BiState { pattern: Vec::new(), s: 0, t: n, sr: 0, tr: n }
    }

    /// Puts `c` before the pattern of `state`.
    pub fn extend_left(&self, state: &BiState, c: u8) -> (r: BiState)
        requires
            self.wf(),
            self.valid_state(state@),
        ensures
            r@ == self.extended_left(state@, c),
            self.valid_state(r@),
            r@.t - r@.s == r@.tr - r@.sr,
            r@.t - r@.s == cyclic_occurrences(self@.text, r@.pattern),
    {
        reveal(BiBWT::wf);
        proof {
            self.lemma_wf();
        }
        let (s, t, sr, tr) = extend(
            &self.alph,
            &self.char_start,
            &self.occ,
            c,
            state.s,
            state.t,
            state.sr,
            Ghost(self.s@),
            Ghost(rows_of(self.sa@)),
            Ghost(mirrored_rows(self.sa_r@)),
            Ghost(state.pattern@),
            Ghost(state.tr as int),
        );
        let mut pattern: Vec<u8> = Vec::new();
        pattern.push(c);
        pattern.extend_from_slice(state.pattern.as_slice());
        proof {
            assert(pattern@ =~= seq![c] + state.pattern@);
            lemma_range_size(self.s@, rows_of(self.sa@), pattern@, s as int, t as int);
        }
        BiState { pattern, s, t, sr, tr }
    }

    /// Puts `c` behind the pattern of `state`.
    pub fn extend_right(&self, state: &BiState, c: u8) -> (r: BiState)
        requires
            self.wf(),
            self.valid_state(state@),
        ensures
            r@ == self.extended_right(state@, c),
            self.valid_state(r@),
            r@.t - r@.s == r@.tr - r@.sr,
            r@.t - r@.s == cyclic_occurrences(self@.text, r@.pattern),
    {
        reveal(BiBWT::wf);
        let ghost text = self.s@;
        let ghost turned = self.s@.reverse();
        let ghost rows = rows_of(self.sa@);
        let ghost rows_r = mirrored_rows(self.sa_r@);
        let ghost p = state.pattern@;
        proof {
            self.lemma_wf();
            lemma_turn(
                text,
                rows,
                rows_r,
                p,
                state.s as int,
                state.t as int,
                state.sr as int,
                state.tr as int,
            );
        }
        let (sr, tr, s, t) = extend(
            &self.alph,
            &self.char_start,
            &self.occ_r,
            c,
            state.sr,
            state.tr,
            state.s,
            Ghost(turned),
            Ghost(rows_r),
            Ghost(rows),
            Ghost(p.reverse()),
            Ghost(state.t as int),
        );
        let mut pattern = slice_to_vec(state.pattern.as_slice());
        pattern.push(c);
        proof {
            let grown = seq![c] + p.reverse();
            lemma_turn(turned, rows_r, rows, grown, sr as int, tr as int, s as int, t as int);
            assert(grown.reverse() =~= p.push(c));
            assert(pattern@ =~= p.push(c));
            lemma_range_size(text, rows, pattern@, s as int, t as int);
        }
        BiState { pattern, s, t, sr, tr }
    }

    /// The two ranges of `q`, found by scanning the sorted rotations of the
    /// text and of its reverse.
    pub fn query_ranges(&self, q: &[u8]) -> (r: (Range<usize>, Range<usize>))
        requires
            self.wf(),
        ensures
            is_scan_range(self@.text, self.rows(), q@, r.0.start as int, r.0.end as int),
            is_scan_range(
                self@.text.reverse(),
                self.rows_r(),
                q@.reverse(),
                r.1.start as int,
                r.1.end as int,
            ),
            self.valid_state(
                BiStateView {
                    pattern: q@,
                    s: r.0.start as int,
                    t: r.0.end as int,
                    sr: r.1.start as int,
                    tr: r.1.end as int,
                },
            ),
    {
        reveal(BiBWT::wf);
        let n = self.s.len();
        let forward = scan_range(self.s.as_slice(), &self.sa, q);
        let mut turned_rows: Vec<usize> = Vec::new();
        let mut j: usize = 0;
        while j < n
            invariant
                n == self.s@.len(),
                self.sa_r@.len() == n,
                forall|k: int| 0 <= k < n ==> 1 <= #[trigger] self.sa_r@[k] <= n,
                j <= n,
                turned_rows@.len() == j,
                forall|k: int| 0 <= k < j ==> #[trigger] turned_rows@[k] == n - self.sa_r@[k],
            decreases n - j,
        {
            turned_rows.push(n - self.sa_r[j]);
            j += 1;
        }
        let turned_q = rev(q);
        assert(rows_of(turned_rows@) =~= mirrored_rows(self.sa_r@));
        let backward = scan_range(self.s_r.as_slice(), &turned_rows, turned_q.as_slice());
        proof {
            self.lemma_wf();
            crate::scan::lemma_scan_range(
                self.s@,
                rows_of(self.sa@),
                q@,
                forward.start as int,
                forward.end as int,
            );
            crate::scan::lemma_scan_range(
                self.s@.reverse(),
                mirrored_rows(self.sa_r@),
                q@.reverse(),
                backward.start as int,
                backward.end as int,
            );
        }
        (forward, backward)
    }

    /// Whether the frames fit on a canvas, every symbol can be written, and
    /// the query is short enough to stand beside the text: no longer than
    /// the text, and no longer than ten symbols.
    pub fn fits(&self) -> (b: bool)
        requires
            self.wf(),
        ensures
            b == self.drawable(),
    {
        let n = self.s.len();
        let ql = self.q.len();
        if n < 2 || n > 30_000_000 || ql > n || ql > 10 || self.alph.len() > 256 {
            return false;
        }
        let mut i: usize = 0;
        while i < n
            invariant
                n == self.s@.len(),
                i <= n,
                forall|k: int| 0 <= k < i ==> #[trigger] self.s@[k] < 128,
            decreases n - i,
        {
            if self.s[i] >= 128 {
                return false;
            }
            i += 1;
        }
        let mut i: usize = 0;
        while i < ql
            invariant
                ql == self.q@.len(),
                i <= ql,
                forall|k: int| 0 <= k < i ==> #[trigger] self.q@[k] < 128,
            decreases ql - i,
        {
            if self.q[i] >= 128 {
                return false;
            }
            i += 1;
        }
        true
    }

    /// The text.
    pub fn text(&self) -> (r: &Vec<u8>)
        ensures
            r@ == self@.text,
    {
        &self.s
    }

    /// The query.
    pub fn query(&self) -> (r: &Vec<u8>)
        ensures
            r@ == self@.query,
    {
        &self.q
    }

    /// The suffix array: the start positions of the suffixes in sorted order.
    pub fn suffix_array(&self) -> (r: &Vec<usize>)
        requires
            self.wf(),
        ensures
            r@ == self.sa(),
            is_suffix_array(self@.text, r@),
    {
        reveal(BiBWT::wf);
        &self.sa
    }

    /// The reverse suffix array: the lengths of the prefixes in the sorted
    /// order of the reversed prefixes.
    pub fn reverse_suffix_array(&self) -> (r: &Vec<usize>)
        requires
            self.wf(),
        ensures
            r@ == self.sar(),
            is_reverse_suffix_array(self@.text, r@),
    {
        reveal(BiBWT::wf);
        &self.sa_r
    }

    /// The symbols of the text, each once, in increasing order.
    pub fn alphabet(&self) -> (r: &Vec<u8>)
        requires
            self.wf(),
        ensures
            r@ == self.symbols(),
            is_alphabet(r@, self@.text),
    {
        reveal(BiBWT::wf);
        &self.alph
    }

    /// For each symbol of the alphabet, how often it occurs in the text.
    pub fn char_count(&self) -> (r: &Vec<usize>)
        requires
            self.wf(),
        ensures
            is_char_count(r@, self.symbols(), self@.text),
    {
        reveal(BiBWT::wf);
        &self.char_count
    }

    /// The C-array, which both sides share: for each symbol of the alphabet,
    /// how many symbols of the text are smaller.
    pub fn char_start(&self) -> (r: &Vec<usize>)
        requires
            self.wf(),
        ensures
            is_char_start(r@, self.symbols(), self@.text),
            is_char_start(r@, self.symbols(), self@.text.reverse()),
    {
        reveal(BiBWT::wf);
        &self.char_start
    }

    /// The last column of the sorted rotations of the text.
    pub fn last_column(&self) -> (r: &Vec<u8>)
        requires
            self.wf(),
        ensures
            r@ == last_column(self@.text, self.rows()),
    {
        reveal(BiBWT::wf);
        &self.last
    }

    /// The last column of the sorted rotations of the reversed text: for
    /// each row of the reverse suffix array the symbol behind the prefix.
    pub fn last_column_r(&self) -> (r: &Vec<u8>)
        requires
            self.wf(),
        ensures
            r@ == last_column(self@.text.reverse(), self.rows_r()),
    {
        reveal(BiBWT::wf);
        &self.last_r
    }

    /// The rank table of the last column.
    pub fn occ(&self) -> (r: &Vec<Vec<usize>>)
        requires
            self.wf(),
        ensures
            is_occ_table(r@, self.symbols(), last_column(self@.text, self.rows())),
    {
        reveal(BiBWT::wf);
        &self.occ
    }

    /// The rank table of the last column of the reverse side.
    pub fn occ_r(&self) -> (r: &Vec<Vec<usize>>)
        requires
            self.wf(),
        ensures
            is_occ_table(r@, self.symbols(), last_column(self@.text.reverse(), self.rows_r())),
    {
        reveal(BiBWT::wf);
        &self.occ_r
    }

    /// The states in which the index and the search are shown.
    pub fn states(&self) -> (r: &Vec<State>)
        requires
            self.wf(),
        ensures
            r@ == state_list(distinct_symbols(self@.text), self@.query.len()),
    {
        reveal(BiBWT::wf);
        &self.states
    }
}

} // verus!

//! The FM-index of a text: the suffix array, the last column of the sorted
//! rotations and its rank table, with backward search over them.
use crate::canvas::{Color, GREEN};
use crate::counting::count_in;
use crate::rotation::{
    cyclic_occurrences, last_column, lemma_cyclic_is_plain, lemma_lf, lemma_range_size,
    lemma_sentinel_last, lf, range_matches, rot_match, row_of, rows_sorted, sym_is, wraps,
};
use crate::scan::{find_position, is_scan_range, scan_range};
use crate::suffix_array::{check_text, lemma_suffix_array_rows, rows_of, sort_suffixes};
use crate::tables::{
    alphabet, backward_search, char_counts, char_starts, is_alphabet, is_char_count, is_char_start,
    is_index, is_occ_table, last_column_of, occ_table, search_range, symbol_index,
};
use crate::text::{ConstructionError, is_suffix_array, occurrences, valid_text};
use crate::viz::Viz;
use itertools::Itertools;
use vstd::prelude::*;
use vstd::slice::{slice_subrange, slice_to_vec};

pub mod frames;

verus! {

/// The steps in which the index is shown being built and queried.
#[derive(PartialEq, Eq, PartialOrd, Ord, Clone, Copy, Debug, Structural)]
pub enum State {
    Init,
    Rotations,
    SortedRotations,
    FirstLast,
    /// One state per occurrence of the most frequent symbol.
    LfMap(usize),
    /// One state per symbol.
    Counts(usize),
    /// All of the symbol counts.
    CountsDone,
    /// One state per symbol.
    Occ(usize),
    /// All of the rank table.
    OccDone,
    /// One state per symbol of the query, and one more.
    Query(usize),
}

/// Number of times the symbol `c` occurs in `t`.
pub open spec fn symbol_count(t: Seq<u8>, c: int) -> nat {
    count_in(0, t.len() as int, sym_is(t, c as u8))
}

/// Number of different symbols in `t`.
pub open spec fn distinct_symbols(t: Seq<u8>) -> nat {
    count_in(0, 256, |c: int| symbol_count(t, c) > 0)
}

/// The largest number of times that one of the symbols below `k` occurs in
/// `t`.
pub open spec fn max_symbol_count(t: Seq<u8>, k: int) -> nat
    decreases k,
{
    if k <= 0 {
        0
    } else {
        let rest = max_symbol_count(t, k - 1);
        if symbol_count(t, k - 1) > rest {
            symbol_count(t, k - 1)
        } else {
            rest
        }
    }
}

/// The number of different symbols of `s`, and how often its most frequent
/// symbol occurs.
pub fn s_stats(s: &[u8]) -> (r: (usize, usize))
    ensures
        r.0 == distinct_symbols(s@),
        r.1 == max_symbol_count(s@, 256),
{
    let n = s.len();
    let mut cnts: Vec<usize> = Vec::new();
    let mut c: usize = 0;
    while c < 256
        invariant
            c <= 256,
            cnts.len() == c,
            forall|k: int| 0 <= k < c ==> #[trigger] cnts[k] == 0,
        decreases 256 - c,
    {
        cnts.push(0);
        c += 1;
    }
    let mut i: usize = 0;
    while i < n
        invariant
            n == s@.len(),
            i <= n,
            cnts.len() == 256,
            forall|k: int|
                0 <= k < 256 ==> #[trigger] cnts[k] == count_in(0, i as int, sym_is(s@, k as u8)),
        decreases n - i,
    {
        let sym = s[i] as usize;
        proof {
            crate::counting::lemma_count_bound(0, i as int, sym_is(s@, sym as u8));
        }
        let ghost before = cnts@;
        cnts.set(sym, cnts[sym] + 1);
        proof {
            assert forall|k: int| 0 <= k < 256 implies #[trigger] cnts[k] == count_in(
                0,
                i + 1,
                sym_is(s@, k as u8),
            ) by {
                assert(before[k] == count_in(0, i as int, sym_is(s@, k as u8)));
            }
        }
        i += 1;
    }
    let mut num_chars: usize = 0;
    let mut max_char_cnt: usize = 0;
    let mut c: usize = 0;
    while c < 256
        invariant
            n == s@.len(),
            c <= 256,
            cnts.len() == 256,
            forall|k: int| 0 <= k < 256 ==> #[trigger] cnts[k] == symbol_count(s@, k),
            num_chars <= c,
            num_chars == count_in(0, c as int, |k: int| symbol_count(s@, k) > 0),
            max_char_cnt == max_symbol_count(s@, c as int),
        decreases 256 - c,
    {
        if cnts[c] > 0 {
            num_chars += 1;
        }
        if cnts[c] > max_char_cnt {
            max_char_cnt = cnts[c];
        }
        c += 1;
    }
    (num_chars, max_char_cnt)
}

const SMALL_COLOUR: Color = GREEN;

const LARGE_COLOUR: Color = (240, 240, 240);

/// The colour of a cell: the marked one, green, where `b` holds, the plain
/// one where it does not.
pub open spec fn marked(b: bool) -> Color {
    if b {
        GREEN
    } else {
        (240u8, 240u8, 240u8)
    }
}

/// The colour of a cell: the marked one where `condition` holds, the plain
/// one where it does not.
pub fn to_c(condition: bool) -> (r: Color)
    ensures
        r == marked(condition),
{
    if condition {
        SMALL_COLOUR
    } else {
        LARGE_COLOUR
    }
}

/// The states of a text whose most frequent symbol occurs `max_char_cnt`
/// times and that holds `num_chars` different symbols, with a query of `ql`
/// symbols.
pub open spec fn state_list(max_char_cnt: nat, num_chars: nat, ql: nat) -> Seq<State> {
    seq![State::Init, State::Rotations, State::SortedRotations, State::FirstLast] + Seq::new(
        max_char_cnt,
        |i: int| State::LfMap(i as usize),
    ) + Seq::new(num_chars, |i: int| State::Counts(i as usize)) + seq![State::CountsDone]
        + Seq::new(num_chars, |i: int| State::Occ(i as usize)) + seq![State::OccDone] + Seq::new(
        ql + 1,
        |i: int| State::Query(i as usize),
    )
}

/// Every state of the list numbers something that there is: an occurrence
/// of the most frequent symbol, a symbol, or a step of the query.
pub proof fn lemma_state_list(max_char_cnt: nat, num_chars: nat, ql: nat, at: int)
    requires
        0 <= at < state_list(max_char_cnt, num_chars, ql).len(),
        max_char_cnt <= usize::MAX,
        num_chars <= usize::MAX,
        ql <= usize::MAX,
    ensures
        match state_list(max_char_cnt, num_chars, ql)[at] {
            State::LfMap(k) => k < max_char_cnt,
            State::Counts(k) => k < num_chars,
            State::Occ(k) => k < num_chars,
            State::Query(k) => k <= ql,
            _ => true,
        },
{
}

/// The states in which the index over `s` and the search for a query of `ql`
/// symbols are shown, in order.
pub fn states(s: &[u8], ql: usize) -> (v: Vec<State>)
    ensures
        v@ == state_list(max_symbol_count(s@, 256), distinct_symbols(s@), ql as nat),
{
    let (num_chars, max_char_cnt) = s_stats(s);
    let mut v: Vec<State> = Vec::new();
    v.push(State::Init);
    v.push(State::Rotations);
    v.push(State::SortedRotations);
    v.push(State::FirstLast);
    let ghost head = seq![State::Init, State::Rotations, State::SortedRotations, State::FirstLast];
    assert(v@ =~= head);
    let mut i: usize = 0;
    while i < max_char_cnt
        invariant
            i <= max_char_cnt,
            v@ == head + Seq::new(i as nat, |i: int| State::LfMap(i as usize)),
        decreases max_char_cnt - i,
    {
        v.push(State::LfMap(i));
        i += 1;
        assert(v@ =~= head + Seq::new(i as nat, |i: int| State::LfMap(i as usize)));
    }
    let ghost head = v@;
    let mut i: usize = 0;
    assert(v@ =~= head + Seq::new(0, |i: int| State::Counts(i as usize)));
    while i < num_chars
        invariant
            i <= num_chars,
            v@ == head + Seq::new(i as nat, |i: int| State::Counts(i as usize)),
        decreases num_chars - i,
    {
        v.push(State::Counts(i));
        i += 1;
        assert(v@ =~= head + Seq::new(i as nat, |i: int| State::Counts(i as usize)));
    }
    v.push(State::CountsDone);
    let ghost head = v@;
    let mut i: usize = 0;
    assert(v@ =~= head + Seq::new(0, |i: int| State::Occ(i as usize)));
    while i < num_chars
        invariant
            i <= num_chars,
            v@ == head + Seq::new(i as nat, |i: int| State::Occ(i as usize)),
        decreases num_chars - i,
    {
        v.push(State::Occ(i));
        i += 1;
        assert(v@ =~= head + Seq::new(i as nat, |i: int| State::Occ(i as usize)));
    }
    v.push(State::OccDone);
    let ghost head = v@;
    let mut i: usize = 0;
    assert(v@ =~= head + Seq::new(0, |i: int| State::Query(i as usize)));
    while i < ql
        invariant
            i <= ql,
            v@ == head + Seq::new(i as nat, |i: int| State::Query(i as usize)),
        decreases ql - i,
    {
        v.push(State::Query(i));
        i += 1;
        assert(v@ =~= head + Seq::new(i as nat, |i: int| State::Query(i as usize)));
    }
    v.push(State::Query(ql));
    assert(v@ =~= head + Seq::new((ql + 1) as nat, |i: int| State::Query(i as usize)));
    v
}

/// The position of the largest entry of `v`, the last one where several are
/// the largest, and `None` where `v` is empty. Calls
/// `Itertools::position_max` on the entries.
#[verifier::external_body]
fn position_max(v: &Vec<usize>) -> (r: Option<usize>)
    ensures
        match r {
            Some(i) => i < v@.len() && (forall|k: int| 0 <= k < v@.len() ==> v@[k] <= v@[i as int])
                && (forall|k: int| i < k < v@.len() ==> v@[k] < v@[i as int]),
            None => v@.len() == 0,
        },
{
    v.iter().position_max()
}

/// The alphabet of a text has as many symbols as the text has different
/// symbols.
pub proof fn lemma_alphabet_size(t: Seq<u8>, alph: Seq<u8>)
    requires
        is_alphabet(alph, t),
    ensures
        alph.len() == distinct_symbols(t),
{
    let p = |c: int| symbol_count(t, c) > 0;
    let m = alph.len() as int;
    let g = |k: int| alph[k] as int;
    let h = |c: int| choose|k: int| 0 <= k < alph.len() && alph[k] == c as u8;
    assert forall|c: int| 0 <= c < 256 implies (#[trigger] p(c) <==> t.contains(c as u8)) by {
        if t.contains(c as u8) {
            crate::tables::lemma_count_positive(t, c as u8);
        } else {
            crate::tables::lemma_count_absent(t, c as u8);
        }
    }
    assert forall|a: int| 0 <= a < m implies 0 <= #[trigger] g(a) < 256 && p(g(a)) by {
        assert(t.contains(alph[a]));
    }
    assert forall|c: int| 0 <= c < 256 && #[trigger] p(c) implies 0 <= h(c) < m && g(h(c)) == c by {
        let w = choose|w: int| 0 <= w < t.len() && t[w] == c as u8;
        assert(alph.contains(t[w]));
    }
    if m == 0 {
        assert forall|c: int| 0 <= c < 256 implies !#[trigger] p(c) by {
            if p(c) {
                assert(0 <= h(c) < m);
            }
        }
        crate::counting::lemma_count_none(0, 256, p);
    } else {
        let top = g(m - 1);
        crate::counting::lemma_count_enumerated(0, 256, p, m, g, h, m - 1);
        crate::counting::lemma_count_split(0, top, 256, p);
        crate::counting::lemma_count_split(top, top + 1, 256, p);
        assert(count_in(top, top, p) == 0);
        assert(p(top));
        assert forall|c: int| top + 1 <= c < 256 implies !#[trigger] p(c) by {
            if p(c) {
                let k = h(c);
                assert(g(k) == c);
                assert(k == m - 1 || alph[k] < alph[m - 1]);
            }
        }
        crate::counting::lemma_count_none(top + 1, 256, p);
    }
}

/// No symbol below `k` occurs more often than `m` times, where none of all
/// symbols does.
proof fn lemma_max_symbol_count(t: Seq<u8>, k: int, m: nat)
    requires
        0 <= k <= 256,
        forall|c: int| 0 <= c < 256 ==> #[trigger] symbol_count(t, c) <= m,
    ensures
        max_symbol_count(t, k) <= m,
    decreases k,
{
    if k > 0 {
        lemma_max_symbol_count(t, k - 1, m);
    }
}

/// `i` is the place of the largest number in `v`, the last one where several
/// are the largest.
pub open spec fn is_last_largest(v: Seq<nat>, i: int) -> bool {
    &&& 0 <= i < v.len()
    &&& forall|k: int| 0 <= k < v.len() ==> v[k] <= v[i]
    &&& forall|k: int| i < k < v.len() ==> v[k] < v[i]
}

/// The place of the largest number in `v`, the last one where several are
/// the largest.
pub open spec fn last_largest(v: Seq<nat>) -> int {
    choose|i: int| is_last_largest(v, i)
}

/// How often each symbol of `alph` occurs in `t`.
pub open spec fn symbol_counts(t: Seq<u8>, alph: Seq<u8>) -> Seq<nat> {
    Seq::new(alph.len(), |k: int| symbol_count(t, alph[k] as int))
}

/// The place of `c` in `alph`.
pub open spec fn place_of(alph: Seq<u8>, c: u8) -> int {
    choose|k: int| 0 <= k < alph.len() && alph[k] == c
}

/// What an index is an index of: the text, and the query it was made with.
pub struct BwtView {
    pub text: Seq<u8>,
    pub query: Seq<u8>,
}

/// The FM-index of a text, together with the steps of a search for one query.
pub struct BWT {
    s: Vec<u8>,
    q: Vec<u8>,
    n: usize,
    ql: usize,
    s2: Vec<u8>,
    alph: Vec<u8>,
    char_count: Vec<usize>,
    char_start: Vec<usize>,
    sa: Vec<usize>,
    last: Vec<u8>,
    occ: Vec<Vec<usize>>,
    j_begin_end: Vec<(usize, usize)>,
    states: Vec<State>,
}

impl View for BWT {
    type V = BwtView;

    closed spec fn view(&self) -> BwtView {
        BwtView { text: self.s@, query: self.q@ }
    }
}

impl BWT {
    /// The suffix array of the text.
    pub closed spec fn sa(&self) -> Seq<usize> {
        self.sa@
    }

    /// The alphabet of the text.
    pub closed spec fn symbols(&self) -> Seq<u8> {
        self.alph@
    }

    /// The start positions of the sorted rotations: the suffix array, as
    /// integers.
    pub open spec fn rows(&self) -> Seq<int> {
        rows_of(self.sa())
    }

    /// The tables are those of the text, and the ranges and states those of
    /// the query.
    #[verifier::opaque]
    pub closed spec fn wf(&self) -> bool {
        &&& valid_text(self.s@)
        &&& self.n == self.s@.len()
        &&& self.ql == self.q@.len()
        &&& self.s2@ == self.s@ + self.s@
        &&& is_suffix_array(self.s@, self.sa@)
        &&& is_char_count(self.char_count@, self.alph@, self.s@)
        &&& self.last@ == last_column(self.s@, rows_of(self.sa@))
        &&& is_index(self.s@, rows_of(self.sa@), self.alph@, self.char_start@, self.occ@)
        &&& self.j_begin_end@.len() == self.ql + 1
        &&& forall|step: int|
            0 <= step <= self.ql ==> is_scan_range(
                self.s@,
                rows_of(self.sa@),
                self.q@.subrange(self.ql - step, self.ql as int),
                (#[trigger] self.j_begin_end@[step]).0 as int,
                self.j_begin_end@[step].1 as int,
            )
        &&& self.states@ == state_list(
            max_symbol_count(self.s@, 256),
            distinct_symbols(self.s@),
            self.ql as nat,
        )
    }

    /// What the pictures read off the index: how long its tables are, and
    /// what they hold.
    spec fn shape(&self) -> bool {
        let n = self.s@.len();
        let na = self.alph@.len();
        &&& n > 0
        &&& self.n == n
        &&& self.ql == self.q@.len()
        &&& self.s2@ == self.s@ + self.s@
        &&& self.sa@.len() == n
        &&& forall|j: int| 0 <= j < n ==> #[trigger] self.sa@[j] < n
        &&& forall|a: int, b: int|
            0 <= a < b < na ==> #[trigger] self.alph@[a] < #[trigger] self.alph@[b]
        &&& self.char_count@.len() == na
        &&& self.char_start@.len() == na
        &&& forall|k: int|
            0 <= k < na ==> #[trigger] self.char_start@[k] == crate::rotation::smaller(
                self.s@,
                self.alph@[k],
            )
        &&& forall|k: int|
            0 <= k < na ==> #[trigger] self.char_count@[k] == symbol_count(
                self.s@,
                self.alph@[k] as int,
            )
        &&& self.last@ == last_column(self.s@, rows_of(self.sa@))
        &&& self.occ@.len() == na
        &&& forall|k: int| 0 <= k < na ==> (#[trigger] self.occ@[k])@.len() == n + 1
        &&& forall|k: int, j: int|
            0 <= k < na && 0 <= j <= n ==> #[trigger] self.occ@[k]@[j] == crate::rotation::rank(
                self.last@,
                self.alph@[k],
                j,
            )
        &&& self.j_begin_end@.len() == self.ql + 1
        &&& forall|step: int|
            0 <= step <= self.ql ==> (#[trigger] self.j_begin_end@[step]).0
                <= self.j_begin_end@[step].1 <= n && self.range_at(step) == (
                self.j_begin_end@[step].0 as int,
                self.j_begin_end@[step].1 as int,
            )
        &&& self.states@ == state_list(
            max_symbol_count(self.s@, 256),
            distinct_symbols(self.s@),
            self.ql as nat,
        )
    }

    /// A well-formed index has the shape that the pictures rely on.
    proof fn lemma_shape(&self)
        requires
            self.wf(),
        ensures
            self.shape(),
    {
        reveal(BWT::wf);
        assert forall|step: int| 0 <= step <= self.ql implies (#[trigger] self.j_begin_end@[step]).0
            <= self.j_begin_end@[step].1 <= self.s@.len() && self.range_at(step) == (
            self.j_begin_end@[step].0 as int,
            self.j_begin_end@[step].1 as int,
        ) by {
            crate::scan::lemma_scan_range_unique(
                self.s@,
                rows_of(self.sa@),
                self.q@.subrange(self.ql - step, self.ql as int),
                self.j_begin_end@[step].0 as int,
                self.j_begin_end@[step].1 as int,
            );
        }
    }

    /// What a well-formed index holds of its text.
    pub proof fn lemma_wf(&self)
        requires
            self.wf(),
        ensures
            valid_text(self@.text),
            is_suffix_array(self@.text, self.sa()),
            rows_sorted(self@.text, self.rows()),
            is_alphabet(self.symbols(), self@.text),
    {
        reveal(BWT::wf);
        lemma_suffix_array_rows(self.s@, self.sa@);
    }

    /// Going one place back as often as the text is long leads from every
    /// row back to itself.
    pub proof fn lemma_lf_cycle(&self, row: int)
        requires
            self.wf(),
            0 <= row < self@.text.len(),
        ensures
            crate::rotation::lf_iterated(self@.text, self.rows(), row, self@.text.len()) == row,
    {
        self.lemma_wf();
        crate::rotation::lemma_lf_cycle(self@.text, self.rows(), row);
    }

    /// Builds the index of the text `s` and follows the search for the query
    /// `q` over it. Refuses a text that is empty or whose last symbol is not
    /// strictly smaller than all others.
    pub fn new(s: Vec<u8>, q: Vec<u8>) -> (r: Result<BWT, ConstructionError>)
        ensures
            match r {
                Ok(index) => valid_text(s@) && index.wf() && index@.text == s@ && index@.query
                    == q@,
                Err(e) => !valid_text(s@) && (e == ConstructionError::EmptyInput <==> s@.len()
                    == 0),
            },
    {
        reveal(BWT::wf);
        match check_text(s.as_slice()) {
            Ok(()) => {},
            Err(e) => {
                return Err(e);
            },
        }
        let n = s.len();
        let ql = q.len();
        let alph = alphabet(s.as_slice());
        let sa = sort_suffixes(s.as_slice());
        let char_count = char_counts(&alph, s.as_slice());
        let char_start = char_starts(&alph, s.as_slice());
        let last = last_column_of(s.as_slice(), &sa);
        let occ = occ_table(&alph, last.as_slice());
        proof {
            lemma_suffix_array_rows(s@, sa@);
        }
        let mut j_begin_end: Vec<(usize, usize)> = Vec::new();
        let mut step: usize = 0;
        while step < ql
            invariant
                ql == q@.len(),
                step <= ql,
                j_begin_end@.len() == step,
                is_suffix_array(s@, sa@),
                forall|k: int|
                    0 <= k < step ==> is_scan_range(
                        s@,
                        rows_of(sa@),
                        q@.subrange(ql - k, ql as int),
                        (#[trigger] j_begin_end@[k]).0 as int,
                        j_begin_end@[k].1 as int,
                    ),
            decreases ql - step,
        {
            let found = scan_range(s.as_slice(), &sa, slice_subrange(q.as_slice(), ql - step, ql));
            j_begin_end.push((found.start, found.end));
            step += 1;
        }
        let found = scan_range(s.as_slice(), &sa, q.as_slice());
        assert(q@.subrange(0, ql as int) =~= q@);
        j_begin_end.push((found.start, found.end));
        let states = states(s.as_slice(), ql);
        let mut s2 = slice_to_vec(s.as_slice());
        s2.extend_from_slice(s.as_slice());
        assert(s2@ =~= s@ + s@);
        Ok(
            BWT {
                s,
                q,
                n,
                ql,
                s2,
                alph,
                char_count,
                char_start,
                sa,
                last,
                occ,
                j_begin_end,
                states,
            },
        )
    }

    /// Builds the index of `text`, with no query.
    pub fn build(text: Vec<u8>) -> (r: Result<BWT, ConstructionError>)
        ensures
            match r {
                Ok(index) => valid_text(text@) && index.wf() && index@.text == text@
                    && index@.query.len() == 0,
                Err(e) => !valid_text(text@) && (e == ConstructionError::EmptyInput
                    <==> text@.len() == 0),
            },
    {
        BWT::new(text, Vec::new())
    }

    /// The range of rows whose rotation begins with `pattern`, by backward
    /// search; `(0, 0)` where there is none.
    pub fn search(&self, pattern: &[u8]) -> (r: (usize, usize))
        requires
            self.wf(),
        ensures
            (r.0 as int, r.1 as int) == search_range(self@.text, self.rows(), pattern@),
            r.0 <= r.1 <= self@.text.len(),
            forall|j: int|
                0 <= j < self@.text.len() ==> ((r.0 <= j < r.1) <==> rot_match(
                    self@.text,
                    #[trigger] self.sa()[j] as int,
                    pattern@,
                )),
            r.1 - r.0 == cyclic_occurrences(self@.text, pattern@),
    {
        reveal(BWT::wf);
        let r = backward_search(
            &self.alph,
            &self.char_start,
            &self.occ,
            self.n,
            pattern,
            Ghost(self.s@),
            Ghost(rows_of(self.sa@)),
        );
        proof {
            let rows = rows_of(self.sa@);
            lemma_range_size(self.s@, rows, pattern@, r.0 as int, r.1 as int);
            assert forall|j: int| 0 <= j < self.s@.len() implies ((r.0 <= j < r.1) <==> rot_match(
                self.s@,
                #[trigger] self.sa@[j] as int,
                pattern@,
            )) by {
                assert(rows[j] == self.sa@[j]);
            }
        }
        r
    }

    /// The number of rotations of the text that begin with `pattern`. These
    /// are the occurrences of `pattern` in the text, unless a rotation that
    /// begins with `pattern` runs over the end of the text: then they are
    /// more. None does where `pattern` holds the sentinel at its last place
    /// only or not at all.
    pub fn count(&self, pattern: &[u8]) -> (r: usize)
        requires
            self.wf(),
        ensures
            r == cyclic_occurrences(self@.text, pattern@),
            !wraps(self@.text, pattern@) <==> r == occurrences(self@.text, pattern@),
            (forall|k: int|
                0 <= k < pattern@.len() - 1 ==> #[trigger] pattern@[k] != self@.text[self@.text.len()
                    - 1]) ==> r == occurrences(self@.text, pattern@),
    {
        reveal(BWT::wf);
        let (s, e) = self.search(pattern);
        proof {
            if forall|k: int|
                0 <= k < pattern@.len() - 1 ==> #[trigger] pattern@[k] != self.s@[self.s@.len() - 1] {
                lemma_sentinel_last(self.s@, pattern@);
            }
            if !wraps(self.s@, pattern@) {
                lemma_cyclic_is_plain(self.s@, pattern@);
            } else {
                crate::rotation::lemma_cyclic_is_more(self.s@, pattern@);
            }
        }
        e - s
    }

    /// The start positions of the rotations that begin with `pattern`, each
    /// once, in the order of the rows.
    pub fn locate(&self, pattern: &[u8]) -> (r: Vec<usize>)
        requires
            self.wf(),
        ensures
            r@.len() == cyclic_occurrences(self@.text, pattern@),
            forall|k: int|
                0 <= k < r@.len() ==> #[trigger] r@[k] < self@.text.len() && rot_match(
                    self@.text,
                    r@[k] as int,
                    pattern@,
                ),
            forall|a: int, b: int| 0 <= a < b < r@.len() ==> r@[a] != r@[b],
            forall|i: int|
                0 <= i < self@.text.len() && #[trigger] rot_match(self@.text, i, pattern@)
                    ==> r@.contains(i as usize),
            r@ == self.sa().subrange(
                search_range(self@.text, self.rows(), pattern@).0,
                search_range(self@.text, self.rows(), pattern@).1,
            ),
    {
        reveal(BWT::wf);
        let (s, e) = self.search(pattern);
        let mut r: Vec<usize> = Vec::new();
        let mut j: usize = s;
        while j < e
            invariant
                self.wf(),
                s <= j <= e <= self.sa@.len(),
                r@.len() == j - s,
                forall|k: int| 0 <= k < r@.len() ==> #[trigger] r@[k] == self.sa@[s + k],
            decreases e - j,
        {
            r.push(self.sa[j]);
            j += 1;
        }
        proof {
            let rows = rows_of(self.sa@);
            lemma_suffix_array_rows(self.s@, self.sa@);
            assert forall|k: int| 0 <= k < r@.len() implies #[trigger] r@[k] < self.s@.len()
                && rot_match(self.s@, r@[k] as int, pattern@) by {
                assert(rot_match(self.s@, self.sa@[s + k] as int, pattern@));
            }
            assert forall|i: int|
                0 <= i < self.s@.len() && #[trigger] rot_match(self.s@, i, pattern@) implies r@.contains(
                i as usize,
            ) by {
                let j = row_of(self.s@, rows, i);
                crate::rotation::lemma_row_of(self.s@, rows, i);
                crate::rotation::lemma_wrap(i, 0, self.s@.len() as int);
                assert(self.sa@[j] == i);
                assert(r@[j - s] == i as usize);
            }
            assert(r@ =~= self.sa@.subrange(s as int, e as int));
        }
        r
    }

    /// The row of the rotation that starts one place before the rotation of
    /// `row`, found from the two tables.
    pub fn lf(&self, row: usize) -> (r: usize)
        requires
            self.wf(),
            row < self@.text.len(),
        ensures
            r == lf(self@.text, self.rows(), row as int),
            r == row_of(self@.text, self.rows(), self.sa()[row as int] - 1),
            r < self@.text.len(),
    {
        reveal(BWT::wf);
        let c = self.last[row];
        proof {
            let rows = rows_of(self.sa@);
            lemma_suffix_array_rows(self.s@, self.sa@);
            lemma_lf(self.s@, rows, row as int);
            // the symbol of the last column occurs in the text
            crate::rotation::lemma_wrap(rows[row as int] - 1, 0, self.n as int);
            assert(self.alph@.contains(self.s@[(rows[row as int] - 1) % (self.n as int)]));
        }
        let ci = symbol_index(&self.alph, c).unwrap();
        assert(self.occ@[ci as int][row as int] == crate::rotation::rank(
            self.last@,
            c,
            row as int,
        ));
        self.char_start[ci] + self.occ[ci][row]
    }

    /// The symbol that occurs most often in the text, as a place in the
    /// alphabet; of several such symbols the largest. In a text of two
    /// symbols or more it is not the sentinel.
    fn most_frequent(&self) -> (ci: usize)
        requires
            self.wf(),
            self.s@.len() >= 2,
        ensures
            ci < self.alph@.len(),
            self.char_count@[ci as int] >= max_symbol_count(self.s@, 256),
            self.alph@[ci as int] != self.s@[self.s@.len() - 1],
            self.char_start@[ci as int] + self.char_count@[ci as int] <= self.s@.len(),
            self.char_count@[ci as int] == count_in(
                0,
                self.s@.len() as int,
                sym_is(self.s@, self.alph@[ci as int]),
            ),
            self.char_start@[ci as int] == crate::rotation::smaller(self.s@, self.alph@[ci as int]),
            ci == last_largest(symbol_counts(self.s@, self.alph@)),
    {
        reveal(BWT::wf);
        proof {
            crate::tables::lemma_sentinel_first(self.s@, self.alph@);
        }
        let ci = position_max(&self.char_count).unwrap();
        proof {
            let t = self.s@;
            let m = self.char_count@[ci as int];
            assert forall|c: int| 0 <= c < 256 implies #[trigger] symbol_count(t, c) <= m by {
                if t.contains(c as u8) {
                    let w = choose|w: int| 0 <= w < t.len() && t[w] == c as u8;
                    assert(self.alph@.contains(t[w]));
                    let a = choose|a: int| 0 <= a < self.alph@.len() && self.alph@[a] == c as u8;
                    assert(self.char_count@[a] == symbol_count(t, c));
                } else {
                    crate::tables::lemma_count_absent(t, c as u8);
                }
            }
            lemma_max_symbol_count(t, 256, m as nat);
            crate::tables::lemma_block_fits(t, self.alph@[ci as int]);
            let counts = symbol_counts(t, self.alph@);
            assert(is_last_largest(counts, ci as int)) by {
                assert forall|k: int| 0 <= k < counts.len() implies counts[k]
                    == self.char_count@[k] by {}
            }
            let chosen = last_largest(counts);
            assert(chosen == ci) by {
                if chosen < ci {
                    assert(counts[ci as int] < counts[chosen]);
                } else if ci < chosen {
                    assert(counts[chosen] < counts[ci as int]);
                }
            }
            if ci == 0 {
                // the sentinel occurs once, and so does the second symbol
                assert(t.contains(self.alph@[1]));
                crate::tables::lemma_count_positive(t, self.alph@[1]);
                assert(self.char_count@[1] < self.char_count@[0]);
            } else {
                assert(self.alph@[0] < self.alph@[ci as int]);
            }
        }
        ci
    }

    /// The row at which position `x` stands.
    fn row_of_position(&self, x: usize) -> (r: usize)
        requires
            self.wf(),
            x < self.s@.len(),
        ensures
            r < self.s@.len(),
            self.sa@[r as int] == x,
            r == row_of(self.s@, rows_of(self.sa@), x as int),
    {
        reveal(BWT::wf);
        let n = self.sa.len();
        let stands_here = |j: usize| -> (b: bool)
            requires
                j < self.sa@.len(),
            ensures
                b == (self.sa@[j as int] == x),
            { self.sa[j] == x };
        let found = find_position(0, n, stands_here);
        proof {
            let j = crate::text::lemma_permutation_onto(self.sa@, self.s@.len(), x as int);
            if found is None {
                assert(call_ensures(stands_here, (j as usize,), false));
            }
        }
        let r = found.unwrap().1;
        proof {
            let rows = rows_of(self.sa@);
            lemma_suffix_array_rows(self.s@, self.sa@);
            crate::rotation::lemma_row_of(self.s@, rows, x as int);
            crate::rotation::lemma_wrap(x as int, 0, self.s@.len() as int);
            crate::rotation::lemma_rows_injective(
                self.s@,
                rows,
                r as int,
                row_of(self.s@, rows, x as int),
            );
        }
        r
    }

    /// Whether the frames fit on a canvas, the query is no longer than the
    /// text, and every symbol of both can be written.
    pub fn fits(&self) -> (b: bool)
        requires
            self.wf(),
        ensures
            b == self.drawable(),
    {
        let n = self.s.len();
        if n < 2 || n > 30_000_000 || self.q.len() > n || self.alph.len() > 256 {
            return false;
        }
        let mut i: usize = 0;
        while i < n
            invariant
                n == self.s@.len(),
                i <= n,
                forall|k: int| 0 <= k < i ==> #[trigger] self.s@[k] < 128,
            decreases n - i,
        {
            if self.s[i] >= 128 {
                return false;
            }
            i += 1;
        }
        let mut i: usize = 0;
        while i < self.q.len()
            invariant
                i <= self.q@.len(),
                forall|k: int| 0 <= k < i ==> #[trigger] self.q@[k] < 128,
            decreases self.q@.len() - i,
        {
            if self.q[i] >= 128 {
                return false;
            }
            i += 1;
        }
        true
    }

    /// The text.
    pub fn text(&self) -> (r: &Vec<u8>)
        ensures
            r@ == self@.text,
    {
        &self.s
    }

    /// The query.
    pub fn query(&self) -> (r: &Vec<u8>)
        ensures
            r@ == self@.query,
    {
        &self.q
    }

    /// The suffix array: the start positions of the suffixes in sorted order.
    pub fn suffix_array(&self) -> (r: &Vec<usize>)
        requires
            self.wf(),
        ensures
            r@ == self.sa(),
            is_suffix_array(self@.text, r@),
    {
        reveal(BWT::wf);
        &self.sa
    }

    /// The symbols of the text, each once, in increasing order.
    pub fn alphabet(&self) -> (r: &Vec<u8>)
        requires
            self.wf(),
        ensures
            r@ == self.symbols(),
            is_alphabet(r@, self@.text),
    {
        reveal(BWT::wf);
        &self.alph
    }

    /// For each symbol of the alphabet, how often it occurs in the text.
    pub fn char_count(&self) -> (r: &Vec<usize>)
        requires
            self.wf(),
        ensures
            is_char_count(r@, self.symbols(), self@.text),
    {
        reveal(BWT::wf);
        &self.char_count
    }

    /// The C-array: for each symbol of the alphabet, how many symbols of the
    /// text are smaller.
    pub fn char_start(&self) -> (r: &Vec<usize>)
        requires
            self.wf(),
        ensures
            is_char_start(r@, self.symbols(), self@.text),
    {
        reveal(BWT::wf);
        &self.char_start
    }

    /// The last column of the sorted rotations: the Burrows-Wheeler transform
    /// of the text.
    pub fn last_column(&self) -> (r: &Vec<u8>)
        requires
            self.wf(),
        ensures
            r@ == last_column(self@.text, self.rows()),
    {
        reveal(BWT::wf);
        &self.last
    }

    /// The rank table: entry `j` of row `k` is the number of times the
    /// `k`-th symbol of the alphabet stands in the last column before row
    /// `j`.
    pub fn occ(&self) -> (r: &Vec<Vec<usize>>)
        requires
            self.wf(),
        ensures
            is_occ_table(r@, self.symbols(), last_column(self@.text, self.rows())),
    {
        reveal(BWT::wf);
        &self.occ
    }

    /// The rows of the last `step` symbols of the query, found by scanning
    /// the sorted rotations.
    pub fn query_range(&self, step: usize) -> (r: (usize, usize))
        requires
            self.wf(),
            step <= self@.query.len(),
        ensures
            is_scan_range(
                self@.text,
                self.rows(),
                self@.query.subrange(self@.query.len() - step, self@.query.len() as int),
                r.0 as int,
                r.1 as int,
            ),
            range_matches(
                self@.text,
                self.rows(),
                self@.query.subrange(self@.query.len() - step, self@.query.len() as int),
                r.0 as int,
                r.1 as int,
            ),
    {
        reveal(BWT::wf);
        let r = self.j_begin_end[step];
        proof {
            self.lemma_wf();
            crate::scan::lemma_scan_range(
                self.s@,
                rows_of(self.sa@),
                self.q@.subrange(self.ql - step, self.ql as int),
                r.0 as int,
                r.1 as int,
            );
        }
        r
    }

    /// The states in which the index and the search are shown.
    pub fn states(&self) -> (r: &Vec<State>)
        requires
            self.wf(),
        ensures
            r@ == state_list(
                max_symbol_count(self@.text, 256),
                distinct_symbols(self@.text),
                self@.query.len(),
            ),
    {
        reveal(BWT::wf);
        &self.states
    }
}

} // verus!

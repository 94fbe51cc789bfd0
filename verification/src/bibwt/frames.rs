//! The pictures of the bidirectional index: what each frame holds, stroke by
//! stroke, and the code that draws it.
use crate::bwt::{distinct_symbols, lemma_alphabet_size, marked, place_of, s_stats, symbol_count};
use crate::canvas::{
    BLACK, BLUE, Canvas, canvas_size, CanvasBox, char_box_strokes, Color, CYAN, decimal,
    draw_char_box, draw_highlight, draw_highlight_box, draw_label, draw_text, highlight_box_strokes,
    label_stroke, labelled_string_strokes, Pos, RED, string_strokes, Stroke, text_stroke, to_label,
    WHITE,
};
use crate::counting::count_in;
use crate::paint::{mark, maybe, number, plain, shift, string, string_with_labels};
use crate::rotation::{last_column, sym_below};
use crate::scan::scan_range_of;
use crate::suffix_array::{mirrored_rows, rows_of};
use crate::tables::{count_smaller_in_range, lemma_last_column_symbols, symbol_index};
use crate::viz::Viz;
use super::{
    BiBWT, DEFAULT, done_end, done_start, lemma_state_list, NEXT_CHAR, QueryStep, SOFT_HIGHLIGHT,
    State, state_list, to_c,
};
use vstd::prelude::*;
use vstd::slice::slice_subrange;

verus! {

/// What is written under the text in a step of an extension that puts a
/// symbol before the matched part, where `left` holds, or behind it.
pub open spec fn step_caption_of(qs: QueryStep, left: bool) -> Seq<char> {
    match qs {
        QueryStep::PreviousDone => "Matching done"@,
        QueryStep::HighlightChar => if left {
            "Extend query on the left"@
        } else {
            "Extend query on the right"@
        },
        QueryStep::HighlightMatches => "Matches for next char"@,
        QueryStep::EquivalenceFirst => if left {
            "Fwd: matches in L correspond to matches in F"@
        } else {
            "Rev: matches in Lr correspond to matches in Fr"@
        },
        QueryStep::CountFirst => if left {
            "Fwd: positions of matches"@
        } else {
            "Rev: positions of matches"@
        },
        QueryStep::SmallerCountFirst => if left {
            "Fwd: number of smaller chars"@
        } else {
            "Rev: number of smaller chars"@
        },
        QueryStep::ExtendFirst => if left {
            "Fwd: #smaller + match-positions"@
        } else {
            "Rev: #smaller + match-positions"@
        },
        QueryStep::SmallerWindowSecond => if left {
            "Rev: range shrinks; skip chars < c"@
        } else {
            "Fwd: range shrinks; skip chars < c"@
        },
        QueryStep::EquivalenceSecond => if left {
            "Rev: equal to #{<c} in forward range"@
        } else {
            "Fwd: equal to #{<c} in reverse range"@
        },
        QueryStep::CountSecond => if left {
            "Rev: Char counts before/after fwd range"@
        } else {
            "Fwd: Char counts before/after rev range"@
        },
        QueryStep::ComputeSecond => if left {
            "Rev: Total count #{<c} in forward range"@
        } else {
            "Fwd: Total count #{<c} in reverse range"@
        },
        QueryStep::ExtendStartSecond => "Add #{<c} to current start"@,
        QueryStep::ExtendEndSecond => "Add #{\u{2264}c} to current start"@,
    }
}

/// The place in a query of `ql` symbols of the symbol that the query is
/// extended by after `step` symbols are matched: the one before the matched
/// part as long as that has not reached the middle, then the one behind it.
pub open spec fn next_place(ql: nat, step: nat) -> nat {
    if step < (ql + 1) / 2 {
        ((ql + 1) / 2 - step - 1) as nat
    } else {
        step
    }
}

/// What is written under the text in the frame of `state`, for the query
/// `q` over a text with the alphabet `alph`; nothing in a step of an
/// extension by a symbol that the text does not hold.
pub open spec fn caption_of(state: State, q: Seq<u8>, alph: Seq<u8>) -> Option<Seq<char>> {
    match state {
        State::Init => Some("Input string S."@),
        State::LeftSA(k) => if k == 0 {
            Some("Forward suffix array"@)
        } else if k == 1 {
            Some("Move last column before first"@)
        } else {
            Some("Only show prefixes of the array"@)
        },
        State::RightSA(k) => if k == 0 {
            Some("Reverse suffix array"@)
        } else if k == 1 {
            Some("Move last column after first"@)
        } else {
            Some("Only show suffixes of the array"@)
        },
        State::BothSA => Some("Forward & Reverse suffix array"@),
        State::CharCounts => Some("Count number of smaller characters for each c"@),
        State::LeftOcc => Some("Count occurrences for L"@),
        State::RightOcc => Some("Count occurrences for Lr"@),
        State::Equivalence(_) => Some("Sets of chars before/after c are the same."@),
        State::Pause => Some("Ready for querying"@),
        State::Query(step, qs) => if qs == QueryStep::PreviousDone {
            if step == 1 {
                Some("Start with the range of the first character"@)
            } else {
                Some("Matching done"@)
            }
        } else if alph.contains(q[next_place(q.len(), step as nat) as int]) {
            Some(step_caption_of(qs, step < (q.len() + 1) / 2))
        } else {
            None
        },
    }
}

/// Where the parts of a frame stand, in cells. The names that end in `_r`
/// are those of the reverse side.
pub struct Layout {
    /// Top left of the text at the top.
    pub ps: Pos,
    /// Where the text of the step is written.
    pub plabel: Pos,
    /// Top left of the rotations, the columns of row numbers and of start
    /// positions, the first column and the last column.
    pub psa: Pos,
    pub cj: Pos,
    pub ca: Pos,
    pub pfirst: Pos,
    pub plast: Pos,
    pub psa_r: Pos,
    pub cj_r: Pos,
    pub ca_r: Pos,
    pub pfirst_r: Pos,
    pub plast_r: Pos,
    /// The C-array, the alphabet above it, and the rank table.
    pub pcnt: Pos,
    pub pcnt_r: Pos,
    pub rsigma: Pos,
    pub rsigma_r: Pos,
    pub pocc: Pos,
    pub pocc_r: Pos,
    /// The query, the start and the end of its range, and the column where
    /// the range is marked.
    pub pq: Pos,
    pub pq_r: Pos,
    pub pqs: Pos,
    pub pqs_r: Pos,
    pub pqt: Pos,
    pub pqt_r: Pos,
    pub cst: Pos,
    pub cst_r: Pos,
}

/// Where the parts of the frames of a text of `n` symbols, `na` of them
/// different, stand.
pub open spec fn layout_of(n: nat, na: nat) -> Layout {
    Layout {
        ps: Pos(4, 1),
        plabel: Pos(6, 2),
        psa: Pos(4, 3),
        cj: Pos(0, 3),
        ca: Pos(1, 3),
        pfirst: Pos(4, 3),
        plast: Pos(3, 3),
        psa_r: Pos((n + 4) as usize, 3),
        cj_r: Pos((n + 7) as usize, 3),
        ca_r: Pos((n + 6) as usize, 3),
        pfirst_r: Pos((n + 3) as usize, 3),
        plast_r: Pos((n + 4) as usize, 3),
        pcnt: Pos((n + 10) as usize, 1),
        pcnt_r: Pos((n + 11 + na) as usize, 1),
        rsigma: Pos((n + 10) as usize, 0),
        rsigma_r: Pos((n + 11 + na) as usize, 0),
        pocc: Pos((n + 10) as usize, 3),
        pocc_r: Pos((n + 11 + na) as usize, 3),
        pq: Pos(4, (n + 5) as usize),
        pq_r: Pos((n + 4) as usize, (n + 5) as usize),
        pqs: Pos(4, (n + 6) as usize),
        pqs_r: Pos((n + 3) as usize, (n + 6) as usize),
        pqt: Pos(4, (n + 7) as usize),
        pqt_r: Pos((n + 3) as usize, (n + 7) as usize),
        cst: Pos(2, 3),
        cst_r: Pos((n + 5) as usize, 3),
    }
}

/// Where the parts of the frames of a text of `n` symbols, `na` of them
/// different, stand.
pub fn layout(n: usize, na: usize) -> (at: Layout)
    requires
        1 <= n <= 30_000_000,
        na <= 256,
    ensures
        at == layout_of(n as nat, na as nat),
{
    let ps = Pos(4, 1);
    let plabel = ps.down(1).right(2);
    let psa = ps.down(2);
    let cj = psa.left(4);
    let ca = psa.left(3);
    let pfirst = psa;
    let plast = psa.left(1);
    let psa_r = psa.right(n);
    let cj_r = psa_r.right(3);
    let ca_r = psa_r.right(2);
    let pfirst_r = psa_r.left(1);
    let plast_r = psa_r;
    let pcnt = Pos(ps.0 + (n + 6), ps.1);
    let pcnt_r = pcnt.right(na + 1);
    let rsigma = pcnt.up(1);
    let rsigma_r = pcnt_r.up(1);
    let pocc = pcnt.down(2);
    let pocc_r = pcnt_r.down(2);
    let pq = psa.down(n + 2);
    let pq_r = psa_r.down(n + 2);
    let pqs = pq.down(1);
    let pqs_r = pq_r.down(1).left(1);
    let pqt = pq.down(2);
    let pqt_r = pq_r.down(2).left(1);
    let cst = plast.left(1);
    let cst_r = plast_r.right(1);
    Layout {
        ps,
        plabel,
        psa,
        cj,
        ca,
        pfirst,
        plast,
        psa_r,
        cj_r,
        ca_r,
        pfirst_r,
        plast_r,
        pcnt,
        pcnt_r,
        rsigma,
        rsigma_r,
        pocc,
        pocc_r,
        pq,
        pq_r,
        pqs,
        pqs_r,
        pqt,
        pqt_r,
        cst,
        cst_r,
    }
}

/// The part of the query that is matched in a step, and its two ranges.
pub struct Matched {
    /// The number of symbols matched.
    pub step: usize,
    /// The matched part of the query, from `ds` up to `de`.
    pub ds: usize,
    pub de: usize,
    /// The rows `rs..re` of the suffix array and `rrs..rre` of the reverse
    /// suffix array.
    pub rs: usize,
    pub re: usize,
    pub rrs: usize,
    pub rre: usize,
}

/// The symbol that the query is extended by in a step.
pub struct Next {
    /// Whether it is put before the matched part.
    pub left: bool,
    /// Its place in the query.
    pub idx: usize,
    /// The symbol, and its place in the alphabet.
    pub c: u8,
    pub ci: usize,
    /// The range that the step of backward search leads to.
    pub ss: usize,
    pub tt: usize,
    /// Number of rows of the old range with a smaller symbol, and with the
    /// symbol itself.
    pub less: usize,
    pub same: usize,
}

impl BiBWT {
    /// Every symbol of the alphabet can be written, and the alphabet is as
    /// long as the text has different symbols.
    proof fn lemma_alphabet_ascii(&self)
        requires
            self.drawable(),
        ensures
            distinct_symbols(self.s@) == self.alph@.len(),
            forall|k: int| 0 <= k < self.alph@.len() ==> #[trigger] self.alph@[k] < 128,
    {
        reveal(BiBWT::wf);
        let s = self.s@;
        lemma_alphabet_size(s, self.alph@);
        assert forall|k: int| 0 <= k < self.alph@.len() implies #[trigger] self.alph@[k] < 128 by {
            assert(s.contains(self.alph@[k]));
            let w = choose|w: int| 0 <= w < s.len() && s[w] == self.alph@[k];
            assert(s[w] < 128);
        }
    }

    /// The rows of the `k`-th symbol lie among the rows.
    proof fn lemma_block(&self, k: int)
        requires
            self.wf(),
            0 <= k < self.alph@.len(),
        ensures
            self.char_start@[k] + self.char_count@[k] <= self.s@.len(),
    {
        reveal(BiBWT::wf);
        crate::tables::lemma_block_fits(self.s@, self.alph@[k]);
    }

    /// The counts of the `k`-th symbol between two rows of either side.
    proof fn lemma_between(&self, k: int, from: int, to: int)
        requires
            self.wf(),
            0 <= k < self.alph@.len(),
            0 <= from <= to <= self.s@.len(),
        ensures
            self.occ@[k]@[from] <= self.occ@[k]@[to] <= self.s@.len(),
            self.occ_r@[k]@[from] <= self.occ_r@[k]@[to] <= self.s@.len(),
            self.occ@[k]@[to] == crate::rotation::rank(self.last@, self.alph@[k], to),
            self.occ@[k]@[from] == crate::rotation::rank(self.last@, self.alph@[k], from),
            self.occ_r@[k]@[to] == crate::rotation::rank(self.last_r@, self.alph@[k], to),
            self.occ_r@[k]@[from] == crate::rotation::rank(self.last_r@, self.alph@[k], from),
    {
        reveal(BiBWT::wf);
        let c = self.alph@[k];
        crate::counting::lemma_count_monotone(0, from, to, crate::rotation::sym_is(self.last@, c));
        crate::counting::lemma_count_monotone(0, from, to, crate::rotation::sym_is(self.last_r@, c));
        crate::counting::lemma_count_bound(0, to, crate::rotation::sym_is(self.last@, c));
        crate::counting::lemma_count_bound(0, to, crate::rotation::sym_is(self.last_r@, c));
    }

    /// What counting the rows with a smaller symbol relies on, on either
    /// side.
    proof fn lemma_next_counts(&self, ci: int)
        requires
            self.wf(),
            0 <= ci < self.alph@.len(),
        ensures
            crate::tables::is_occ_table(self.occ@, self.alph@, self.last@),
            crate::tables::is_occ_table(self.occ_r@, self.alph@, self.last_r@),
            self.last@.len() == self.s@.len(),
            self.last_r@.len() == self.s@.len(),
            forall|a: int, b: int|
                0 <= a < b < self.alph@.len() ==> #[trigger] self.alph@[a] < #[trigger] self.alph@[b],
            forall|j: int| 0 <= j < self.last@.len() ==> self.alph@.contains(#[trigger] self.last@[j]),
            forall|j: int|
                0 <= j < self.last_r@.len() ==> self.alph@.contains(#[trigger] self.last_r@[j]),
            self.char_start@[ci] == crate::rotation::smaller(self.s@, self.alph@[ci]),
            self.char_start@[ci] <= self.s@.len(),
    {
        reveal(BiBWT::wf);
        self.lemma_wf();
        assert forall|j: int| 0 <= j < self.last@.len() implies self.alph@.contains(
            #[trigger] self.last@[j],
        ) by {
            lemma_last_column_symbols(self.s@, rows_of(self.sa@), self.alph@, j);
        }
        assert forall|j: int| 0 <= j < self.last_r@.len() implies self.alph@.contains(
            #[trigger] self.last_r@[j],
        ) by {
            lemma_last_column_symbols(self.s@.reverse(), mirrored_rows(self.sa_r@), self.alph@, j);
        }
        crate::counting::lemma_count_bound(
            0,
            self.s@.len() as int,
            sym_below(self.s@, self.alph@[ci]),
        );
    }

    /// Every symbol of the text written three times over can be written.
    proof fn lemma_text_ascii(&self)
        requires
            self.drawable(),
        ensures
            self.s2@ == self.tripled(),
            self.s2@.len() == 3 * self.s@.len(),
            forall|k: int| 0 <= k < self.s2@.len() ==> #[trigger] self.s2@[k] < 128,
    {
        reveal(BiBWT::wf);
        let s = self.s@;
        let n = s.len();
        assert forall|k: int| 0 <= k < self.s2@.len() implies #[trigger] self.s2@[k] < 128 by {
            if k >= 2 * n {
                assert(self.s2@[k] == s[k - 2 * n]);
            } else if k >= n {
                assert(self.s2@[k] == s[k - n]);
            } else {
                assert(self.s2@[k] == s[k]);
            }
        }
    }

    /// The bounds that the picture of a matched part relies on.
    pub closed spec fn matched_ok(&self, m: &Matched) -> bool {
        let ql = self.q@.len();
        &&& m.step <= ql
        &&& (ql >= 1 ==> m.step >= 1)
        &&& m.ds == done_start(ql, m.step as nat)
        &&& m.de == done_end(ql, m.step as nat)
        &&& m.rs <= m.re <= self.s@.len()
        &&& m.rrs <= m.rre <= self.s@.len()
    }

    /// The bounds that the picture of an extension relies on.
    pub closed spec fn next_ok(&self, m: &Matched, nx: &Next) -> bool {
        let ql = self.q@.len();
        let n = self.s@.len();
        &&& m.step < ql
        &&& nx.left == (m.step < (ql + 1) / 2)
        &&& nx.idx < ql
        &&& nx.left ==> nx.idx + 1 == m.ds
        &&& !nx.left ==> nx.idx == m.de && m.ds == 0
        &&& nx.c == self.q@[nx.idx as int]
        &&& nx.ci < self.alph@.len()
        &&& self.alph@[nx.ci as int] == nx.c
        &&& nx.ss <= nx.tt <= 2 * n
        &&& nx.less <= n
        &&& nx.same <= n
    }

    /// Where the parts of the frames stand.
    pub open spec fn at(&self) -> Layout {
        layout_of(self@.text.len(), self.symbols().len())
    }

    /// The text three times over: every rotation stands in it, read forward
    /// from the first copy and backward from the third.
    pub open spec fn tripled(&self) -> Seq<u8> {
        self@.text + self@.text + self@.text
    }

    /// The last column of the sorted rotations of the text.
    pub open spec fn last(&self) -> Seq<u8> {
        last_column(self@.text, self.rows())
    }

    /// The last column of the sorted rotations of the reversed text.
    pub open spec fn last_r(&self) -> Seq<u8> {
        last_column(self@.text.reverse(), self.rows_r())
    }

    /// The part of the query that is matched after `step` symbols, and the
    /// two ranges that a scan of the rows finds for it.
    pub open spec fn matched_of(&self, step: int) -> Matched {
        let q = self@.query;
        let ds = done_start(q.len(), step as nat);
        let de = done_end(q.len(), step as nat);
        let done = q.subrange(ds as int, de as int);
        let forward = scan_range_of(self@.text, self.rows(), done);
        let backward = scan_range_of(self@.text.reverse(), self.rows_r(), done.reverse());
        Matched {
            step: step as usize,
            ds: ds as usize,
            de: de as usize,
            rs: forward.0 as usize,
            re: forward.1 as usize,
            rrs: backward.0 as usize,
            rre: backward.1 as usize,
        }
    }

    /// The symbol that the query is extended by after `m`, and what the
    /// extension counts: the range that the step of backward search leads
    /// to on the side that is searched, and the rows of the old range there
    /// with a smaller symbol and with the symbol itself before them. `None`
    /// where the text does not hold the symbol.
    pub open spec fn next_of(&self, m: Matched) -> Option<Next> {
        let q = self@.query;
        let left = m.step < (q.len() + 1) / 2;
        let idx = next_place(q.len(), m.step as nat);
        let c = q[idx as int];
        if !self.symbols().contains(c) {
            None
        } else {
            let l = if left {
                self.last()
            } else {
                self.last_r()
            };
            let from = if left {
                m.rs as int
            } else {
                m.rrs as int
            };
            let to = if left {
                m.re as int
            } else {
                m.rre as int
            };
            let base = crate::rotation::smaller(self@.text, c);
            Some(
                Next {
                    left,
                    idx: idx as usize,
                    c,
                    ci: place_of(self.symbols(), c) as usize,
                    ss: (base + crate::rotation::rank(l, c, from)) as usize,
                    tt: (base + crate::rotation::rank(l, c, to)) as usize,
                    less: count_in(from, to, sym_below(l, c)) as usize,
                    same: (crate::rotation::rank(l, c, to) - crate::rotation::rank(l, c, from)) as usize,
                },
            )
        }
    }

    /// The colours of the text at the top: the sentinel is marked.
    pub open spec fn end_colours(&self) -> Seq<Color> {
        Seq::new(self@.text.len(), |i: int| marked(self@.text[i] == 36))
    }

    /// The colours of the first `l` symbols of a row: the first symbol of
    /// the rotation is marked, and its last.
    pub open spec fn ends_colours(&self, l: int) -> Seq<Color> {
        Seq::new(l as nat, |k: int| marked(k == 0 || k == self@.text.len() - 1))
    }

    /// The colours of the first `l` symbols of a row of the reverse side,
    /// which is read towards the left.
    pub open spec fn ends_colours_r(&self, l: int) -> Seq<Color> {
        Seq::new(l as nat, |k: int| marked(l - 1 - k == 0 || l - 1 - k == self@.text.len() - 1))
    }

    /// The text at the top, with the numbers of its places.
    #[verifier::opaque]
    pub open spec fn input_strokes(&self) -> Seq<Stroke> {
        labelled_string_strokes(self.at().ps, self@.text, self.end_colours())
    }

    /// Row `j` of the sorted rotations: its number, the start position, and
    /// the first `l` symbols of the rotation.
    pub open spec fn forward_row(&self, l: int, j: int) -> Seq<Stroke> {
        let i = self.sa()[j] as int;
        seq![
            label_stroke(shift(self.at().cj, 0, j), decimal(j as nat)),
            label_stroke(shift(self.at().ca, 0, j), decimal(i as nat)),
        ] + string_strokes(
            shift(self.at().psa, 0, j),
            self.tripled().subrange(i, i + l),
            self.ends_colours(l),
            l as nat,
        )
    }

    /// The first `k` rows of the sorted rotations.
    pub open spec fn forward_rows(&self, l: int, k: nat) -> Seq<Stroke>
        decreases k,
    {
        if k == 0 {
            Seq::empty()
        } else {
            self.forward_rows(l, (k - 1) as nat) + self.forward_row(l, k - 1)
        }
    }

    /// The sorted rotations of the text, their first `l` symbols, with the
    /// names of the columns; the last column is named where the rotations
    /// are shown whole.
    #[verifier::opaque]
    pub open spec fn forward_strokes(&self, l: int) -> Seq<Stroke> {
        let at = self.at();
        let n = self@.text.len() as int;
        seq![
            label_stroke(shift(at.cj, 0, -1), "j"@),
            label_stroke(shift(at.ca, 0, -1), "A"@),
            label_stroke(shift(at.pfirst, 0, -1), "F"@),
        ] + maybe(l == n, seq![label_stroke(shift(at.plast, n, -1), "L"@)]) + self.forward_rows(
            l,
            n as nat,
        )
    }

    /// The first `k` symbols of a last column, as boxes one below the other
    /// from `p` on; row `j` holds the symbol at `offset` behind its entry in
    /// `entries`.
    pub open spec fn column_boxes(&self, p: Pos, entries: Seq<usize>, offset: int, k: nat) -> Seq<
        Stroke,
    >
        decreases k,
    {
        if k == 0 {
            Seq::empty()
        } else {
            self.column_boxes(p, entries, offset, (k - 1) as nat) + char_box_strokes(
                shift(p, 0, k - 1),
                self.tripled()[entries[k - 1] + offset],
                (180u8, 250u8, 180u8),
            )
        }
    }

    /// The last column, moved before the first.
    #[verifier::opaque]
    pub open spec fn last_forward_strokes(&self) -> Seq<Stroke> {
        let at = self.at();
        let n = self@.text.len();
        seq![label_stroke(shift(at.plast, 0, -1), "L"@)] + self.column_boxes(
            at.plast,
            self.sa(),
            n - 1,
            n,
        )
    }

    /// Row `j` of the sorted rotations of the reversed text: its number, the
    /// length of the prefix, and the first `l` symbols of the rotation, read
    /// towards the left.
    pub open spec fn reverse_row(&self, l: int, j: int) -> Seq<Stroke> {
        let n = self@.text.len();
        let i = self.sar()[j] as int;
        seq![
            label_stroke(shift(self.at().cj_r, 0, j), decimal(j as nat)),
            label_stroke(shift(self.at().ca_r, 0, j), decimal(i as nat)),
        ] + string_strokes(
            shift(self.at().psa_r, -l, j),
            self.tripled().subrange(i + n - l, i + n),
            self.ends_colours_r(l),
            l as nat,
        )
    }

    /// The first `k` rows of the sorted rotations of the reversed text.
    pub open spec fn reverse_rows(&self, l: int, k: nat) -> Seq<Stroke>
        decreases k,
    {
        if k == 0 {
            Seq::empty()
        } else {
            self.reverse_rows(l, (k - 1) as nat) + self.reverse_row(l, k - 1)
        }
    }

    /// The sorted rotations of the reversed text, their first `l` symbols,
    /// with the names of the columns.
    #[verifier::opaque]
    pub open spec fn reverse_strokes(&self, l: int) -> Seq<Stroke> {
        let at = self.at();
        let n = self@.text.len() as int;
        seq![
            label_stroke(shift(at.cj_r, 0, -1), "j"@),
            label_stroke(shift(at.ca_r, 0, -1), "Ar"@),
            label_stroke(shift(at.pfirst_r, 0, -1), "Fr"@),
        ] + maybe(l == n, seq![label_stroke(shift(at.plast_r, -n, -1), "Lr"@)])
            + self.reverse_rows(l, n as nat)
    }

    /// The last column of the reverse side, moved behind the first.
    #[verifier::opaque]
    pub open spec fn last_reverse_strokes(&self) -> Seq<Stroke> {
        let at = self.at();
        let n = self@.text.len();
        seq![label_stroke(shift(at.plast_r, 0, -1), "Lr"@)] + self.column_boxes(
            at.plast_r,
            self.sar(),
            n as int,
            n,
        )
    }

    /// The `i`-th symbol of the alphabet with its entry of the C-array, and
    /// a line where its rows begin on either side.
    pub open spec fn count_column(&self, i: int) -> Seq<Stroke> {
        let at = self.at();
        let c = self.symbols()[i];
        let count = crate::rotation::smaller(self@.text, c) as int;
        seq![
            label_stroke(shift(at.rsigma, i, 0), seq![c as char]),
            label_stroke(shift(at.pcnt, i, 0), decimal(count as nat)),
        ] + highlight_box_strokes(shift(at.pfirst, 0, count), 1, 0, RED) + highlight_box_strokes(
            shift(at.pfirst_r, 0, count),
            1,
            0,
            RED,
        )
    }

    /// The first `m` columns of the C-array.
    pub open spec fn count_columns(&self, m: nat) -> Seq<Stroke>
        decreases m,
    {
        if m == 0 {
            Seq::empty()
        } else {
            self.count_columns((m - 1) as nat) + self.count_column(m - 1)
        }
    }

    /// The first `m` columns of the C-array again, above the reverse rank
    /// table.
    pub open spec fn count_columns_r(&self, m: nat) -> Seq<Stroke>
        decreases m,
    {
        if m == 0 {
            Seq::empty()
        } else {
            let c = self.symbols()[m - 1];
            self.count_columns_r((m - 1) as nat) + seq![
                label_stroke(shift(self.at().rsigma_r, m - 1, 0), seq![c as char]),
                label_stroke(
                    shift(self.at().pcnt_r, m - 1, 0),
                    decimal(crate::rotation::smaller(self@.text, c)),
                ),
            ]
        }
    }

    /// The alphabet and the C-array, and where the rows of each symbol begin
    /// on both sides; where `both` holds, the two also above the reverse rank
    /// table.
    #[verifier::opaque]
    pub open spec fn counts_strokes(&self, both: bool) -> Seq<Stroke> {
        let at = self.at();
        let n = self@.text.len() as int;
        let na = self.symbols().len();
        seq![
            label_stroke(shift(at.rsigma, -1, 0), "\u{3c3}"@),
            label_stroke(shift(at.pcnt, -1, 0), "C"@),
        ] + self.count_columns(na) + highlight_box_strokes(shift(at.pfirst, 0, n), 1, 0, RED)
            + highlight_box_strokes(shift(at.pfirst_r, 0, n), 1, 0, RED) + maybe(
            both,
            self.count_columns_r(na),
        )
    }

    /// The first `m` entries of a rank table for the `i`-th symbol, one below
    /// the other from `p` on.
    pub open spec fn occ_cells(&self, p: Pos, reverse: bool, i: int, m: nat) -> Seq<Stroke>
        decreases m,
    {
        if m == 0 {
            Seq::empty()
        } else {
            let l = if reverse {
                self.last_r()
            } else {
                self.last()
            };
            self.occ_cells(p, reverse, i, (m - 1) as nat) + seq![
                label_stroke(
                    shift(p, i, m - 1),
                    decimal(crate::rotation::rank(l, self.symbols()[i], m - 1)),
                ),
            ]
        }
    }

    /// The first `m` columns of a rank table.
    pub open spec fn occ_columns(&self, p: Pos, reverse: bool, m: nat) -> Seq<Stroke>
        decreases m,
    {
        if m == 0 {
            Seq::empty()
        } else {
            self.occ_columns(p, reverse, (m - 1) as nat) + self.occ_cells(
                p,
                reverse,
                m - 1,
                self@.text.len() + 1,
            )
        }
    }

    /// One of the two rank tables, its top left at `p`.
    #[verifier::opaque]
    pub open spec fn occ_strokes(&self, p: Pos, reverse: bool) -> Seq<Stroke> {
        self.occ_columns(p, reverse, self.symbols().len())
    }

    /// The rows of the `c`-th symbol on both sides, before and behind them.
    #[verifier::opaque]
    pub open spec fn equivalence_strokes(&self, c: int) -> Seq<Stroke> {
        let at = self.at();
        let sym = self.symbols()[c];
        let s = crate::rotation::smaller(self@.text, sym) as int;
        let l = symbol_count(self@.text, sym as int) as usize;
        highlight_box_strokes(shift(at.plast, 0, s), 1, l, RED) + highlight_box_strokes(
            shift(at.pfirst_r, -1, s),
            1,
            l,
            RED,
        ) + highlight_box_strokes(shift(at.plast_r, 0, s), 1, l, BLUE) + highlight_box_strokes(
            shift(at.pfirst, 1, s),
            1,
            l,
            BLUE,
        )
    }

    /// The query twice, once on either side, and its name.
    #[verifier::opaque]
    pub open spec fn query_pair_strokes(&self, m: Matched) -> Seq<Stroke> {
        let at = self.at();
        let q = self@.query;
        let ql = q.len();
        maybe(
            4 >= m.ds + 1,
            seq![
                label_stroke(
                    shift(
                        at.pq,
                        -(if m.ds + 1 > 2 {
                            m.ds + 1
                        } else {
                            2
                        }),
                        0,
                    ),
                    "Q"@,
                ),
            ],
        ) + string_strokes(shift(at.pq, -m.ds, 0), q, plain(ql, (240u8, 240u8, 240u8)), ql)
            + string_strokes(shift(at.pq_r, -m.de, 0), q, plain(ql, (240u8, 240u8, 240u8)), ql)
    }

    /// The two ranges as numbers, and as marks beside their rows.
    #[verifier::opaque]
    pub open spec fn range_numbers_strokes(&self, m: Matched) -> Seq<Stroke> {
        let at = self.at();
        seq![
            label_stroke(shift(at.pqs, -2, 0), "s"@),
            label_stroke(shift(at.pqt, -2, 0), "t"@),
            label_stroke(shift(at.pqs_r, 2, 0), "sr"@),
            label_stroke(shift(at.pqt_r, 2, 0), "tr"@),
            label_stroke(at.pqs, decimal(m.rs as nat)),
            label_stroke(at.pqt, decimal(m.re as nat)),
            label_stroke(at.pqs_r, decimal(m.rrs as nat)),
            label_stroke(shift(at.pqs_r, 0, 1), decimal(m.rre as nat)),
        ] + (if m.re > m.rs {
            seq![
                label_stroke(shift(at.cst, 0, m.rs as int), "s"@),
                label_stroke(shift(at.cst, 0, m.re as int), "t"@),
                label_stroke(shift(at.cst_r, 0, m.rrs as int), "sr"@),
                label_stroke(shift(at.cst_r, 0, m.rre as int), "tr"@),
            ]
        } else {
            seq![
                label_stroke(shift(at.cst, 0, m.rs as int), "s/t"@),
                label_stroke(shift(at.cst_r, 0, m.rrs as int), "sr/tr"@),
            ]
        })
    }

    /// The matched part of the query in cyan, on either side.
    #[verifier::opaque]
    pub open spec fn matched_part_strokes(&self, m: Matched) -> Seq<Stroke> {
        let at = self.at();
        let done = self@.query.subrange(m.ds as int, m.de as int);
        string_strokes(at.pq, done, plain(m.step as nat, CYAN), m.step as nat) + string_strokes(
            shift(at.pq_r, -m.step, 0),
            done,
            plain(m.step as nat, CYAN),
            m.step as nat,
        )
    }

    /// The query on both sides with its matched part marked, and the two
    /// ranges as numbers and as marks beside their rows.
    #[verifier::opaque]
    pub open spec fn matched_query_strokes(&self, m: Matched) -> Seq<Stroke> {
        self.query_pair_strokes(m) + self.range_numbers_strokes(m) + self.matched_part_strokes(m)
    }

    /// The first `k` rows of the range of the text, their matched symbols in
    /// cyan.
    pub open spec fn matched_rows_f(&self, m: Matched, k: nat) -> Seq<Stroke>
        decreases k,
    {
        if k == 0 {
            Seq::empty()
        } else {
            let j = m.rs + k - 1;
            let from = self.sa()[j] as int;
            self.matched_rows_f(m, (k - 1) as nat) + string_strokes(
                shift(self.at().psa, 0, j),
                self.tripled().subrange(from, from + m.step),
                plain(m.step as nat, CYAN),
                m.step as nat,
            )
        }
    }

    /// The first `k` rows of the range of the reverse side, their matched
    /// symbols in cyan.
    pub open spec fn matched_rows_r(&self, m: Matched, k: nat) -> Seq<Stroke>
        decreases k,
    {
        if k == 0 {
            Seq::empty()
        } else {
            let j = m.rrs + k - 1;
            let to = self@.text.len() + self.sar()[j];
            self.matched_rows_r(m, (k - 1) as nat) + string_strokes(
                shift(self.at().psa_r, -m.step, j),
                self.tripled().subrange(to - m.step, to),
                plain(m.step as nat, CYAN),
                m.step as nat,
            )
        }
    }

    /// The rows of the two ranges, their matched symbols in cyan.
    #[verifier::opaque]
    pub open spec fn matched_rows_strokes(&self, m: Matched) -> Seq<Stroke> {
        self.matched_rows_f(m, (m.re - m.rs) as nat) + self.matched_rows_r(
            m,
            (m.rre - m.rrs) as nat,
        )
    }

    /// Black lines around the two ranges, and frames round their numbers.
    #[verifier::opaque]
    pub open spec fn matched_lines_strokes(&self, m: Matched) -> Seq<Stroke> {
        let at = self.at();
        let half = (self@.text.len() / 2) as usize;
        highlight_box_strokes(shift(at.plast, 0, m.rs as int), half, 0, BLACK)
            + highlight_box_strokes(shift(at.plast, 0, m.re as int), half, 0, BLACK)
            + highlight_box_strokes(shift(at.plast_r, -(half - 1), m.rrs as int), half, 0, BLACK)
            + highlight_box_strokes(shift(at.plast_r, -(half - 1), m.rre as int), half, 0, BLACK)
            + highlight_box_strokes(at.pqs, 1, 2, BLACK) + highlight_box_strokes(
            at.pqs_r,
            1,
            2,
            BLACK,
        )
    }

    /// What every frame of a query holds: the query, the ranges, their rows.
    #[verifier::opaque]
    pub open spec fn matched_strokes(&self, m: Matched) -> Seq<Stroke> {
        self.matched_query_strokes(m) + self.matched_rows_strokes(m) + self.matched_lines_strokes(
            m,
        )
    }

    /// Where the next symbol stands in the query on the side of the text.
    pub open spec fn next_place_f(&self, m: Matched, nx: Next) -> Pos {
        shift(self.at().pq, nx.idx - m.ds, 0)
    }

    /// Where the next symbol stands in the query on the reverse side.
    pub open spec fn next_place_r(&self, m: Matched, nx: Next) -> Pos {
        shift(self.at().pq_r, nx.idx - m.de, 0)
    }

    /// The next symbol, marked in the query on both sides.
    #[verifier::opaque]
    pub open spec fn next_strokes(&self, m: Matched, nx: Next) -> Seq<Stroke> {
        let near = self.next_place_f(m, nx);
        let near_r = self.next_place_r(m, nx);
        seq![label_stroke(shift(near, 0, -1), "c"@)] + char_box_strokes(
            near,
            nx.c,
            (180u8, 180u8, 250u8),
        ) + seq![label_stroke(shift(near_r, 0, -1), "c"@)] + char_box_strokes(
            near_r,
            nx.c,
            (180u8, 180u8, 250u8),
        )
    }

    /// The first `k` rows of the range of the text: those that go on with
    /// the next symbol show it.
    pub open spec fn next_matches_f(&self, m: Matched, nx: Next, k: nat) -> Seq<Stroke>
        decreases k,
    {
        if k == 0 {
            Seq::empty()
        } else {
            let j = m.rs + k - 1;
            self.next_matches_f(m, nx, (k - 1) as nat) + maybe(
                self.tripled()[self.sa()[j] + self@.text.len() + nx.idx - m.ds] == nx.c,
                char_box_strokes(
                    shift(self.at().psa, nx.idx - m.ds, j),
                    nx.c,
                    (180u8, 180u8, 250u8),
                ),
            )
        }
    }

    /// The first `k` rows of the range of the reverse side: those that go on
    /// with the next symbol show it.
    pub open spec fn next_matches_r(&self, m: Matched, nx: Next, k: nat) -> Seq<Stroke>
        decreases k,
    {
        if k == 0 {
            Seq::empty()
        } else {
            let j = m.rrs + k - 1;
            self.next_matches_r(m, nx, (k - 1) as nat) + maybe(
                self.tripled()[self.sar()[j] + self@.text.len() + nx.idx - m.de] == nx.c,
                char_box_strokes(
                    shift(self.at().psa_r, nx.idx - m.de, j),
                    nx.c,
                    (180u8, 180u8, 250u8),
                ),
            )
        }
    }

    /// The rows of the two ranges that go on with the next symbol.
    #[verifier::opaque]
    pub open spec fn next_matches_strokes(&self, m: Matched, nx: Next) -> Seq<Stroke> {
        self.next_matches_f(m, nx, (m.re - m.rs) as nat) + self.next_matches_r(
            m,
            nx,
            (m.rre - m.rrs) as nat,
        )
    }

    /// The next symbol in the first `k` rows of the range that the step of
    /// backward search leads to, in the first column at `first`.
    pub open spec fn first_boxes(&self, first: Pos, nx: Next, k: nat) -> Seq<Stroke>
        decreases k,
    {
        if k == 0 {
            Seq::empty()
        } else {
            self.first_boxes(first, nx, (k - 1) as nat) + char_box_strokes(
                shift(first, 0, nx.ss + k - 1),
                nx.c,
                (180u8, 180u8, 250u8),
            )
        }
    }

    /// The last column of the side that the extension searches on.
    pub open spec fn side_last(&self, nx: Next) -> Pos {
        if nx.left {
            self.at().plast
        } else {
            self.at().plast_r
        }
    }

    /// The first column of the side that the extension searches on.
    pub open spec fn side_first(&self, nx: Next) -> Pos {
        if nx.left {
            self.at().pfirst
        } else {
            self.at().pfirst_r
        }
    }

    /// The rank table of the side that the extension searches on.
    pub open spec fn side_occ(&self, nx: Next) -> Pos {
        if nx.left {
            self.at().pocc
        } else {
            self.at().pocc_r
        }
    }

    /// The alphabet above the rank table of the side that the extension
    /// searches on.
    pub open spec fn side_sigma(&self, nx: Next) -> Pos {
        if nx.left {
            self.at().rsigma
        } else {
            self.at().rsigma_r
        }
    }

    /// The place of the next symbol on the side that the extension searches
    /// on.
    pub open spec fn side_near(&self, m: Matched, nx: Next) -> Pos {
        if nx.left {
            self.next_place_f(m, nx)
        } else {
            self.next_place_r(m, nx)
        }
    }

    /// The place of the next symbol on the other side.
    pub open spec fn other_near(&self, m: Matched, nx: Next) -> Pos {
        if nx.left {
            self.next_place_r(m, nx)
        } else {
            self.next_place_f(m, nx)
        }
    }

    /// Where the old range of the side that the extension searches on
    /// begins.
    pub open spec fn side_from(&self, m: Matched, nx: Next) -> int {
        if nx.left {
            m.rs as int
        } else {
            m.rrs as int
        }
    }

    /// Where the old range of the side that the extension searches on ends.
    pub open spec fn side_to(&self, m: Matched, nx: Next) -> int {
        if nx.left {
            m.re as int
        } else {
            m.rre as int
        }
    }

    /// Where the old range of the other side begins.
    pub open spec fn other_from(&self, m: Matched, nx: Next) -> int {
        if nx.left {
            m.rrs as int
        } else {
            m.rs as int
        }
    }

    /// The last column of the side that the extension searches on, as
    /// symbols.
    pub open spec fn side_column(&self, nx: Next) -> Seq<u8> {
        if nx.left {
            self.last()
        } else {
            self.last_r()
        }
    }

    /// The first extension: the rows of the old range in the last column of
    /// the side that is searched, and the rows of the next symbol that they
    /// lead to in its first column.
    #[verifier::opaque]
    pub open spec fn first_rows_strokes(&self, m: Matched, nx: Next) -> Seq<Stroke> {
        highlight_box_strokes(
            shift(self.side_last(nx), 0, self.side_from(m, nx)),
            1,
            (self.side_to(m, nx) - self.side_from(m, nx)) as usize,
            BLUE,
        ) + self.first_boxes(self.side_first(nx), nx, (nx.tt - nx.ss) as nat)
    }

    /// The first extension, from the counts: the two entries of the rank
    /// table; from the step after `CountFirst` on the entry of the C-array;
    /// from the step after `SmallerCountFirst` on the new range.
    #[verifier::opaque]
    pub open spec fn first_counts_strokes(&self, m: Matched, nx: Next, upto: QueryStep) -> Seq<
        Stroke,
    > {
        let occ = self.side_occ(nx);
        let sigma = self.side_sigma(nx);
        let near = self.side_near(m, nx);
        mark(shift(occ, nx.ci as int, self.side_from(m, nx)), BLUE) + mark(
            shift(occ, nx.ci as int, self.side_to(m, nx)),
            BLUE,
        ) + maybe(
            upto != QueryStep::CountFirst,
            highlight_box_strokes(shift(sigma, nx.ci as int, 0), 1, 2, BLUE) + seq![
                label_stroke(shift(sigma, nx.ci as int, 2), "+"@),
            ] + maybe(
                upto != QueryStep::SmallerCountFirst,
                seq![
                    label_stroke(shift(near, 0, 1), decimal(nx.ss as nat)),
                    label_stroke(shift(near, 0, 2), decimal(nx.tt as nat)),
                ] + highlight_box_strokes(shift(near, 0, 1), 1, 2, BLUE) + highlight_box_strokes(
                    shift(self.side_first(nx), 0, nx.ss as int),
                    1,
                    (nx.tt - nx.ss) as usize,
                    BLUE,
                ),
            ),
        )
    }

    /// For the first `k` symbols of the alphabet, how many rows of the old
    /// range hold each before them, written in the row `row` under the rank
    /// table.
    pub open spec fn range_counts(&self, m: Matched, nx: Next, row: int, k: nat) -> Seq<Stroke>
        decreases k,
    {
        if k == 0 {
            Seq::empty()
        } else {
            let c = self.symbols()[k - 1];
            let l = self.side_column(nx);
            self.range_counts(m, nx, row, (k - 1) as nat) + seq![
                label_stroke(
                    shift(self.side_occ(nx), k - 1, row),
                    decimal(
                        (crate::rotation::rank(l, c, self.side_to(m, nx)) - crate::rotation::rank(
                            l,
                            c,
                            self.side_from(m, nx),
                        )) as nat,
                    ),
                ),
            ]
        }
    }

    /// The column of the next symbol on the other side.
    pub open spec fn other_column(&self, m: Matched, nx: Next) -> Pos {
        if nx.left {
            shift(self.at().psa_r, nx.idx - m.de, 0)
        } else {
            shift(self.at().psa, nx.idx - m.ds, 0)
        }
    }

    /// The counts of the symbols below the next one in the old range, and
    /// their sum.
    #[verifier::opaque]
    pub open spec fn second_sum_strokes(&self, m: Matched, nx: Next) -> Seq<Stroke> {
        let n = self@.text.len() as int;
        let occ = self.side_occ(nx);
        self.range_counts(m, nx, n + 3, nx.ci as nat) + seq![
            label_stroke(shift(occ, -1, n + 3), decimal(nx.less as nat)),
        ] + mark(shift(occ, -1, n + 3), RED)
    }

    /// The entries of the alphabet and of the rank table that count the rows
    /// with a smaller symbol; from the step after `CountSecond` on also the
    /// counts and their sum.
    #[verifier::opaque]
    pub open spec fn second_entries_strokes(&self, m: Matched, nx: Next, upto: QueryStep) -> Seq<
        Stroke,
    > {
        let occ = self.side_occ(nx);
        highlight_box_strokes(self.side_sigma(nx), nx.ci, 1, RED) + highlight_box_strokes(
            shift(occ, 0, self.side_from(m, nx)),
            nx.ci,
            1,
            RED,
        ) + highlight_box_strokes(shift(occ, 0, self.side_to(m, nx)), nx.ci, 1, RED) + maybe(
            upto != QueryStep::CountSecond,
            self.second_sum_strokes(m, nx),
        )
    }

    /// The rows of the old range in the last column of the side that is
    /// searched; from the step after `EquivalenceSecond` on also the entries
    /// that count them.
    #[verifier::opaque]
    pub open spec fn second_source_strokes(&self, m: Matched, nx: Next, upto: QueryStep) -> Seq<
        Stroke,
    > {
        let from = self.side_from(m, nx);
        let to = self.side_to(m, nx);
        highlight_box_strokes(shift(self.side_last(nx), 0, from), 1, (to - from) as usize, RED)
            + maybe(
            upto != QueryStep::EquivalenceSecond,
            self.second_entries_strokes(m, nx, upto),
        )
    }

    /// The second extension, on the other side: the rows with a smaller
    /// symbol that the range skips; from the step after
    /// `SmallerWindowSecond` on where they come from and how they are
    /// counted.
    #[verifier::opaque]
    pub open spec fn second_counts_strokes(&self, m: Matched, nx: Next, upto: QueryStep) -> Seq<
        Stroke,
    > {
        highlight_box_strokes(
            shift(self.other_column(m, nx), 0, self.other_from(m, nx)),
            1,
            nx.less,
            RED,
        ) + maybe(
            upto != QueryStep::SmallerWindowSecond,
            self.second_source_strokes(m, nx, upto),
        )
    }

    /// The end of the new range on the other side: the counts of the symbols
    /// up to the next one, their sum, and the end, which is the start of the
    /// old range there and that sum.
    #[verifier::opaque]
    pub open spec fn range_end_strokes(&self, m: Matched, nx: Next) -> Seq<Stroke> {
        let at = self.at();
        let n = self@.text.len() as int;
        let occ = self.side_occ(nx);
        let near = self.other_near(m, nx);
        let range_end = if nx.left {
            at.pqt_r
        } else {
            at.pqt
        };
        self.range_counts(m, nx, n + 4, (nx.ci + 1) as nat) + seq![
            label_stroke(shift(occ, -1, n + 4), decimal((nx.less + nx.same) as nat)),
        ] + mark(shift(occ, -1, n + 4), RED) + mark(range_end, RED) + seq![
            label_stroke(
                shift(near, 0, 2),
                decimal((self.other_from(m, nx) + nx.less + nx.same) as nat),
            ),
        ] + mark(shift(near, 0, 2), RED)
    }

    /// The start of the new range on the other side; from the step after
    /// `ExtendStartSecond` on also its end.
    #[verifier::opaque]
    pub open spec fn second_range_strokes(&self, m: Matched, nx: Next, upto: QueryStep) -> Seq<
        Stroke,
    > {
        let at = self.at();
        let near = self.other_near(m, nx);
        let range_start = if nx.left {
            at.pqs_r
        } else {
            at.pqs
        };
        mark(range_start, RED) + seq![
            label_stroke(shift(near, 0, 1), decimal((self.other_from(m, nx) + nx.less) as nat)),
        ] + mark(shift(near, 0, 1), RED) + maybe(
            upto != QueryStep::ExtendStartSecond,
            self.range_end_strokes(m, nx),
        )
    }

    /// What is written under the text in step `qs` of an extension.
    pub open spec fn step_caption(&self, qs: QueryStep, left: bool) -> Seq<Stroke> {
        seq![text_stroke(self.at().plabel, step_caption_of(qs, left))]
    }

    /// The second extension in step `qs`.
    #[verifier::opaque]
    pub open spec fn second_strokes(&self, m: Matched, nx: Next, qs: QueryStep) -> Seq<Stroke> {
        self.second_counts_strokes(m, nx, qs) + (if qs == QueryStep::SmallerWindowSecond || qs
            == QueryStep::EquivalenceSecond || qs == QueryStep::CountSecond || qs
            == QueryStep::ComputeSecond {
            self.step_caption(qs, nx.left)
        } else {
            self.second_range_strokes(m, nx, qs) + self.step_caption(qs, nx.left)
        })
    }

    /// The first extension in step `qs`, and what follows it.
    #[verifier::opaque]
    pub open spec fn first_strokes(&self, m: Matched, nx: Next, qs: QueryStep) -> Seq<Stroke> {
        self.first_rows_strokes(m, nx) + (if qs == QueryStep::EquivalenceFirst {
            self.step_caption(qs, nx.left)
        } else {
            self.first_counts_strokes(m, nx, qs) + (if qs == QueryStep::CountFirst || qs
                == QueryStep::SmallerCountFirst || qs == QueryStep::ExtendFirst {
                self.step_caption(qs, nx.left)
            } else {
                self.second_strokes(m, nx, qs)
            })
        })
    }

    /// An extension by `nx` in step `qs`: the next symbol; from the step
    /// after `HighlightChar` on the rows that go on with it; from the step
    /// after `HighlightMatches` on the two extensions.
    #[verifier::opaque]
    pub open spec fn extension_strokes(&self, m: Matched, nx: Next, qs: QueryStep) -> Seq<Stroke> {
        self.next_strokes(m, nx) + (if qs == QueryStep::HighlightChar {
            self.step_caption(qs, nx.left)
        } else {
            self.next_matches_strokes(m, nx) + (if qs == QueryStep::HighlightMatches {
                self.step_caption(qs, nx.left)
            } else {
                self.first_strokes(m, nx, qs)
            })
        })
    }

    /// The frame of step `qs` of the extension after `m`: what is matched,
    /// and, unless the step only shows that, the extension; nothing more
    /// where the text does not hold the next symbol.
    #[verifier::opaque]
    pub open spec fn query_strokes(&self, m: Matched, qs: QueryStep) -> Seq<Stroke> {
        self.matched_strokes(m) + (if qs == QueryStep::PreviousDone {
            seq![
                text_stroke(
                    self.at().plabel,
                    if m.step == 1 {
                        "Start with the range of the first character"@
                    } else {
                        "Matching done"@
                    },
                ),
            ]
        } else {
            match self.next_of(m) {
                Some(nx) => self.extension_strokes(m, nx, qs),
                None => Seq::empty(),
            }
        })
    }

    /// What is written under the text in the frame of `state`; empty in a
    /// step of an extension by a symbol that the text does not hold.
    pub open spec fn caption_strokes(&self, state: State) -> Seq<Stroke> {
        match caption_of(state, self@.query, self.symbols()) {
            Some(text) => seq![text_stroke(self.at().plabel, text)],
            None => Seq::empty(),
        }
    }

    /// What the frame of `state` holds on top of the two rank tables.
    #[verifier::opaque]
    pub open spec fn after_tables(&self, state: State) -> Seq<Stroke> {
        let at = self.at();
        let n = self@.text.len();
        let na = self.symbols().len();
        match state {
            State::RightOcc => highlight_box_strokes(at.pocc_r, na as usize, (n + 1) as usize, BLUE)
                + highlight_box_strokes(at.plast_r, 1, n as usize, BLUE) + self.caption_strokes(
                state,
            ),
            State::Equivalence(c) => self.equivalence_strokes(c as int) + self.caption_strokes(
                state,
            ),
            State::Query(step, qs) => self.query_strokes(self.matched_of(step as int), qs),
            _ => self.caption_strokes(state),
        }
    }

    /// What the frame of `state` holds on top of the two suffix arrays.
    #[verifier::opaque]
    pub open spec fn after_arrays(&self, state: State) -> Seq<Stroke> {
        let at = self.at();
        let n = self@.text.len();
        let na = self.symbols().len();
        match state {
            State::BothSA => self.caption_strokes(state),
            State::CharCounts => self.counts_strokes(false) + highlight_box_strokes(
                at.pfirst,
                1,
                n as usize,
                RED,
            ) + highlight_box_strokes(at.pfirst_r, 1, n as usize, RED) + highlight_box_strokes(
                at.rsigma,
                na as usize,
                2,
                RED,
            ) + self.caption_strokes(state),
            State::LeftOcc => self.counts_strokes(false) + seq![
                label_stroke(shift(at.pocc, -1, -1), "Occ"@),
            ] + self.occ_strokes(at.pocc, false) + highlight_box_strokes(
                at.pocc,
                na as usize,
                (n + 1) as usize,
                BLUE,
            ) + highlight_box_strokes(at.plast, 1, n as usize, BLUE) + self.caption_strokes(state),
            _ => self.counts_strokes(true) + seq![label_stroke(shift(at.pocc, -1, -1), "Occ"@)]
                + self.occ_strokes(at.pocc, false) + seq![
                label_stroke(shift(at.pocc_r, -1, -1), "Occr"@),
            ] + self.occ_strokes(at.pocc_r, true) + self.after_tables(state),
        }
    }

    /// How much of each rotation the frame of `state` shows: all of it in
    /// the first two steps of a suffix array, and less than half later.
    pub open spec fn shown_length(&self, state: State) -> int {
        let n = self@.text.len() as int;
        match state {
            State::LeftSA(k) => if k <= 1 {
                n
            } else {
                n / 2 - 1
            },
            State::RightSA(k) => if k <= 1 {
                n
            } else {
                n / 2 - 1
            },
            _ => n / 2 - 1,
        }
    }

    /// What the frame of `state` holds on top of the text.
    #[verifier::opaque]
    pub open spec fn after_input(&self, state: State) -> Seq<Stroke> {
        let l = self.shown_length(state);
        match state {
            State::Init => self.caption_strokes(state),
            State::LeftSA(k) => self.forward_strokes(l) + (if k == 0 {
                self.caption_strokes(state)
            } else {
                self.last_forward_strokes() + self.caption_strokes(state)
            }),
            State::RightSA(k) => self.reverse_strokes(l) + (if k == 0 {
                self.caption_strokes(state)
            } else {
                self.last_reverse_strokes() + self.caption_strokes(state)
            }),
            _ => self.forward_strokes(l) + self.last_forward_strokes() + self.reverse_strokes(l)
                + self.last_reverse_strokes() + self.after_arrays(state),
        }
    }

    /// The frame of `state`. Every frame holds the text. The steps of a
    /// suffix array hold that array; every later frame holds both arrays
    /// with their last columns, then the tables as far as the states before
    /// it showed them, then what its state is about.
    pub open spec fn frame(&self, state: State) -> Seq<Stroke> {
        seq![Stroke::Background { color: WHITE }] + self.input_strokes() + self.after_input(state)
    }

    /// The part of the query that is matched in step `step`, and its two
    /// ranges, found by scanning the rows.
    fn matched(&self, step: usize) -> (m: Matched)
        requires
            self.drawable(),
            step <= self.q@.len(),
            self.q@.len() >= 1 ==> step >= 1,
        ensures
            m == self.matched_of(step as int),
            self.matched_ok(&m),
    {
        proof {
            self.lemma_shape();
        }
        let ql = self.q.len();
        let mid = (ql + 1) / 2;
        let (ds, de) = if step <= mid {
            (mid - step, mid)
        } else {
            (0, step)
        };
        let (range, range_r) = self.query_ranges(slice_subrange(self.q.as_slice(), ds, de));
        proof {
            let done = self.q@.subrange(ds as int, de as int);
            crate::scan::lemma_scan_range_unique(
                self.s@,
                rows_of(self.sa@),
                done,
                range.start as int,
                range.end as int,
            );
            crate::scan::lemma_scan_range_unique(
                self.s@.reverse(),
                mirrored_rows(self.sa_r@),
                done.reverse(),
                range_r.start as int,
                range_r.end as int,
            );
        }
        Matched {
            step,
            ds,
            de,
            rs: range.start,
            re: range.end,
            rrs: range_r.start,
            rre: range_r.end,
        }
    }

    /// The two ranges that the last step of an extension shows have one
    /// size: the end that is written on the other side lies as far behind the
    /// start written there as the new range of the side that is searched has
    /// rows.
    pub proof fn lemma_shown_ranges_agree(&self, m: Matched, nx: Next)
        requires
            self.drawable(),
            m.rs <= m.re <= self@.text.len(),
            m.rrs <= m.rre <= self@.text.len(),
            self.next_of(m) == Some(nx),
        ensures
            nx.ss <= nx.tt,
            (self.other_from(m, nx) + nx.less + nx.same) - (self.other_from(m, nx) + nx.less)
                == nx.tt - nx.ss,
    {
        self.lemma_shape();
        let k = place_of(self.alph@, nx.c);
        assert(self.alph@.contains(nx.c));
        self.lemma_next_counts(k);
        self.lemma_between(k, self.side_from(m, nx), self.side_to(m, nx));
    }

    /// The symbol that the query is extended by after `m`, and what the
    /// extension counts; `None` where the text does not hold the symbol.
    fn next_symbol(&self, m: &Matched) -> (r: Option<Next>)
        requires
            self.drawable(),
            self.matched_ok(m),
            m.step < self.q@.len(),
        ensures
            r == self.next_of(*m),
            r matches Some(nx) ==> self.next_ok(m, &nx),
    {
        proof {
            self.lemma_shape();
        }
        let ql = self.q.len();
        let mid = (ql + 1) / 2;
        let left = m.step < mid;
        let idx = if left {
            mid - m.step - 1
        } else {
            m.step
        };
        let c = self.q[idx];
        let ci = match symbol_index(&self.alph, c) {
            Some(ci) => ci,
            None => {
                return None;
            },
        };
        let (from, to) = if left {
            (m.rs, m.re)
        } else {
            (m.rrs, m.rre)
        };
        proof {
            self.lemma_next_counts(ci as int);
            self.lemma_between(ci as int, from as int, to as int);
            let chosen = place_of(self.alph@, c);
            assert(self.alph@.contains(c));
            if chosen < ci {
                assert(self.alph@[chosen] < self.alph@[ci as int]);
            } else if ci < chosen {
                assert(self.alph@[ci as int] < self.alph@[chosen]);
            }
        }
        let (seen_from, seen_to, less) = if left {
            (
                self.occ[ci][from],
                self.occ[ci][to],
                count_smaller_in_range(&self.occ, ci, from, to, Ghost(self.alph@), Ghost(self.last@)),
            )
        } else {
            (
                self.occ_r[ci][from],
                self.occ_r[ci][to],
                count_smaller_in_range(
                    &self.occ_r,
                    ci,
                    from,
                    to,
                    Ghost(self.alph@),
                    Ghost(self.last_r@),
                ),
            )
        };
        let base = self.char_start[ci];
        Some(
            Next {
                left,
                idx,
                c,
                ci,
                ss: base + seen_from,
                tt: base + seen_to,
                less,
                same: seen_to - seen_from,
            },
        )
    }

    /// The text at the top, with the numbers of its places.
    fn draw_input(&self, at: &Layout, canvas: &mut CanvasBox)
        requires
            self.drawable(),
            *at == self.at(),
        ensures
            final(canvas).strokes() == old(canvas).strokes() + self.input_strokes(),
    {
        proof {
            self.lemma_shape();
        }
        reveal(BiBWT::input_strokes);
        let s = self.s.as_slice();
        let is_end = |i: usize| -> (c: Color)
            requires
                i < s@.len(),
            ensures
                c == marked(s@[i as int] == 36),
            { to_c(s[i] == 36u8) };
        string_with_labels(at.ps, s, is_end, canvas, Ghost(self.end_colours()));
    }

    /// Row `j` of the sorted rotations of the text.
    fn draw_forward_row(&self, at: &Layout, l: usize, j: usize, canvas: &mut CanvasBox)
        requires
            self.drawable(),
            *at == self.at(),
            l <= self.s@.len(),
            j < self.s@.len(),
        ensures
            final(canvas).strokes() == old(canvas).strokes() + self.forward_row(l as int, j as int),
    {
        proof {
            self.lemma_shape();
            self.lemma_text_ascii();
        }
        let n = self.s.len();
        let s2 = self.s2.as_slice();
        let i = self.sa[j];
        let ends = |idx: usize| -> (c: Color)
            ensures
                c == marked(idx == 0 || idx == n - 1),
            { to_c(idx == 0 || idx == n - 1) };
        number(at.cj.down(j), j, canvas);
        number(at.ca.down(j), i, canvas);
        string(
            at.psa.down(j),
            slice_subrange(s2, i, i + l),
            ends,
            canvas,
            Ghost(self.ends_colours(l as int)),
        );
        assert(canvas.strokes() =~= old(canvas).strokes() + self.forward_row(l as int, j as int));
    }

    /// The sorted rotations of the text, their first `l` symbols, with row
    /// numbers and start positions.
    #[verifier::loop_isolation(false)]
    #[verifier::rlimit(40)]
    fn draw_forward(&self, at: &Layout, l: usize, canvas: &mut CanvasBox)
        requires
            self.drawable(),
            *at == self.at(),
            l <= self.s@.len(),
        ensures
            final(canvas).strokes() == old(canvas).strokes() + self.forward_strokes(l as int),
    {
        proof {
            self.lemma_shape();
        }
        reveal(BiBWT::forward_strokes);
        let n = self.s.len();
        let s2 = self.s2.as_slice();
        proof {
            self.lemma_text_ascii();
        }
        draw_label(at.cj.up(1), "j", canvas);
        draw_label(at.ca.up(1), "A", canvas);
        draw_label(at.pfirst.up(1), "F", canvas);
        // Label for last column?
        if l == n {
            draw_label(at.plast.right(n).up(1), "L", canvas);
        }
        let ghost named = canvas.strokes();
        assert(named =~= named + self.forward_rows(l as int, 0));
        let mut j: usize = 0;
        while j < n
            invariant
                j <= n,
                canvas.strokes() == named + self.forward_rows(l as int, j as nat),
            decreases n - j,
        {
            self.draw_forward_row(at, l, j, canvas);
            j += 1;
            assert(canvas.strokes() =~= named + self.forward_rows(l as int, j as nat));
        }
        assert(canvas.strokes() =~= old(canvas).strokes() + self.forward_strokes(l as int));
    }

    /// A last column as boxes one below the other from `p` on; row `j` holds
    /// the symbol at `offset` behind its entry in `entries`.
    #[verifier::loop_isolation(false)]
    #[verifier::rlimit(40)]
    fn draw_column(&self, p: Pos, entries: &Vec<usize>, offset: usize, canvas: &mut CanvasBox)
        requires
            self.drawable(),
            p.0 <= self.s@.len() + 4,
            p.1 == 3,
            entries@.len() == self.s@.len(),
            forall|j: int| 0 <= j < entries@.len() ==> #[trigger] entries@[j] + offset < 3
                * self.s@.len(),
        ensures
            final(canvas).strokes() == old(canvas).strokes() + self.column_boxes(
                p,
                entries@,
                offset as int,
                self.s@.len(),
            ),
    {
        proof {
            self.lemma_shape();
        }
        let n = self.s.len();
        let s2 = self.s2.as_slice();
        proof {
            self.lemma_text_ascii();
        }
        assert(canvas.strokes() =~= old(canvas).strokes() + self.column_boxes(
            p,
            entries@,
            offset as int,
            0,
        ));
        let mut j: usize = 0;
        while j < n
            invariant
                j <= n,
                canvas.strokes() == old(canvas).strokes() + self.column_boxes(
                    p,
                    entries@,
                    offset as int,
                    j as nat,
                ),
            decreases n - j,
        {
            let i = entries[j];
            draw_char_box(p.down(j), s2[i + offset], SOFT_HIGHLIGHT, canvas);
            j += 1;
            assert(canvas.strokes() =~= old(canvas).strokes() + self.column_boxes(
                p,
                entries@,
                offset as int,
                j as nat,
            ));
        }
    }

    /// The last column, moved before the first.
    fn draw_last_forward(&self, at: &Layout, canvas: &mut CanvasBox)
        requires
            self.drawable(),
            *at == self.at(),
        ensures
            final(canvas).strokes() == old(canvas).strokes() + self.last_forward_strokes(),
    {
        proof {
            self.lemma_shape();
        }
        reveal(BiBWT::last_forward_strokes);
        let n = self.s.len();
        draw_label(at.plast.up(1), "L", canvas);
        self.draw_column(at.plast, &self.sa, n - 1, canvas);
        assert(canvas.strokes() =~= old(canvas).strokes() + self.last_forward_strokes());
    }

    /// Row `j` of the sorted rotations of the reversed text.
    fn draw_reverse_row(&self, at: &Layout, l: usize, j: usize, canvas: &mut CanvasBox)
        requires
            self.drawable(),
            *at == self.at(),
            l <= self.s@.len(),
            j < self.s@.len(),
        ensures
            final(canvas).strokes() == old(canvas).strokes() + self.reverse_row(l as int, j as int),
    {
        proof {
            self.lemma_shape();
            self.lemma_text_ascii();
        }
        let n = self.s.len();
        let s2 = self.s2.as_slice();
        let i = self.sa_r[j];
        let ends = |idx: usize| -> (c: Color)
            requires
                idx < l,
            ensures
                c == marked(l - 1 - idx == 0 || l - 1 - idx == n - 1),
            { to_c(l - 1 - idx == 0 || l - 1 - idx == n - 1) };
        number(at.cj_r.down(j), j, canvas);
        number(at.ca_r.down(j), i, canvas);
        string(
            at.psa_r.down(j).left(l),
            slice_subrange(s2, i + n - l, i + n),
            ends,
            canvas,
            Ghost(self.ends_colours_r(l as int)),
        );
        assert(canvas.strokes() =~= old(canvas).strokes() + self.reverse_row(l as int, j as int));
    }

    /// The sorted rotations of the reversed text, their first `l` symbols
    /// read towards the left, with row numbers and the lengths of the
    /// prefixes.
    #[verifier::loop_isolation(false)]
    #[verifier::rlimit(40)]
    fn draw_reverse(&self, at: &Layout, l: usize, canvas: &mut CanvasBox)
        requires
            self.drawable(),
            *at == self.at(),
            l <= self.s@.len(),
        ensures
            final(canvas).strokes() == old(canvas).strokes() + self.reverse_strokes(l as int),
    {
        proof {
            self.lemma_shape();
        }
        reveal(BiBWT::reverse_strokes);
        let n = self.s.len();
        let s2 = self.s2.as_slice();
        proof {
            self.lemma_text_ascii();
        }
        draw_label(at.cj_r.up(1), "j", canvas);
        draw_label(at.ca_r.up(1), "Ar", canvas);
        draw_label(at.pfirst_r.up(1), "Fr", canvas);
        // Label for last column?
        if l == n {
            draw_label(at.plast_r.left(n).up(1), "Lr", canvas);
        }
        let ghost named = canvas.strokes();
        assert(named =~= named + self.reverse_rows(l as int, 0));
        let mut j: usize = 0;
        while j < n
            invariant
                j <= n,
                canvas.strokes() == named + self.reverse_rows(l as int, j as nat),
            decreases n - j,
        {
            self.draw_reverse_row(at, l, j, canvas);
            j += 1;
            assert(canvas.strokes() =~= named + self.reverse_rows(l as int, j as nat));
        }
        assert(canvas.strokes() =~= old(canvas).strokes() + self.reverse_strokes(l as int));
    }

    /// The last column of the reverse side, moved behind the first.
    fn draw_last_reverse(&self, at: &Layout, canvas: &mut CanvasBox)
        requires
            self.drawable(),
            *at == self.at(),
        ensures
            final(canvas).strokes() == old(canvas).strokes() + self.last_reverse_strokes(),
    {
        proof {
            self.lemma_shape();
        }
        reveal(BiBWT::last_reverse_strokes);
        let n = self.s.len();
        draw_label(at.plast_r.up(1), "Lr", canvas);
        self.draw_column(at.plast_r, &self.sa_r, n, canvas);
        assert(canvas.strokes() =~= old(canvas).strokes() + self.last_reverse_strokes());
    }

    /// The `i`-th symbol of the alphabet with its entry of the C-array.
    fn draw_count_column(&self, at: &Layout, i: usize, canvas: &mut CanvasBox)
        requires
            self.drawable(),
            *at == self.at(),
            i < self.alph@.len(),
        ensures
            final(canvas).strokes() == old(canvas).strokes() + self.count_column(i as int),
    {
        proof {
            self.lemma_shape();
            self.lemma_alphabet_ascii();
            self.lemma_block(i as int);
        }
        let count = self.char_start[i];
        draw_label(at.rsigma.right(i), to_label(self.alph[i]).as_str(), canvas);
        number(at.pcnt.right(i), count, canvas);
        draw_highlight_box(at.pfirst.down(count), 1, 0, RED, canvas);
        draw_highlight_box(at.pfirst_r.down(count), 1, 0, RED, canvas);
        assert(canvas.strokes() =~= old(canvas).strokes() + self.count_column(i as int));
    }

    /// The alphabet and the C-array, and where the rows of each symbol begin
    /// on both sides; where `both` holds, the two also above the reverse rank
    /// table.
    #[verifier::loop_isolation(false)]
    #[verifier::rlimit(40)]
    fn draw_counts(&self, at: &Layout, both: bool, canvas: &mut CanvasBox)
        requires
            self.drawable(),
            *at == self.at(),
        ensures
            final(canvas).strokes() == old(canvas).strokes() + self.counts_strokes(both),
    {
        proof {
            self.lemma_shape();
        }
        reveal(BiBWT::counts_strokes);
        let n = self.s.len();
        let na = self.alph.len();
        proof {
            self.lemma_alphabet_ascii();
        }
        draw_label(at.rsigma.left(1), "\u{3c3}", canvas);
        draw_label(at.pcnt.left(1), "C", canvas);
        let ghost named = canvas.strokes();
        assert(named =~= named + self.count_columns(0));
        let mut i: usize = 0;
        while i < na
            invariant
                i <= na,
                canvas.strokes() == named + self.count_columns(i as nat),
            decreases na - i,
        {
            self.draw_count_column(at, i, canvas);
            i += 1;
            assert(canvas.strokes() =~= named + self.count_columns(i as nat));
        }
        draw_highlight_box(at.pfirst.down(n), 1, 0, RED, canvas);
        draw_highlight_box(at.pfirst_r.down(n), 1, 0, RED, canvas);
        // When the reverse rank table is shown, duplicate this.
        let ghost lined = canvas.strokes();
        if both {
            assert(lined =~= lined + self.count_columns_r(0));
            let mut i: usize = 0;
            while i < na
                invariant
                    i <= na,
                    canvas.strokes() == lined + self.count_columns_r(i as nat),
                decreases na - i,
            {
                let count = self.char_start[i];
                draw_label(at.rsigma_r.right(i), to_label(self.alph[i]).as_str(), canvas);
                number(at.pcnt_r.right(i), count, canvas);
                i += 1;
                assert(canvas.strokes() =~= lined + self.count_columns_r(i as nat));
            }
        }
        assert(canvas.strokes() =~= old(canvas).strokes() + self.counts_strokes(both));
    }

    /// The column of a rank table for the `i`-th symbol.
    #[verifier::loop_isolation(false)]
    #[verifier::rlimit(40)]
    fn draw_occ_column(&self, p: Pos, reverse: bool, i: usize, canvas: &mut CanvasBox)
        requires
            self.drawable(),
            p.0 <= self.s@.len() + 300,
            p.1 == 3,
            i < self.alph@.len(),
        ensures
            final(canvas).strokes() == old(canvas).strokes() + self.occ_cells(
                p,
                reverse,
                i as int,
                self.s@.len() + 1,
            ),
    {
        proof {
            self.lemma_shape();
        }
        let n = self.s.len();
        assert(canvas.strokes() =~= old(canvas).strokes() + self.occ_cells(p, reverse, i as int, 0));
        let mut j: usize = 0;
        while j <= n
            invariant
                j <= n + 1,
                canvas.strokes() == old(canvas).strokes() + self.occ_cells(
                    p,
                    reverse,
                    i as int,
                    j as nat,
                ),
            decreases n + 1 - j,
        {
            let seen = if reverse {
                self.occ_r[i][j]
            } else {
                self.occ[i][j]
            };
            proof {
                assert(self.occ@[i as int]@[j as int] == crate::rotation::rank(
                    self.last@,
                    self.alph@[i as int],
                    j as int,
                ));
                assert(self.occ_r@[i as int]@[j as int] == crate::rotation::rank(
                    self.last_r@,
                    self.alph@[i as int],
                    j as int,
                ));
            }
            number(p.right(i).down(j), seen, canvas);
            j += 1;
            assert(canvas.strokes() =~= old(canvas).strokes() + self.occ_cells(
                p,
                reverse,
                i as int,
                j as nat,
            ));
        }
    }

    /// One of the two rank tables, its top left at `p`.
    #[verifier::loop_isolation(false)]
    #[verifier::rlimit(40)]
    fn draw_occ(&self, p: Pos, reverse: bool, canvas: &mut CanvasBox)
        requires
            self.drawable(),
            p.0 <= self.s@.len() + 300,
            p.1 == 3,
        ensures
            final(canvas).strokes() == old(canvas).strokes() + self.occ_strokes(p, reverse),
    {
        proof {
            self.lemma_shape();
        }
        reveal(BiBWT::occ_strokes);
        let na = self.alph.len();
        assert(canvas.strokes() =~= old(canvas).strokes() + self.occ_columns(p, reverse, 0));
        let mut i: usize = 0;
        while i < na
            invariant
                i <= na,
                canvas.strokes() == old(canvas).strokes() + self.occ_columns(p, reverse, i as nat),
            decreases na - i,
        {
            self.draw_occ_column(p, reverse, i, canvas);
            i += 1;
            assert(canvas.strokes() =~= old(canvas).strokes() + self.occ_columns(
                p,
                reverse,
                i as nat,
            ));
        }
    }

    /// The rows of symbol `c` on both sides, before and behind them.
    fn draw_equivalence(&self, at: &Layout, c: usize, canvas: &mut CanvasBox)
        requires
            self.drawable(),
            *at == self.at(),
            c < self.alph@.len(),
        ensures
            final(canvas).strokes() == old(canvas).strokes() + self.equivalence_strokes(c as int),
    {
        proof {
            self.lemma_shape();
        }
        reveal(BiBWT::equivalence_strokes);
        proof {
            self.lemma_block(c as int);
        }
        let s = self.char_start[c];
        let l = self.char_count[c];
        draw_highlight_box(at.plast.down(s), 1, l, RED, canvas);
        draw_highlight_box(at.pfirst_r.left(1).down(s), 1, l, RED, canvas);
        draw_highlight_box(at.plast_r.down(s), 1, l, BLUE, canvas);
        draw_highlight_box(at.pfirst.right(1).down(s), 1, l, BLUE, canvas);
        assert(canvas.strokes() =~= old(canvas).strokes() + self.equivalence_strokes(c as int));
    }

    /// The query twice, once on either side, and its name.
    fn draw_query_pair(&self, at: &Layout, m: &Matched, canvas: &mut CanvasBox)
        requires
            self.drawable(),
            *at == self.at(),
            self.matched_ok(m),
        ensures
            final(canvas).strokes() == old(canvas).strokes() + self.query_pair_strokes(*m),
    {
        proof {
            self.lemma_shape();
        }
        reveal(BiBWT::query_pair_strokes);
        let q = self.q.as_slice();
        let ghost ql = q@.len();
        // Draw query
        if at.pq.0 >= m.ds + 1 {
            let back = if m.ds + 1 > 2 {
                m.ds + 1
            } else {
                2
            };
            draw_label(at.pq.left(back), "Q", canvas);
        }
        let grey = |i: usize| -> (c: Color)
            ensures
                c == (240u8, 240u8, 240u8),
            { DEFAULT };
        string(at.pq.left(m.ds), q, grey, canvas, Ghost(plain(ql, (240u8, 240u8, 240u8))));
        string(at.pq_r.left(m.de), q, grey, canvas, Ghost(plain(ql, (240u8, 240u8, 240u8))));
        assert(canvas.strokes() =~= old(canvas).strokes() + self.query_pair_strokes(*m));
    }

    /// The two ranges as numbers, and as marks beside their rows.
    fn draw_range_numbers(&self, at: &Layout, m: &Matched, canvas: &mut CanvasBox)
        requires
            self.drawable(),
            *at == self.at(),
            self.matched_ok(m),
        ensures
            final(canvas).strokes() == old(canvas).strokes() + self.range_numbers_strokes(*m),
    {
        proof {
            self.lemma_shape();
        }
        reveal(BiBWT::range_numbers_strokes);
        // Draw current range
        draw_label(at.pqs.left(2), "s", canvas);
        draw_label(at.pqt.left(2), "t", canvas);
        draw_label(at.pqs_r.right(2), "sr", canvas);
        draw_label(at.pqt_r.right(2), "tr", canvas);
        number(at.pqs, m.rs, canvas);
        number(at.pqt, m.re, canvas);
        number(at.pqs_r, m.rrs, canvas);
        number(at.pqs_r.down(1), m.rre, canvas);
        // start/end labels in row j
        if m.re > m.rs {
            draw_label(at.cst.down(m.rs), "s", canvas);
            draw_label(at.cst.down(m.re), "t", canvas);
            draw_label(at.cst_r.down(m.rrs), "sr", canvas);
            draw_label(at.cst_r.down(m.rre), "tr", canvas);
        } else {
            draw_label(at.cst.down(m.rs), "s/t", canvas);
            draw_label(at.cst_r.down(m.rrs), "sr/tr", canvas);
        }
        assert(canvas.strokes() =~= old(canvas).strokes() + self.range_numbers_strokes(*m));
    }

    /// The matched part of the query in cyan, on either side.
    fn draw_matched_part(&self, at: &Layout, m: &Matched, canvas: &mut CanvasBox)
        requires
            self.drawable(),
            *at == self.at(),
            self.matched_ok(m),
        ensures
            final(canvas).strokes() == old(canvas).strokes() + self.matched_part_strokes(*m),
    {
        proof {
            self.lemma_shape();
        }
        reveal(BiBWT::matched_part_strokes);
        let q = self.q.as_slice();
        // Draw cyan shading for matched chars.
        let done = slice_subrange(q, m.ds, m.de);
        let cyan = |i: usize| -> (c: Color)
            ensures
                c == CYAN,
            { CYAN };
        string(at.pq, done, cyan, canvas, Ghost(plain(m.step as nat, CYAN)));
        string(at.pq_r.left(m.de - m.ds), done, cyan, canvas, Ghost(plain(m.step as nat, CYAN)));
        assert(canvas.strokes() =~= old(canvas).strokes() + self.matched_part_strokes(*m));
    }

    /// The query on both sides with its matched part marked, and the two
    /// ranges as numbers and as marks beside their rows.
    fn draw_matched_query(&self, at: &Layout, m: &Matched, canvas: &mut CanvasBox)
        requires
            self.drawable(),
            *at == self.at(),
            self.matched_ok(m),
        ensures
            final(canvas).strokes() == old(canvas).strokes() + self.matched_query_strokes(*m),
    {
        proof {
            self.lemma_shape();
        }
        reveal(BiBWT::matched_query_strokes);
        self.draw_query_pair(at, m, canvas);
        self.draw_range_numbers(at, m, canvas);
        self.draw_matched_part(at, m, canvas);
        assert(canvas.strokes() =~= old(canvas).strokes() + self.matched_query_strokes(*m));
    }

    /// The rows of the two ranges, their matched symbols marked.
    #[verifier::loop_isolation(false)]
    #[verifier::rlimit(40)]
    fn draw_matched_rows(&self, at: &Layout, m: &Matched, canvas: &mut CanvasBox)
        requires
            self.drawable(),
            *at == self.at(),
            self.matched_ok(m),
        ensures
            final(canvas).strokes() == old(canvas).strokes() + self.matched_rows_strokes(*m),
    {
        proof {
            self.lemma_shape();
        }
        reveal(BiBWT::matched_rows_strokes);
        let n = self.s.len();
        let s2 = self.s2.as_slice();
        proof {
            self.lemma_text_ascii();
        }
        let cyan = |i: usize| -> (c: Color)
            ensures
                c == CYAN,
            { CYAN };
        assert(canvas.strokes() =~= old(canvas).strokes() + self.matched_rows_f(*m, 0));
        let mut j: usize = m.rs;
        while j < m.re
            invariant
                m.rs <= j <= m.re,
                canvas.strokes() == old(canvas).strokes() + self.matched_rows_f(
                    *m,
                    (j - m.rs) as nat,
                ),
            decreases m.re - j,
        {
            let from = self.sa[j];
            string(
                at.psa.down(j),
                slice_subrange(s2, from, from + m.step),
                cyan,
                canvas,
                Ghost(plain(m.step as nat, CYAN)),
            );
            j += 1;
            assert(canvas.strokes() =~= old(canvas).strokes() + self.matched_rows_f(
                *m,
                (j - m.rs) as nat,
            ));
        }
        let ghost forward = canvas.strokes();
        assert(forward =~= forward + self.matched_rows_r(*m, 0));
        let mut j: usize = m.rrs;
        while j < m.rre
            invariant
                m.rrs <= j <= m.rre,
                canvas.strokes() == forward + self.matched_rows_r(*m, (j - m.rrs) as nat),
            decreases m.rre - j,
        {
            let to = n + self.sa_r[j];
            string(
                at.psa_r.left(m.de - m.ds).down(j),
                slice_subrange(s2, to - m.step, to),
                cyan,
                canvas,
                Ghost(plain(m.step as nat, CYAN)),
            );
            j += 1;
            assert(canvas.strokes() =~= forward + self.matched_rows_r(*m, (j - m.rrs) as nat));
        }
        assert(canvas.strokes() =~= old(canvas).strokes() + self.matched_rows_strokes(*m));
    }

    /// Black lines around the two ranges.
    fn draw_matched_lines(&self, at: &Layout, m: &Matched, canvas: &mut CanvasBox)
        requires
            self.drawable(),
            *at == self.at(),
            self.matched_ok(m),
        ensures
            final(canvas).strokes() == old(canvas).strokes() + self.matched_lines_strokes(*m),
    {
        proof {
            self.lemma_shape();
        }
        reveal(BiBWT::matched_lines_strokes);
        let n = self.s.len();
        draw_highlight_box(at.plast.down(m.rs), n / 2, 0, BLACK, canvas);
        draw_highlight_box(at.plast.down(m.re), n / 2, 0, BLACK, canvas);
        draw_highlight_box(at.plast_r.down(m.rrs).left(n / 2 - 1), n / 2, 0, BLACK, canvas);
        draw_highlight_box(at.plast_r.down(m.rre).left(n / 2 - 1), n / 2, 0, BLACK, canvas);
        draw_highlight_box(at.pqs, 1, 2, BLACK, canvas);
        draw_highlight_box(at.pqs_r, 1, 2, BLACK, canvas);
        assert(canvas.strokes() =~= old(canvas).strokes() + self.matched_lines_strokes(*m));
    }

    /// What every frame of a query holds.
    fn draw_matched(&self, at: &Layout, m: &Matched, canvas: &mut CanvasBox)
        requires
            self.drawable(),
            *at == self.at(),
            self.matched_ok(m),
        ensures
            final(canvas).strokes() == old(canvas).strokes() + self.matched_strokes(*m),
    {
        proof {
            self.lemma_shape();
        }
        reveal(BiBWT::matched_strokes);
        self.draw_matched_query(at, m, canvas);
        self.draw_matched_rows(at, m, canvas);
        self.draw_matched_lines(at, m, canvas);
        assert(canvas.strokes() =~= old(canvas).strokes() + self.matched_strokes(*m));
    }

    /// Where the next symbol stands in the query, on the side of the text
    /// and on the reverse side.
    fn next_places(&self, at: &Layout, m: &Matched, nx: &Next) -> (r: (Pos, Pos))
        requires
            self.drawable(),
            *at == self.at(),
            self.matched_ok(m),
            self.next_ok(m, nx),
        ensures
            r.0 == self.next_place_f(*m, *nx),
            r.1 == self.next_place_r(*m, *nx),
            r.0.0 <= 14,
            r.1.0 <= self.s@.len() + 14,
            r.0.1 == self.s@.len() + 5,
            r.1.1 == self.s@.len() + 5,
    {
        proof {
            self.lemma_shape();
        }
        (at.pq.left(m.ds).right(nx.idx), at.pq_r.left(m.de).right(nx.idx))
    }

    /// The next symbol, marked in the query on both sides.
    fn draw_next(&self, at: &Layout, m: &Matched, nx: &Next, canvas: &mut CanvasBox)
        requires
            self.drawable(),
            *at == self.at(),
            self.matched_ok(m),
            self.next_ok(m, nx),
        ensures
            final(canvas).strokes() == old(canvas).strokes() + self.next_strokes(*m, *nx),
    {
        proof {
            self.lemma_shape();
        }
        reveal(BiBWT::next_strokes);
        let (pnext, pnext_r) = self.next_places(at, m, nx);
        draw_label(pnext.up(1), "c", canvas);
        draw_char_box(pnext, nx.c, NEXT_CHAR, canvas);
        draw_label(pnext_r.up(1), "c", canvas);
        draw_char_box(pnext_r, nx.c, NEXT_CHAR, canvas);
        assert(canvas.strokes() =~= old(canvas).strokes() + self.next_strokes(*m, *nx));
    }

    /// The rows of the range of the text that go on with the next symbol.
    #[verifier::loop_isolation(false)]
    #[verifier::rlimit(40)]
    fn draw_next_matches_f(&self, at: &Layout, m: &Matched, nx: &Next, canvas: &mut CanvasBox)
        requires
            self.drawable(),
            *at == self.at(),
            self.matched_ok(m),
            self.next_ok(m, nx),
        ensures
            final(canvas).strokes() == old(canvas).strokes() + self.next_matches_f(
                *m,
                *nx,
                (m.re - m.rs) as nat,
            ),
    {
        proof {
            self.lemma_shape();
            self.lemma_text_ascii();
        }
        let n = self.s.len();
        let s2 = self.s2.as_slice();
        assert(canvas.strokes() =~= old(canvas).strokes() + self.next_matches_f(*m, *nx, 0));
        let mut j: usize = m.rs;
        while j < m.re
            invariant
                m.rs <= j <= m.re,
                canvas.strokes() == old(canvas).strokes() + self.next_matches_f(
                    *m,
                    *nx,
                    (j - m.rs) as nat,
                ),
            decreases m.re - j,
        {
            if s2[self.sa[j] + n + nx.idx - m.ds] == nx.c {
                draw_char_box(at.psa.down(j).right(nx.idx).left(m.ds), nx.c, NEXT_CHAR, canvas);
            }
            j += 1;
            assert(canvas.strokes() =~= old(canvas).strokes() + self.next_matches_f(
                *m,
                *nx,
                (j - m.rs) as nat,
            ));
        }
    }

    /// The rows of the range of the reverse side that go on with the next
    /// symbol.
    #[verifier::loop_isolation(false)]
    #[verifier::rlimit(40)]
    fn draw_next_matches_r(&self, at: &Layout, m: &Matched, nx: &Next, canvas: &mut CanvasBox)
        requires
            self.drawable(),
            *at == self.at(),
            self.matched_ok(m),
            self.next_ok(m, nx),
        ensures
            final(canvas).strokes() == old(canvas).strokes() + self.next_matches_r(
                *m,
                *nx,
                (m.rre - m.rrs) as nat,
            ),
    {
        proof {
            self.lemma_shape();
            self.lemma_text_ascii();
        }
        let n = self.s.len();
        let s2 = self.s2.as_slice();
        assert(canvas.strokes() =~= old(canvas).strokes() + self.next_matches_r(*m, *nx, 0));
        let mut j: usize = m.rrs;
        while j < m.rre
            invariant
                m.rrs <= j <= m.rre,
                canvas.strokes() == old(canvas).strokes() + self.next_matches_r(
                    *m,
                    *nx,
                    (j - m.rrs) as nat,
                ),
            decreases m.rre - j,
        {
            if s2[self.sa_r[j] + n + nx.idx - m.de] == nx.c {
                draw_char_box(at.psa_r.down(j).right(nx.idx).left(m.de), nx.c, NEXT_CHAR, canvas);
            }
            j += 1;
            assert(canvas.strokes() =~= old(canvas).strokes() + self.next_matches_r(
                *m,
                *nx,
                (j - m.rrs) as nat,
            ));
        }
    }

    /// The rows of the two ranges that go on with the next symbol.
    fn draw_next_matches(&self, at: &Layout, m: &Matched, nx: &Next, canvas: &mut CanvasBox)
        requires
            self.drawable(),
            *at == self.at(),
            self.matched_ok(m),
            self.next_ok(m, nx),
        ensures
            final(canvas).strokes() == old(canvas).strokes() + self.next_matches_strokes(*m, *nx),
    {
        proof {
            self.lemma_shape();
        }
        reveal(BiBWT::next_matches_strokes);
        self.draw_next_matches_f(at, m, nx, canvas);
        self.draw_next_matches_r(at, m, nx, canvas);
        assert(canvas.strokes() =~= old(canvas).strokes() + self.next_matches_strokes(*m, *nx));
    }

    /// The first extension: the rows of the old range in the last column of
    /// the side that is searched, and the rows of the next symbol that they
    /// lead to in its first column.
    #[verifier::loop_isolation(false)]
    #[verifier::rlimit(40)]
    fn draw_first_rows(&self, at: &Layout, m: &Matched, nx: &Next, canvas: &mut CanvasBox)
        requires
            self.drawable(),
            *at == self.at(),
            self.matched_ok(m),
            self.next_ok(m, nx),
        ensures
            final(canvas).strokes() == old(canvas).strokes() + self.first_rows_strokes(*m, *nx),
    {
        proof {
            self.lemma_shape();
        }
        reveal(BiBWT::first_rows_strokes);
        let (last, first, from, len) = if nx.left {
            (at.plast, at.pfirst, m.rs, m.re - m.rs)
        } else {
            (at.plast_r, at.pfirst_r, m.rrs, m.rre - m.rrs)
        };
        draw_highlight_box(last.down(from), 1, len, BLUE, canvas);
        let ghost boxed = canvas.strokes();
        assert(boxed =~= boxed + self.first_boxes(first, *nx, 0));
        let mut j: usize = nx.ss;
        while j < nx.tt
            invariant
                nx.ss <= j <= nx.tt,
                canvas.strokes() == boxed + self.first_boxes(first, *nx, (j - nx.ss) as nat),
            decreases nx.tt - j,
        {
            draw_char_box(first.down(j), nx.c, NEXT_CHAR, canvas);
            j += 1;
            assert(canvas.strokes() =~= boxed + self.first_boxes(first, *nx, (j - nx.ss) as nat));
        }
        assert(canvas.strokes() =~= old(canvas).strokes() + self.first_rows_strokes(*m, *nx));
    }

    /// The first extension, from the counts: the two entries of the rank
    /// table, then the entry of the C-array, then the new range.
    fn draw_first_counts(
        &self,
        at: &Layout,
        m: &Matched,
        nx: &Next,
        upto: QueryStep,
        canvas: &mut CanvasBox,
    )
        requires
            self.drawable(),
            *at == self.at(),
            self.matched_ok(m),
            self.next_ok(m, nx),
        ensures
            final(canvas).strokes() == old(canvas).strokes() + self.first_counts_strokes(
                *m,
                *nx,
                upto,
            ),
    {
        proof {
            self.lemma_shape();
        }
        reveal(BiBWT::first_counts_strokes);
        let (pnext, pnext_r) = self.next_places(at, m, nx);
        let (occ, sigma, first, near, from, to) = if nx.left {
            (at.pocc, at.rsigma, at.pfirst, pnext, m.rs, m.re)
        } else {
            (at.pocc_r, at.rsigma_r, at.pfirst_r, pnext_r, m.rrs, m.rre)
        };
        draw_highlight(occ.right(nx.ci).down(from), BLUE, canvas);
        draw_highlight(occ.right(nx.ci).down(to), BLUE, canvas);
        if upto == QueryStep::CountFirst {
            assert(canvas.strokes() =~= old(canvas).strokes() + self.first_counts_strokes(
                *m,
                *nx,
                upto,
            ));
            return ;
        }
        draw_highlight_box(sigma.right(nx.ci), 1, 2, BLUE, canvas);
        draw_label(sigma.right(nx.ci).down(2), "+", canvas);
        if upto == QueryStep::SmallerCountFirst {
            assert(canvas.strokes() =~= old(canvas).strokes() + self.first_counts_strokes(
                *m,
                *nx,
                upto,
            ));
            return ;
        }
        // Draw new computed numbers
        number(near.down(1), nx.ss, canvas);
        number(near.down(2), nx.tt, canvas);
        draw_highlight_box(near.down(1), 1, 2, BLUE, canvas);
        draw_highlight_box(first.down(nx.ss), 1, nx.tt - nx.ss, BLUE, canvas);
        assert(canvas.strokes() =~= old(canvas).strokes() + self.first_counts_strokes(
            *m,
            *nx,
            upto,
        ));
    }

    /// For the first `k` symbols of the alphabet, how many rows of the old
    /// range hold each before them, written in the row `row` under the rank
    /// table.
    #[verifier::loop_isolation(false)]
    #[verifier::rlimit(40)]
    fn draw_range_counts(
        &self,
        at: &Layout,
        m: &Matched,
        nx: &Next,
        row: usize,
        k: usize,
        canvas: &mut CanvasBox,
    )
        requires
            self.drawable(),
            *at == self.at(),
            self.matched_ok(m),
            self.next_ok(m, nx),
            row <= self.s@.len() + 4,
            k <= self.alph@.len(),
        ensures
            final(canvas).strokes() == old(canvas).strokes() + self.range_counts(
                *m,
                *nx,
                row as int,
                k as nat,
            ),
    {
        proof {
            self.lemma_shape();
        }
        let (occ, from, to) = if nx.left {
            (at.pocc, m.rs, m.re)
        } else {
            (at.pocc_r, m.rrs, m.rre)
        };
        assert(canvas.strokes() =~= old(canvas).strokes() + self.range_counts(
            *m,
            *nx,
            row as int,
            0,
        ));
        let mut ci: usize = 0;
        while ci < k
            invariant
                ci <= k,
                canvas.strokes() == old(canvas).strokes() + self.range_counts(
                    *m,
                    *nx,
                    row as int,
                    ci as nat,
                ),
            decreases k - ci,
        {
            proof {
                self.lemma_between(ci as int, from as int, to as int);
            }
            let d = if nx.left {
                self.occ[ci][to] - self.occ[ci][from]
            } else {
                self.occ_r[ci][to] - self.occ_r[ci][from]
            };
            number(occ.down(row).right(ci), d, canvas);
            ci += 1;
            assert(canvas.strokes() =~= old(canvas).strokes() + self.range_counts(
                *m,
                *nx,
                row as int,
                ci as nat,
            ));
        }
    }

    /// The counts of the symbols below the next one in the old range, and
    /// their sum.
    fn draw_second_sum(&self, at: &Layout, m: &Matched, nx: &Next, canvas: &mut CanvasBox)
        requires
            self.drawable(),
            *at == self.at(),
            self.matched_ok(m),
            self.next_ok(m, nx),
        ensures
            final(canvas).strokes() == old(canvas).strokes() + self.second_sum_strokes(*m, *nx),
    {
        proof {
            self.lemma_shape();
        }
        reveal(BiBWT::second_sum_strokes);
        let n = self.s.len();
        let occ = if nx.left {
            at.pocc
        } else {
            at.pocc_r
        };
        self.draw_range_counts(at, m, nx, n + 3, nx.ci, canvas);
        number(occ.down(n + 3).left(1), nx.less, canvas);
        draw_highlight(occ.down(n + 3).left(1), RED, canvas);
        assert(canvas.strokes() =~= old(canvas).strokes() + self.second_sum_strokes(*m, *nx));
    }

    /// The entries of the alphabet and of the rank table that count the rows
    /// with a smaller symbol, and from the step after `CountSecond` on the
    /// counts.
    fn draw_second_entries(
        &self,
        at: &Layout,
        m: &Matched,
        nx: &Next,
        upto: QueryStep,
        canvas: &mut CanvasBox,
    )
        requires
            self.drawable(),
            *at == self.at(),
            self.matched_ok(m),
            self.next_ok(m, nx),
        ensures
            final(canvas).strokes() == old(canvas).strokes() + self.second_entries_strokes(
                *m,
                *nx,
                upto,
            ),
    {
        proof {
            self.lemma_shape();
        }
        reveal(BiBWT::second_entries_strokes);
        let (occ, sigma, from, to) = if nx.left {
            (at.pocc, at.rsigma, m.rs, m.re)
        } else {
            (at.pocc_r, at.rsigma_r, m.rrs, m.rre)
        };
        draw_highlight_box(sigma, nx.ci, 1, RED, canvas);
        draw_highlight_box(occ.down(from), nx.ci, 1, RED, canvas);
        draw_highlight_box(occ.down(to), nx.ci, 1, RED, canvas);
        if upto != QueryStep::CountSecond {
            self.draw_second_sum(at, m, nx, canvas);
        }
        assert(canvas.strokes() =~= old(canvas).strokes() + self.second_entries_strokes(
            *m,
            *nx,
            upto,
        ));
    }

    /// The rows of the old range in the last column of the side that is
    /// searched, and from the step after `EquivalenceSecond` on the entries
    /// that count them.
    fn draw_second_source(
        &self,
        at: &Layout,
        m: &Matched,
        nx: &Next,
        upto: QueryStep,
        canvas: &mut CanvasBox,
    )
        requires
            self.drawable(),
            *at == self.at(),
            self.matched_ok(m),
            self.next_ok(m, nx),
        ensures
            final(canvas).strokes() == old(canvas).strokes() + self.second_source_strokes(
                *m,
                *nx,
                upto,
            ),
    {
        proof {
            self.lemma_shape();
        }
        reveal(BiBWT::second_source_strokes);
        let (last, from, to) = if nx.left {
            (at.plast, m.rs, m.re)
        } else {
            (at.plast_r, m.rrs, m.rre)
        };
        // Equivalence to left column
        draw_highlight_box(last.down(from), 1, to - from, RED, canvas);
        if upto != QueryStep::EquivalenceSecond {
            self.draw_second_entries(at, m, nx, upto, canvas);
        }
        assert(canvas.strokes() =~= old(canvas).strokes() + self.second_source_strokes(
            *m,
            *nx,
            upto,
        ));
    }

    /// The second extension, on the other side: the rows with a smaller
    /// symbol that the range skips, where they come from, and how they are
    /// counted.
    fn draw_second_counts(
        &self,
        at: &Layout,
        m: &Matched,
        nx: &Next,
        upto: QueryStep,
        canvas: &mut CanvasBox,
    )
        requires
            self.drawable(),
            *at == self.at(),
            self.matched_ok(m),
            self.next_ok(m, nx),
        ensures
            final(canvas).strokes() == old(canvas).strokes() + self.second_counts_strokes(
                *m,
                *nx,
                upto,
            ),
    {
        proof {
            self.lemma_shape();
        }
        reveal(BiBWT::second_counts_strokes);
        // the column of the next symbol on the other side, and the old range
        // there
        let (other, other_from) = if nx.left {
            (at.psa_r.left(m.de).right(nx.idx), m.rrs)
        } else {
            (at.psa.left(m.ds).right(nx.idx), m.rs)
        };
        draw_highlight_box(other.down(other_from), 1, nx.less, RED, canvas);
        if upto != QueryStep::SmallerWindowSecond {
            self.draw_second_source(at, m, nx, upto, canvas);
        }
        assert(canvas.strokes() =~= old(canvas).strokes() + self.second_counts_strokes(
            *m,
            *nx,
            upto,
        ));
    }

    /// The end of the new range on the other side.
    fn draw_range_end(&self, at: &Layout, m: &Matched, nx: &Next, canvas: &mut CanvasBox)
        requires
            self.drawable(),
            *at == self.at(),
            self.matched_ok(m),
            self.next_ok(m, nx),
        ensures
            final(canvas).strokes() == old(canvas).strokes() + self.range_end_strokes(*m, *nx),
    {
        proof {
            self.lemma_shape();
        }
        reveal(BiBWT::range_end_strokes);
        let n = self.s.len();
        let (pnext, pnext_r) = self.next_places(at, m, nx);
        let occ = if nx.left {
            at.pocc
        } else {
            at.pocc_r
        };
        let (range_end, near, old_start) = if nx.left {
            (at.pqt_r, pnext_r, m.rrs)
        } else {
            (at.pqt, pnext, m.rs)
        };
        // Compute end of range
        self.draw_range_counts(at, m, nx, n + 4, nx.ci + 1, canvas);
        number(occ.down(n + 4).left(1), nx.less + nx.same, canvas);
        draw_highlight(occ.down(n + 4).left(1), RED, canvas);
        draw_highlight(range_end, RED, canvas);
        number(near.down(2), old_start + nx.less + nx.same, canvas);
        draw_highlight(near.down(2), RED, canvas);
        assert(canvas.strokes() =~= old(canvas).strokes() + self.range_end_strokes(*m, *nx));
    }

    /// The start and the end of the new range on the other side.
    fn draw_second_range(
        &self,
        at: &Layout,
        m: &Matched,
        nx: &Next,
        upto: QueryStep,
        canvas: &mut CanvasBox,
    )
        requires
            self.drawable(),
            *at == self.at(),
            self.matched_ok(m),
            self.next_ok(m, nx),
        ensures
            final(canvas).strokes() == old(canvas).strokes() + self.second_range_strokes(
                *m,
                *nx,
                upto,
            ),
    {
        proof {
            self.lemma_shape();
        }
        reveal(BiBWT::second_range_strokes);
        let (pnext, pnext_r) = self.next_places(at, m, nx);
        let (range_start, near, old_start) = if nx.left {
            (at.pqs_r, pnext_r, m.rrs)
        } else {
            (at.pqs, pnext, m.rs)
        };
        // Compute start of range
        draw_highlight(range_start, RED, canvas);
        number(near.down(1), old_start + nx.less, canvas);
        draw_highlight(near.down(1), RED, canvas);
        if upto != QueryStep::ExtendStartSecond {
            self.draw_range_end(at, m, nx, canvas);
        }
        assert(canvas.strokes() =~= old(canvas).strokes() + self.second_range_strokes(
            *m,
            *nx,
            upto,
        ));
    }

    /// What is written under the text in step `qs` of an extension.
    fn step_caption_text(qs: QueryStep, left: bool) -> (r: &'static str)
        ensures
            r@ == step_caption_of(qs, left),
    {
        match qs {
            QueryStep::PreviousDone => "Matching done",
            QueryStep::HighlightChar => if left {
                "Extend query on the left"
            } else {
                "Extend query on the right"
            },
            QueryStep::HighlightMatches => "Matches for next char",
            QueryStep::EquivalenceFirst => if left {
                "Fwd: matches in L correspond to matches in F"
            } else {
                "Rev: matches in Lr correspond to matches in Fr"
            },
            QueryStep::CountFirst => if left {
                "Fwd: positions of matches"
            } else {
                "Rev: positions of matches"
            },
            QueryStep::SmallerCountFirst => if left {
                "Fwd: number of smaller chars"
            } else {
                "Rev: number of smaller chars"
            },
            QueryStep::ExtendFirst => if left {
                "Fwd: #smaller + match-positions"
            } else {
                "Rev: #smaller + match-positions"
            },
            QueryStep::SmallerWindowSecond => if left {
                "Rev: range shrinks; skip chars < c"
            } else {
                "Fwd: range shrinks; skip chars < c"
            },
            QueryStep::EquivalenceSecond => if left {
                "Rev: equal to #{<c} in forward range"
            } else {
                "Fwd: equal to #{<c} in reverse range"
            },
            QueryStep::CountSecond => if left {
                "Rev: Char counts before/after fwd range"
            } else {
                "Fwd: Char counts before/after rev range"
            },
            QueryStep::ComputeSecond => if left {
                "Rev: Total count #{<c} in forward range"
            } else {
                "Fwd: Total count #{<c} in reverse range"
            },
            QueryStep::ExtendStartSecond => "Add #{<c} to current start",
            QueryStep::ExtendEndSecond => "Add #{\u{2264}c} to current start",
        }
    }

    /// Writes what step `qs` of an extension is about under the text.
    fn draw_step_caption(&self, at: &Layout, qs: QueryStep, left: bool, canvas: &mut CanvasBox)
        requires
            self.drawable(),
            *at == self.at(),
        ensures
            final(canvas).strokes() == old(canvas).strokes() + self.step_caption(qs, left),
    {
        proof {
            self.lemma_shape();
        }
        draw_text(at.plabel, Self::step_caption_text(qs, left), canvas);
        assert(canvas.strokes() =~= old(canvas).strokes() + self.step_caption(qs, left));
    }

    /// The second extension in step `qs`.
    fn draw_second(
        &self,
        at: &Layout,
        m: &Matched,
        nx: &Next,
        qs: QueryStep,
        canvas: &mut CanvasBox,
    )
        requires
            self.drawable(),
            *at == self.at(),
            self.matched_ok(m),
            self.next_ok(m, nx),
        ensures
            final(canvas).strokes() == old(canvas).strokes() + self.second_strokes(*m, *nx, qs),
    {
        proof {
            self.lemma_shape();
        }
        reveal(BiBWT::second_strokes);
        self.draw_second_counts(at, m, nx, qs, canvas);
        if qs == QueryStep::SmallerWindowSecond || qs == QueryStep::EquivalenceSecond || qs
            == QueryStep::CountSecond || qs == QueryStep::ComputeSecond {
            self.draw_step_caption(at, qs, nx.left, canvas);
        } else {
            self.draw_second_range(at, m, nx, qs, canvas);
            self.draw_step_caption(at, qs, nx.left, canvas);
        }
        assert(canvas.strokes() =~= old(canvas).strokes() + self.second_strokes(*m, *nx, qs));
    }

    /// The first extension in step `qs`, and what follows it.
    fn draw_first(
        &self,
        at: &Layout,
        m: &Matched,
        nx: &Next,
        qs: QueryStep,
        canvas: &mut CanvasBox,
    )
        requires
            self.drawable(),
            *at == self.at(),
            self.matched_ok(m),
            self.next_ok(m, nx),
        ensures
            final(canvas).strokes() == old(canvas).strokes() + self.first_strokes(*m, *nx, qs),
    {
        proof {
            self.lemma_shape();
        }
        reveal(BiBWT::first_strokes);
        self.draw_first_rows(at, m, nx, canvas);
        if qs == QueryStep::EquivalenceFirst {
            self.draw_step_caption(at, qs, nx.left, canvas);
        } else {
            self.draw_first_counts(at, m, nx, qs, canvas);
            if qs == QueryStep::CountFirst || qs == QueryStep::SmallerCountFirst || qs
                == QueryStep::ExtendFirst {
                self.draw_step_caption(at, qs, nx.left, canvas);
            } else {
                self.draw_second(at, m, nx, qs, canvas);
            }
        }
        assert(canvas.strokes() =~= old(canvas).strokes() + self.first_strokes(*m, *nx, qs));
    }

    /// An extension by `nx` in step `qs`.
    fn draw_extension(
        &self,
        at: &Layout,
        m: &Matched,
        nx: &Next,
        qs: QueryStep,
        canvas: &mut CanvasBox,
    )
        requires
            self.drawable(),
            *at == self.at(),
            self.matched_ok(m),
            self.next_ok(m, nx),
        ensures
            final(canvas).strokes() == old(canvas).strokes() + self.extension_strokes(*m, *nx, qs),
    {
        proof {
            self.lemma_shape();
        }
        reveal(BiBWT::extension_strokes);
        // Highlight the next character.
        self.draw_next(at, m, nx, canvas);
        if qs == QueryStep::HighlightChar {
            self.draw_step_caption(at, qs, nx.left, canvas);
        } else {
            // Highlight matches for the next char.
            self.draw_next_matches(at, m, nx, canvas);
            if qs == QueryStep::HighlightMatches {
                self.draw_step_caption(at, qs, nx.left, canvas);
            } else {
                self.draw_first(at, m, nx, qs, canvas);
            }
        }
        assert(canvas.strokes() =~= old(canvas).strokes() + self.extension_strokes(*m, *nx, qs));
    }

    /// The frame of one step of one extension; `m` is what is matched before
    /// it.
    fn draw_query(&self, at: &Layout, m: &Matched, qs: QueryStep, canvas: &mut CanvasBox)
        requires
            self.drawable(),
            *at == self.at(),
            self.matched_ok(m),
            qs != QueryStep::PreviousDone ==> m.step < self.q@.len(),
        ensures
            final(canvas).strokes() == old(canvas).strokes() + self.query_strokes(*m, qs),
    {
        proof {
            self.lemma_shape();
        }
        reveal(BiBWT::query_strokes);
        self.draw_matched(at, m, canvas);
        if qs == QueryStep::PreviousDone {
            if m.step == 1 {
                draw_text(at.plabel, "Start with the range of the first character", canvas);
            } else {
                draw_text(at.plabel, "Matching done", canvas);
            }
        } else {
            // The next symbol to be matched; nothing more is shown where
            // the text does not hold it.
            match self.next_symbol(m) {
                Some(nx) => {
                    self.draw_extension(at, m, &nx, qs, canvas);
                },
                None => {},
            }
        }
        assert(canvas.strokes() =~= old(canvas).strokes() + self.query_strokes(*m, qs));
    }

    /// Writes what `state` is about under the text.
    fn draw_caption(&self, at: &Layout, state: State, text: &str, canvas: &mut CanvasBox)
        requires
            self.drawable(),
            *at == self.at(),
            caption_of(state, self.q@, self.alph@) == Some(text@),
        ensures
            final(canvas).strokes() == old(canvas).strokes() + self.caption_strokes(state),
    {
        proof {
            self.lemma_shape();
        }
        draw_text(at.plabel, text, canvas);
        assert(canvas.strokes() =~= old(canvas).strokes() + self.caption_strokes(state));
    }

    /// Draws what the frame of `state` holds on top of the two rank tables.
    fn draw_after_tables(&self, at: &Layout, state: State, canvas: &mut CanvasBox)
        requires
            self.drawable(),
            *at == self.at(),
            match state {
                State::RightOcc => true,
                State::Equivalence(c) => c < self.alph@.len(),
                State::Pause => true,
                State::Query(step, qs) => step <= self.q@.len() && (self.q@.len() >= 1 ==> step
                    >= 1) && (qs != QueryStep::PreviousDone ==> step < self.q@.len()),
                _ => false,
            },
        ensures
            final(canvas).strokes() == old(canvas).strokes() + self.after_tables(state),
    {
        proof {
            self.lemma_shape();
        }
        reveal(BiBWT::after_tables);
        let n = self.s.len();
        let na = self.alph.len();
        match state {
            State::RightOcc => {
                draw_highlight_box(at.pocc_r, na, n + 1, BLUE, canvas);
                draw_highlight_box(at.plast_r, 1, n, BLUE, canvas);
                self.draw_caption(at, state, "Count occurrences for Lr", canvas);
            },
            State::Equivalence(c) => {
                self.draw_equivalence(at, c, canvas);
                self.draw_caption(at, state, "Sets of chars before/after c are the same.", canvas);
            },
            State::Query(step, qs) => {
                // The query starts in the middle, with the first char
                // already matched, then extends left to the start, then
                // right to the end.
                let m = self.matched(step);
                self.draw_query(at, &m, qs, canvas);
            },
            _ => {
                self.draw_caption(at, state, "Ready for querying", canvas);
            },
        }
        assert(canvas.strokes() =~= old(canvas).strokes() + self.after_tables(state));
    }

    /// Draws what the frame of `state` holds on top of the two suffix
    /// arrays.
    fn draw_after_arrays(&self, at: &Layout, state: State, canvas: &mut CanvasBox)
        requires
            self.drawable(),
            *at == self.at(),
            match state {
                State::BothSA => true,
                State::CharCounts => true,
                State::LeftOcc => true,
                State::RightOcc => true,
                State::Equivalence(c) => c < self.alph@.len(),
                State::Pause => true,
                State::Query(step, qs) => step <= self.q@.len() && (self.q@.len() >= 1 ==> step
                    >= 1) && (qs != QueryStep::PreviousDone ==> step < self.q@.len()),
                _ => false,
            },
        ensures
            final(canvas).strokes() == old(canvas).strokes() + self.after_arrays(state),
    {
        proof {
            self.lemma_shape();
        }
        reveal(BiBWT::after_arrays);
        let n = self.s.len();
        let na = self.alph.len();
        if let State::BothSA = state {
            self.draw_caption(at, state, "Forward & Reverse suffix array", canvas);
            return ;
        }
        // Character counts
        let both = match state {
            State::CharCounts => false,
            State::LeftOcc => false,
            _ => true,
        };
        self.draw_counts(at, both, canvas);
        if let State::CharCounts = state {
            draw_highlight_box(at.pfirst, 1, n, RED, canvas);
            draw_highlight_box(at.pfirst_r, 1, n, RED, canvas);
            draw_highlight_box(at.rsigma, na, 2, RED, canvas);
            self.draw_caption(at, state, "Count number of smaller characters for each c", canvas);
            assert(canvas.strokes() =~= old(canvas).strokes() + self.after_arrays(state));
            return ;
        }
        // Occurrences
        draw_label(at.pocc.left(1).up(1), "Occ", canvas);
        self.draw_occ(at.pocc, false, canvas);
        if let State::LeftOcc = state {
            draw_highlight_box(at.pocc, na, n + 1, BLUE, canvas);
            draw_highlight_box(at.plast, 1, n, BLUE, canvas);
            self.draw_caption(at, state, "Count occurrences for L", canvas);
            assert(canvas.strokes() =~= old(canvas).strokes() + self.after_arrays(state));
            return ;
        }
        draw_label(at.pocc_r.left(1).up(1), "Occr", canvas);
        self.draw_occ(at.pocc_r, true, canvas);
        self.draw_after_tables(at, state, canvas);
        assert(canvas.strokes() =~= old(canvas).strokes() + self.after_arrays(state));
    }

    /// Draws what the frame of `state` holds on top of the text.
    fn draw_after_input(&self, at: &Layout, state: State, canvas: &mut CanvasBox)
        requires
            self.drawable(),
            *at == self.at(),
            match state {
                State::LeftSA(k) => k <= 2,
                State::RightSA(k) => k <= 2,
                State::Equivalence(c) => c < self.alph@.len(),
                State::Query(step, qs) => step <= self.q@.len() && (self.q@.len() >= 1 ==> step
                    >= 1) && (qs != QueryStep::PreviousDone ==> step < self.q@.len()),
                _ => true,
            },
        ensures
            final(canvas).strokes() == old(canvas).strokes() + self.after_input(state),
    {
        proof {
            self.lemma_shape();
        }
        reveal(BiBWT::after_input);
        let n = self.s.len();
        if let State::Init = state {
            self.draw_caption(at, state, "Input string S.", canvas);
            return ;
        }
        // Number of chars drawn.
        let l = match state {
            State::LeftSA(k) => if k <= 1 {
                n
            } else {
                n / 2 - 1
            },
            State::RightSA(k) => if k <= 1 {
                n
            } else {
                n / 2 - 1
            },
            _ => n / 2 - 1,
        };
        // The side of the text
        if let State::RightSA(_) = state {
        } else {
            self.draw_forward(at, l, canvas);
            if let State::LeftSA(k) = state {
                if k == 0 {
                    self.draw_caption(at, state, "Forward suffix array", canvas);
                    assert(canvas.strokes() =~= old(canvas).strokes() + self.after_input(state));
                    return ;
                }
            }
            // Draw moved L column.
            self.draw_last_forward(at, canvas);
            if let State::LeftSA(k) = state {
                if k == 1 {
                    self.draw_caption(at, state, "Move last column before first", canvas);
                } else {
                    self.draw_caption(at, state, "Only show prefixes of the array", canvas);
                }
                assert(canvas.strokes() =~= old(canvas).strokes() + self.after_input(state));
                return ;
            }
        }
        // The reverse side
        self.draw_reverse(at, l, canvas);
        if let State::RightSA(k) = state {
            if k == 0 {
                self.draw_caption(at, state, "Reverse suffix array", canvas);
                assert(canvas.strokes() =~= old(canvas).strokes() + self.after_input(state));
                return ;
            }
        }
        // Draw moved L column.
        self.draw_last_reverse(at, canvas);
        if let State::RightSA(k) = state {
            if k == 1 {
                self.draw_caption(at, state, "Move last column after first", canvas);
            } else {
                self.draw_caption(at, state, "Only show suffixes of the array", canvas);
            }
            assert(canvas.strokes() =~= old(canvas).strokes() + self.after_input(state));
            return ;
        }
        self.draw_after_arrays(at, state, canvas);
        assert(canvas.strokes() =~= old(canvas).strokes() + self.after_input(state));
    }
}

impl Viz for BiBWT {
    /// The text has between 2 and 30 million symbols, and the query is no
    /// longer than the text and than ten symbols; all symbols are ASCII.
    open spec fn drawable(&self) -> bool {
        &&& self.wf()
        &&& 2 <= self@.text.len() <= 30_000_000
        &&& self@.query.len() <= self@.text.len()
        &&& self@.query.len() <= 10
        &&& self.symbols().len() <= 256
        &&& forall|k: int| 0 <= k < self@.text.len() ==> #[trigger] self@.text[k] < 128
        &&& forall|k: int| 0 <= k < self@.query.len() ==> #[trigger] self@.query[k] < 128
    }

    open spec fn state_count(&self) -> nat {
        state_list(distinct_symbols(self@.text), self@.query.len()).len()
    }

    /// The cells of the text and 12 or 9 more, and two columns per symbol,
    /// in pixels.
    open spec fn size(&self) -> (nat, nat) {
        (
            ((self@.text.len() + 12 + 2 * distinct_symbols(self@.text)) * 30) as nat,
            ((self@.text.len() + 9) * 30) as nat,
        )
    }

    open spec fn frame_of(&self, state: int) -> Seq<Stroke> {
        self.frame(state_list(distinct_symbols(self@.text), self@.query.len())[state])
    }

    /// Every frame is shown.
    open spec fn shows(&self, state: int) -> bool {
        true
    }

    fn canvas_size(&self) -> (r: (usize, usize))
    {
        proof {
            self.lemma_shape();
        }
        let n = self.s.len();
        proof {
            crate::counting::lemma_count_bound(0, 256, |c: int| symbol_count(self.s@, c) > 0);
        }
        let w = n + 12 + 2 * s_stats(self.s.as_slice()).0;
        let h = n + 9;
        canvas_size(w, h)
    }

    fn num_states(&self) -> (r: usize)
        ensures
            r == state_list(distinct_symbols(self@.text), self@.query.len()).len(),
    {
        proof {
            self.lemma_shape();
        }
        self.states.len()
    }

    fn draw(&self, state: usize, canvas: &mut CanvasBox) -> (shown: bool)
    {
        proof {
            self.lemma_shape();
            self.lemma_alphabet_ascii();
            lemma_state_list(distinct_symbols(self.s@), self.q@.len(), state as int);
        }
        let state = self.states[state];
        canvas.fill_background(WHITE);
        let at = layout(self.s.len(), self.alph.len());
        // Draw input
        self.draw_input(&at, canvas);
        self.draw_after_input(&at, state, canvas);
        assert(canvas.strokes() =~= old(canvas).strokes() + self.frame(state));
        true
    }
}

} // verus!

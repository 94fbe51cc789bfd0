//! The pictures of the FM-index: what each frame holds, stroke by stroke,
//! and the code that draws it.
use crate::canvas::{
    BLACK, BLUE, Canvas, canvas_size, CanvasBox, Color, CYAN, decimal, draw_highlight,
    draw_highlight_box, draw_label, draw_text, highlight_box_strokes, label_stroke,
    labelled_string_strokes, Pos, RED, string_strokes, Stroke, text_stroke, to_label, WHITE,
};
use crate::paint::{mark, maybe, number, plain, shift, string, string_with_labels};
use crate::rotation::{last_column, row_of, sym_is};
use crate::suffix_array::{lemma_suffix_array_rows, rows_of};
use crate::tables::symbol_index;
use crate::viz::Viz;
use super::{
    BWT, distinct_symbols, LARGE_COLOUR, last_largest, lemma_alphabet_size, lemma_max_symbol_count,
    lemma_state_list, marked, max_symbol_count, place_of, s_stats, State, state_list, symbol_count,
    symbol_counts, to_c,
};
use vstd::prelude::*;
use vstd::slice::slice_subrange;

verus! {

/// What is written under the text in the frame of `state`, for a query of
/// `ql` symbols; nothing in the frame of the last step of a query.
pub open spec fn caption_of(state: State, ql: nat) -> Option<Seq<char>> {
    match state {
        State::Init => Some("Input string S."@),
        State::Rotations => Some("Write down rotations of S."@),
        State::SortedRotations => Some("Sort rotations via the suffix array of S."@),
        State::FirstLast => Some("Store the first and last column."@),
        State::LfMap(_) => Some("For each char, L and F are sorted the same."@),
        State::Counts(_) => Some("Count number of smaller characters for each c"@),
        State::CountsDone => Some("Count number of smaller characters for each c"@),
        State::Occ(_) => Some("Count number of occurrences of c in L at pos < j"@),
        State::OccDone => Some("Count number of occurrences of c in L at pos < j"@),
        State::Query(step) => if step == 0 {
            Some("Initialize the query range as the full text"@)
        } else if step < ql {
            Some("Update s[i-1] = C[c] + Occ[c][s[i]]"@)
        } else {
            None
        },
    }
}

/// Where the parts of a frame stand, in cells.
pub struct Layout {
    /// Top left of the text at the top.
    pub ps: Pos,
    /// Where the text of the step is written, in the upper and in the later
    /// steps.
    pub plabel: Pos,
    pub pbotlabel: Pos,
    /// Top left of the rotations, which is the first column.
    pub psa: Pos,
    /// First entry of the column of row numbers.
    pub cj: Pos,
    /// First entry of the column of start positions.
    pub ca: Pos,
    pub pfirst: Pos,
    /// First entry of the last column.
    pub plast: Pos,
    /// The C-array, and the alphabet above it.
    pub pcnt: Pos,
    pub rsigma: Pos,
    /// The rank table.
    pub pocc: Pos,
    /// The query, its start and its end row.
    pub pq: Pos,
    pub pqs: Pos,
    pub pqt: Pos,
    /// The column where the range is marked.
    pub cst: Pos,
    /// Behind the end of the rest of the query.
    pub pqend: Pos,
}

/// Where the parts of the frames of a text of `n` symbols stand.
pub open spec fn layout_of(n: nat) -> Layout {
    Layout {
        ps: Pos(3, 1),
        plabel: Pos(5, 2),
        pbotlabel: Pos(5, 2),
        psa: Pos(3, 3),
        cj: Pos(0, 3),
        ca: Pos(1, 3),
        pfirst: Pos(3, 3),
        plast: Pos((n + 2) as usize, 3),
        pcnt: Pos((n + 5) as usize, 1),
        rsigma: Pos((n + 5) as usize, 0),
        pocc: Pos((n + 5) as usize, 3),
        pq: Pos(3, (n + 4) as usize),
        pqs: Pos(3, (n + 5) as usize),
        pqt: Pos(3, (n + 6) as usize),
        cst: Pos(2, 3),
        pqend: Pos((n + 3) as usize, (n + 4) as usize),
    }
}

/// Where the parts of the frames of a text of `n` symbols stand.
pub fn layout(n: usize) -> (at: Layout)
    requires
        1 <= n <= 30_000_000,
    ensures
        at == layout_of(n as nat),
{
    let ps = Pos(3, 1);
    let plabel = ps.down(1).right(2);
    let pbotlabel = ps.down(1).right(2);
    let psa = ps.down(2);
    let cj = psa.left(3);
    let ca = psa.left(2);
    let pfirst = psa;
    let plast = psa.right(n - 1);
    let pcnt = Pos(ps.0 + (n + 2), ps.1);
    let rsigma = pcnt.up(1);
    let pocc = pcnt.down(2);
    let pq = psa.down(n + 1);
    let pqs = pq.down(1);
    let pqt = pq.down(2);
    let cst = psa.left(1);
    let pqend = pq.right(n);
    Layout {
        ps,
        plabel,
        pbotlabel,
        psa,
        cj,
        ca,
        pfirst,
        plast,
        pcnt,
        rsigma,
        pocc,
        pq,
        pqs,
        pqt,
        cst,
        pqend,
    }
}

impl BWT {
    /// The rows of the last `step` symbols of the query, as a scan of the
    /// sorted rotations finds them.
    pub open spec fn range_at(&self, step: int) -> (int, int) {
        crate::scan::scan_range_of(
            self@.text,
            self.rows(),
            self@.query.subrange(self@.query.len() - step, self@.query.len() as int),
        )
    }

    /// The text twice over: every rotation stands in it.
    pub open spec fn doubled(&self) -> Seq<u8> {
        self@.text + self@.text
    }

    /// The last column of the sorted rotations.
    pub open spec fn last(&self) -> Seq<u8> {
        last_column(self@.text, self.rows())
    }

    /// Where the parts of the frames stand.
    pub open spec fn at(&self) -> Layout {
        layout_of(self@.text.len())
    }

    /// The colours of the text at the top: the sentinel is marked.
    pub open spec fn end_colours(&self) -> Seq<Color> {
        Seq::new(self@.text.len(), |i: int| marked(self@.text[i] == 36))
    }

    /// The colours of the rotation at `i`: the sentinel is marked.
    pub open spec fn rotation_colours(&self, i: int) -> Seq<Color> {
        Seq::new(self@.text.len(), |k: int| marked(self.doubled()[i + k] == 36))
    }

    /// The colours of a row whose first and last symbol are marked.
    pub open spec fn column_colours(&self) -> Seq<Color> {
        Seq::new(self@.text.len(), |k: int| marked(k == 0 || k == self@.text.len() - 1))
    }

    /// The text at the top, with the numbers of its places.
    #[verifier::opaque]
    pub open spec fn input_strokes(&self) -> Seq<Stroke> {
        labelled_string_strokes(self.at().ps, self@.text, self.end_colours())
    }

    /// Row `j` of the rotations in the order of their start positions.
    pub open spec fn rotation_row(&self, j: int) -> Seq<Stroke> {
        let n = self@.text.len();
        seq![label_stroke(shift(self.at().cj, 0, j), decimal(j as nat))] + string_strokes(
            shift(self.at().psa, 0, j),
            self.doubled().subrange(j, j + n),
            self.rotation_colours(j),
            n,
        )
    }

    /// The first `k` rows of the rotations in the order of their start
    /// positions.
    pub open spec fn rotation_rows(&self, k: nat) -> Seq<Stroke>
        decreases k,
    {
        if k == 0 {
            Seq::empty()
        } else {
            self.rotation_rows((k - 1) as nat) + self.rotation_row(k - 1)
        }
    }

    /// Row `j` of the sorted rotations: its number, the start position, and
    /// the rotation, with the sentinel marked or, where `columns` holds, the
    /// first and the last column.
    pub open spec fn sorted_row(&self, columns: bool, j: int) -> Seq<Stroke> {
        let n = self@.text.len();
        let i = self.sa()[j] as int;
        seq![
            label_stroke(shift(self.at().cj, 0, j), decimal(j as nat)),
            label_stroke(shift(self.at().ca, 0, j), decimal(i as nat)),
        ] + string_strokes(
            shift(self.at().psa, 0, j),
            self.doubled().subrange(i, i + n),
            if columns {
                self.column_colours()
            } else {
                self.rotation_colours(i)
            },
            n,
        )
    }

    /// The first `k` rows of the sorted rotations.
    pub open spec fn sorted_rows(&self, columns: bool, k: nat) -> Seq<Stroke>
        decreases k,
    {
        if k == 0 {
            Seq::empty()
        } else {
            self.sorted_rows(columns, (k - 1) as nat) + self.sorted_row(columns, k - 1)
        }
    }

    /// The rotations in the order of their start positions, one per row.
    #[verifier::opaque]
    pub open spec fn rotations_strokes(&self) -> Seq<Stroke> {
        self.rotation_rows(self@.text.len())
    }

    /// The sorted rotations, one per row.
    #[verifier::opaque]
    pub open spec fn sorted_strokes(&self, columns: bool) -> Seq<Stroke> {
        self.sorted_rows(columns, self@.text.len())
    }

    /// The place in the alphabet of the symbol that occurs most often, of
    /// several such symbols the largest.
    pub open spec fn most_frequent_symbol(&self) -> int {
        last_largest(symbol_counts(self@.text, self.symbols()))
    }

    /// The `i`-th row of the most frequent symbol and the row that its
    /// rotation stands at one place later, both marked; for the `k`-th row
    /// also its second symbol, its start position, and the same of the
    /// later row, and the two places in the text.
    pub open spec fn lf_step(&self, k: int, i: int) -> Seq<Stroke> {
        let at = self.at();
        let c = self.symbols()[self.most_frequent_symbol()];
        let row = crate::rotation::smaller(self@.text, c) + i;
        let idx = self.sa()[row] as int;
        let later = row_of(self@.text, self.rows(), idx + 1);
        mark(shift(at.psa, 0, row), BLACK) + maybe(
            i == k,
            mark(shift(at.psa, 1, row), BLUE) + mark(shift(at.ca, 0, row), BLUE),
        ) + mark(shift(at.plast, 0, later), BLACK) + maybe(
            i == k,
            mark(shift(at.psa, 0, later), BLUE) + mark(shift(at.ca, 0, later), BLUE) + mark(
                shift(at.ps, idx, 0),
                BLACK,
            ) + mark(shift(at.ps, idx + 1, 0), BLUE),
        )
    }

    /// The first `m` rows of the most frequent symbol, as `lf_step` marks
    /// them.
    pub open spec fn lf_steps(&self, k: int, m: nat) -> Seq<Stroke>
        decreases m,
    {
        if m == 0 {
            Seq::empty()
        } else {
            self.lf_steps(k, (m - 1) as nat) + self.lf_step(k, m - 1)
        }
    }

    /// The rows of the most frequent symbol in a box, and the first `k + 1`
    /// of them with the rows that they lead to.
    #[verifier::opaque]
    pub open spec fn lf_map_strokes(&self, k: int) -> Seq<Stroke> {
        let c = self.symbols()[self.most_frequent_symbol()];
        highlight_box_strokes(
            shift(self.at().psa, 0, crate::rotation::smaller(self@.text, c) as int),
            2,
            symbol_count(self@.text, c as int) as usize,
            RED,
        ) + self.lf_steps(k, (k + 1) as nat)
    }

    /// The `i`-th symbol of the alphabet with its entry of the C-array, and
    /// a line where its rows begin; where it is the symbol `k` that the
    /// state is about, that row is marked too.
    pub open spec fn count_column(&self, k: int, i: int) -> Seq<Stroke> {
        let at = self.at();
        let c = self.symbols()[i];
        let count = crate::rotation::smaller(self@.text, c) as int;
        seq![
            label_stroke(shift(at.rsigma, i, 0), seq![c as char]),
            label_stroke(shift(at.pcnt, i, 0), decimal(count as nat)),
        ] + maybe(
            k < self.symbols().len() && i == k,
            mark(shift(at.cj, 0, count), RED) + mark(shift(at.psa, 0, count), RED),
        ) + highlight_box_strokes(shift(at.psa, 0, count), 1, 0, RED)
    }

    /// The first `m` columns of the C-array.
    pub open spec fn count_columns(&self, k: int, m: nat) -> Seq<Stroke>
        decreases m,
    {
        if m == 0 {
            Seq::empty()
        } else {
            self.count_columns(k, (m - 1) as nat) + self.count_column(k, m - 1)
        }
    }

    /// How many columns of a table are shown for symbol `k`: those up to
    /// `k`, and all where `k` is behind the alphabet.
    pub open spec fn columns_shown(&self, k: int) -> nat {
        if k < self.symbols().len() {
            (k + 1) as nat
        } else {
            self.symbols().len()
        }
    }

    /// The alphabet and the C-array up to symbol `k`; all of it, with a line
    /// under the last row, where `k` is behind the alphabet.
    #[verifier::opaque]
    pub open spec fn counts_strokes(&self, k: int) -> Seq<Stroke> {
        let at = self.at();
        seq![
            label_stroke(shift(at.rsigma, -1, 0), "\u{3c3}"@),
            label_stroke(shift(at.pcnt, -1, 0), "C"@),
        ] + self.count_columns(k, self.columns_shown(k)) + maybe(
            k == self.symbols().len(),
            highlight_box_strokes(shift(at.pfirst, 0, self@.text.len() as int), 1, 0, RED),
        )
    }

    /// Entry `j` of the rank table for the `i`-th symbol; where that is the
    /// symbol `k` that the state is about and row `j` holds it in the last
    /// column, that row and the next entry are marked.
    pub open spec fn occ_cell(&self, k: int, i: int, j: int) -> Seq<Stroke> {
        let at = self.at();
        let c = self.symbols()[i];
        seq![
            label_stroke(
                shift(at.pocc, i, j),
                decimal(crate::rotation::rank(self.last(), c, j)),
            ),
        ] + maybe(
            j < self@.text.len() && self.last()[j] == c && k < self.symbols().len() && i == k,
            mark(shift(at.plast, 0, j), BLUE) + mark(shift(at.pocc, k, j + 1), BLUE),
        )
    }

    /// The first `m` entries of the rank table for the `i`-th symbol.
    pub open spec fn occ_cells(&self, k: int, i: int, m: nat) -> Seq<Stroke>
        decreases m,
    {
        if m == 0 {
            Seq::empty()
        } else {
            self.occ_cells(k, i, (m - 1) as nat) + self.occ_cell(k, i, m - 1)
        }
    }

    /// The column of the rank table for the `i`-th symbol.
    pub open spec fn occ_column(&self, k: int, i: int) -> Seq<Stroke> {
        maybe(
            k < self.symbols().len() && i == k,
            mark(shift(self.at().rsigma, k, 0), BLUE),
        ) + self.occ_cells(k, i, self@.text.len() + 1)
    }

    /// The first `m` columns of the rank table.
    pub open spec fn occ_columns(&self, k: int, m: nat) -> Seq<Stroke>
        decreases m,
    {
        if m == 0 {
            Seq::empty()
        } else {
            self.occ_columns(k, (m - 1) as nat) + self.occ_column(k, m - 1)
        }
    }

    /// The rank table up to symbol `k`.
    #[verifier::opaque]
    pub open spec fn occ_strokes(&self, k: int) -> Seq<Stroke> {
        seq![label_stroke(shift(self.at().pocc, -1, -1), "Occ"@)] + self.occ_columns(
            k,
            self.columns_shown(k),
        )
    }

    /// The ranges of the steps from `step` back, `m` of them, one column per
    /// step.
    pub open spec fn range_columns(&self, step: int, m: nat) -> Seq<Stroke>
        decreases m,
    {
        if m == 0 {
            Seq::empty()
        } else {
            self.range_columns(step, (m - 1) as nat) + seq![
                label_stroke(
                    shift(self.at().pqs, m - 1, 0),
                    decimal(self.range_at(step - (m - 1)).0 as nat),
                ),
                label_stroke(
                    shift(self.at().pqt, m - 1, 0),
                    decimal(self.range_at(step - (m - 1)).1 as nat),
                ),
            ]
        }
    }

    /// The first `m` rows of the range of step `step`, their first `step`
    /// symbols in cyan.
    pub open spec fn matched_rows(&self, step: int, m: nat) -> Seq<Stroke>
        decreases m,
    {
        if m == 0 {
            Seq::empty()
        } else {
            let j = self.range_at(step).0 + m - 1;
            let from = self.sa()[j] as int;
            self.matched_rows(step, (m - 1) as nat) + string_strokes(
                shift(self.at().psa, 0, j),
                self.doubled().subrange(from, from + step),
                plain(step as nat, CYAN),
                step as nat,
            )
        }
    }

    /// What the next step of the query looks at: the symbol and the rows of
    /// the range in the last column; where the text holds the symbol, also
    /// its entry of the C-array and the two entries of the rank table.
    #[verifier::opaque]
    pub open spec fn next_strokes(&self, step: int) -> Seq<Stroke> {
        let at = self.at();
        let ql = self@.query.len();
        let (jb, je) = self.range_at(step);
        let c = self@.query[ql - 1 - step];
        let known = self.symbols().contains(c);
        let ci = place_of(self.symbols(), c);
        seq![label_stroke(shift(at.pqend, -1, -1), "c"@)] + mark(shift(at.pqend, -1, 0), BLUE)
            + maybe(
            known,
            highlight_box_strokes(shift(at.rsigma, ci, 0), 1, 2, BLUE) + seq![
                label_stroke(shift(at.rsigma, ci, 2), "+"@),
            ],
        ) + maybe(
            jb < je,
            highlight_box_strokes(shift(at.plast, 0, jb as int), 1, (je - jb) as usize, BLUE),
        ) + maybe(
            known,
            mark(shift(at.pocc, ci, jb as int), BLUE) + mark(shift(at.pocc, ci, je as int), BLUE),
        )
    }

    /// The query with its matched end marked, and the ranges of all steps up
    /// to `step`.
    #[verifier::opaque]
    pub open spec fn query_head_strokes(&self, step: int) -> Seq<Stroke> {
        let at = self.at();
        let q = self@.query;
        let ql = q.len();
        seq![label_stroke(shift(at.pq, -1, 0), "Q"@)] + string_strokes(
            at.pq,
            q.subrange(ql - step, ql as int),
            Seq::new(step as nat, |i: int| marked(i == 0)),
            step as nat,
        ) + string_strokes(
            shift(at.pqend, -(ql - step), 0),
            q.subrange(0, ql - step),
            plain((ql - step) as nat, (240u8, 240u8, 240u8)),
            (ql - step) as nat,
        ) + seq![
            label_stroke(shift(at.pqs, -1, 0), "s"@),
            label_stroke(shift(at.pqt, -1, 0), "t"@),
        ] + self.range_columns(step, (step + 1) as nat)
    }

    /// The rows of the range of step `step`, their matched symbols in cyan.
    #[verifier::opaque]
    pub open spec fn range_rows_strokes(&self, step: int) -> Seq<Stroke> {
        self.matched_rows(step, (self.range_at(step).1 - self.range_at(step).0) as nat)
    }

    /// The range of step `step`, framed and named: in black with its start
    /// and its end where it holds rows, in red where it holds none; and a
    /// frame round its two numbers.
    #[verifier::opaque]
    pub open spec fn range_frame_strokes(&self, step: int) -> Seq<Stroke> {
        let at = self.at();
        let n = self@.text.len();
        let (jb, je) = self.range_at(step);
        highlight_box_strokes(shift(at.psa, 0, jb as int), n as usize, (je - jb) as usize, BLACK)
            + (if jb < je {
            seq![
                label_stroke(shift(at.cst, 0, jb as int), "s"@),
                label_stroke(shift(at.cst, 0, je as int), "t"@),
            ] + highlight_box_strokes(
                shift(at.psa, 0, jb as int),
                n as usize,
                (je - jb) as usize,
                BLACK,
            )
        } else {
            seq![label_stroke(shift(at.cst, 0, jb as int), "s/t"@)] + highlight_box_strokes(
                shift(at.psa, 0, jb as int),
                n as usize,
                (je - jb) as usize,
                RED,
            )
        }) + highlight_box_strokes(at.pqs, 1, 2, BLACK)
    }

    /// The query after `step` of its symbols are matched: the matched end
    /// and the rest, the ranges of all steps so far, the rows of the range,
    /// and what the next step looks at.
    #[verifier::opaque]
    pub open spec fn query_strokes(&self, step: int) -> Seq<Stroke> {
        self.query_head_strokes(step) + self.range_rows_strokes(step) + self.range_frame_strokes(
            step,
        ) + maybe(step < self@.query.len(), self.next_strokes(step))
    }

    /// What is written under the text in the frame of `state`.
    pub open spec fn caption_strokes(&self, state: State) -> Seq<Stroke> {
        match caption_of(state, self@.query.len()) {
            Some(text) => seq![text_stroke(self.at().plabel, text)],
            None => Seq::empty(),
        }
    }

    /// What the frames from the first and last column on share: the text,
    /// the names of the columns, and the sorted rotations with their first
    /// and last symbol marked.
    #[verifier::opaque]
    pub open spec fn base_strokes(&self) -> Seq<Stroke> {
        let at = self.at();
        seq![Stroke::Background { color: WHITE }] + self.input_strokes() + seq![
            label_stroke(shift(at.cj, 0, -1), "j"@),
            label_stroke(shift(at.ca, 0, -1), "A"@),
            label_stroke(shift(at.pfirst, 0, -1), "F"@),
            label_stroke(shift(at.plast, 0, -1), "L"@),
        ] + self.sorted_strokes(true)
    }

    /// The frame of `state`. Every frame holds the text; the frames of the
    /// rotations hold them unsorted or sorted; every later frame holds the
    /// sorted rotations with their first and last column marked, and then
    /// what its state is about on top of what the states before it showed:
    /// the rows of one symbol, the C-array, the rank table, the query.
    pub open spec fn frame(&self, state: State) -> Seq<Stroke> {
        let at = self.at();
        let n = self@.text.len();
        let names = seq![
            label_stroke(shift(at.cj, 0, -1), "j"@),
            label_stroke(shift(at.ca, 0, -1), "A"@),
        ];
        let first = seq![Stroke::Background { color: WHITE }] + self.input_strokes();
        match state {
            State::Init => first + self.caption_strokes(state),
            State::Rotations => first + names + self.rotations_strokes() + self.caption_strokes(
                state,
            ),
            State::SortedRotations => first + names + self.sorted_strokes(false)
                + self.caption_strokes(state),
            _ => self.base_strokes() + self.rest_strokes(state),
        }
    }

    /// What bounds the numbers that the frames show.
    proof fn lemma_counts_bounded(&self)
        requires
            self.drawable(),
        ensures
            distinct_symbols(self.s@) == self.alph@.len(),
            max_symbol_count(self.s@, 256) <= self.s@.len(),
            self.s2@ == self.doubled(),
            forall|k: int| 0 <= k < self.s2@.len() ==> #[trigger] self.s2@[k] < 128,
            forall|k: int| 0 <= k < self.alph@.len() ==> #[trigger] self.alph@[k] < 128,
            forall|k: int| 0 <= k < self.q@.len() ==> #[trigger] self.q@[k] < 128,
            forall|k: int| 0 <= k < self.alph@.len() ==> #[trigger] self.char_start@[k] <= self.s@.len(),
            forall|k: int, j: int|
                0 <= k < self.alph@.len() && 0 <= j <= self.s@.len() ==> #[trigger] self.occ@[k]@[j]
                    <= self.s@.len(),
    {
        reveal(BWT::wf);
        let s = self.s@;
        let n = s.len();
        lemma_alphabet_size(s, self.alph@);
        assert forall|c: int| 0 <= c < 256 implies #[trigger] symbol_count(s, c) <= n by {
            crate::counting::lemma_count_bound(0, n as int, sym_is(s, c as u8));
        }
        lemma_max_symbol_count(s, 256, n);
        assert forall|k: int| 0 <= k < self.s2@.len() implies #[trigger] self.s2@[k] < 128 by {
            if k >= n {
                assert(self.s2@[k] == s[k - n]);
            } else {
                assert(self.s2@[k] == s[k]);
            }
        }
        assert forall|k: int| 0 <= k < self.alph@.len() implies #[trigger] self.alph@[k] < 128 by {
            assert(s.contains(self.alph@[k]));
            let w = choose|w: int| 0 <= w < s.len() && s[w] == self.alph@[k];
            assert(s[w] < 128);
        }
        assert forall|k: int| 0 <= k < self.alph@.len() implies #[trigger] self.char_start@[k]
            <= n by {
            crate::counting::lemma_count_bound(
                0,
                n as int,
                crate::rotation::sym_below(s, self.alph@[k]),
            );
        }
        assert forall|k: int, j: int|
            0 <= k < self.alph@.len() && 0 <= j <= n implies #[trigger] self.occ@[k]@[j] <= n by {
            crate::counting::lemma_count_bound(0, j, sym_is(self.last@, self.alph@[k]));
            assert(self.occ@[k]@[j] == crate::rotation::rank(self.last@, self.alph@[k], j));
        }
    }

    /// The text at the top, with the numbers of its places.
    fn draw_input(&self, at: &Layout, canvas: &mut CanvasBox)
        requires
            self.drawable(),
            *at == self.at(),
        ensures
            final(canvas).strokes() == old(canvas).strokes() + self.input_strokes(),
    {
        proof {
            self.lemma_shape();
        }
        reveal(BWT::input_strokes);
        let s = self.s.as_slice();
        let is_end = |i: usize| -> (c: Color)
            requires
                i < s@.len(),
            ensures
                c == marked(s@[i as int] == 36),
            { to_c(s[i] == 36u8) };
        string_with_labels(at.ps, s, is_end, canvas, Ghost(self.end_colours()));
    }

    /// The rotations of the text in the order of their start positions, one
    /// per row, the sentinel marked.
    #[verifier::loop_isolation(false)]
    #[verifier::rlimit(40)]
    fn draw_rotations(&self, at: &Layout, canvas: &mut CanvasBox)
        requires
            self.drawable(),
            *at == self.at(),
        ensures
            final(canvas).strokes() == old(canvas).strokes() + self.rotations_strokes(),
    {
        proof {
            self.lemma_shape();
        }
        reveal(BWT::rotations_strokes);
        let n = self.n;
        let s2 = self.s2.as_slice();
        proof {
            self.lemma_counts_bounded();
        }
        assert(canvas.strokes() =~= old(canvas).strokes() + self.rotation_rows(0));
        let mut j: usize = 0;
        while j < n
            invariant
                j <= n,
                canvas.strokes() == old(canvas).strokes() + self.rotation_rows(j as nat),
            decreases n - j,
        {
            let i = j;
            number(at.cj.down(j), j, canvas);
            let end_in_row = |idx: usize| -> (c: Color)
                requires
                    i + idx < s2@.len(),
                ensures
                    c == marked(s2@[i + idx] == 36),
                { to_c(s2[i + idx] == 36u8) };
            string(
                at.psa.down(j),
                slice_subrange(s2, i, i + n),
                end_in_row,
                canvas,
                Ghost(self.rotation_colours(i as int)),
            );
            j += 1;
            assert(canvas.strokes() =~= old(canvas).strokes() + self.rotation_rows(j as nat));
        }
    }

    /// The rotations of the text in sorted order, one per row, with their
    /// start positions; marked is the sentinel, or, where `columns` holds,
    /// the first and the last column.
    #[verifier::loop_isolation(false)]
    #[verifier::rlimit(40)]
    fn draw_sorted_rotations(&self, at: &Layout, columns: bool, canvas: &mut CanvasBox)
        requires
            self.drawable(),
            *at == self.at(),
        ensures
            final(canvas).strokes() == old(canvas).strokes() + self.sorted_strokes(columns),
    {
        proof {
            self.lemma_shape();
        }
        reveal(BWT::sorted_strokes);
        let n = self.n;
        let s2 = self.s2.as_slice();
        proof {
            self.lemma_counts_bounded();
        }
        assert(canvas.strokes() =~= old(canvas).strokes() + self.sorted_rows(columns, 0));
        let mut j: usize = 0;
        while j < n
            invariant
                j <= n,
                canvas.strokes() == old(canvas).strokes() + self.sorted_rows(columns, j as nat),
            decreases n - j,
        {
            let i = self.sa[j];
            number(at.cj.down(j), j, canvas);
            number(at.ca.down(j), i, canvas);
            let ghost colours = if columns {
                self.column_colours()
            } else {
                self.rotation_colours(i as int)
            };
            let colour = |idx: usize| -> (c: Color)
                requires
                    i + idx < s2@.len(),
                ensures
                    c == if columns {
                        marked(idx == 0 || idx == n - 1)
                    } else {
                        marked(s2@[i + idx] == 36)
                    },
                {
                    if columns {
                        to_c(idx == 0 || idx == n - 1)
                    } else {
                        to_c(s2[i + idx] == 36u8)
                    }
                };
            string(at.psa.down(j), slice_subrange(s2, i, i + n), colour, canvas, Ghost(colours));
            j += 1;
            assert(canvas.strokes() =~= old(canvas).strokes() + self.sorted_rows(
                columns,
                j as nat,
            ));
        }
    }

    /// The `i`-th row of the most frequent symbol, which is the `ci`-th of the
    /// alphabet, and the row that its rotation stands at one place later.
    fn draw_lf_step(&self, at: &Layout, ci: usize, k: usize, i: usize, canvas: &mut CanvasBox)
        requires
            self.drawable(),
            *at == self.at(),
            ci == self.most_frequent_symbol(),
            ci < self.alph@.len(),
            self.alph@[ci as int] != self.s@[self.s@.len() - 1],
            i <= k < self.char_count@[ci as int],
            self.char_start@[ci as int] + self.char_count@[ci as int] <= self.s@.len(),
        ensures
            final(canvas).strokes() == old(canvas).strokes() + self.lf_step(k as int, i as int),
    {
        proof {
            self.lemma_shape();
        }
        let n = self.n;
        let start_row = self.char_start[ci] + i;
        let idx = self.sa[start_row];
        proof {
            reveal(BWT::wf);
            lemma_suffix_array_rows(self.s@, self.sa@);
            crate::rotation::lemma_first_column_block(
                self.s@,
                rows_of(self.sa@),
                self.alph@[ci as int],
                start_row as int,
            );
            crate::counting::lemma_count_disjoint_or(
                0,
                n as int,
                crate::rotation::sym_below(self.s@, self.alph@[ci as int]),
                sym_is(self.s@, self.alph@[ci as int]),
                crate::rotation::sym_upto(self.s@, self.alph@[ci as int]),
            );
            assert(self.s@[idx as int] == self.alph@[ci as int]);
        }
        let shift_row = self.row_of_position(idx + 1);
        // boxes around the row, its second symbol, and the row that starts
        // with that symbol
        draw_highlight(at.psa.down(start_row), BLACK, canvas);
        if i == k {
            draw_highlight(at.psa.down(start_row).right(1), BLUE, canvas);
            draw_highlight(at.ca.down(start_row), BLUE, canvas);
        }
        draw_highlight(at.plast.down(shift_row), BLACK, canvas);
        if i == k {
            draw_highlight(at.psa.down(shift_row), BLUE, canvas);
            draw_highlight(at.ca.down(shift_row), BLUE, canvas);
            draw_highlight(at.ps.right(idx), BLACK, canvas);
            draw_highlight(at.ps.right(idx + 1), BLUE, canvas);
        }
        assert(canvas.strokes() =~= old(canvas).strokes() + self.lf_step(k as int, i as int));
    }

    /// The rows of the most frequent symbol, and for the first `k + 1` of
    /// them the row that their rotation stands at one place later.
    #[verifier::loop_isolation(false)]
    #[verifier::rlimit(40)]
    fn draw_lf_map(&self, at: &Layout, k: usize, canvas: &mut CanvasBox)
        requires
            self.drawable(),
            *at == self.at(),
            k < max_symbol_count(self.s@, 256),
        ensures
            final(canvas).strokes() == old(canvas).strokes() + self.lf_map_strokes(k as int),
    {
        proof {
            self.lemma_shape();
        }
        reveal(BWT::lf_map_strokes);
        let n = self.n;
        let ci = self.most_frequent();
        let cnt = self.char_count[ci];
        let start_pos = self.char_start[ci];
        // a box around the rows of the symbol
        draw_highlight_box(at.psa.down(start_pos), 2, cnt, RED, canvas);
        let ghost boxed = canvas.strokes();
        assert(boxed =~= boxed + self.lf_steps(k as int, 0));
        let mut i: usize = 0;
        while i <= k
            invariant
                i <= k + 1,
                canvas.strokes() == boxed + self.lf_steps(k as int, i as nat),
            decreases k + 1 - i,
        {
            self.draw_lf_step(at, ci, k, i, canvas);
            i += 1;
            assert(canvas.strokes() =~= boxed + self.lf_steps(k as int, i as nat));
        }
        assert(canvas.strokes() =~= old(canvas).strokes() + self.lf_map_strokes(k as int));
    }

    /// The `i`-th symbol of the alphabet with its entry of the C-array.
    fn draw_count_column(&self, at: &Layout, k: usize, i: usize, canvas: &mut CanvasBox)
        requires
            self.drawable(),
            *at == self.at(),
            k <= self.alph@.len(),
            i < self.alph@.len(),
        ensures
            final(canvas).strokes() == old(canvas).strokes() + self.count_column(
                k as int,
                i as int,
            ),
    {
        proof {
            self.lemma_shape();
        }
        let na = self.alph.len();
        proof {
            self.lemma_counts_bounded();
        }
        let c = self.alph[i];
        let count = self.char_start[i];
        draw_label(at.rsigma.right(i), to_label(c).as_str(), canvas);
        number(at.pcnt.right(i), count, canvas);
        if k < na && i == k {
            draw_highlight(at.cj.down(count), RED, canvas);
            draw_highlight(at.psa.down(count), RED, canvas);
        }
        draw_highlight_box(at.psa.down(count), 1, 0, RED, canvas);
        assert(canvas.strokes() =~= old(canvas).strokes() + self.count_column(k as int, i as int));
    }

    /// The alphabet and the C-array, up to symbol `k`, and where the rows of
    /// each symbol begin.
    #[verifier::loop_isolation(false)]
    #[verifier::rlimit(40)]
    fn draw_counts(&self, at: &Layout, k: usize, canvas: &mut CanvasBox)
        requires
            self.drawable(),
            *at == self.at(),
            k <= self.alph@.len(),
        ensures
            final(canvas).strokes() == old(canvas).strokes() + self.counts_strokes(k as int),
    {
        proof {
            self.lemma_shape();
        }
        reveal(BWT::counts_strokes);
        let n = self.n;
        let na = self.alph.len();
        draw_label(at.rsigma.left(1), "\u{3c3}", canvas);
        draw_label(at.pcnt.left(1), "C", canvas);
        let ghost named = canvas.strokes();
        assert(named =~= named + self.count_columns(k as int, 0));
        let mut i: usize = 0;
        while i < na && i <= k
            invariant
                i <= na,
                i <= k + 1,
                canvas.strokes() == named + self.count_columns(k as int, i as nat),
            decreases na - i,
        {
            self.draw_count_column(at, k, i, canvas);
            i += 1;
            assert(canvas.strokes() =~= named + self.count_columns(k as int, i as nat));
        }
        if k == na {
            draw_highlight_box(at.pfirst.down(n), 1, 0, RED, canvas);
        }
        assert(canvas.strokes() =~= old(canvas).strokes() + self.counts_strokes(k as int));
    }

    /// The column of the rank table for the `i`-th symbol.
    #[verifier::loop_isolation(false)]
    #[verifier::rlimit(40)]
    fn draw_occ_column(&self, at: &Layout, k: usize, i: usize, canvas: &mut CanvasBox)
        requires
            self.drawable(),
            *at == self.at(),
            k <= self.alph@.len(),
            i < self.alph@.len(),
        ensures
            final(canvas).strokes() == old(canvas).strokes() + self.occ_column(k as int, i as int),
    {
        proof {
            self.lemma_shape();
        }
        let n = self.n;
        let na = self.alph.len();
        proof {
            self.lemma_counts_bounded();
        }
        let c = self.alph[i];
        if k < na && i == k {
            draw_highlight(at.rsigma.right(k), BLUE, canvas);
        }
        let ghost top = canvas.strokes();
        assert(top =~= top + self.occ_cells(k as int, i as int, 0));
        let mut j: usize = 0;
        while j <= n
            invariant
                j <= n + 1,
                canvas.strokes() == top + self.occ_cells(k as int, i as int, j as nat),
            decreases n + 1 - j,
        {
            let ghost before = canvas.strokes();
            assert(self.occ@[i as int]@[j as int] == crate::rotation::rank(self.last@, c, j as int));
            number(at.pocc.right(i).down(j), self.occ[i][j], canvas);
            if j < n && self.last[j] == c {
                if k < na && i == k {
                    draw_highlight(at.plast.down(j), BLUE, canvas);
                    draw_highlight(at.pocc.right(k).down(j + 1), BLUE, canvas);
                }
            }
            assert(canvas.strokes() =~= before + self.occ_cell(k as int, i as int, j as int));
            j += 1;
            assert(canvas.strokes() =~= top + self.occ_cells(k as int, i as int, j as nat));
        }
        assert(canvas.strokes() =~= old(canvas).strokes() + self.occ_column(k as int, i as int));
    }

    /// The rank table, up to symbol `k`; for symbol `k` itself the rows of
    /// the last column that hold it are marked.
    #[verifier::loop_isolation(false)]
    #[verifier::rlimit(40)]
    fn draw_occ(&self, at: &Layout, k: usize, canvas: &mut CanvasBox)
        requires
            self.drawable(),
            *at == self.at(),
            k <= self.alph@.len(),
        ensures
            final(canvas).strokes() == old(canvas).strokes() + self.occ_strokes(k as int),
    {
        proof {
            self.lemma_shape();
        }
        reveal(BWT::occ_strokes);
        let na = self.alph.len();
        draw_label(at.pocc.left(1).up(1), "Occ", canvas);
        let ghost named = canvas.strokes();
        assert(named =~= named + self.occ_columns(k as int, 0));
        let mut i: usize = 0;
        while i < na && i <= k
            invariant
                i <= na,
                i <= k + 1,
                canvas.strokes() == named + self.occ_columns(k as int, i as nat),
            decreases na - i,
        {
            self.draw_occ_column(at, k, i, canvas);
            i += 1;
            assert(canvas.strokes() =~= named + self.occ_columns(k as int, i as nat));
        }
        assert(canvas.strokes() =~= old(canvas).strokes() + self.occ_strokes(k as int));
    }

    /// The query with its matched end marked, and the ranges of all steps up
    /// to `step`.
    #[verifier::loop_isolation(false)]
    #[verifier::rlimit(40)]
    fn draw_query_ranges(&self, at: &Layout, step: usize, canvas: &mut CanvasBox)
        requires
            self.drawable(),
            *at == self.at(),
            step <= self.q@.len(),
        ensures
            final(canvas).strokes() == old(canvas).strokes() + self.query_head_strokes(
                step as int,
            ),
    {
        proof {
            self.lemma_shape();
        }
        reveal(BWT::query_head_strokes);
        let ql = self.ql;
        let q = self.q.as_slice();
        proof {
            self.lemma_counts_bounded();
        }
        let q_done = slice_subrange(q, ql - step, ql);
        let q_remaining = slice_subrange(q, 0, ql - step);
        draw_label(at.pq.left(1), "Q", canvas);
        let first = |i: usize| -> (c: Color)
            ensures
                c == marked(i == 0),
            { to_c(i == 0) };
        string(at.pq, q_done, first, canvas, Ghost(Seq::new(step as nat, |i: int| marked(i == 0))));
        let rest = |i: usize| -> (c: Color)
            ensures
                c == (240u8, 240u8, 240u8),
            { LARGE_COLOUR };
        string(
            at.pqend.left(ql - step),
            q_remaining,
            rest,
            canvas,
            Ghost(plain((ql - step) as nat, (240u8, 240u8, 240u8))),
        );
        // start and end of the range at the bottom
        draw_label(at.pqs.left(1), "s", canvas);
        draw_label(at.pqt.left(1), "t", canvas);
        let ghost named = canvas.strokes();
        assert(named =~= named + self.range_columns(step as int, 0));
        let mut back: usize = 0;
        while back <= step
            invariant
                back <= step + 1,
                canvas.strokes() == named + self.range_columns(step as int, back as nat),
            decreases step + 1 - back,
        {
            let earlier = self.j_begin_end[step - back];
            number(at.pqs.right(back), earlier.0, canvas);
            number(at.pqt.right(back), earlier.1, canvas);
            back += 1;
            assert(canvas.strokes() =~= named + self.range_columns(step as int, back as nat));
        }
        assert(canvas.strokes() =~= old(canvas).strokes() + self.query_head_strokes(step as int));
    }

    /// The rows of the range of step `step`, their matched symbols in cyan.
    #[verifier::loop_isolation(false)]
    #[verifier::rlimit(40)]
    fn draw_matched_rows(&self, at: &Layout, step: usize, canvas: &mut CanvasBox)
        requires
            self.drawable(),
            *at == self.at(),
            step <= self.q@.len(),
        ensures
            final(canvas).strokes() == old(canvas).strokes() + self.range_rows_strokes(step as int),
    {
        proof {
            self.lemma_shape();
        }
        reveal(BWT::range_rows_strokes);
        let s2 = self.s2.as_slice();
        proof {
            self.lemma_counts_bounded();
        }
        let (j_begin, j_end) = self.j_begin_end[step];
        let cyan = |i: usize| -> (c: Color)
            ensures
                c == CYAN,
            { CYAN };
        assert(canvas.strokes() =~= old(canvas).strokes() + self.matched_rows(step as int, 0));
        let mut j: usize = j_begin;
        while j < j_end
            invariant
                j_begin <= j <= j_end,
                canvas.strokes() == old(canvas).strokes() + self.matched_rows(
                    step as int,
                    (j - j_begin) as nat,
                ),
            decreases j_end - j,
        {
            let from = self.sa[j];
            string(
                at.psa.down(j),
                slice_subrange(s2, from, from + step),
                cyan,
                canvas,
                Ghost(plain(step as nat, CYAN)),
            );
            j += 1;
            assert(canvas.strokes() =~= old(canvas).strokes() + self.matched_rows(
                step as int,
                (j - j_begin) as nat,
            ));
        }
    }

    /// What the next step of the query looks at.
    fn draw_next(&self, at: &Layout, step: usize, canvas: &mut CanvasBox)
        requires
            self.drawable(),
            *at == self.at(),
            step < self.q@.len(),
        ensures
            final(canvas).strokes() == old(canvas).strokes() + self.next_strokes(step as int),
    {
        proof {
            self.lemma_shape();
        }
        reveal(BWT::next_strokes);
        let ql = self.ql;
        proof {
            self.lemma_counts_bounded();
        }
        let (j_begin, j_end) = self.j_begin_end[step];
        let c = self.q[ql - 1 - step];
        draw_label(at.pqend.left(1).up(1), "c", canvas);
        let found = symbol_index(&self.alph, c);
        proof {
            if let Some(ci) = found {
                let chosen = place_of(self.alph@, c);
                assert(self.alph@.contains(c));
                if chosen < ci {
                    assert(self.alph@[chosen] < self.alph@[ci as int]);
                } else if ci < chosen {
                    assert(self.alph@[ci as int] < self.alph@[chosen]);
                }
            }
        }
        draw_highlight(at.pqend.left(1), BLUE, canvas);
        if let Some(ci) = found {
            draw_highlight_box(at.rsigma.right(ci), 1, 2, BLUE, canvas);
            draw_label(at.rsigma.right(ci).down(2), "+", canvas);
        }
        if j_begin < j_end {
            draw_highlight_box(at.plast.down(j_begin), 1, j_end - j_begin, BLUE, canvas);
        }
        if let Some(ci) = found {
            draw_highlight(at.pocc.right(ci).down(j_begin), BLUE, canvas);
            draw_highlight(at.pocc.right(ci).down(j_end), BLUE, canvas);
        }
        assert(canvas.strokes() =~= old(canvas).strokes() + self.next_strokes(step as int));
    }

    /// The range of step `step`, framed and named.
    fn draw_range_frame(&self, at: &Layout, step: usize, canvas: &mut CanvasBox)
        requires
            self.drawable(),
            *at == self.at(),
            step <= self.q@.len(),
        ensures
            final(canvas).strokes() == old(canvas).strokes() + self.range_frame_strokes(
                step as int,
            ),
    {
        proof {
            self.lemma_shape();
        }
        reveal(BWT::range_frame_strokes);
        let n = self.n;
        let (j_begin, j_end) = self.j_begin_end[step];
        // start/end labels in row j
        draw_highlight_box(at.psa.down(j_begin), n, j_end - j_begin, BLACK, canvas);
        if j_begin < j_end {
            draw_label(at.cst.down(j_begin), "s", canvas);
            draw_label(at.cst.down(j_end), "t", canvas);
            draw_highlight_box(at.psa.down(j_begin), n, j_end - j_begin, BLACK, canvas);
        } else {
            draw_label(at.cst.down(j_begin), "s/t", canvas);
            draw_highlight_box(at.psa.down(j_begin), n, j_end - j_begin, RED, canvas);
        }
        draw_highlight_box(at.pqs, 1, 2, BLACK, canvas);
        assert(canvas.strokes() =~= old(canvas).strokes() + self.range_frame_strokes(step as int));
    }

    /// The query after `step` of its symbols are matched.
    fn draw_query(&self, at: &Layout, step: usize, canvas: &mut CanvasBox)
        requires
            self.drawable(),
            *at == self.at(),
            step <= self.q@.len(),
        ensures
            final(canvas).strokes() == old(canvas).strokes() + self.query_strokes(step as int),
    {
        proof {
            self.lemma_shape();
        }
        reveal(BWT::query_strokes);
        self.draw_query_ranges(at, step, canvas);
        self.draw_matched_rows(at, step, canvas);
        self.draw_range_frame(at, step, canvas);
        // the occurrences of the next char to process.
        if step < self.ql {
            self.draw_next(at, step, canvas);
        }
        assert(canvas.strokes() =~= old(canvas).strokes() + self.query_strokes(step as int));
    }
}

impl Viz for BWT {
    /// The text has between 2 and 30 million symbols, the query is no longer
    /// than the text, and all symbols of both are ASCII.
    open spec fn drawable(&self) -> bool {
        &&& self.wf()
        &&& 2 <= self@.text.len() <= 30_000_000
        &&& self@.query.len() <= self@.text.len()
        &&& self.symbols().len() <= 256
        &&& forall|k: int| 0 <= k < self@.text.len() ==> #[trigger] self@.text[k] < 128
        &&& forall|k: int| 0 <= k < self@.query.len() ==> #[trigger] self@.query[k] < 128
    }

    open spec fn state_count(&self) -> nat {
        state_list(
            max_symbol_count(self@.text, 256),
            distinct_symbols(self@.text),
            self@.query.len(),
        ).len()
    }

    /// The cells of the text and 7 or 8 more, and one column per symbol, in
    /// pixels.
    open spec fn size(&self) -> (nat, nat) {
        (
            ((self@.text.len() + 7 + distinct_symbols(self@.text)) * 30) as nat,
            ((self@.text.len() + 8) * 30) as nat,
        )
    }

    open spec fn frame_of(&self, state: int) -> Seq<Stroke> {
        self.frame(
            state_list(
                max_symbol_count(self@.text, 256),
                distinct_symbols(self@.text),
                self@.query.len(),
            )[state],
        )
    }

    /// Every frame is shown.
    open spec fn shows(&self, state: int) -> bool {
        true
    }

    fn canvas_size(&self) -> (r: (usize, usize))
    {
        proof {
            self.lemma_shape();
        }
        let n = self.s.len();
        proof {
            crate::counting::lemma_count_bound(0, 256, |c: int| symbol_count(self.s@, c) > 0);
        }
        canvas_size(n + 7 + s_stats(self.s.as_slice()).0, n + 8)
    }

    fn num_states(&self) -> (r: usize)
        ensures
            r == state_list(
                max_symbol_count(self@.text, 256),
                distinct_symbols(self@.text),
                self@.query.len(),
            ).len(),
    {
        proof {
            self.lemma_shape();
        }
        self.states.len()
    }

    fn draw(&self, state: usize, canvas: &mut CanvasBox) -> (shown: bool)
    {
        proof {
            self.lemma_shape();
            self.lemma_counts_bounded();
            lemma_state_list(
                max_symbol_count(self.s@, 256),
                distinct_symbols(self.s@),
                self.q@.len(),
                state as int,
            );
        }
        let state = self.states[state];
        canvas.fill_background(WHITE);
        let at = layout(self.n);

        // Draw input
        self.draw_input(&at, canvas);
        if let State::Init = state {
            draw_text(at.plabel, "Input string S.", canvas);
            assert(canvas.strokes() =~= old(canvas).strokes() + self.frame(state));
            return true;
        }
        // Draw rotations
        draw_label(at.cj.up(1), "j", canvas);
        draw_label(at.ca.up(1), "A", canvas);
        if let State::Rotations = state {
            self.draw_rotations(&at, canvas);
            draw_text(at.plabel, "Write down rotations of S.", canvas);
            assert(canvas.strokes() =~= old(canvas).strokes() + self.frame(state));
            return true;
        }
        // Draw sorted rotations
        if let State::SortedRotations = state {
            self.draw_sorted_rotations(&at, false, canvas);
            draw_text(at.plabel, "Sort rotations via the suffix array of S.", canvas);
            assert(canvas.strokes() =~= old(canvas).strokes() + self.frame(state));
            return true;
        }
        draw_label(at.pfirst.up(1), "F", canvas);
        draw_label(at.plast.up(1), "L", canvas);
        self.draw_sorted_rotations(&at, true, canvas);
        let ghost base = canvas.strokes();
        assert(base =~= old(canvas).strokes() + self.base_strokes()) by {
            reveal(BWT::base_strokes);
        }
        self.draw_rest(&at, state, canvas);
        assert(canvas.strokes() =~= old(canvas).strokes() + self.frame(state));
        true
    }
}

impl BWT {
    /// What the frame of `state` holds on top of the sorted rotations with
    /// their first and last column marked.
    pub open spec fn rest_strokes(&self, state: State) -> Seq<Stroke> {
        let at = self.at();
        let na = self.symbols().len() as int;
        match state {
            State::LfMap(k) => self.lf_map_strokes(k as int) + self.caption_strokes(state),
            State::Counts(k) => self.counts_strokes(k as int) + highlight_box_strokes(
                shift(at.rsigma, k as int, 0),
                1,
                2,
                RED,
            ) + self.caption_strokes(state),
            State::CountsDone => self.counts_strokes(na) + self.caption_strokes(state),
            State::Occ(k) => self.counts_strokes(na) + self.occ_strokes(k as int)
                + self.caption_strokes(state),
            State::OccDone => self.counts_strokes(na) + self.occ_strokes(na)
                + self.caption_strokes(state),
            State::Query(step) => self.counts_strokes(na) + self.occ_strokes(na)
                + self.query_strokes(step as int) + self.caption_strokes(state),
            _ => self.caption_strokes(state),
        }
    }

    /// Draws what the frame of `state` holds on top of the sorted rotations.
    fn draw_rest(&self, at: &Layout, state: State, canvas: &mut CanvasBox)
        requires
            self.drawable(),
            *at == self.at(),
            match state {
                State::FirstLast => true,
                State::LfMap(k) => k < max_symbol_count(self.s@, 256),
                State::Counts(k) => k < self.alph@.len(),
                State::CountsDone => true,
                State::Occ(k) => k < self.alph@.len(),
                State::OccDone => true,
                State::Query(step) => step <= self.q@.len(),
                _ => false,
            },
        ensures
            final(canvas).strokes() == old(canvas).strokes() + self.rest_strokes(state),
    {
        proof {
            self.lemma_shape();
        }
        let na = self.alph.len();
        if let State::FirstLast = state {
            draw_text(at.plabel, "Store the first and last column.", canvas);
            return ;
        }
        // Last-to-first correspondence
        if let State::LfMap(k) = state {
            self.draw_lf_map(at, k, canvas);
            draw_text(at.plabel, "For each char, L and F are sorted the same.", canvas);
            assert(canvas.strokes() =~= old(canvas).strokes() + self.rest_strokes(state));
            return ;
        }
        // Character counts
        let (k, iscount) = match state {
            State::Counts(step) => (step, true),
            State::CountsDone => (na, true),
            _ => (na, false),
        };
        self.draw_counts(at, k, canvas);
        if let State::Counts(_) = state {
            draw_highlight_box(at.rsigma.right(k), 1, 2, RED, canvas);
        }
        if iscount {
            draw_text(at.plabel, "Count number of smaller characters for each c", canvas);
            assert(canvas.strokes() =~= old(canvas).strokes() + self.rest_strokes(state));
            return ;
        }
        // Occurrences
        let (k, isocc) = match state {
            State::Occ(step) => (step, true),
            State::OccDone => (na, true),
            _ => (na, false),
        };
        self.draw_occ(at, k, canvas);
        if isocc {
            draw_text(at.plabel, "Count number of occurrences of c in L at pos < j", canvas);
            assert(canvas.strokes() =~= old(canvas).strokes() + self.rest_strokes(state));
            return ;
        }
        // Draw query
        if let State::Query(step) = state {
            self.draw_query(at, step, canvas);
            // Each query step is shown twice: it is the tricky part, and
            // queries are typically short.
            if step == 0 {
                draw_text(at.pbotlabel, "Initialize the query range as the full text", canvas);
            } else if step < self.ql {
                draw_text(at.pbotlabel, "Update s[i-1] = C[c] + Occ[c][s[i]]", canvas);
            }
        }
        assert(canvas.strokes() =~= old(canvas).strokes() + self.rest_strokes(state));
    }
}

} // verus!

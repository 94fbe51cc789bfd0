//! The pictures of the suffix array being filled in: what each frame holds,
//! stroke by stroke, and the code that draws it.
use crate::canvas::{
    BLUE, Canvas, CanvasBox, char_box_strokes, Color, decimal, draw_char_box, draw_highlight,
    draw_label, GREEN, HAlign, highlight_box_strokes, label_stroke, labelled_string_strokes, Pos,
    RED, string_strokes, Stroke, VAlign, WHITE,
};
use crate::induce::{induce, induced_row, is_filled, is_small, small};
use crate::paint::{number, string, string_with_labels};
use crate::rotation::lemma_row_of;
use crate::text::{is_suffix_array, suffix};
use crate::viz::Viz;
use super::{lemma_state_list, lemma_suffix_array_rows, rows_of, RowState, SA, State, state_list};
use vstd::prelude::*;
use vstd::slice::slice_subrange;

verus! {

const SMALL_COLOUR: Color = GREEN;

const LARGE_COLOUR: Color = (244, 113, 116);

/// The colour of position `i`: the one of the small suffixes or the one of
/// the others.
pub fn type_colour(s: &[u8], i: usize) -> (c: Color)
    requires
        i < s@.len(),
    ensures
        c == if is_small(s@, i as int) { GREEN } else { (244u8, 113u8, 116u8) },
{
    if small(s, i) {
        SMALL_COLOUR
    } else {
        LARGE_COLOUR
    }
}

/// The colours of the positions of `t` from `from` on.
pub open spec fn type_colours(t: Seq<u8>, from: int) -> Seq<Color> {
    Seq::new(
        (t.len() - from) as nat,
        |k: int| if is_small(t, from + k) { GREEN } else { (244u8, 113u8, 116u8) },
    )
}

/// Whether the state is passed over: it is the second or third step of a
/// row whose suffix has no predecessor to put in place, because it starts
/// the text or its predecessor is small.
pub open spec fn passed_over(t: Seq<u8>, sa: Seq<usize>, state: State) -> bool {
    match state {
        State::Row(j, rs) => rs != RowState::Step0 && (sa[j as int] == 0 || is_small(
            t,
            sa[j as int] - 1,
        )),
        _ => false,
    }
}

impl SA {
    /// What the rows hold in `state`: at the start the small suffixes, in a
    /// step of row `j` also what the scan of the rows up to `j` has put in
    /// place, at the end all suffixes. In the first two steps of a row the
    /// suffix that the row itself puts in place is not shown yet.
    pub open spec fn shown_row(&self, state: State, r: int) -> Option<usize> {
        match state {
            State::Init => induced_row(self@, self.sa(), 0, r),
            State::Row(j, rs) => if rs != RowState::Step2 && !passed_over(
                self@,
                self.sa(),
                State::Row(j, RowState::Step2),
            ) && r == crate::rotation::row_of(self@, rows_of(self.sa()), self.sa()[j as int] - 1) {
                None
            } else {
                induced_row(self@, self.sa(), j + 1, r)
            },
            State::End => Some(self.sa()[r]),
        }
    }

    /// The rows as `state` shows them, and the row that the scan filled
    /// last.
    pub fn rows_in(&self, state: State) -> (r: (Vec<Option<usize>>, usize))
        requires
            self.wf(),
            state matches State::Row(j, _) ==> j < self@.len(),
        ensures
            r.0@.len() == self@.len(),
            forall|k: int| 0 <= k < self@.len() ==> #[trigger] r.0@[k] == self.shown_row(state, k),
            r.1 == crate::induce::last_induced(
                self@,
                self.sa(),
                match state {
                    State::Init => 0,
                    State::Row(j, _) => j + 1,
                    State::End => self@.len() as int,
                },
            ),
            r.1 < self@.len(),
    {
        let n = self.s.len();
        let upto = match state {
            State::Init => 0,
            State::Row(j, _) => j + 1,
            State::End => n,
        };
        let (mut rows, new_j) = induce(self.s.as_slice(), &self.sa, upto);
        proof {
            lemma_suffix_array_rows(self.s@, self.sa@);
            assert forall|k: int| 0 <= k < n implies is_filled(self.s@, self.sa@, n as int, k) by {
                lemma_row_of(self.s@, rows_of(self.sa@), self.sa@[k] + 1);
            }
        }
        if let State::Row(j, rs) = state {
            let i = self.sa[j];
            let skip = i == 0 || small(self.s.as_slice(), i - 1);
            if !matches!(rs, RowState::Step2) && !skip {
                rows.set(new_j, None);
            }
        }
        (rows, new_j)
    }

    /// The background, the text at the top with its labels, and the names
    /// of the two columns beside the rows.
    pub open spec fn head_strokes(&self) -> Seq<Stroke> {
        seq![Stroke::Background { color: WHITE }] + labelled_string_strokes(
            Pos(3, 1),
            self@,
            type_colours(self@, 0),
        ) + seq![label_stroke(Pos(0, 2), seq!['j']), label_stroke(Pos(1, 2), seq!['S', 'A'])]
    }

    /// Row `j` as `state` shows it: its number, and either the start
    /// position and the suffix that it holds, or a stroke for the start
    /// position and the first symbol of its suffix.
    pub open spec fn row_strokes(&self, state: State, j: int) -> Seq<Stroke> {
        let y = (3 + j) as usize;
        seq![label_stroke(Pos(0, y), decimal(j as nat))] + match self.shown_row(state, j) {
            Some(i) => seq![label_stroke(Pos(1, y), decimal(i as nat))] + string_strokes(
                Pos(3, y),
                suffix(self@, i as int),
                type_colours(self@, i as int),
                (self@.len() - i) as nat,
            ),
            None => seq![label_stroke(Pos(1, y), seq!['-'])] + char_box_strokes(
                Pos(3, y),
                self@[self.sa()[j] as int],
                (244u8, 113u8, 116u8),
            ),
        }
    }

    /// The first `k` rows as `state` shows them.
    pub open spec fn rows_strokes(&self, state: State, k: nat) -> Seq<Stroke>
        decreases k,
    {
        if k == 0 {
            Seq::empty()
        } else {
            self.rows_strokes(state, (k - 1) as nat) + self.row_strokes(state, k - 1)
        }
    }

    /// What a step of row `j` marks: the row, the start position of its
    /// suffix in the text and the one before it; in the second and third
    /// step of a row that puts a suffix in place also the symbol before the
    /// suffix and the row that the predecessor is put in.
    pub open spec fn marks(&self, state: State) -> Seq<Stroke> {
        match state {
            State::Row(j, rs) => {
                let i = self.sa()[j as int];
                highlight_box_strokes(Pos(1, (3 + j) as usize), 1, 1, RED) + highlight_box_strokes(
                    Pos((3 + i) as usize, 0),
                    1,
                    1,
                    RED,
                ) + (if i > 0 {
                    highlight_box_strokes(Pos((3 + i - 1) as usize, 0), 1, 1, BLUE)
                } else {
                    Seq::empty()
                }) + (if rs != RowState::Step0 && !passed_over(self@, self.sa(), state) {
                    highlight_box_strokes(Pos((3 + i - 1) as usize, 1), 1, 1, BLUE)
                        + highlight_box_strokes(
                        Pos(1, (3 + crate::induce::last_induced(self@, self.sa(), j + 1)) as usize),
                        1,
                        1,
                        BLUE,
                    )
                } else {
                    Seq::empty()
                })
            },
            _ => Seq::empty(),
        }
    }

    /// The frame of `state`.
    pub open spec fn frame(&self, state: State) -> Seq<Stroke> {
        self.head_strokes() + self.rows_strokes(state, self@.len()) + self.marks(state)
    }

    /// The start position that row `j` holds in `state`, or the stroke that
    /// stands for it, is among the strokes of the first `k` rows.
    proof fn lemma_rows_hold_entry(&self, state: State, k: nat, j: int)
        requires
            0 <= j < k,
        ensures
            self.row_strokes(state, j).len() >= 2,
            self.rows_strokes(state, k).contains(self.row_strokes(state, j)[1]),
        decreases k,
    {
        let before = self.rows_strokes(state, (k - 1) as nat);
        let row = self.row_strokes(state, k - 1);
        let entry = self.row_strokes(state, j)[1];
        if j == k - 1 {
            assert(self.rows_strokes(state, k)[before.len() as int + 1] == entry);
        } else {
            self.lemma_rows_hold_entry(state, (k - 1) as nat, j);
            let at = choose|at: int| 0 <= at < before.len() && before[at] == entry;
            assert(self.rows_strokes(state, k)[at] == entry);
        }
    }

    /// The last frame shows the suffix array of the text: it is the frame of
    /// the last state, it is shown, and it holds for every row `j` the
    /// number `sa[j]` in the middle of the cell in column 1 of that row.
    /// Where the frames fit on a canvas, that is the pixel
    /// `(45, 105 + 30 * j)`.
    pub proof fn lemma_last_frame_shows_suffix_array(&self, j: int)
        requires
            self.wf(),
            0 <= j < self@.len(),
        ensures
            is_suffix_array(self@, self.sa()),
            self.state_count() == 3 * self@.len() + 2,
            self.frame_of(self.state_count() - 1) == self.frame(State::End),
            self.shows(self.state_count() - 1),
            self.frame(State::End).contains(
                label_stroke(Pos(1, (3 + j) as usize), decimal(self.sa()[j] as nat)),
            ),
            self.drawable() ==> label_stroke(
                Pos(1, (3 + j) as usize),
                decimal(self.sa()[j] as nat),
            ) == (Stroke::Text {
                x: 45,
                y: 105 + 30 * j,
                ha: HAlign::Center,
                va: VAlign::Center,
                text: decimal(self.sa()[j] as nat),
            }),
    {
        self.lemma_wf();
        let n = self@.len();
        let head = self.head_strokes();
        let rows = self.rows_strokes(State::End, n);
        let entry = label_stroke(Pos(1, (3 + j) as usize), decimal(self.sa()[j] as nat));
        self.lemma_rows_hold_entry(State::End, n, j);
        assert(self.row_strokes(State::End, j)[1] == entry);
        let at = choose|at: int| 0 <= at < rows.len() && rows[at] == entry;
        assert(self.frame(State::End)[head.len() as int + at] == entry);
    }

    /// Fills the background and draws the text at the top, with its labels,
    /// and the names of the two columns beside the rows.
    fn draw_head(&self, canvas: &mut CanvasBox)
        requires
            self.drawable(),
        ensures
            final(canvas).strokes() == old(canvas).strokes() + self.head_strokes(),
    {
        canvas.fill_background(WHITE);
        let s = self.s.as_slice();
        // Top left of the suffix array, and its columns of row numbers and
        // of start positions.
        let psa = Pos(3, 3);
        let cj = psa.left(3);
        let csa = psa.left(2);
        // Top left of the text at the top.
        let ps = Pos(3, 1);
        let colour = |i: usize| -> (c: Color)
            requires
                i < s@.len(),
            ensures
                c == type_colours(s@, 0)[i as int],
            { type_colour(s, i) };
        string_with_labels(ps, s, colour, canvas, Ghost(type_colours(s@, 0)));
        proof {
            reveal_strlit("j");
            reveal_strlit("SA");
            assert("j"@ =~= seq!['j']);
            assert("SA"@ =~= seq!['S', 'A']);
        }
        draw_label(cj.up(1), "j", canvas);
        draw_label(csa.up(1), "SA", canvas);
        assert(canvas.strokes() =~= old(canvas).strokes() + self.head_strokes());
    }

    /// Draws row `j`, which holds `entry`.
    fn draw_row(&self, state: State, j: usize, entry: Option<usize>, canvas: &mut CanvasBox)
        requires
            self.drawable(),
            j < self@.len(),
            entry == self.shown_row(state, j as int),
            entry matches Some(i) ==> i < self@.len(),
        ensures
            final(canvas).strokes() == old(canvas).strokes() + self.row_strokes(state, j as int),
    {
        let s = self.s.as_slice();
        let n = s.len();
        let psa = Pos(3, 3);
        let cj = psa.left(3);
        let csa = psa.left(2);
        number(cj.down(j), j, canvas);
        match entry {
            Some(i) => {
                number(csa.down(j), i, canvas);
                let shifted = |i2: usize| -> (c: Color)
                    requires
                        i + i2 < s@.len(),
                    ensures
                        c == type_colours(s@, i as int)[i2 as int],
                    { type_colour(s, i + i2) };
                assert(s@.subrange(i as int, n as int) == suffix(s@, i as int));
                string(
                    psa.down(j),
                    slice_subrange(s, i, n),
                    shifted,
                    canvas,
                    Ghost(type_colours(s@, i as int)),
                );
            },
            None => {
                // the first symbol of the rows that this row belongs to
                proof {
                    reveal_strlit("-");
                    assert("-"@ =~= seq!['-']);
                }
                draw_label(csa.down(j), "-", canvas);
                draw_char_box(psa.down(j), s[self.sa[j]], LARGE_COLOUR, canvas);
            },
        }
        assert(canvas.strokes() =~= old(canvas).strokes() + self.row_strokes(state, j as int));
    }

    /// Draws all rows as `state` shows them; `sa` is what they hold.
    #[verifier::rlimit(40)]
    fn draw_rows(&self, state: State, sa: &Vec<Option<usize>>, canvas: &mut CanvasBox)
        requires
            self.drawable(),
            sa@.len() == self@.len(),
            forall|k: int| 0 <= k < self@.len() ==> #[trigger] sa@[k] == self.shown_row(state, k),
            state matches State::Row(j, _) ==> j < self@.len(),
        ensures
            final(canvas).strokes() == old(canvas).strokes() + self.rows_strokes(
                state,
                self@.len(),
            ),
    {
        let n = self.s.len();
        assert(canvas.strokes() =~= old(canvas).strokes() + self.rows_strokes(state, 0));
        let mut j: usize = 0;
        while j < n
            invariant
                self.drawable(),
                n == self@.len(),
                sa@.len() == n,
                forall|k: int| 0 <= k < n ==> #[trigger] sa@[k] == self.shown_row(state, k),
                state matches State::Row(j, _) ==> j < n,
                j <= n,
                canvas.strokes() == old(canvas).strokes() + self.rows_strokes(state, j as nat),
            decreases n - j,
        {
            proof {
                self.lemma_shown_row(state, j as int);
            }
            self.draw_row(state, j, sa[j], canvas);
            j += 1;
            assert(canvas.strokes() =~= old(canvas).strokes() + self.rows_strokes(state, j as nat));
        }
    }

    /// What a row shows is a position of the text.
    proof fn lemma_shown_row(&self, state: State, r: int)
        requires
            self.wf(),
            0 <= r < self@.len(),
            state matches State::Row(j, _) ==> j < self@.len(),
        ensures
            self.shown_row(state, r) matches Some(i) ==> i < self@.len(),
    {
    }

    /// Draws what a step of a row marks; the result is whether the frame is
    /// one to show.
    fn draw_marks(&self, state: State, new_j: usize, canvas: &mut CanvasBox) -> (shown: bool)
        requires
            self.drawable(),
            state matches State::Row(j, _) ==> j < self@.len() && new_j
                == crate::induce::last_induced(self@, self.sa(), j + 1),
            new_j < self@.len(),
        ensures
            shown == !passed_over(self@, self.sa(), state),
            final(canvas).strokes() == old(canvas).strokes() + self.marks(state),
    {
        let s = self.s.as_slice();
        let psa = Pos(3, 3);
        let csa = psa.left(2);
        let ps = Pos(3, 1);
        let ri = ps.up(1);
        if let State::Row(j, rs) = state {
            let i = self.sa[j];
            let skip = i == 0 || small(s, i - 1);
            // highlight the current index i and the one before
            draw_highlight(csa.down(j), RED, canvas);
            draw_highlight(ri.right(i), RED, canvas);
            if i > 0 {
                draw_highlight(ri.right(i - 1), BLUE, canvas);
            }
            if !matches!(rs, RowState::Step0) {
                if skip {
                    assert(canvas.strokes() =~= old(canvas).strokes() + self.marks(state));
                    return false;
                }
                draw_highlight(ps.right(i - 1), BLUE, canvas);
                draw_highlight(csa.down(new_j), BLUE, canvas);
            }
        }
        assert(canvas.strokes() =~= old(canvas).strokes() + self.marks(state));
        true
    }

    /// Whether the frames fit on a canvas and every symbol can be written.
    pub fn fits(&self) -> (b: bool)
        requires
            self.wf(),
        ensures
            b == self.drawable(),
    {
        let n = self.s.len();
        if n > 70_000_000 {
            return false;
        }
        let mut i: usize = 0;
        while i < n
            invariant
                n == self.s@.len(),
                i <= n,
                forall|k: int| 0 <= k < i ==> #[trigger] self.s@[k] < 128,
            decreases n - i,
        {
            if self.s[i] >= 128 {
                return false;
            }
            i += 1;
        }
        true
    }
}

impl Viz for SA {
    /// The text has at most 70 million symbols, all of them ASCII.
    open spec fn drawable(&self) -> bool {
        &&& self.wf()
        &&& self@.len() <= 70_000_000
        &&& forall|k: int| 0 <= k < self@.len() ==> #[trigger] self@[k] < 128
    }

    open spec fn state_count(&self) -> nat {
        state_list(self@.len()).len()
    }

    /// Four cells more than the text has symbols, either way.
    open spec fn size(&self) -> (nat, nat) {
        (self@.len() + 4, self@.len() + 4)
    }

    open spec fn frame_of(&self, state: int) -> Seq<Stroke> {
        self.frame(state_list(self@.len())[state])
    }

    /// Every frame is shown but those of the states that are passed over.
    open spec fn shows(&self, state: int) -> bool {
        !passed_over(self@, self.sa(), state_list(self@.len())[state])
    }

    fn canvas_size(&self) -> (r: (usize, usize)) {
        (self.s.len() + 4, self.s.len() + 4)
    }

    fn num_states(&self) -> (r: usize)
        ensures
            r == 3 * self@.len() + 2,
    {
        self.states.len()
    }

    fn draw(&self, state: usize, canvas: &mut CanvasBox) -> (shown: bool) {
        proof {
            lemma_state_list(self.s@.len(), state as int);
        }
        let state = self.states[state];
        self.draw_head(canvas);
        let (sa, new_j) = self.rows_in(state);
        self.draw_rows(state, &sa, canvas);
        let shown = self.draw_marks(state, new_j, canvas);
        assert(canvas.strokes() =~= old(canvas).strokes() + self.frame(state));
        shown
    }
}

} // verus!

//! What the frames add to the grid: numbers as labels, and strings whose
//! colours are known beforehand.
use crate::canvas::{
    Canvas, CanvasBox, Color, decimal, draw_label, draw_string, draw_string_with_labels,
    highlight_box_strokes, label_stroke, labelled_string_strokes, number_label, on_canvas, Pos,
    row_on_canvas, string_strokes, Stroke,
};
use vstd::prelude::*;

verus! {

/// `color` gives the colours `colors`, in this order, and no others.
pub open spec fn gives<F: Fn(usize) -> Color>(color: F, colors: Seq<Color>) -> bool {
    forall|i: usize, c: Color|
        i < colors.len() && #[trigger] call_ensures(color, (i,), c) ==> c == colors[i as int]
}

/// The cell `dx` columns to the right of `p` and `dy` rows below it.
pub open spec fn shift(p: Pos, dx: int, dy: int) -> Pos {
    Pos((p.0 + dx) as usize, (p.1 + dy) as usize)
}

/// The three frames that mark cell `p`.
pub open spec fn mark(p: Pos, color: Color) -> Seq<Stroke> {
    highlight_box_strokes(p, 1, 1, color)
}

/// One stroke, or none.
pub open spec fn maybe(shown: bool, strokes: Seq<Stroke>) -> Seq<Stroke> {
    if shown {
        strokes
    } else {
        Seq::empty()
    }
}

/// The same colour, `k` times.
pub open spec fn plain(k: nat, color: Color) -> Seq<Color> {
    Seq::new(k, |i: int| color)
}

/// Writes the number `n` in the middle of cell `p`.
pub(crate) fn number(p: Pos, n: usize, canvas: &mut CanvasBox)
    requires
        on_canvas(p),
    ensures
        final(canvas).strokes() == old(canvas).strokes().push(label_stroke(p, decimal(n as nat))),
{
    draw_label(p, number_label(n).as_str(), canvas);
}

/// Draws the symbols of `s` as boxes side by side from `p` on, in the
/// colours `colors`, which are those that `color` gives.
pub(crate) fn string<F: Fn(usize) -> Color>(
    p: Pos,
    s: &[u8],
    color: F,
    canvas: &mut CanvasBox,
    Ghost(colors): Ghost<Seq<Color>>,
)
    requires
        row_on_canvas(p, s@.len()),
        forall|i: int| 0 <= i < s@.len() ==> #[trigger] s@[i] < 128,
        forall|i: usize| i < s@.len() ==> call_requires(color, (i,)),
        colors.len() == s@.len(),
        gives(color, colors),
    ensures
        final(canvas).strokes() == old(canvas).strokes() + string_strokes(p, s@, colors, s@.len()),
{
    draw_string(p, s, color, canvas);
    proof {
        let drawn = choose|drawn: Seq<Color>|
            {
                &&& drawn.len() == s@.len()
                &&& forall|i: int|
                    0 <= i < s@.len() ==> call_ensures(color, (i as usize,), #[trigger] drawn[i])
                &&& canvas.strokes() == old(canvas).strokes() + string_strokes(
                    p,
                    s@,
                    drawn,
                    s@.len(),
                )
            };
        assert forall|i: int| 0 <= i < s@.len() implies drawn[i] == colors[i] by {
            assert(call_ensures(color, (i as usize,), drawn[i]));
        }
        assert(drawn =~= colors);
    }
}

/// Draws `s` as a row of boxes from `p` on, in the colours `colors`, which
/// are those that `color` gives, with the numbers of its places above it
/// and the names of the two rows to their left.
pub(crate) fn string_with_labels<F: Fn(usize) -> Color>(
    p: Pos,
    s: &[u8],
    color: F,
    canvas: &mut CanvasBox,
    Ghost(colors): Ghost<Seq<Color>>,
)
    requires
        p.0 >= 1,
        p.1 >= 1,
        on_canvas(Pos((p.0 - 1) as usize, p.1)),
        row_on_canvas(p, s@.len()),
        forall|i: int| 0 <= i < s@.len() ==> #[trigger] s@[i] < 128,
        forall|i: usize| i < s@.len() ==> call_requires(color, (i,)),
        colors.len() == s@.len(),
        gives(color, colors),
    ensures
        final(canvas).strokes() == old(canvas).strokes() + labelled_string_strokes(p, s@, colors),
{
    draw_string_with_labels(p, s, color, canvas);
    proof {
        let drawn = choose|drawn: Seq<Color>|
            {
                &&& drawn.len() == s@.len()
                &&& forall|i: int|
                    0 <= i < s@.len() ==> call_ensures(color, (i as usize,), #[trigger] drawn[i])
                &&& canvas.strokes() == old(canvas).strokes() + labelled_string_strokes(
                    p,
                    s@,
                    drawn,
                )
            };
        assert forall|i: int| 0 <= i < s@.len() implies drawn[i] == colors[i] by {
            assert(call_ensures(color, (i as usize,), drawn[i]));
        }
        assert(drawn =~= colors);
    }
}

} // verus!

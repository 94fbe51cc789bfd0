//! The grid of square cells, drawn on any canvas.
use crate::canvas::{
    BLACK, Canvas, char_box_strokes, Color, CS, edge_on_canvas, frames_on_canvas, HAlign,
    highlight_box_strokes, highlight_stroke,
    index_strokes, label_stroke, labelled_string_strokes, lemma_string_strokes_prefix, number_label,
    on_canvas, row_on_canvas, string_strokes, Stroke, text_stroke, VAlign, WHITE,
};
use vstd::prelude::*;
pub use crate::canvas::{make_label, Pos, to_label};

verus! {

const BACKGROUND: Color = (255, 255, 255);

/// The size in pixels of a canvas of `w` by `h` cells.
pub fn canvas_size(w: usize, h: usize) -> (r: (u32, u32))
    requires
        w * 30 <= u32::MAX,
        h * 30 <= u32::MAX,
    ensures
        r.0 == w * 30,
        r.1 == h * 30,
{
    (w as u32 * CS, h as u32 * CS)
}

/// Fills the canvas with the colour of the background, white.
pub fn draw_background<C: Canvas + ?Sized>(canvas: &mut C)
    ensures
        final(canvas).strokes() == old(canvas).strokes().push(
            Stroke::Background { color: WHITE },
        ),
{
    canvas.fill_background(BACKGROUND);
}

/// Writes `text` at the pixel `(x, y)`.
fn write_label<C: Canvas + ?Sized>(
    x: i32,
    y: i32,
    ha: HAlign,
    va: VAlign,
    text: &str,
    canvas: &mut C,
)
    ensures
        final(canvas).strokes() == old(canvas).strokes().push(
            Stroke::Text { x: x as int, y: y as int, ha, va, text: text@ },
        ),
{
    canvas.write_text(x, y, ha, va, text);
}

/// Writes `label` in the middle of cell `p`.
pub fn draw_label<C: Canvas + ?Sized>(p: Pos, label: &str, canvas: &mut C)
    requires
        on_canvas(p),
    ensures
        final(canvas).strokes() == old(canvas).strokes().push(label_stroke(p, label@)),
{
    let Pos(x, y) = p;
    canvas.write_text(
        x as i32 * CS as i32 + CS as i32 / 2,
        y as i32 * CS as i32 + CS as i32 / 2,
        HAlign::Center,
        VAlign::Center,
        label,
    );
}

/// Writes `label` from the left edge of cell `p` on.
pub fn draw_text<C: Canvas + ?Sized>(p: Pos, label: &str, canvas: &mut C)
    requires
        edge_on_canvas(p),
    ensures
        final(canvas).strokes() == old(canvas).strokes().push(text_stroke(p, label@)),
{
    let Pos(x, y) = p;
    let x = x as i32 * CS as i32;
    let y = y as i32 * CS as i32;
    write_label(x, y + CS as i32 / 2, HAlign::Left, VAlign::Center, label, canvas);
}

/// Draws cell `p` as a box in `color` that holds the symbol `c`.
pub fn draw_char_box<C: Canvas + ?Sized>(p: Pos, c: u8, color: Color, canvas: &mut C)
    requires
        on_canvas(p),
        c < 128,
    ensures
        final(canvas).strokes() == old(canvas).strokes() + char_box_strokes(p, c, color),
{
    let Pos(x, y) = p;
    let x = x as i32 * CS as i32;
    let y = y as i32 * CS as i32;
    canvas.fill_rect(x, y, CS, CS, color);
    canvas.draw_rect(x, y, CS, CS, BLACK);
    // letter
    canvas.write_text(
        x + CS as i32 / 2,
        y + CS as i32 / 2,
        HAlign::Center,
        VAlign::Center,
        to_label(c).as_str(),
    );
    assert(canvas.strokes() =~= old(canvas).strokes() + char_box_strokes(p, c, color));
}

/// Marks the area of `w` by `h` cells from `p` on with three frames in
/// `color`.
pub fn draw_highlight_box<C: Canvas + ?Sized>(
    p: Pos,
    w: usize,
    h: usize,
    color: Color,
    canvas: &mut C,
)
    requires
        frames_on_canvas(p, w, h),
    ensures
        final(canvas).strokes() == old(canvas).strokes() + highlight_box_strokes(p, w, h, color),
{
    let Pos(x, y) = p;
    let x = x as i32 * CS as i32;
    let y = y as i32 * CS as i32;
    let mut margin: u32 = 0;
    while margin < 3
        invariant
            margin <= 3,
            x == p.0 * 30,
            y == p.1 * 30,
            frames_on_canvas(p, w, h),
            canvas.strokes() == old(canvas).strokes() + Seq::new(
                margin as nat,
                |m: int| highlight_stroke(p, w, h, color, m),
            ),
        decreases 3 - margin,
    {
        let ghost before = canvas.strokes();
        if w == 0 {
            canvas.draw_rect(x - margin as i32, y, 2 * margin, h as u32 * CS, color);
        } else if h == 0 {
            canvas.draw_rect(x, y - margin as i32, w as u32 * CS, 2 * margin, color);
        } else {
            let inset = margin + 1;
            canvas.draw_rect(
                x + inset as i32,
                y + inset as i32,
                w as u32 * CS - 2 * inset,
                h as u32 * CS - 2 * inset,
                color,
            );
        }
        assert(canvas.strokes() == before.push(highlight_stroke(p, w, h, color, margin as int)));
        margin += 1;
        assert(canvas.strokes() =~= old(canvas).strokes() + Seq::new(
            margin as nat,
            |m: int| highlight_stroke(p, w, h, color, m),
        ));
    }
}

/// Marks cell `p` with three frames in `color`.
pub fn draw_highlight<C: Canvas + ?Sized>(p: Pos, color: Color, canvas: &mut C)
    requires
        frames_on_canvas(p, 1, 1),
    ensures
        final(canvas).strokes() == old(canvas).strokes() + highlight_box_strokes(p, 1, 1, color),
{
    draw_highlight_box(p, 1, 1, color, canvas);
}

/// Draws the symbols of `s` as boxes side by side from `p` on, the `i`-th in
/// the colour that `color` gives for `i`.
pub fn draw_string<F: Fn(usize) -> Color, C: Canvas + ?Sized>(p: Pos, s: &[u8], color: F, canvas: &mut C)
    requires
        row_on_canvas(p, s@.len()),
        forall|i: int| 0 <= i < s@.len() ==> #[trigger] s@[i] < 128,
        forall|i: usize| i < s@.len() ==> call_requires(color, (i,)),
    ensures
        exists|colors: Seq<Color>|
            {
                &&& colors.len() == s@.len()
                &&& forall|i: int|
                    0 <= i < s@.len() ==> call_ensures(color, (i as usize,), #[trigger] colors[i])
                &&& final(canvas).strokes() == old(canvas).strokes() + string_strokes(
                    p,
                    s@,
                    colors,
                    s@.len(),
                )
            },
{
    let Pos(x, y) = p;
    let n = s.len();
    let ghost mut colors: Seq<Color> = Seq::empty();
    let mut i: usize = 0;
    assert(canvas.strokes() =~= old(canvas).strokes() + string_strokes(p, s@, colors, 0));
    while i < n
        invariant
            n == s@.len(),
            i <= n,
            p == Pos(x, y),
            row_on_canvas(p, s@.len()),
            forall|k: int| 0 <= k < s@.len() ==> #[trigger] s@[k] < 128,
            forall|k: usize| k < s@.len() ==> call_requires(color, (k,)),
            colors.len() == i,
            forall|k: int| 0 <= k < i ==> call_ensures(color, (k as usize,), #[trigger] colors[k]),
            canvas.strokes() == old(canvas).strokes() + string_strokes(p, s@, colors, i as nat),
        decreases n - i,
    {
        let c = color(i);
        let ghost before = colors;
        proof {
            colors = colors.push(c);
            lemma_string_strokes_prefix(p, s@, before, colors, i as nat);
        }
        draw_char_box(Pos(x + i, y), s[i], c, canvas);
        i += 1;
        assert(canvas.strokes() =~= old(canvas).strokes() + string_strokes(p, s@, colors, i as nat));
    }
}

/// Draws `s` as a row of boxes from `p` on, with the numbers of its places
/// above it, and the names of the two rows, "i" and "S", to their left.
pub fn draw_string_with_labels<F: Fn(usize) -> Color, C: Canvas + ?Sized>(
    p: Pos,
    s: &[u8],
    color: F,
    canvas: &mut C,
)
    requires
        p.0 >= 1,
        p.1 >= 1,
        on_canvas(Pos((p.0 - 1) as usize, p.1)),
        row_on_canvas(p, s@.len()),
        forall|i: int| 0 <= i < s@.len() ==> #[trigger] s@[i] < 128,
        forall|i: usize| i < s@.len() ==> call_requires(color, (i,)),
    ensures
        exists|colors: Seq<Color>|
            {
                &&& colors.len() == s@.len()
                &&& forall|i: int|
                    0 <= i < s@.len() ==> call_ensures(color, (i as usize,), #[trigger] colors[i])
                &&& final(canvas).strokes() == old(canvas).strokes() + labelled_string_strokes(
                    p,
                    s@,
                    colors,
                )
            },
{
    let Pos(x, y) = p;
    let n = s.len();
    proof {
        reveal_strlit("i");
        reveal_strlit("S");
        assert("i"@ =~= seq!['i']);
        assert("S"@ =~= seq!['S']);
    }
    draw_label(Pos(x - 1, y - 1), "i", canvas);
    let ghost head = canvas.strokes();
    let ghost above = Pos(x, (y - 1) as usize);
    assert(canvas.strokes() =~= head + index_strokes(above, 0));
    let mut i: usize = 0;
    while i < n
        invariant
            n == s@.len(),
            i <= n,
            p == Pos(x, y),
            y >= 1,
            above == Pos(x, (y - 1) as usize),
            row_on_canvas(p, s@.len()),
            canvas.strokes() == head + index_strokes(above, i as nat),
        decreases n - i,
    {
        draw_label(Pos(x + i, y - 1), number_label(i).as_str(), canvas);
        i += 1;
        assert(canvas.strokes() =~= head + index_strokes(above, i as nat));
    }
    draw_label(Pos(x - 1, y), "S", canvas);
    let ghost labelled = canvas.strokes();
    draw_string(Pos(x, y), s, color, canvas);
    proof {
        let colors = choose|colors: Seq<Color>|
            {
                &&& colors.len() == s@.len()
                &&& forall|i: int|
                    0 <= i < s@.len() ==> call_ensures(color, (i as usize,), #[trigger] colors[i])
                &&& canvas.strokes() == labelled + string_strokes(p, s@, colors, s@.len())
            };
        assert(canvas.strokes() =~= old(canvas).strokes() + labelled_string_strokes(
            p,
            s@,
            colors,
        ));
    }
}

} // verus!

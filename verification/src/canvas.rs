//! Colours, alignment, the canvas that the steps are drawn on, what the
//! cells of the grid look like, and the grid drawn on a boxed canvas.
use vstd::prelude::*;

verus! {

/// A colour: red, green and blue.
pub type Color = (u8, u8, u8);

/// The colours that the frames use.
pub const BLACK: Color = (0, 0, 0);

pub const WHITE: Color = (255, 255, 255);

pub const RED: Color = (255, 0, 0);

pub const GREEN: Color = (0, 255, 0);

pub const BLUE: Color = (0, 0, 255);

pub const CYAN: Color = (0, 255, 255);

/// Where a text stands beside the point it is written at.
#[derive(Debug, PartialEq, Eq, Clone, Copy, Structural)]
pub enum HAlign {
    Left,
    Center,
    Right,
}

/// Where a text stands above or below the point it is written at.
#[derive(Debug, PartialEq, Eq, Clone, Copy, Structural)]
pub enum VAlign {
    Top,
    Center,
    Bottom,
}

/// One thing drawn on a canvas, as contracts speak of it.
pub enum Stroke {
    Background { color: Color },
    FillRect { x: int, y: int, w: int, h: int, color: Color },
    DrawRect { x: int, y: int, w: int, h: int, color: Color },
    Text { x: int, y: int, ha: HAlign, va: VAlign, text: Seq<char> },
}

/// A surface to draw on. `strokes` is everything drawn on it so far, in
/// order; each drawing method adds one stroke, and `save` and `present` add
/// none.
pub trait Canvas {
    /// Everything drawn so far.
    spec fn strokes(&self) -> Seq<Stroke>;

    /// Fills the whole canvas with `color`.
    fn fill_background(&mut self, color: Color)
        ensures
            final(self).strokes() == old(self).strokes().push(Stroke::Background { color }),
    ;

    /// Fills the rectangle of `w` by `h` pixels from `(x, y)` on.
    fn fill_rect(&mut self, x: i32, y: i32, w: u32, h: u32, color: Color)
        ensures
            final(self).strokes() == old(self).strokes().push(
                Stroke::FillRect { x: x as int, y: y as int, w: w as int, h: h as int, color },
            ),
    ;

    /// Draws the outline of the rectangle of `w` by `h` pixels from
    /// `(x, y)` on.
    fn draw_rect(&mut self, x: i32, y: i32, w: u32, h: u32, color: Color)
        ensures
            final(self).strokes() == old(self).strokes().push(
                Stroke::DrawRect { x: x as int, y: y as int, w: w as int, h: h as int, color },
            ),
    ;

    /// Writes `text` at `(x, y)`.
    fn write_text(&mut self, x: i32, y: i32, ha: HAlign, va: VAlign, text: &str)
        ensures
            final(self).strokes() == old(self).strokes().push(
                Stroke::Text { x: x as int, y: y as int, ha, va, text: text@ },
            ),
    ;

    /// Keeps the picture, where the canvas can.
    fn save(&mut self)
        ensures
            final(self).strokes() == old(self).strokes(),
    ;

    /// Shows the picture, where the canvas has to be told to.
    fn present(&mut self)
        ensures
            final(self).strokes() == old(self).strokes(),
    ;
}

/// A canvas of any kind.
pub type CanvasBox = Box<dyn Canvas>;

/// One thing drawn on a canvas, as a `Recorder` keeps it.
#[derive(Debug, PartialEq, Eq)]
pub enum Drawn {
    Background(Color),
    FillRect(i32, i32, u32, u32, Color),
    DrawRect(i32, i32, u32, u32, Color),
    Text(i32, i32, HAlign, VAlign, String),
}

impl View for Drawn {
    type V = Stroke;

    open spec fn view(&self) -> Stroke {
        match *self {
            Drawn::Background(color) => Stroke::Background { color },
            Drawn::FillRect(x, y, w, h, color) => Stroke::FillRect {
                x: x as int,
                y: y as int,
                w: w as int,
                h: h as int,
                color,
            },
            Drawn::DrawRect(x, y, w, h, color) => Stroke::DrawRect {
                x: x as int,
                y: y as int,
                w: w as int,
                h: h as int,
                color,
            },
            Drawn::Text(x, y, ha, va, text) => Stroke::Text {
                x: x as int,
                y: y as int,
                ha,
                va,
                text: text@,
            },
        }
    }
}

/// A canvas that keeps what is drawn on it as a list.
pub struct Recorder {
    pub drawn: Vec<Drawn>,
}

impl Recorder {
    /// A canvas with nothing drawn on it.
    pub fn new() -> (r: Recorder)
        ensures
            r.strokes() == Seq::<Stroke>::empty(),
    {
        let r = Recorder { drawn: Vec::new() };
        assert(r.strokes() =~= Seq::<Stroke>::empty());
        r
    }

    /// Adds `d` to the list.
    fn record(&mut self, d: Drawn)
        ensures
            final(self).strokes() == old(self).strokes().push(d@),
    {
        self.drawn.push(d);
        assert(self.strokes() =~= old(self).strokes().push(d@));
    }
}

impl Canvas for Recorder {
    open spec fn strokes(&self) -> Seq<Stroke> {
        Seq::new(self.drawn@.len(), |i: int| self.drawn@[i]@)
    }

    fn fill_background(&mut self, color: Color) {
        self.record(Drawn::Background(color));
    }

    fn fill_rect(&mut self, x: i32, y: i32, w: u32, h: u32, color: Color) {
        self.record(Drawn::FillRect(x, y, w, h, color));
    }

    fn draw_rect(&mut self, x: i32, y: i32, w: u32, h: u32, color: Color) {
        self.record(Drawn::DrawRect(x, y, w, h, color));
    }

    fn write_text(&mut self, x: i32, y: i32, ha: HAlign, va: VAlign, text: &str) {
        self.record(Drawn::Text(x, y, ha, va, String::from_str(text)));
    }

    fn save(&mut self) {
    }

    fn present(&mut self) {
    }
}

/// Something that can draw: a window, a page, a file. Nothing is promised
/// of what it does with a call.
pub trait Backend {
    fn fill_background(&mut self, color: Color);

    fn fill_rect(&mut self, x: i32, y: i32, w: u32, h: u32, color: Color);

    fn draw_rect(&mut self, x: i32, y: i32, w: u32, h: u32, color: Color);

    fn write_text(&mut self, x: i32, y: i32, ha: HAlign, va: VAlign, text: &str);

    fn save(&mut self);

    fn present(&mut self) {
    }
}

/// One thing asked of a backend: to draw a stroke, to keep the picture, or
/// to show it.
pub enum Request {
    Draw(Stroke),
    Save,
    Present,
}

/// The strokes among the requests, in the order in which they were asked
/// for.
pub open spec fn strokes_of(requests: Seq<Request>) -> Seq<Stroke>
    decreases requests.len(),
{
    if requests.len() == 0 {
        Seq::empty()
    } else {
        let before = strokes_of(requests.drop_last());
        match requests.last() {
            Request::Draw(stroke) => before.push(stroke),
            _ => before,
        }
    }
}

/// One request more adds its stroke to the strokes, if it asks for one.
pub proof fn lemma_strokes_of_push(requests: Seq<Request>, next: Request)
    ensures
        strokes_of(requests.push(next)) == match next {
            Request::Draw(stroke) => strokes_of(requests).push(stroke),
            _ => strokes_of(requests),
        },
{
    assert(requests.push(next).drop_last() =~= requests);
}

/// A backend as a canvas: every call is handed on to the backend, and what
/// was asked of it is kept account of, request by request.
pub struct Logged<B: Backend> {
    backend: B,
    asked: Ghost<Seq<Request>>,
}

impl<B: Backend> Logged<B> {
    /// Everything asked of the backend so far, in order.
    pub closed spec fn requests(&self) -> Seq<Request> {
        self.asked@
    }

    /// A canvas on `backend`, with nothing asked of it yet.
    pub fn new(backend: B) -> (r: Self)
        ensures
            r.requests() == Seq::<Request>::empty(),
            r.strokes() == Seq::<Stroke>::empty(),
            r.backend() == backend,
    {
        Logged { backend, asked: Ghost(Seq::empty()) }
    }

    /// The backend that the calls are handed on to.
    pub closed spec fn backend(&self) -> B {
        self.backend
    }

    /// The backend, back.
    pub fn into_inner(self) -> (r: B)
        ensures
            r == self.backend(),
    {
        self.backend
    }
}

impl<B: Backend> Canvas for Logged<B> {
    open spec fn strokes(&self) -> Seq<Stroke> {
        strokes_of(self.requests())
    }

    fn fill_background(&mut self, color: Color)
        ensures
            final(self).requests() == old(self).requests().push(
                Request::Draw(Stroke::Background { color }),
            ),
    {
        self.backend.fill_background(color);
        proof {
            let next = Request::Draw(Stroke::Background { color });
            lemma_strokes_of_push(self.asked@, next);
            self.asked@ = self.asked@.push(next);
        }
    }

    fn fill_rect(&mut self, x: i32, y: i32, w: u32, h: u32, color: Color)
        ensures
            final(self).requests() == old(self).requests().push(
                Request::Draw(
                    Stroke::FillRect { x: x as int, y: y as int, w: w as int, h: h as int, color },
                ),
            ),
    {
        self.backend.fill_rect(x, y, w, h, color);
        proof {
            let next = Request::Draw(
                Stroke::FillRect { x: x as int, y: y as int, w: w as int, h: h as int, color },
            );
            lemma_strokes_of_push(self.asked@, next);
            self.asked@ = self.asked@.push(next);
        }
    }

    fn draw_rect(&mut self, x: i32, y: i32, w: u32, h: u32, color: Color)
        ensures
            final(self).requests() == old(self).requests().push(
                Request::Draw(
                    Stroke::DrawRect { x: x as int, y: y as int, w: w as int, h: h as int, color },
                ),
            ),
    {
        self.backend.draw_rect(x, y, w, h, color);
        proof {
            let next = Request::Draw(
                Stroke::DrawRect { x: x as int, y: y as int, w: w as int, h: h as int, color },
            );
            lemma_strokes_of_push(self.asked@, next);
            self.asked@ = self.asked@.push(next);
        }
    }

    fn write_text(&mut self, x: i32, y: i32, ha: HAlign, va: VAlign, text: &str)
        ensures
            final(self).requests() == old(self).requests().push(
                Request::Draw(Stroke::Text { x: x as int, y: y as int, ha, va, text: text@ }),
            ),
    {
        self.backend.write_text(x, y, ha, va, text);
        proof {
            let next = Request::Draw(Stroke::Text { x: x as int, y: y as int, ha, va, text: text@ });
            lemma_strokes_of_push(self.asked@, next);
            self.asked@ = self.asked@.push(next);
        }
    }

    /// Asks the backend to keep the picture.
    fn save(&mut self)
        ensures
            final(self).requests() == old(self).requests().push(Request::Save),
    {
        self.backend.save();
        proof {
            let next = Request::Save;
            lemma_strokes_of_push(self.asked@, next);
            self.asked@ = self.asked@.push(next);
        }
    }

    /// Asks the backend to show the picture.
    fn present(&mut self)
        ensures
            final(self).requests() == old(self).requests().push(Request::Present),
    {
        self.backend.present();
        proof {
            let next = Request::Present;
            lemma_strokes_of_push(self.asked@, next);
            self.asked@ = self.asked@.push(next);
        }
    }
}

/// The decimal digit `d` as a character.
pub open spec fn digit_char(d: int) -> char {
    if d == 0 {
        '0'
    } else if d == 1 {
        '1'
    } else if d == 2 {
        '2'
    } else if d == 3 {
        '3'
    } else if d == 4 {
        '4'
    } else if d == 5 {
        '5'
    } else if d == 6 {
        '6'
    } else if d == 7 {
        '7'
    } else if d == 8 {
        '8'
    } else {
        '9'
    }
}

/// The decimal digits of `n`, without leading zeros.
pub open spec fn decimal(n: nat) -> Seq<char>
    decreases n,
{
    if n < 10 {
        seq![digit_char(n as int)]
    } else {
        decimal(n / 10).push(digit_char((n % 10) as int))
    }
}

/// The decimal digit `d` as a string.
fn digit_str(d: usize) -> (r: &'static str)
    requires
        d < 10,
    ensures
        r@ == seq![digit_char(d as int)],
{
    proof {
        reveal_strlit("0");
        reveal_strlit("1");
        reveal_strlit("2");
        reveal_strlit("3");
        reveal_strlit("4");
        reveal_strlit("5");
        reveal_strlit("6");
        reveal_strlit("7");
        reveal_strlit("8");
        reveal_strlit("9");
    }
    let r = if d == 0 {
        "0"
    } else if d == 1 {
        "1"
    } else if d == 2 {
        "2"
    } else if d == 3 {
        "3"
    } else if d == 4 {
        "4"
    } else if d == 5 {
        "5"
    } else if d == 6 {
        "6"
    } else if d == 7 {
        "7"
    } else if d == 8 {
        "8"
    } else {
        "9"
    };
    assert(r@ =~= seq![digit_char(d as int)]);
    r
}

/// The number `n` written in decimal digits.
pub fn number_label(n: usize) -> (r: String)
    ensures
        r@ == decimal(n as nat),
    decreases n,
{
    if n < 10 {
        String::from_str(digit_str(n))
    } else {
        let mut r = number_label(n / 10);
        r.append(digit_str(n % 10));
        assert(r@ =~= decimal(n as nat));
        r
    }
}

/// The string that holds the one byte `c`. Calls `String::from_utf8` on a
/// vector of that byte alone; a byte below 128 is a whole character of
/// UTF-8, so the conversion succeeds and gives that character.
#[verifier::external_body]
fn ascii_string(c: u8) -> (r: String)
    requires
        c < 128,
    ensures
        r@ == seq![c as char],
{
    String::from_utf8(vec![c]).unwrap()
}

/// The symbol `c` as a label.
pub fn to_label(c: u8) -> (r: String)
    requires
        c < 128,
    ensures
        r@ == seq![c as char],
{
    ascii_string(c)
}

/// `text` followed by `val` as it prints.
pub fn make_label<T: std::fmt::Display>(text: &str, val: T) -> (r: String)
    ensures
        exists|printed: String|
            vstd::string::to_string_from_display_ensures::<T>(&val, printed) && r@ == text@
                + printed@,
{
    let printed = val.to_string();
    let mut r = String::from_str(text);
    r.append(printed.as_str());
    r
}

/// Position of a cell in the grid: column and row.
#[derive(Copy, Clone)]
pub struct Pos(pub usize, pub usize);

impl Pos {
    /// The cell `d` columns to the left.
    pub fn left(self, d: usize) -> (r: Self)
        requires
            d <= self.0,
        ensures
            r == Pos((self.0 - d) as usize, self.1),
    {
        Self(self.0 - d, self.1)
    }

    /// The cell `d` columns to the right.
    pub fn right(self, d: usize) -> (r: Self)
        requires
            self.0 + d <= usize::MAX,
        ensures
            r == Pos((self.0 + d) as usize, self.1),
    {
        Self(self.0 + d, self.1)
    }

    /// The cell `d` rows up.
    pub fn up(self, d: usize) -> (r: Self)
        requires
            d <= self.1,
        ensures
            r == Pos(self.0, (self.1 - d) as usize),
    {
        Self(self.0, self.1 - d)
    }

    /// The cell `d` rows down.
    pub fn down(self, d: usize) -> (r: Self)
        requires
            self.1 + d <= usize::MAX,
        ensures
            r == Pos(self.0, (self.1 + d) as usize),
    {
        Self(self.0, self.1 + d)
    }
}

/// Side of a cell, in pixels.
pub const CS: u32 = 30;

/// The middle of cell `p` lies where pixel coordinates still fit their type.
pub open spec fn on_canvas(p: Pos) -> bool {
    p.0 * 30 + 15 <= i32::MAX && p.1 * 30 + 15 <= i32::MAX
}

/// The middle of the left edge of cell `p` lies where pixel coordinates
/// still fit their type.
pub open spec fn edge_on_canvas(p: Pos) -> bool {
    p.0 * 30 <= i32::MAX && p.1 * 30 + 15 <= i32::MAX
}

/// The three frames that mark `w` by `h` cells from `p` on begin where pixel
/// coordinates still fit their type, and are no wider and no higher than
/// pixel sizes can say. The frames of an area without width or height begin
/// at the corner of `p` or before it, the others up to three pixels inside.
pub open spec fn frames_on_canvas(p: Pos, w: usize, h: usize) -> bool {
    let inset: int = if w == 0 || h == 0 {
        0
    } else {
        3
    };
    &&& p.0 * 30 + inset <= i32::MAX
    &&& p.1 * 30 + inset <= i32::MAX
    &&& w * 30 <= u32::MAX
    &&& h * 30 <= u32::MAX
}

/// The middle of each of the `k` cells of the row from `p` on lies where
/// pixel coordinates still fit their type.
pub open spec fn row_on_canvas(p: Pos, k: nat) -> bool {
    k > 0 ==> p.0 + k - 1 <= usize::MAX && on_canvas(Pos((p.0 + k - 1) as usize, p.1))
}

/// The label `text` in the middle of cell `p`.
pub open spec fn label_stroke(p: Pos, text: Seq<char>) -> Stroke {
    Stroke::Text {
        x: p.0 * 30 + 15,
        y: p.1 * 30 + 15,
        ha: HAlign::Center,
        va: VAlign::Center,
        text,
    }
}

/// The text `text` from the left edge of cell `p` on, at half its height.
pub open spec fn text_stroke(p: Pos, text: Seq<char>) -> Stroke {
    Stroke::Text { x: p.0 * 30, y: p.1 * 30 + 15, ha: HAlign::Left, va: VAlign::Center, text }
}

/// The cell `p` filled with `color`, framed in black, with the symbol `c` in
/// its middle.
pub open spec fn char_box_strokes(p: Pos, c: u8, color: Color) -> Seq<Stroke> {
    seq![
        Stroke::FillRect { x: p.0 * 30, y: p.1 * 30, w: 30, h: 30, color },
        Stroke::DrawRect { x: p.0 * 30, y: p.1 * 30, w: 30, h: 30, color: BLACK },
        label_stroke(p, seq![c as char]),
    ]
}

/// The `m`-th of the three frames that mark `w` by `h` cells from `p` on.
/// An area without width is marked by a line down its left edge, one without
/// height by a line along its upper edge, each two pixels to either side at
/// most; any other area by frames one to three pixels inside its border.
pub open spec fn highlight_stroke(p: Pos, w: usize, h: usize, color: Color, m: int) -> Stroke {
    if w == 0 {
        Stroke::DrawRect { x: p.0 * 30 - m, y: p.1 * 30, w: 2 * m, h: h * 30, color }
    } else if h == 0 {
        Stroke::DrawRect { x: p.0 * 30, y: p.1 * 30 - m, w: w * 30, h: 2 * m, color }
    } else {
        Stroke::DrawRect {
            x: p.0 * 30 + (m + 1),
            y: p.1 * 30 + (m + 1),
            w: w * 30 - 2 * (m + 1),
            h: h * 30 - 2 * (m + 1),
            color,
        }
    }
}

/// The three frames that mark `w` by `h` cells from `p` on.
pub open spec fn highlight_box_strokes(p: Pos, w: usize, h: usize, color: Color) -> Seq<Stroke> {
    Seq::new(3, |m: int| highlight_stroke(p, w, h, color, m))
}

/// The boxes of the first `k` symbols of `s`, side by side from `p` on, the
/// `i`-th in `colors[i]`.
pub open spec fn string_strokes(p: Pos, s: Seq<u8>, colors: Seq<Color>, k: nat) -> Seq<Stroke>
    decreases k,
{
    if k == 0 {
        Seq::empty()
    } else {
        string_strokes(p, s, colors, (k - 1) as nat) + char_box_strokes(
            Pos((p.0 + k - 1) as usize, p.1),
            s[k - 1],
            colors[k - 1],
        )
    }
}

/// The numbers `0` to `k - 1` as labels, side by side from `p` on.
pub open spec fn index_strokes(p: Pos, k: nat) -> Seq<Stroke> {
    Seq::new(k, |i: int| label_stroke(Pos((p.0 + i) as usize, p.1), decimal(i as nat)))
}

/// The row of boxes of `s` from `p` on, with the numbers of its places above
/// it and the names of the two rows, "i" and "S", to their left.
pub open spec fn labelled_string_strokes(p: Pos, s: Seq<u8>, colors: Seq<Color>) -> Seq<Stroke> {
    seq![label_stroke(Pos((p.0 - 1) as usize, (p.1 - 1) as usize), seq!['i'])] + index_strokes(
        Pos(p.0, (p.1 - 1) as usize),
        s.len(),
    ) + seq![label_stroke(Pos((p.0 - 1) as usize, p.1), seq!['S'])] + string_strokes(
        p,
        s,
        colors,
        s.len(),
    )
}

/// The size in pixels of a canvas of `w` by `h` cells.
pub fn canvas_size(w: usize, h: usize) -> (r: (usize, usize))
    requires
        w * 30 <= usize::MAX,
        h * 30 <= usize::MAX,
    ensures
        r.0 == w * 30,
        r.1 == h * 30,
{
    (w * CS as usize, h * CS as usize)
}

/// Fills the canvas with the colour of the background, white.
pub fn draw_background(canvas: &mut CanvasBox)
    ensures
        final(canvas).strokes() == old(canvas).strokes().push(
            Stroke::Background { color: WHITE },
        ),
{
    crate::grid::draw_background(&mut **canvas);
}

/// Writes `label` in the middle of cell `p`.
pub fn draw_label(p: Pos, label: &str, canvas: &mut CanvasBox)
    requires
        on_canvas(p),
    ensures
        final(canvas).strokes() == old(canvas).strokes().push(label_stroke(p, label@)),
{
    crate::grid::draw_label(p, label, &mut **canvas);
}

/// Writes `label` from the left edge of cell `p` on.
pub fn draw_text(p: Pos, label: &str, canvas: &mut CanvasBox)
    requires
        edge_on_canvas(p),
    ensures
        final(canvas).strokes() == old(canvas).strokes().push(text_stroke(p, label@)),
{
    crate::grid::draw_text(p, label, &mut **canvas);
}

/// Draws cell `p` as a box in `color` that holds the symbol `c`.
pub fn draw_char_box(p: Pos, c: u8, color: Color, canvas: &mut CanvasBox)
    requires
        on_canvas(p),
        c < 128,
    ensures
        final(canvas).strokes() == old(canvas).strokes() + char_box_strokes(p, c, color),
{
    crate::grid::draw_char_box(p, c, color, &mut **canvas);
}

/// Marks the area of `w` by `h` cells from `p` on with three frames in
/// `color`.
pub fn draw_highlight_box(p: Pos, w: usize, h: usize, color: Color, canvas: &mut CanvasBox)
    requires
        frames_on_canvas(p, w, h),
    ensures
        final(canvas).strokes() == old(canvas).strokes() + highlight_box_strokes(p, w, h, color),
{
    crate::grid::draw_highlight_box(p, w, h, color, &mut **canvas);
}

/// Marks cell `p` with three frames in `color`.
pub fn draw_highlight(p: Pos, color: Color, canvas: &mut CanvasBox)
    requires
        frames_on_canvas(p, 1, 1),
    ensures
        final(canvas).strokes() == old(canvas).strokes() + highlight_box_strokes(p, 1, 1, color),
{
    crate::grid::draw_highlight(p, color, &mut **canvas);
}

/// Draws the symbols of `s` as boxes side by side from `p` on, the `i`-th in
/// the colour that `color` gives for `i`.
pub fn draw_string<F: Fn(usize) -> Color>(p: Pos, s: &[u8], color: F, canvas: &mut CanvasBox)
    requires
        row_on_canvas(p, s@.len()),
        forall|i: int| 0 <= i < s@.len() ==> #[trigger] s@[i] < 128,
        forall|i: usize| i < s@.len() ==> call_requires(color, (i,)),
    ensures
        exists|colors: Seq<Color>|
            {
                &&& colors.len() == s@.len()
                &&& forall|i: int|
                    0 <= i < s@.len() ==> call_ensures(color, (i as usize,), #[trigger] colors[i])
                &&& final(canvas).strokes() == old(canvas).strokes() + string_strokes(
                    p,
                    s@,
                    colors,
                    s@.len(),
                )
            },
{
    crate::grid::draw_string(p, s, color, &mut **canvas);
}

/// The boxes of the first `k` symbols depend on the first `k` colours only.
pub proof fn lemma_string_strokes_prefix(
    p: Pos,
    s: Seq<u8>,
    a: Seq<Color>,
    b: Seq<Color>,
    k: nat,
)
    requires
        k <= a.len(),
        k <= b.len(),
        forall|i: int| 0 <= i < k ==> a[i] == b[i],
    ensures
        string_strokes(p, s, a, k) == string_strokes(p, s, b, k),
    decreases k,
{
    if k > 0 {
        lemma_string_strokes_prefix(p, s, a, b, (k - 1) as nat);
    }
}

/// Draws `s` as a row of boxes from `p` on, with the numbers of its places
/// above it, and the names of the two rows, "i" and "S", to their left.
pub fn draw_string_with_labels<F: Fn(usize) -> Color>(
    p: Pos,
    s: &[u8],
    color: F,
    canvas: &mut CanvasBox,
)
    requires
        p.0 >= 1,
        p.1 >= 1,
        on_canvas(Pos((p.0 - 1) as usize, p.1)),
        row_on_canvas(p, s@.len()),
        forall|i: int| 0 <= i < s@.len() ==> #[trigger] s@[i] < 128,
        forall|i: usize| i < s@.len() ==> call_requires(color, (i,)),
    ensures
        exists|colors: Seq<Color>|
            {
                &&& colors.len() == s@.len()
                &&& forall|i: int|
                    0 <= i < s@.len() ==> call_ensures(color, (i as usize,), #[trigger] colors[i])
                &&& final(canvas).strokes() == old(canvas).strokes() + labelled_string_strokes(
                    p,
                    s@,
                    colors,
                )
            },
{
    crate::grid::draw_string_with_labels(p, s, color, &mut **canvas);
}

} // verus!

use alg_viz::canvas::{
    canvas_size, draw_background, draw_char_box, draw_highlight, draw_highlight_box, draw_label,
    draw_string, draw_string_with_labels, draw_text, make_label, number_label, to_label, Backend,
    Canvas, CanvasBox, Color, Drawn, HAlign, Logged, Pos, Recorder, VAlign, BLACK, BLUE, CYAN,
    GREEN, RED, WHITE,
};
use alg_viz::grid;
use std::cell::RefCell;
use std::rc::Rc;

/// A backend that keeps what it is asked to draw where the test can see it.
struct Shared(Rc<RefCell<Vec<Drawn>>>);

impl Backend for Shared {
    fn fill_background(&mut self, color: Color) {
        self.0.borrow_mut().push(Drawn::Background(color));
    }
    fn fill_rect(&mut self, x: i32, y: i32, w: u32, h: u32, color: Color) {
        self.0.borrow_mut().push(Drawn::FillRect(x, y, w, h, color));
    }
    fn draw_rect(&mut self, x: i32, y: i32, w: u32, h: u32, color: Color) {
        self.0.borrow_mut().push(Drawn::DrawRect(x, y, w, h, color));
    }
    fn write_text(&mut self, x: i32, y: i32, ha: HAlign, va: VAlign, text: &str) {
        self.0.borrow_mut().push(Drawn::Text(x, y, ha, va, text.to_string()));
    }
    fn save(&mut self) {}
}

fn boxed() -> (Rc<RefCell<Vec<Drawn>>>, CanvasBox) {
    let log = Rc::new(RefCell::new(Vec::new()));
    let canvas: CanvasBox = Box::new(Logged::new(Shared(log.clone())));
    (log, canvas)
}

#[test]
fn labels_are_text() {
    assert_eq!(to_label(b'a'), "a");
    assert_eq!(to_label(b'$'), "$");
    assert_eq!(to_label(0), "\0");
    assert_eq!(to_label(127), "\x7f");
    assert_eq!(make_label("j=", 12), "j=12");
    assert_eq!(make_label("", "x"), "x");
    assert_eq!(number_label(0), "0");
    assert_eq!(number_label(7), "7");
    assert_eq!(number_label(10), "10");
    assert_eq!(number_label(1204), "1204");
    assert_eq!(number_label(usize::MAX), usize::MAX.to_string());
}

#[test]
fn colours() {
    assert_eq!(BLACK, (0, 0, 0));
    assert_eq!(WHITE, (255, 255, 255));
    assert_eq!(RED, (255, 0, 0));
    assert_eq!(GREEN, (0, 255, 0));
    assert_eq!(BLUE, (0, 0, 255));
    assert_eq!(CYAN, (0, 255, 255));
}

#[test]
fn positions_move_by_cells() {
    let p = Pos(3, 4);
    let l = p.left(2);
    assert_eq!((l.0, l.1), (1, 4));
    let l = p.left(3);
    assert_eq!((l.0, l.1), (0, 4));
    let r = p.right(5);
    assert_eq!((r.0, r.1), (8, 4));
    let u = p.up(4);
    assert_eq!((u.0, u.1), (3, 0));
    let d = p.down(1);
    assert_eq!((d.0, d.1), (3, 5));
    let same = p.left(0).right(0).up(0).down(0);
    assert_eq!((same.0, same.1), (3, 4));
    assert_eq!(canvas_size(4, 7), (120, 210));
    assert_eq!(canvas_size(0, 1), (0, 30));
}

#[test]
fn recorder_keeps_strokes_in_order() {
    let mut r = Recorder::new();
    assert_eq!(r.drawn, vec![]);
    r.fill_background(WHITE);
    r.fill_rect(1, 2, 3, 4, RED);
    r.draw_rect(5, 6, 7, 8, BLUE);
    r.write_text(9, 10, HAlign::Left, VAlign::Top, "x");
    r.save();
    r.present();
    assert_eq!(
        r.drawn,
        vec![
            Drawn::Background(WHITE),
            Drawn::FillRect(1, 2, 3, 4, RED),
            Drawn::DrawRect(5, 6, 7, 8, BLUE),
            Drawn::Text(9, 10, HAlign::Left, VAlign::Top, "x".to_string()),
        ]
    );
}

#[test]
fn boxed_canvas_draws_what_the_grid_draws() {
    let (log, mut c) = boxed();
    let mut r = Recorder::new();
    draw_background(&mut c);
    grid::draw_background(&mut r);
    draw_label(Pos(1, 2), "j", &mut c);
    grid::draw_label(Pos(1, 2), "j", &mut r);
    draw_text(Pos(1, 2), "text", &mut c);
    grid::draw_text(Pos(1, 2), "text", &mut r);
    draw_char_box(Pos(0, 0), b'a', GREEN, &mut c);
    grid::draw_char_box(Pos(0, 0), b'a', GREEN, &mut r);
    draw_highlight(Pos(2, 2), BLACK, &mut c);
    grid::draw_highlight(Pos(2, 2), BLACK, &mut r);
    draw_highlight_box(Pos(2, 2), 0, 3, BLACK, &mut c);
    grid::draw_highlight_box(Pos(2, 2), 0, 3, BLACK, &mut r);
    draw_string(Pos(1, 1), b"ab", |i| if i == 1 { RED } else { CYAN }, &mut c);
    grid::draw_string(Pos(1, 1), b"ab", |i| if i == 1 { RED } else { CYAN }, &mut r);
    draw_string_with_labels(Pos(1, 1), b"ab", |_| RED, &mut c);
    grid::draw_string_with_labels(Pos(1, 1), b"ab", |_| RED, &mut r);
    assert_eq!(*log.borrow(), r.drawn);
    assert_eq!(r.drawn.len(), 1 + 1 + 1 + 3 + 3 + 3 + 6 + 10);
    assert_eq!(r.drawn[1], Drawn::Text(45, 75, HAlign::Center, VAlign::Center, "j".to_string()));
    assert_eq!(r.drawn[3], Drawn::FillRect(0, 0, 30, 30, GREEN));
    assert_eq!(r.drawn[15], Drawn::FillRect(60, 30, 30, 30, RED));
}

use alg_viz::canvas::{Canvas, Drawn, HAlign, Logged, Pos, Recorder, VAlign, BLACK, BLUE, GREEN, RED, WHITE};
use alg_viz::grid;

fn text(x: i32, y: i32, t: &str) -> Drawn {
    Drawn::Text(x, y, HAlign::Center, VAlign::Center, t.to_string())
}

#[test]
fn grid_labels_and_text() {
    let mut c = Recorder::new();
    grid::draw_background(&mut c);
    grid::draw_label(Pos(2, 3), "j", &mut c);
    grid::draw_text(Pos(2, 3), "Input string S.", &mut c);
    grid::draw_label(Pos(0, 0), "", &mut c);
    assert_eq!(
        c.drawn,
        vec![
            Drawn::Background(WHITE),
            text(75, 105, "j"),
            Drawn::Text(60, 105, HAlign::Left, VAlign::Center, "Input string S.".to_string()),
            text(15, 15, ""),
        ]
    );
    assert_eq!(grid::canvas_size(4, 7), (120u32, 210u32));
    assert_eq!(grid::canvas_size(0, 0), (0u32, 0u32));
    assert_eq!(grid::to_label(b'x'), "x");
    assert_eq!(grid::make_label("t=", 'c'), "t=c");
    let p = grid::Pos(1, 1).right(2).down(3);
    assert_eq!((p.0, p.1), (3, 4));
}

#[test]
fn grid_char_box() {
    let mut c = Recorder::new();
    grid::draw_char_box(Pos(1, 2), b'$', GREEN, &mut c);
    assert_eq!(
        c.drawn,
        vec![
            Drawn::FillRect(30, 60, 30, 30, GREEN),
            Drawn::DrawRect(30, 60, 30, 30, BLACK),
            text(45, 75, "$"),
        ]
    );
}

#[test]
fn grid_highlight_boxes() {
    // a cell: three frames inside its border
    let mut c = Recorder::new();
    grid::draw_highlight(Pos(2, 1), RED, &mut c);
    assert_eq!(
        c.drawn,
        vec![
            Drawn::DrawRect(61, 31, 28, 28, RED),
            Drawn::DrawRect(62, 32, 26, 26, RED),
            Drawn::DrawRect(63, 33, 24, 24, RED),
        ]
    );
    // an area of 2 by 3 cells
    let mut c = Recorder::new();
    grid::draw_highlight_box(Pos(2, 1), 2, 3, BLUE, &mut c);
    assert_eq!(
        c.drawn,
        vec![
            Drawn::DrawRect(61, 31, 58, 88, BLUE),
            Drawn::DrawRect(62, 32, 56, 86, BLUE),
            Drawn::DrawRect(63, 33, 54, 84, BLUE),
        ]
    );
    // no width: a line down the left edge
    let mut c = Recorder::new();
    grid::draw_highlight_box(Pos(2, 1), 0, 3, BLUE, &mut c);
    assert_eq!(
        c.drawn,
        vec![
            Drawn::DrawRect(60, 30, 0, 90, BLUE),
            Drawn::DrawRect(59, 30, 2, 90, BLUE),
            Drawn::DrawRect(58, 30, 4, 90, BLUE),
        ]
    );
    // no height: a line along the upper edge
    let mut c = Recorder::new();
    grid::draw_highlight_box(Pos(2, 1), 3, 0, BLACK, &mut c);
    assert_eq!(
        c.drawn,
        vec![
            Drawn::DrawRect(60, 30, 90, 0, BLACK),
            Drawn::DrawRect(60, 29, 90, 2, BLACK),
            Drawn::DrawRect(60, 28, 90, 4, BLACK),
        ]
    );
    // neither: width decides
    let mut c = Recorder::new();
    grid::draw_highlight_box(Pos(0, 0), 0, 0, BLACK, &mut c);
    assert_eq!(
        c.drawn,
        vec![
            Drawn::DrawRect(0, 0, 0, 0, BLACK),
            Drawn::DrawRect(-1, 0, 2, 0, BLACK),
            Drawn::DrawRect(-2, 0, 4, 0, BLACK),
        ]
    );
}

#[test]
fn grid_strings() {
    let mut c = Recorder::new();
    grid::draw_string(Pos(1, 1), b"ab", |i| if i == 0 { RED } else { BLUE }, &mut c);
    let boxes = vec![
        Drawn::FillRect(30, 30, 30, 30, RED),
        Drawn::DrawRect(30, 30, 30, 30, BLACK),
        text(45, 45, "a"),
        Drawn::FillRect(60, 30, 30, 30, BLUE),
        Drawn::DrawRect(60, 30, 30, 30, BLACK),
        text(75, 45, "b"),
    ];
    assert_eq!(c.drawn, boxes);
    let mut c = Recorder::new();
    grid::draw_string(Pos(1, 1), b"", |_| RED, &mut c);
    assert_eq!(c.drawn, vec![]);
    let mut c = Recorder::new();
    grid::draw_string_with_labels(Pos(1, 1), b"ab", |i| if i == 0 { RED } else { BLUE }, &mut c);
    let mut expected = vec![text(15, 15, "i"), text(45, 15, "0"), text(75, 15, "1"), text(15, 45, "S")];
    expected.extend(boxes);
    assert_eq!(c.drawn, expected);
    // twelve symbols: the numbers of the places have two digits
    let mut c = Recorder::new();
    grid::draw_string_with_labels(Pos(1, 1), b"abcdefghijkl", |_| WHITE, &mut c);
    assert_eq!(c.drawn[11], text(345, 15, "10"));
    assert_eq!(c.drawn[12], text(375, 15, "11"));
    assert_eq!(c.drawn.len(), 1 + 12 + 1 + 36);
}

#[test]
fn grid_last_cells() {
    // the last column and row that pixel coordinates reach: 30 * 71582788
    // is 2147483640, and 7 pixels more is the largest coordinate
    let mut c = Recorder::new();
    grid::draw_text(Pos(71582788, 71582787), "end", &mut c);
    grid::draw_label(Pos(71582787, 0), "j", &mut c);
    grid::draw_highlight(Pos(71582788, 0), RED, &mut c);
    grid::draw_highlight_box(Pos(71582788, 71582788), 0, 1, RED, &mut c);
    assert_eq!(
        c.drawn,
        vec![
            Drawn::Text(2147483640, 2147483625, HAlign::Left, VAlign::Center, "end".to_string()),
            text(2147483625, 15, "j"),
            Drawn::DrawRect(2147483641, 1, 28, 28, RED),
            Drawn::DrawRect(2147483642, 2, 26, 26, RED),
            Drawn::DrawRect(2147483643, 3, 24, 24, RED),
            Drawn::DrawRect(2147483640, 2147483640, 0, 30, RED),
            Drawn::DrawRect(2147483639, 2147483640, 2, 30, RED),
            Drawn::DrawRect(2147483638, 2147483640, 4, 30, RED),
        ]
    );
    // a string may end in the last column that holds a label
    let mut c = Recorder::new();
    grid::draw_string(Pos(71582786, 0), b"ab", |_| WHITE, &mut c);
    assert_eq!(c.drawn.len(), 6);
    assert_eq!(c.drawn[3], Drawn::FillRect(2147483610, 0, 30, 30, WHITE));
    assert_eq!(c.drawn[5], text(2147483625, 15, "b"));
    // and a string without symbols draws nothing, wherever it stands
    let mut c = Recorder::new();
    grid::draw_string(Pos(usize::MAX, usize::MAX), b"", |_| WHITE, &mut c);
    assert_eq!(c.drawn, vec![]);
    let mut c = Recorder::new();
    grid::draw_string_with_labels(Pos(71582788, 1), b"", |_| WHITE, &mut c);
    assert_eq!(c.drawn, vec![text(2147483625, 15, "i"), text(2147483625, 45, "S")]);
}

#[test]
fn logged_backend_gets_every_call() {
    struct Count(usize);
    impl alg_viz::canvas::Backend for Count {
        fn fill_background(&mut self, _: alg_viz::canvas::Color) {
            self.0 += 1;
        }
        fn fill_rect(&mut self, _: i32, _: i32, _: u32, _: u32, _: alg_viz::canvas::Color) {
            self.0 += 10;
        }
        fn draw_rect(&mut self, _: i32, _: i32, _: u32, _: u32, _: alg_viz::canvas::Color) {
            self.0 += 100;
        }
        fn write_text(&mut self, _: i32, _: i32, _: HAlign, _: VAlign, _: &str) {
            self.0 += 1000;
        }
        fn save(&mut self) {
            self.0 += 10000;
        }
        fn present(&mut self) {
            self.0 += 100000;
        }
    }
    let mut c = Logged::new(Count(0));
    grid::draw_background(&mut c);
    grid::draw_char_box(Pos(0, 0), b'a', RED, &mut c);
    grid::draw_highlight(Pos(0, 0), RED, &mut c);
    c.save();
    c.present();
    c.present();
    assert_eq!(c.into_inner().0, 211411);
}

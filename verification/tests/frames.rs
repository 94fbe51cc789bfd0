use alg_viz::alg::Viz;
use alg_viz::bibwt::BiBWT;
use alg_viz::bwt::{self, BWT};
use alg_viz::canvas::{Backend, CanvasBox, Color, HAlign, Logged, VAlign};
use alg_viz::suffix_array::{RowState, State, SA};
use std::cell::RefCell;
use std::rc::Rc;

/// A backend that writes down what it is asked to draw.
struct Probe(Rc<RefCell<Vec<String>>>);

impl Backend for Probe {
    fn fill_background(&mut self, color: Color) {
        self.0.borrow_mut().push(format!("background {color:?}"));
    }
    fn fill_rect(&mut self, x: i32, y: i32, w: u32, h: u32, color: Color) {
        self.0.borrow_mut().push(format!("fill {x} {y} {w} {h} {color:?}"));
    }
    fn draw_rect(&mut self, x: i32, y: i32, w: u32, h: u32, color: Color) {
        self.0.borrow_mut().push(format!("rect {x} {y} {w} {h} {color:?}"));
    }
    fn write_text(&mut self, x: i32, y: i32, ha: HAlign, va: VAlign, text: &str) {
        self.0.borrow_mut().push(format!("text {x} {y} {ha:?} {va:?} {text}"));
    }
    fn save(&mut self) {}
}

fn probe() -> (Rc<RefCell<Vec<String>>>, CanvasBox) {
    let log = Rc::new(RefCell::new(Vec::new()));
    let canvas: CanvasBox = Box::new(Logged::new(Probe(log.clone())));
    (log, canvas)
}

/// Draws every state and gives, for each, whether it is shown and what was
/// drawn.
fn all_frames(viz: &dyn Viz) -> Vec<(bool, Vec<String>)> {
    let mut frames = Vec::new();
    for state in 0..viz.num_states() {
        let (log, mut canvas) = probe();
        let shown = viz.draw(state, &mut canvas);
        let drawn = log.borrow().clone();
        assert_eq!(drawn[0], "background (255, 255, 255)");
        frames.push((shown, drawn));
    }
    frames
}

fn last_text(frame: &[String]) -> String {
    let line = frame.iter().rev().find(|l| l.starts_with("text ")).unwrap();
    line.splitn(6, ' ').nth(5).unwrap().to_string()
}

#[test]
fn suffix_array_frames() {
    let sa = SA::new(b"banana$".to_vec()).unwrap();
    assert!(sa.fits());
    assert_eq!(sa.canvas_size(), (11, 11));
    assert_eq!(sa.num_states(), 23);
    assert_eq!(sa.states()[0], State::Init);
    assert_eq!(sa.states()[1], State::Row(0, RowState::Step0));
    assert_eq!(sa.states()[6], State::Row(1, RowState::Step2));
    assert_eq!(sa.states()[22], State::End);
    let frames = all_frames(&sa);
    // the text with its labels comes first: "i", the places, "S", the boxes
    assert_eq!(frames[0].1[1], "text 75 15 Center Center i");
    assert_eq!(frames[0].1[2], "text 105 15 Center Center 0");
    assert_eq!(frames[0].1[9], "text 75 45 Center Center S");
    assert_eq!(frames[0].1[10], "fill 90 30 30 30 (244, 113, 116)");
    assert_eq!(frames[0].1[12], "text 105 45 Center Center b");
    // ana$ sorts before na$: it is small, its box is green; a$ is not
    assert_eq!(frames[0].1[19], "fill 180 30 30 30 (0, 255, 0)");
    assert_eq!(frames[0].1[25], "fill 240 30 30 30 (244, 113, 116)");
    // rows whose suffix starts the text or has a small predecessor are
    // passed over in their second and third step; the suffix array is
    // 6 5 3 1 0 4 2, and the small suffixes are 6 ($), 3 (ana$), 1 (anana$)
    let shown: Vec<bool> = frames.iter().map(|f| f.0).collect();
    let mut expected = vec![true];
    for row in 0..7 {
        // rows 0 to 3 hold 6, 5, 3, 1, whose predecessors are not small;
        // row 4 holds 0, and rows 5 and 6 hold 4 and 2, before which the
        // small suffixes ana$ and anana$ start
        let puts_one = [true, true, true, true, false, false, false][row];
        expected.extend([true, puts_one, puts_one]);
    }
    expected.push(true);
    assert_eq!(shown, expected);
}

#[test]
fn last_frame_holds_the_suffix_array() {
    let sa = SA::new(b"banana$".to_vec()).unwrap();
    let last = sa.num_states() - 1;
    assert_eq!(last, 3 * 7 + 1);
    let (log, mut canvas) = probe();
    assert!(sa.draw(last, &mut canvas));
    let drawn = log.borrow().clone();
    // row j holds the j-th entry in the middle of the cell in column 1
    let entries = ["6", "5", "3", "1", "0", "4", "2"];
    for (j, entry) in entries.iter().enumerate() {
        assert!(drawn.contains(&format!("text 45 {} Center Center {entry}", 105 + 30 * j)));
    }
    // and nothing else is written in that column but its name
    let column: Vec<&String> = drawn.iter().filter(|l| l.starts_with("text 45 ")).collect();
    assert_eq!(column.len(), 8);
    assert_eq!(column[0], "text 45 75 Center Center SA");
}

#[test]
fn suffix_array_rows_fill_in() {
    let sa = SA::new(b"banana$".to_vec()).unwrap();
    // at the start only the small suffixes stand: $, ana$, anana$
    let (rows, _) = sa.rows_in(State::Init);
    assert_eq!(rows, vec![Some(6), None, Some(3), Some(1), None, None, None]);
    // row 0 holds $, whose predecessor a$ is put into the first free row of a
    let (rows, new_j) = sa.rows_in(State::Row(0, RowState::Step2));
    assert_eq!(rows, vec![Some(6), Some(5), Some(3), Some(1), None, None, None]);
    assert_eq!(new_j, 1);
    // in the first two steps of the row it is not shown yet
    let (rows, new_j) = sa.rows_in(State::Row(0, RowState::Step0));
    assert_eq!(rows, vec![Some(6), None, Some(3), Some(1), None, None, None]);
    assert_eq!(new_j, 1);
    let (rows, new_j) = sa.rows_in(State::Row(1, RowState::Step2));
    assert_eq!(rows, vec![Some(6), Some(5), Some(3), Some(1), None, Some(4), None]);
    assert_eq!(new_j, 5);
    let (rows, _) = sa.rows_in(State::Row(3, RowState::Step2));
    assert_eq!(rows, vec![Some(6), Some(5), Some(3), Some(1), Some(0), Some(4), Some(2)]);
    let (rows, _) = sa.rows_in(State::End);
    assert_eq!(rows, vec![Some(6), Some(5), Some(3), Some(1), Some(0), Some(4), Some(2)]);
}

#[test]
fn induction_gives_the_suffix_array() {
    for text in [&b"banana$"[..], b"mississippi$", b"aaaa$", b"GTCCCGATGTCATGTCAGGA$", b"$"] {
        let sa = SA::new(text.to_vec()).unwrap();
        let n = text.len();
        let (rows, _) = alg_viz::induce::induce(text, sa.suffix_array(), n);
        let filled: Vec<usize> = rows.into_iter().map(|r| r.unwrap()).collect();
        assert_eq!(&filled, sa.suffix_array());
    }
}

#[test]
fn index_frames() {
    let index = BWT::new(b"banana$".to_vec(), b"ana".to_vec()).unwrap();
    assert!(index.fits());
    // 7 symbols, 4 of them different
    assert_eq!(index.canvas_size(), ((7 + 7 + 4) * 30, (7 + 8) * 30));
    // 4 + 3 occurrences of a + 4 symbols + 1 + 4 symbols + 1 + 4 query steps
    assert_eq!(index.num_states(), 21);
    assert_eq!(index.states()[4], bwt::State::LfMap(0));
    assert_eq!(index.states()[20], bwt::State::Query(3));
    let frames = all_frames(&index);
    assert!(frames.iter().all(|f| f.0));
    let captions: Vec<String> = frames.iter().map(|f| last_text(&f.1)).collect();
    assert_eq!(captions[0], "Input string S.");
    assert_eq!(captions[1], "Write down rotations of S.");
    assert_eq!(captions[2], "Sort rotations via the suffix array of S.");
    assert_eq!(captions[3], "Store the first and last column.");
    assert_eq!(captions[4], "For each char, L and F are sorted the same.");
    assert_eq!(captions[7], "Count number of smaller characters for each c");
    assert_eq!(captions[11], "Count number of smaller characters for each c");
    assert_eq!(captions[12], "Count number of occurrences of c in L at pos < j");
    assert_eq!(captions[17], "Initialize the query range as the full text");
    assert_eq!(captions[18], "Update s[i-1] = C[c] + Occ[c][s[i]]");
    // the most frequent symbol is a, its rows are 1..4: a box of 2 by 3 cells
    assert!(frames[4].1.contains(&"rect 91 121 58 88 (255, 0, 0)".to_string()));
    // the ranges of "", "a", "na", "ana"
    assert_eq!(index.query_range(0), (0, 7));
    assert_eq!(index.query_range(1), (1, 4));
    assert_eq!(index.query_range(2), (5, 7));
    assert_eq!(index.query_range(3), (2, 4));
}

#[test]
fn index_refuses_what_does_not_fit() {
    // a query symbol that is no ASCII
    assert!(!BWT::new(b"banana$".to_vec(), vec![200]).unwrap().fits());
    // a query symbol that the text does not hold is no reason to refuse
    assert!(BWT::new(b"banana$".to_vec(), b"x".to_vec()).unwrap().fits());
    // a query longer than the text
    assert!(!BWT::new(b"ab$".to_vec(), b"abab".to_vec()).unwrap().fits());
    // a symbol that is no ASCII
    assert!(!BWT::new(vec![200, 201, 36], vec![]).unwrap().fits());
    assert!(!SA::new(vec![200, 201, 36]).unwrap().fits());
    // a text of the sentinel alone
    assert!(!BWT::new(b"$".to_vec(), vec![]).unwrap().fits());
    assert!(SA::new(b"$".to_vec()).unwrap().fits());
    assert!(!BiBWT::new(b"banana$".to_vec(), b"anananananana".to_vec()).unwrap().fits());
    assert!(BiBWT::new(b"banana$".to_vec(), b"xyz".to_vec()).unwrap().fits());
}

#[test]
fn index_draws_a_symbol_that_the_text_lacks() {
    let index = BWT::new(b"banana$".to_vec(), b"xyz".to_vec()).unwrap();
    assert!(index.fits());
    assert_eq!(index.num_states(), 21);
    assert_eq!(index.states()[17], bwt::State::Query(0));
    let frames = all_frames(&index);
    assert!(frames.iter().all(|f| f.0));
    // z sorts behind every row: the range is empty from the first step on
    assert_eq!(index.query_range(0), (0, 7));
    assert_eq!(index.query_range(1), (7, 7));
    assert_eq!(index.query_range(3), (7, 7));
    // the frame of the whole range names the next symbol and marks the rows
    // of the range in the last column, rows 0..7 of column 13
    let first = &frames[17].1;
    assert_eq!(last_text(first), "Initialize the query range as the full text");
    assert!(first.iter().any(|l| l.ends_with("Center Center c")));
    assert!(first.contains(&"text 285 315 Center Center c".to_string()));
    assert!(first.contains(&"rect 271 91 28 208 (0, 0, 255)".to_string()));
    // but no entry of the tables, since z has no column there
    assert!(!first.iter().any(|l| l.ends_with("Center Center +")));
    // with a symbol of the text the entry of the C-array is marked
    let known = BWT::new(b"banana$".to_vec(), b"xya".to_vec()).unwrap();
    let with_entry = &all_frames(&known)[17].1;
    assert!(with_entry.iter().any(|l| l.ends_with("Center Center +")));
    assert_eq!(with_entry.len(), first.len() + 3 + 1 + 3 + 3);
    // the empty range is named by one label, in row 7
    let second = &frames[18].1;
    assert!(second.contains(&"text 75 315 Center Center s/t".to_string()));
    assert_eq!(last_text(second), "Update s[i-1] = C[c] + Occ[c][s[i]]");
}

#[test]
fn bidirectional_shows_ranges_of_one_size() {
    // "nan" is matched from its middle: "a", then "na", then "nan"
    let index = BiBWT::new(b"banana$".to_vec(), b"nan".to_vec()).unwrap();
    let frames = all_frames(&index);
    // the last step of the extension of "a" by n on the left: on the side
    // of the text the range is 5..7
    let frame = &frames[28].1;
    assert_eq!(last_text(frame), "Add #{\u{2264}c} to current start");
    assert!(frame.contains(&"text 105 405 Center Center 5".to_string()));
    assert!(frame.contains(&"text 105 435 Center Center 7".to_string()));
    // on the other side the old range 1..4 holds one row with a smaller
    // symbol and two with n: the new range is 2..4
    assert!(frame.contains(&"text 285 405 Center Center 2".to_string()));
    assert!(frame.contains(&"text 285 435 Center Center 4".to_string()));
    assert!(!frame.contains(&"text 285 435 Center Center 7".to_string()));
    // the frame before it shows the start only
    assert!(frames[27].1.contains(&"text 285 405 Center Center 2".to_string()));
    assert!(!frames[27].1.iter().any(|l| l.starts_with("text 285 435 ")));
    // a scan of the rows finds the same two ranges for "na"
    let ranges = index.query_ranges(b"na");
    assert_eq!(ranges, (5..7, 2..4));
}

#[test]
fn bidirectional_frames() {
    for query in [&b"ana"[..], b"nanab", b"", b"a", b"xa", b"banana$"] {
        let index = BiBWT::new(b"banana$".to_vec(), query.to_vec()).unwrap();
        assert!(index.fits());
        assert_eq!(index.canvas_size(), ((7 + 12 + 8) * 30, (7 + 9) * 30));
        let frames = all_frames(&index);
        assert_eq!(frames.len(), index.states().len());
        assert!(frames.iter().all(|f| f.0));
        assert_eq!(last_text(&frames[0].1), "Input string S.");
        assert_eq!(last_text(&frames[1].1), "Forward suffix array");
        assert_eq!(last_text(&frames[4].1), "Reverse suffix array");
        assert_eq!(last_text(&frames[7].1), "Forward & Reverse suffix array");
        assert_eq!(last_text(&frames[15].1), "Ready for querying");
    }
    let index = BiBWT::new(b"banana$".to_vec(), b"ana".to_vec()).unwrap();
    let frames = all_frames(&index);
    let captions: Vec<String> = frames.iter().map(|f| last_text(&f.1)).collect();
    // the query is matched from its middle: "n" first, then "an", then "ana"
    assert_eq!(captions[16], "Start with the range of the first character");
    assert_eq!(captions[17], "Extend query on the left");
    assert_eq!(captions[19], "Fwd: matches in L correspond to matches in F");
    assert_eq!(captions[28], "Add #{\u{2264}c} to current start");
    assert_eq!(captions[29], "Matching done");
    assert_eq!(captions[30], "Extend query on the right");
    assert_eq!(captions[32], "Rev: matches in Lr correspond to matches in Fr");
    assert_eq!(captions[42], "Matching done");
    // the range of "n" is rows 5..7 on the side of the text
    assert!(frames[16].1.contains(&"text 135 405 Center Center 5".to_string()));
    assert!(frames[16].1.contains(&"text 135 435 Center Center 7".to_string()));
}

#[test]
fn whole_frames_of_a_short_text() {
    // "a$": a is not small, $ is; the suffix array is 1 0
    let sa = SA::new(b"a$".to_vec()).unwrap();
    let frames = all_frames(&sa);
    let head = vec![
        "background (255, 255, 255)",
        "text 75 15 Center Center i",
        "text 105 15 Center Center 0",
        "text 135 15 Center Center 1",
        "text 75 45 Center Center S",
        "fill 90 30 30 30 (244, 113, 116)",
        "rect 90 30 30 30 (0, 0, 0)",
        "text 105 45 Center Center a",
        "fill 120 30 30 30 (0, 255, 0)",
        "rect 120 30 30 30 (0, 0, 0)",
        "text 135 45 Center Center $",
        "text 15 75 Center Center j",
        "text 45 75 Center Center SA",
    ];
    let row0 = vec![
        "text 15 105 Center Center 0",
        "text 45 105 Center Center 1",
        "fill 90 90 30 30 (0, 255, 0)",
        "rect 90 90 30 30 (0, 0, 0)",
        "text 105 105 Center Center $",
    ];
    let row1_empty = vec![
        "text 15 135 Center Center 1",
        "text 45 135 Center Center -",
        "fill 90 120 30 30 (244, 113, 116)",
        "rect 90 120 30 30 (0, 0, 0)",
        "text 105 135 Center Center a",
    ];
    let row1 = vec![
        "text 15 135 Center Center 1",
        "text 45 135 Center Center 0",
        "fill 90 120 30 30 (244, 113, 116)",
        "rect 90 120 30 30 (0, 0, 0)",
        "text 105 135 Center Center a",
        "fill 120 120 30 30 (0, 255, 0)",
        "rect 120 120 30 30 (0, 0, 0)",
        "text 135 135 Center Center $",
    ];
    let mark = |x: i32, y: i32, c: &str| -> Vec<String> {
        (1..=3).map(|m| format!("rect {} {} {} {} {c}", x + m, y + m, 30 - 2 * m, 30 - 2 * m)).collect()
    };
    let join = |parts: &[&[&str]]| -> Vec<String> {
        parts.iter().flat_map(|p| p.iter().map(|s| s.to_string())).collect()
    };
    // at the start only $ stands
    assert_eq!(frames[0].1, join(&[&head, &row0, &row1_empty]));
    // first step of row 0: what it puts in place is not shown yet; the row
    // and the place of $ are marked in red, the place before it in blue
    let mut expected = join(&[&head, &row0, &row1_empty]);
    expected.extend(mark(30, 90, "(255, 0, 0)"));
    expected.extend(mark(120, 0, "(255, 0, 0)"));
    expected.extend(mark(90, 0, "(0, 0, 255)"));
    assert_eq!(frames[1].1, expected);
    // second step: the symbol before $ and the row that a$ goes to
    expected.extend(mark(90, 30, "(0, 0, 255)"));
    expected.extend(mark(30, 120, "(0, 0, 255)"));
    assert_eq!(frames[2].1, expected);
    // third step: a$ stands in row 1
    let mut expected = join(&[&head, &row0, &row1]);
    expected.extend(mark(30, 90, "(255, 0, 0)"));
    expected.extend(mark(120, 0, "(255, 0, 0)"));
    expected.extend(mark(90, 0, "(0, 0, 255)"));
    expected.extend(mark(90, 30, "(0, 0, 255)"));
    expected.extend(mark(30, 120, "(0, 0, 255)"));
    assert_eq!(frames[3].1, expected);
    // the end: all rows, nothing marked
    assert_eq!(frames[7].1, join(&[&head, &row0, &row1]));

    // the index of "a$": the first frame is the text and what it is
    let index = BWT::build(b"a$".to_vec()).unwrap();
    let frames = all_frames(&index);
    let grey = "(240, 240, 240)";
    let text = vec![
        "background (255, 255, 255)".to_string(),
        "text 75 15 Center Center i".to_string(),
        "text 105 15 Center Center 0".to_string(),
        "text 135 15 Center Center 1".to_string(),
        "text 75 45 Center Center S".to_string(),
        format!("fill 90 30 30 30 {grey}"),
        "rect 90 30 30 30 (0, 0, 0)".to_string(),
        "text 105 45 Center Center a".to_string(),
        "fill 120 30 30 30 (0, 255, 0)".to_string(),
        "rect 120 30 30 30 (0, 0, 0)".to_string(),
        "text 135 45 Center Center $".to_string(),
    ];
    let mut expected = text.clone();
    expected.push("text 150 75 Left Center Input string S.".to_string());
    assert_eq!(frames[0].1, expected);
    // the rotations a$ and $a, one per row
    let mut expected = text.clone();
    expected.extend([
        "text 15 75 Center Center j".to_string(),
        "text 45 75 Center Center A".to_string(),
        "text 15 105 Center Center 0".to_string(),
        format!("fill 90 90 30 30 {grey}"),
        "rect 90 90 30 30 (0, 0, 0)".to_string(),
        "text 105 105 Center Center a".to_string(),
        "fill 120 90 30 30 (0, 255, 0)".to_string(),
        "rect 120 90 30 30 (0, 0, 0)".to_string(),
        "text 135 105 Center Center $".to_string(),
        "text 15 135 Center Center 1".to_string(),
        "fill 90 120 30 30 (0, 255, 0)".to_string(),
        "rect 90 120 30 30 (0, 0, 0)".to_string(),
        "text 105 135 Center Center $".to_string(),
        format!("fill 120 120 30 30 {grey}"),
        "rect 120 120 30 30 (0, 0, 0)".to_string(),
        "text 135 135 Center Center a".to_string(),
        "text 150 75 Left Center Write down rotations of S.".to_string(),
    ]);
    assert_eq!(frames[1].1, expected);
}

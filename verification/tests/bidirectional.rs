use alg_viz::bibwt::{states, BiBWT, BiState, Phase, QueryStep, State};
use alg_viz::bwt::BWT;

fn cyclic_count(text: &[u8], p: &[u8]) -> usize {
    let n = text.len();
    (0..n).filter(|&i| (0..p.len()).all(|k| text[(i + k) % n] == p[k])).count()
}

fn plain_count(text: &[u8], p: &[u8]) -> usize {
    let n = text.len();
    (0..n).filter(|&i| i + p.len() <= n && &text[i..i + p.len()] == p).count()
}

/// Assembles `p` from the symbol at `start`, going left where the bit of
/// `choice` for the step is set and there is something left on the left.
fn assemble(index: &BiBWT, p: &[u8], start: usize, choice: u32) -> BiState {
    let mut state = index.initial_state();
    let (mut lo, mut hi) = (start, start);
    let mut step = 0;
    while lo > 0 || hi < p.len() {
        let left = hi == p.len() || (lo > 0 && (choice >> step) & 1 == 1);
        if left {
            lo -= 1;
            state = index.extend_left(&state, p[lo]);
        } else {
            state = index.extend_right(&state, p[hi]);
            hi += 1;
        }
        assert_eq!(state.t - state.s, state.tr - state.sr);
        assert_eq!(state.range_size(), cyclic_count(index.text(), &p[lo..hi]));
        assert_eq!(state.matched_pattern().as_slice(), &p[lo..hi]);
        step += 1;
    }
    state
}

#[test]
fn banana_left_right_left() {
    let index = BiBWT::build(b"banana$".to_vec()).unwrap();
    let single = BWT::build(b"banana$".to_vec()).unwrap();
    let s0 = index.initial_state();
    assert_eq!((s0.s, s0.t, s0.sr, s0.tr), (0, 7, 0, 7));
    assert_eq!(s0.phase(), Phase::Unconstrained);
    let s1 = index.extend_left(&s0, b'a');
    assert_eq!((s1.s, s1.t), (1, 4));
    assert_eq!(s1.range_size(), 3);
    let s2 = index.extend_right(&s1, b'n');
    assert_eq!(s2.matched_pattern().as_slice(), b"an");
    assert_eq!((s2.s, s2.t), (2, 4));
    let s3 = index.extend_left(&s2, b'n');
    assert_eq!(s3.matched_pattern().as_slice(), b"nan");
    assert_eq!(s3.phase(), Phase::Matching);
    assert_eq!((s3.s, s3.t), single.search(b"nan"));
    assert_eq!(s3.range_size(), single.count(b"nan"));
    assert_eq!(s3.range_size(), 1);
    assert_eq!(single.locate(b"nan"), vec![2]);
    assert_eq!(s3.tr - s3.sr, 1);
}

#[test]
fn every_order_gives_the_same_range() {
    for text in [&b"banana$"[..], b"mississippi$", b"aaaaaa$", b"abcabcabc$", b"GTCCCGATGTCATGTCAGGA$"] {
        let index = BiBWT::build(text.to_vec()).unwrap();
        let single = BWT::build(text.to_vec()).unwrap();
        for from in 0..text.len() - 1 {
            for len in 1..=4usize.min(text.len() - 1 - from) {
                let p = &text[from..from + len];
                for start in 0..=len {
                    for choice in 0..(1u32 << len) {
                        let state = assemble(&index, p, start, choice);
                        assert_eq!(state.range_size(), single.count(p));
                        assert_eq!((state.s, state.t), single.search(p));
                        assert_eq!(state.range_size(), plain_count(text, p));
                    }
                }
            }
        }
    }
}

#[test]
fn empty_state_is_terminal() {
    let index = BiBWT::build(b"banana$".to_vec()).unwrap();
    let s0 = index.initial_state();
    let s1 = index.extend_right(&s0, b'x');
    assert_eq!(s1.phase(), Phase::Empty);
    assert_eq!((s1.s, s1.t, s1.sr, s1.tr), (0, 0, 0, 0));
    assert_eq!(s1.matched_pattern().as_slice(), b"x");
    let s2 = index.extend_left(&s1, b'a');
    assert_eq!(s2.phase(), Phase::Empty);
    assert_eq!(s2.range_size(), 0);
    let s3 = index.extend_right(&index.extend_left(&s0, b'b'), b'b');
    assert_eq!(s3.phase(), Phase::Empty);
    assert_eq!(index.extend_right(&s3, b'a').phase(), Phase::Empty);
}

#[test]
fn reverse_range_follows_the_formula() {
    // banana$: last column of the sorted rotations is "annb$aa"
    let index = BiBWT::build(b"banana$".to_vec()).unwrap();
    assert_eq!(index.suffix_array(), &vec![6, 5, 3, 1, 0, 4, 2]);
    assert_eq!(index.reverse_suffix_array(), &vec![7, 2, 4, 6, 1, 3, 5]);
    let a = index.extend_left(&index.initial_state(), b'a');
    assert_eq!((a.s, a.t, a.sr, a.tr), (1, 4, 1, 4));
    // before the rows of "a" stand n, n, b: one smaller than n
    let na = index.extend_left(&a, b'n');
    assert_eq!((na.s, na.t), (5, 7));
    assert_eq!((na.sr, na.tr), (2, 4));
    let ba = index.extend_left(&a, b'b');
    assert_eq!((ba.s, ba.t), (4, 5));
    assert_eq!((ba.sr, ba.tr), (1, 2));
}

#[test]
fn scan_agrees_with_extension() {
    let index = BiBWT::new(b"banana$".to_vec(), b"ana".to_vec()).unwrap();
    let (fwd, rev) = index.query_ranges(b"an");
    let state = index.extend_right(&index.extend_left(&index.initial_state(), b'a'), b'n');
    assert_eq!((fwd.start, fwd.end), (state.s, state.t));
    assert_eq!((rev.start, rev.end), (state.sr, state.tr));
    let (fwd, rev) = index.query_ranges(b"b$");
    assert_eq!(fwd.len(), 0);
    assert_eq!(rev.len(), 0);
    assert_eq!(fwd.start, 4);
}

#[test]
fn bidirectional_state_list() {
    let v = states(b"banana$", 3);
    assert_eq!(v.len(), 11 + 4 + 1 + 2 * 13 + 1);
    assert_eq!(v[0], State::Init);
    assert_eq!(v[11], State::Equivalence(0));
    assert_eq!(v[15], State::Pause);
    assert_eq!(v[16], State::Query(1, QueryStep::PreviousDone));
    assert_eq!(v[28], State::Query(1, QueryStep::ExtendEndSecond));
    assert_eq!(v[29], State::Query(2, QueryStep::PreviousDone));
    assert_eq!(v[42], State::Query(3, QueryStep::PreviousDone));
    let empty = states(b"banana$", 0);
    assert_eq!(empty.len(), 17);
    assert_eq!(empty[16], State::Query(0, QueryStep::PreviousDone));
    let index = BiBWT::new(b"banana$".to_vec(), b"ana".to_vec()).unwrap();
    assert_eq!(index.states(), &v);
}

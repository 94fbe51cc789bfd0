use alg_viz::bibwt::BiBWT;
use alg_viz::bwt::{s_stats, states, to_c, State, BWT};
use alg_viz::scan::{rotation_sorts_before, rotation_starts_with, scan_range};
use alg_viz::suffix_array::{build, build_reverse, check_text, rev, sort_suffixes, suffix_less};
use alg_viz::tables::{
    alphabet, char_counts, char_starts, count_smaller, count_symbol, last_column_of, occ_column,
    occ_table, symbol_index,
};
use alg_viz::text::ConstructionError;

const TEXTS: [&[u8]; 7] = [
    b"banana$",
    b"mississippi$",
    b"aaaaaa$",
    b"abcabcabc$",
    b"GTCCCGATGTCATGTCAGGA$",
    b"$",
    b"zyxwv!",
];

fn cyclic_count(text: &[u8], p: &[u8]) -> usize {
    let n = text.len();
    (0..n).filter(|&i| (0..p.len()).all(|k| text[(i + k) % n] == p[k])).count()
}

fn plain_count(text: &[u8], p: &[u8]) -> usize {
    let n = text.len();
    (0..n).filter(|&i| i + p.len() <= n && &text[i..i + p.len()] == p).count()
}

#[test]
fn suffix_array_is_the_sorted_permutation() {
    for text in TEXTS {
        let n = text.len();
        let sa = build(text).unwrap();
        let mut seen = vec![false; n];
        for &i in &sa {
            assert!(!seen[i]);
            seen[i] = true;
        }
        assert_eq!(sa.len(), n);
        for j in 1..n {
            assert!(text[sa[j - 1]..] < text[sa[j]..]);
        }
        let mut sorted: Vec<usize> = (0..n).collect();
        sorted.sort_by_key(|&i| &text[i..]);
        assert_eq!(sa, sorted);
        assert_eq!(sort_suffixes(text), sorted);
    }
}

#[test]
fn suffixes_without_a_sentinel_are_sorted_too() {
    // a proper prefix sorts first
    assert_eq!(sort_suffixes(b"aaa"), vec![2, 1, 0]);
    assert_eq!(sort_suffixes(b"abab"), vec![2, 0, 3, 1]);
    assert_eq!(sort_suffixes(b""), Vec::<usize>::new());
    assert!(suffix_less(b"abab", 2, 0));
    assert!(!suffix_less(b"abab", 0, 2));
    assert!(!suffix_less(b"abab", 1, 1));
    assert!(suffix_less(b"abab", 4, 3));
    assert!(!suffix_less(b"abab", 3, 4));
}

#[test]
fn reverse_suffix_array_sorts_reversed_prefixes() {
    for text in TEXTS {
        let n = text.len();
        let sar = build_reverse(text).unwrap();
        let mut sorted: Vec<usize> = (1..=n).collect();
        sorted.sort_by_key(|&i| rev(&text[..i]));
        assert_eq!(sar, sorted);
    }
    assert_eq!(rev(b"abc"), b"cba".to_vec());
    assert_eq!(rev(b""), Vec::<u8>::new());
}

#[test]
fn texts_are_checked() {
    assert_eq!(check_text(b"banana$"), Ok(()));
    assert_eq!(check_text(b"$"), Ok(()));
    assert_eq!(check_text(b""), Err(ConstructionError::EmptyInput));
    assert_eq!(check_text(b"banana"), Err(ConstructionError::MissingSentinel));
    // the sentinel occurs twice
    assert_eq!(check_text(b"ban$ana$"), Err(ConstructionError::MissingSentinel));
    // a smaller symbol stands inside
    assert_eq!(check_text(b"ban!ana$"), Err(ConstructionError::MissingSentinel));
    assert_eq!(BWT::build(vec![]).err(), Some(ConstructionError::EmptyInput));
    assert_eq!(BWT::build(b"aa".to_vec()).err(), Some(ConstructionError::MissingSentinel));
    assert_eq!(BWT::new(vec![], b"a".to_vec()).err(), Some(ConstructionError::EmptyInput));
    assert_eq!(BiBWT::build(vec![]).err(), Some(ConstructionError::EmptyInput));
    assert_eq!(BiBWT::build(b"$a".to_vec()).err(), Some(ConstructionError::MissingSentinel));
    assert_eq!(build_reverse(b"").err(), Some(ConstructionError::EmptyInput));
}

#[test]
fn alphabet_and_counts() {
    assert_eq!(alphabet(b"banana$"), b"$abn".to_vec());
    assert_eq!(alphabet(b""), Vec::<u8>::new());
    assert_eq!(alphabet(&[255, 0, 255]), vec![0, 255]);
    let alph = alphabet(b"banana$");
    assert_eq!(symbol_index(&alph, b'b'), Some(2));
    assert_eq!(symbol_index(&alph, b'$'), Some(0));
    assert_eq!(symbol_index(&alph, b'x'), None);
    assert_eq!(char_counts(&alph, b"banana$"), vec![1, 3, 1, 2]);
    assert_eq!(char_starts(&alph, b"banana$"), vec![0, 1, 4, 5]);
    assert_eq!(count_smaller(b"banana$", b'n'), 5);
    assert_eq!(count_smaller(b"banana$", b'$'), 0);
    assert_eq!(count_smaller(b"banana$", b'z'), 7);
    assert_eq!(count_symbol(b"banana$", b'a'), 3);
    assert_eq!(count_symbol(b"banana$", b'z'), 0);
    assert_eq!(s_stats(b"banana$"), (4, 3));
    assert_eq!(s_stats(b""), (0, 0));
    assert_eq!(s_stats(b"GTCCCGATGTCATGTCAGGA$"), (5, 6));
}

#[test]
fn last_column_and_rank_table() {
    let index = BWT::build(b"banana$".to_vec()).unwrap();
    assert_eq!(index.suffix_array(), &vec![6, 5, 3, 1, 0, 4, 2]);
    assert_eq!(index.last_column(), &b"annb$aa".to_vec());
    assert_eq!(index.alphabet(), &b"$abn".to_vec());
    assert_eq!(index.char_start(), &vec![0, 1, 4, 5]);
    assert_eq!(index.char_count(), &vec![1, 3, 1, 2]);
    assert_eq!(index.occ()[1], vec![0, 1, 1, 1, 1, 1, 2, 3]);
    assert_eq!(index.occ()[3], vec![0, 0, 1, 2, 2, 2, 2, 2]);
    assert_eq!(occ_column(b"annb$aa", b'a'), vec![0, 1, 1, 1, 1, 1, 2, 3]);
    assert_eq!(occ_column(b"", b'a'), vec![0]);
    assert_eq!(last_column_of(b"banana$", &vec![6, 5, 3, 1, 0, 4, 2]), b"annb$aa".to_vec());
    for text in TEXTS {
        let n = text.len();
        let index = BWT::build(text.to_vec()).unwrap();
        let sa = index.suffix_array();
        let last = index.last_column();
        for j in 0..n {
            assert_eq!(last[j], text[(sa[j] + n - 1) % n]);
        }
        let alph = index.alphabet();
        let occ = index.occ();
        assert_eq!(occ, &occ_table(alph, last));
        assert_eq!(occ.len(), alph.len());
        for (ci, &c) in alph.iter().enumerate() {
            assert_eq!(index.char_start()[ci], text.iter().filter(|&&x| x < c).count());
            assert_eq!(index.char_count()[ci], text.iter().filter(|&&x| x == c).count());
            assert_eq!(occ[ci].len(), n + 1);
            for j in 0..=n {
                assert_eq!(occ[ci][j], last[..j].iter().filter(|&&x| x == c).count());
            }
        }
        let total: usize = occ.iter().map(|row| row[n]).sum();
        assert_eq!(total, n);
    }
}

#[test]
fn reverse_side_tables() {
    let index = BiBWT::build(b"banana$".to_vec()).unwrap();
    // behind the prefixes $ananab, ab, anab, ananab, b, nab, nanab read
    // backward stand b (round the text), n, n, $, a, a, a
    assert_eq!(index.last_column_r(), &b"bnn$aaa".to_vec());
    assert_eq!(index.last_column(), &b"annb$aa".to_vec());
    assert_eq!(index.alphabet(), &b"$abn".to_vec());
    assert_eq!(index.char_start(), &vec![0, 1, 4, 5]);
    assert_eq!(index.char_count(), &vec![1, 3, 1, 2]);
    for text in TEXTS {
        let n = text.len();
        let index = BiBWT::build(text.to_vec()).unwrap();
        let sar = index.reverse_suffix_array();
        let last_r = index.last_column_r();
        for j in 0..n {
            assert_eq!(last_r[j], text[sar[j] % n]);
        }
        for (ci, &c) in index.alphabet().iter().enumerate() {
            for j in 0..=n {
                assert_eq!(index.occ_r()[ci][j], last_r[..j].iter().filter(|&&x| x == c).count());
                assert_eq!(
                    index.occ()[ci][j],
                    index.last_column()[..j].iter().filter(|&&x| x == c).count()
                );
            }
        }
    }
}

#[test]
fn count_is_the_number_of_occurrences() {
    for text in TEXTS {
        let n = text.len();
        let index = BWT::build(text.to_vec()).unwrap();
        assert_eq!(index.count(b""), n);
        assert_eq!(index.count(b"\x01"), 0);
        assert_eq!(index.count(b"a\x01a"), 0);
        for from in 0..n {
            for to in from..=n {
                let p = &text[from..to];
                assert_eq!(index.count(p), plain_count(text, p));
                let mut at = index.locate(p);
                at.sort();
                let expected: Vec<usize> =
                    (0..n).filter(|&i| i + p.len() <= n && &text[i..i + p.len()] == p).collect();
                assert_eq!(at, expected);
                let (s, e) = index.search(p);
                assert_eq!(e - s, expected.len());
                for j in s..e {
                    assert!(text[index.suffix_array()[j]..].starts_with(p));
                }
                // a symbol of the text put before or behind
                for &c in index.alphabet() {
                    if c == text[n - 1] {
                        continue;
                    }
                    let mut longer = vec![c];
                    longer.extend_from_slice(p);
                    if !p.contains(&text[n - 1]) || p.last() == Some(&text[n - 1]) && p.len() == 1
                    {
                        assert_eq!(index.count(&longer), plain_count(text, &longer));
                    }
                    assert_eq!(index.count(&longer), cyclic_count(text, &longer));
                }
            }
        }
    }
}

#[test]
fn count_reads_round_the_text() {
    // a pattern that holds the sentinel before its end occurs nowhere in
    // the text, but a rotation may begin with it
    let index = BWT::build(b"banana$".to_vec()).unwrap();
    assert_eq!(index.count(b"$b"), 1);
    assert_eq!(plain_count(b"banana$", b"$b"), 0);
    assert_eq!(index.count(b"a$ban"), 1);
    assert_eq!(index.locate(b"a$ban"), vec![5]);
    assert_eq!(index.count(b"$a"), 0);
    assert_eq!(index.count(b"banana$banana$b"), 1);
    assert_eq!(index.count(b"a$"), 1);
    assert_eq!(index.count(b"$"), 1);
    let one = BWT::build(b"$".to_vec()).unwrap();
    assert_eq!(one.count(b""), 1);
    assert_eq!(one.count(b"$"), 1);
    assert_eq!(one.count(b"$$$"), 1);
    assert_eq!(one.count(b"a"), 0);
    assert_eq!(one.lf(0), 0);
}

#[test]
fn going_back_round_the_text_returns_to_the_row() {
    for text in TEXTS {
        let n = text.len();
        let index = BWT::build(text.to_vec()).unwrap();
        let sa = index.suffix_array();
        for row in 0..n {
            let back = index.lf(row);
            assert_eq!(sa[back], (sa[row] + n - 1) % n);
            let mut at = row;
            for k in 1..=n {
                at = index.lf(at);
                assert_eq!(sa[at], (sa[row] + n * k - k) % n);
            }
            assert_eq!(at, row);
        }
    }
    let index = BWT::build(b"banana$".to_vec()).unwrap();
    let back: Vec<usize> = (0..7).map(|row| index.lf(row)).collect();
    assert_eq!(back, vec![1, 5, 6, 4, 0, 2, 3]);
}

#[test]
fn scanning_finds_the_range_of_backward_search() {
    for text in TEXTS {
        let n = text.len();
        let index = BWT::build(text.to_vec()).unwrap();
        let sa = index.suffix_array();
        for from in 0..n {
            for to in from..=n.min(from + 4) {
                let p = &text[from..to];
                let r = scan_range(text, sa, p);
                assert_eq!((r.start, r.end), index.search(p));
            }
        }
        // where nothing matches the scan stops where the pattern would stand
        let r = scan_range(text, sa, b"\x7f");
        assert_eq!((r.start, r.end), (n, n));
        let r = scan_range(text, sa, b"\x01");
        assert_eq!((r.start, r.end), (0, 0));
    }
    let sa = sort_suffixes(b"banana$");
    let r = scan_range(b"banana$", &sa, b"b$");
    assert_eq!((r.start, r.end), (4, 4));
    let r = scan_range(b"banana$", &sa, b"an");
    assert_eq!((r.start, r.end), (2, 4));
    assert!(rotation_starts_with(b"ab$", 2, b"$ab$a"));
    assert!(!rotation_starts_with(b"ab$", 2, b"$aa"));
    assert!(rotation_starts_with(b"ab$", 1, b""));
    assert!(rotation_sorts_before(b"ab$", 0, b"ac"));
    assert!(!rotation_sorts_before(b"ab$", 0, b"ab"));
    assert!(!rotation_sorts_before(b"ab$", 0, b"aa"));
    assert!(!rotation_sorts_before(b"ab$", 0, b""));
}

#[test]
fn query_steps_of_the_index() {
    let index = BWT::new(b"banana$".to_vec(), b"nan".to_vec()).unwrap();
    assert_eq!(index.text(), &b"banana$".to_vec());
    assert_eq!(index.query(), &b"nan".to_vec());
    assert_eq!(index.query_range(0), (0, 7));
    assert_eq!(index.query_range(1), (5, 7));
    assert_eq!(index.query_range(2), (2, 4));
    assert_eq!(index.query_range(3), (6, 7));
    assert_eq!(index.query_range(3), index.search(b"nan"));
    let missing = BWT::new(b"banana$".to_vec(), b"bb".to_vec()).unwrap();
    assert_eq!(missing.query_range(1), (4, 5));
    assert_eq!(missing.query_range(2), (5, 5));
    assert_eq!(missing.search(b"bb"), (0, 0));
}

#[test]
fn index_state_list() {
    let v = states(b"banana$", 2);
    let mut expected = vec![State::Init, State::Rotations, State::SortedRotations, State::FirstLast];
    expected.extend((0..3).map(State::LfMap));
    expected.extend((0..4).map(State::Counts));
    expected.push(State::CountsDone);
    expected.extend((0..4).map(State::Occ));
    expected.push(State::OccDone);
    expected.extend((0..=2).map(State::Query));
    assert_eq!(v, expected);
    assert_eq!(states(b"", 0), vec![
        State::Init,
        State::Rotations,
        State::SortedRotations,
        State::FirstLast,
        State::CountsDone,
        State::OccDone,
        State::Query(0),
    ]);
    assert_eq!(to_c(true), (0, 255, 0));
    assert_eq!(to_c(false), (240, 240, 240));
    assert_eq!(alg_viz::bibwt::to_c(true), (0, 255, 0));
    assert_eq!(alg_viz::bibwt::to_c(false), (240, 240, 240));
}

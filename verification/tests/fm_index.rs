use alg_viz::bwt::BWT;
use alg_viz::suffix_array::{build, build_reverse, sort_suffixes};
use alg_viz::text::ConstructionError;

#[test]
fn banana_suffix_array() {
    let sa = build(b"banana$").unwrap();
    assert_eq!(sa, vec![6, 5, 3, 1, 0, 4, 2]);
}

#[test]
fn banana_counts() {
    let index = BWT::build(b"banana$".to_vec()).unwrap();
    assert_eq!(index.count(b"ana"), 2);
    assert_eq!(index.count(b"xyz"), 0);
    assert_eq!(index.count(b""), 7);
    assert_eq!(index.count(b"nan"), 1);
    let mut at = index.locate(b"ana");
    at.sort();
    assert_eq!(at, vec![1, 3]);
}

#[test]
fn refuses_bad_text() {
    assert_eq!(build(b"").unwrap_err(), ConstructionError::EmptyInput);
    assert_eq!(build(b"banana").unwrap_err(), ConstructionError::MissingSentinel);
    assert_eq!(build_reverse(b"$banana").unwrap_err(), ConstructionError::MissingSentinel);
    assert_eq!(sort_suffixes(b"ab"), vec![0, 1]);
}

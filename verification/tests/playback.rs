use alg_viz::cli::{Algorithm, Cli};
use alg_viz::playback::Playback;

#[test]
fn playback_steps_within_its_states() {
    let mut p = Playback::new(3);
    assert_eq!((p.get(), p.forward, p.len), (0, true, 3));
    p.prev();
    assert_eq!((p.get(), p.forward), (0, false));
    p.next();
    assert_eq!((p.get(), p.forward), (1, true));
    p.next();
    p.next();
    assert_eq!((p.get(), p.forward), (2, true));
    p.prev();
    assert_eq!((p.get(), p.forward), (1, false));
    let mut none = Playback::new(0);
    none.next();
    assert_eq!(none.get(), 0);
    let mut top = Playback { len: usize::MAX, state: usize::MAX, forward: true };
    top.next();
    assert_eq!(top.get(), usize::MAX);
}

#[test]
fn playback_passes_over_what_draws_nothing() {
    let mut p = Playback::new(3);
    // a frame that was drawn stays
    assert!(p.settle(true));
    assert_eq!(p.get(), 0);
    // one that was not is passed over, in the direction of the last step
    assert!(!p.settle(false));
    assert_eq!(p.get(), 1);
    assert!(!p.settle(false));
    assert_eq!(p.get(), 2);
    // at the end there is nowhere to go
    assert!(p.settle(false));
    assert_eq!(p.get(), 2);
    p.prev();
    assert!(!p.settle(false));
    assert_eq!((p.get(), p.forward), (0, false));
    assert!(p.settle(false));
    assert_eq!(p.get(), 0);
}

#[test]
fn arguments_give_text_and_query() {
    let none = Cli { algorithm: Algorithm::BWT, input: None, query: None, save: None };
    assert_eq!(none.text(), b"GTCCCGATGTCATGTCAGGA$".to_vec());
    assert_eq!(none.pattern(), b"GTCC".to_vec());
    let given = Cli {
        algorithm: Algorithm::BiBWT,
        input: Some("banana".to_string()),
        query: Some("ana".to_string()),
        save: Some("out".to_string()),
    };
    assert_eq!(given.text(), b"banana$".to_vec());
    assert_eq!(given.pattern(), b"ana".to_vec());
    assert_eq!(given.algorithm, Algorithm::BiBWT);
    let empty = Cli {
        algorithm: Algorithm::SuffixArray,
        input: Some(String::new()),
        query: Some(String::new()),
        save: None,
    };
    assert_eq!(empty.text(), b"$".to_vec());
    assert_eq!(empty.pattern(), Vec::<u8>::new());
}

use wordle::{Correctness, Guess, Word};

fn w(s: &str) -> Word {
    s.as_bytes().try_into().expect("test words are 5 letters")
}

const C: Correctness = Correctness::Correct;
const M: Correctness = Correctness::Misplaced;
const W: Correctness = Correctness::Wrong;

#[test]
fn basic() {
    assert_eq!(Correctness::compute(w("abcde"), w("abcde")), [Correctness::Correct; 5]);
}

#[test]
fn self_compute_is_all_green() {
    for word in ["zzzzz", "aabba", "speed", "tares"] {
        assert_eq!(Correctness::compute(w(word), w(word)), [C; 5]);
    }
}

#[test]
fn duplicate_letters_speed_erase() {
    // the documented left-to-right single-claim disambiguation
    assert_eq!(Correctness::compute(w("speed"), w("erase")), [M, W, W, M, M]);
}

#[test]
fn duplicate_letters_adversarial() {
    // two guessed copies, both present
    assert_eq!(Correctness::compute(w("aabbb"), w("aaccc")), [C, C, W, W, W]);
    // three guessed copies, two answer copies, one already green
    assert_eq!(Correctness::compute(w("azzaz"), w("aaabb")), [C, M, W, W, W]);
    // a green copy uses up the only answer copy
    assert_eq!(Correctness::compute(w("baccc"), w("aaddd")), [W, C, W, W, W]);
    // the second guessed copy finds no unclaimed answer copy
    assert_eq!(Correctness::compute(w("abcde"), w("aacde")), [C, W, C, C, C]);
    // a later yellow must not steal a position claimed by a green
    assert_eq!(Correctness::compute(w("bacde"), w("tares")), [W, C, W, M, W]);
}

#[test]
fn no_shared_letters() {
    assert_eq!(Correctness::compute(w("abcde"), w("fghij")), [W; 5]);
}

#[test]
fn patterns_are_all_distinct() {
    let ps = Correctness::patterns();
    assert_eq!(ps.len(), 243);
    for i in 0..ps.len() {
        for j in 0..i {
            assert_ne!(ps[i], ps[j]);
        }
    }
}

#[test]
fn patterns_cover_known_masks() {
    let ps = Correctness::patterns();
    assert!(ps.contains(&[C; 5]));
    assert!(ps.contains(&[W; 5]));
    assert!(ps.contains(&[M; 5]));
    assert!(ps.contains(&[M, W, W, M, M]));
}

#[test]
fn matches_agrees_with_compute() {
    let g = Guess { word: w("tares"), mask: Correctness::compute(w("abcde"), w("tares")) };
    assert!(g.matches(w("abcde")));
    assert!(g.matches(w("edcba")));
    assert!(!g.matches(w("bacde")));
    assert!(!g.matches(w("qqqqq")));
}

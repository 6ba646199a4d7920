use wordle::algorithms::once_init::{best_index, opening_word, OnceInit};
use wordle::dictionary::{parse_dictionary, LoadError};
use wordle::{Correctness, Word};

fn w(s: &str) -> Word {
    s.as_bytes().try_into().expect("test words are 5 letters")
}

fn toy_corpus() -> Vec<(Word, usize)> {
    vec![(w("abcde"), 10), (w("abcdf"), 5), (w("edcba"), 1), (w("bacde"), 2)]
}

fn contents(s: &OnceInit) -> Vec<(Word, usize)> {
    let mut out = Vec::new();
    for i in 0..s.len() {
        out.push((s.word_at(i), s.count_at(i)));
    }
    out
}

#[test]
fn parse_well_formed() {
    let text = b"abcde 10\nqwert 5".to_vec();
    let v = parse_dictionary(&text).expect("well-formed corpus");
    assert_eq!(v, vec![(w("abcde"), 10), (w("qwert"), 5)]);
}

#[test]
fn parse_trailing_newline() {
    let text = b"abcde 3\n".to_vec();
    let v = parse_dictionary(&text).expect("well-formed corpus");
    assert_eq!(v, vec![(w("abcde"), 3)]);
}

#[test]
fn parse_empty_text() {
    let text = Vec::new();
    assert_eq!(parse_dictionary(&text), Ok(Vec::new()));
}

#[test]
fn parse_missing_separator() {
    let text = b"abcde10".to_vec();
    assert_eq!(parse_dictionary(&text), Err(LoadError::MissingSeparator));
}

#[test]
fn parse_blank_line_is_fatal() {
    let text = b"abcde 1\n\nzzzzz 2".to_vec();
    assert_eq!(parse_dictionary(&text), Err(LoadError::MissingSeparator));
}

#[test]
fn parse_short_word() {
    let text = b"abcd 10".to_vec();
    assert_eq!(parse_dictionary(&text), Err(LoadError::WrongWordLength));
}

#[test]
fn parse_long_word() {
    let text = b"abcdef 10".to_vec();
    assert_eq!(parse_dictionary(&text), Err(LoadError::WrongWordLength));
}

#[test]
fn parse_non_numeric_frequency() {
    let text = b"abcde x1".to_vec();
    assert_eq!(parse_dictionary(&text), Err(LoadError::BadFrequency));
}

#[test]
fn parse_empty_frequency() {
    let text = b"abcde ".to_vec();
    assert_eq!(parse_dictionary(&text), Err(LoadError::BadFrequency));
}

#[test]
fn parse_oversized_frequency() {
    let text = b"abcde 99999999999999999999999999".to_vec();
    assert_eq!(parse_dictionary(&text), Err(LoadError::BadFrequency));
}

#[test]
fn parse_leading_zeros() {
    let text = b"abcde 007".to_vec();
    let v = parse_dictionary(&text).expect("leading zeros are digits");
    assert_eq!(v, vec![(w("abcde"), 7)]);
}

#[test]
fn parse_too_heavy_corpus() {
    let text = format!("aaaaa {}\nbbbbb 1", usize::MAX).into_bytes();
    assert_eq!(parse_dictionary(&text), Err(LoadError::TooHeavy));
}

#[test]
fn total_weight_sums_frequencies() {
    let s = OnceInit::new(toy_corpus());
    assert_eq!(s.total_weight(), 18);
}

#[test]
fn filter_keeps_exactly_the_consistent_words() {
    let mut s = OnceInit::new(toy_corpus());
    let observed = Correctness::compute(w("abcde"), w("tares"));
    s.filter(w("tares"), &observed);
    assert_eq!(contents(&s), vec![(w("abcde"), 10), (w("edcba"), 1)]);
    assert_eq!(s.total_weight(), 11);
}

#[test]
fn filter_twice_changes_nothing_more() {
    let mut once = OnceInit::new(toy_corpus());
    let observed = Correctness::compute(w("abcde"), w("tares"));
    once.filter(w("tares"), &observed);
    let mut twice = OnceInit::new(toy_corpus());
    twice.filter(w("tares"), &observed);
    twice.filter(w("tares"), &observed);
    assert_eq!(contents(&once), contents(&twice));
}

#[test]
fn filter_never_grows_the_set() {
    let mut s = OnceInit::new(toy_corpus());
    let mut previous = s.len();
    let rounds = [
        (w("tares"), Correctness::compute(w("abcde"), w("tares"))),
        (w("edcba"), Correctness::compute(w("abcde"), w("edcba"))),
        (w("abcdf"), Correctness::compute(w("abcde"), w("abcdf"))),
    ];
    for (guess, observed) in rounds {
        s.filter(guess, &observed);
        assert!(s.len() <= previous);
        previous = s.len();
    }
}

#[test]
fn pattern_weight_partitions_the_total() {
    let s = OnceInit::new(toy_corpus());
    let mut sum = 0;
    for p in Correctness::patterns() {
        sum += s.pattern_weight(w("abcde"), &p);
    }
    assert_eq!(sum, s.total_weight());
    let all_green = [Correctness::Correct; 5];
    assert_eq!(s.pattern_weight(w("abcde"), &all_green), 10);
}

#[test]
fn best_index_takes_the_first_maximum() {
    assert_eq!(best_index(&vec![3, 7, 7, 2]), 1);
    assert_eq!(best_index(&vec![9]), 0);
    assert_eq!(best_index(&vec![1, 2, 9, 9, 9]), 2);
    assert_eq!(best_index(&vec![5, 5, 5]), 0);
}

#[test]
fn opening_word_is_fixed() {
    assert_eq!(opening_word(), w("tares"));
}

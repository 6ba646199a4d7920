use wordle::algorithms::once_init::{best_index, opening_word, OnceInit};
use wordle::{play, Correctness, Guess, Guesser, Word};

fn w(s: &str) -> Word {
    s.as_bytes().try_into().expect("test words are 5 letters")
}

fn toy_corpus() -> Vec<(Word, usize)> {
    vec![(w("abcde"), 10), (w("abcdf"), 5), (w("edcba"), 1), (w("bacde"), 2)]
}

/// The entropy strategy: the verified candidate set, weight sums and
/// first-wins selection, with the floating-point entropy formula on top. The
/// score of a word is the Shannon entropy of the pattern distribution it
/// induces; nonnegative scores compare by their bit patterns, with both zeros
/// mapped to the zero pattern.
struct EntropyGuesser {
    remaining: OnceInit,
}

fn score_bits(entropy: f64) -> u64 {
    if entropy <= 0.0 {
        0
    } else {
        entropy.to_bits()
    }
}

impl EntropyGuesser {
    fn new(corpus: Vec<(Word, usize)>) -> Self {
        EntropyGuesser { remaining: OnceInit::new(corpus) }
    }

    fn entropy_of(&self, word: Word, patterns: &[[Correctness; 5]], total: usize) -> f64 {
        let mut sum = 0.0;
        for pattern in patterns {
            let weight = self.remaining.pattern_weight(word, pattern);
            if weight == 0 {
                continue;
            }
            let p = weight as f64 / total as f64;
            sum += p * p.log2();
        }
        -sum
    }
}

impl Guesser for EntropyGuesser {
    fn guess(&mut self, history: &Vec<Guess>) -> Word {
        if let Some(last) = history.last() {
            self.remaining.filter(last.word, &last.mask);
        }
        if history.is_empty() {
            return opening_word();
        }
        let patterns = Correctness::patterns();
        let total = self.remaining.total_weight();
        let mut scores: Vec<u64> = Vec::new();
        for i in 0..self.remaining.len() {
            let word = self.remaining.word_at(i);
            scores.push(score_bits(self.entropy_of(word, &patterns, total)));
        }
        self.remaining.word_at(best_index(&scores))
    }
}

/// A strategy that walks a fixed list of words and never looks at history.
struct Scripted {
    words: Vec<Word>,
    next: usize,
}

impl Guesser for Scripted {
    fn guess(&mut self, _history: &Vec<Guess>) -> Word {
        let word = self.words[self.next % self.words.len()];
        self.next += 1;
        word
    }
}

#[test]
fn play_reports_the_winning_round() {
    let script = Scripted { words: vec![w("qqqqq"), w("rrrrr"), w("abcde")], next: 0 };
    assert_eq!(play(w("abcde"), script), Some(2));
}

#[test]
fn play_gives_up_after_the_bound() {
    let script = Scripted { words: vec![w("qqqqq")], next: 0 };
    assert_eq!(play(w("abcde"), script), None);
}

#[test]
fn opening_move_ignores_the_candidate_set() {
    let empty_history = Vec::new();
    let mut small = EntropyGuesser::new(toy_corpus());
    let mut single = EntropyGuesser::new(vec![(w("mmmmm"), 1)]);
    assert_eq!(small.guess(&empty_history), opening_word());
    assert_eq!(single.guess(&empty_history), opening_word());
}

#[test]
fn selection_is_deterministic() {
    let answer = w("abcde");
    let mut history = Vec::new();
    let opening = opening_word();
    history.push(Guess { word: opening, mask: Correctness::compute(answer, opening) });
    let mut first = EntropyGuesser::new(toy_corpus());
    let mut second = EntropyGuesser::new(toy_corpus());
    assert_eq!(first.guess(&history), second.guess(&history));
    assert_eq!(first.guess(&history), first.guess(&history));
}

#[test]
fn toy_game_ends_quickly() {
    let guesser = EntropyGuesser::new(toy_corpus());
    let score = play(w("abcde"), guesser).expect("the answer is in the corpus");
    assert!(score <= 3);
}

#[test]
fn first_real_guess_has_maximal_entropy() {
    let answer = w("abcde");
    let opening = opening_word();
    let mut history = Vec::new();
    history.push(Guess { word: opening, mask: Correctness::compute(answer, opening) });
    let mut guesser = EntropyGuesser::new(toy_corpus());
    let chosen = guesser.guess(&history);
    // after the guess, `remaining` is the filtered candidate set the choice
    // was made over; the chosen word's entropy must not be beaten
    let patterns = Correctness::patterns();
    let total = guesser.remaining.total_weight();
    let chosen_score = guesser.entropy_of(chosen, &patterns, total);
    for i in 0..guesser.remaining.len() {
        let other = guesser.remaining.word_at(i);
        let score = guesser.entropy_of(other, &patterns, total);
        assert!(score <= chosen_score);
    }
}

//! A Wordle guessing engine: the feedback mask a guess earns against an
//! answer, the pruning of the candidate words that feedback allows, and the
//! bounded game loop that drives a guessing strategy to success or exhaustion.

use vstd::prelude::*;

pub mod algorithms;
pub mod dictionary;

verus! {

broadcast use vstd::array::group_array_axioms;

/// A five-letter word, one byte per letter.
pub type Word = [u8; 5];

/// Feedback for a single letter position of a guess.
#[derive(Debug, Clone, Copy, PartialEq, Eq, Structural)]
pub enum Correctness {
    /// Green: the guessed letter sits in the answer at this very position.
    Correct,
    /// Yellow: the guessed letter claims a copy of itself elsewhere in the answer.
    Misplaced,
    /// Gray: no unclaimed copy of the guessed letter remains in the answer.
    Wrong,
}

/// The feedback mask of one whole guess, aligned to the guess positions.
pub type Pattern = [Correctness; 5];

/// The mask after the first pass alone: a position is green exactly when the
/// guess and the answer agree there, and gray otherwise.
pub open spec fn green_mask(answer: Seq<u8>, guess: Seq<u8>) -> Seq<Correctness> {
    Seq::new(
        5,
        |i: int|
            if answer[i] == guess[i] {
                Correctness::Correct
            } else {
                Correctness::Wrong
            },
    )
}

/// Which answer positions the first pass claims: exactly the green ones.
pub open spec fn green_used(answer: Seq<u8>, guess: Seq<u8>) -> Seq<bool> {
    Seq::new(5, |i: int| answer[i] == guess[i])
}

/// The leftmost answer position at or after `j` that holds letter `g` and is
/// not yet claimed.
pub open spec fn first_unused(answer: Seq<u8>, used: Seq<bool>, g: u8, j: int) -> Option<int>
    decreases 5 - j,
{
    if j < 0 || j >= 5 {
        None
    } else if answer[j] == g && !used[j] {
        Some(j)
    } else {
        first_unused(answer, used, g, j + 1)
    }
}

/// The second pass from guess position `i` on: each non-green guess letter
/// claims the leftmost unclaimed copy of itself in the answer, if one remains,
/// and is marked yellow for it; otherwise it stays gray.
pub open spec fn mark_misplaced(
    answer: Seq<u8>,
    guess: Seq<u8>,
    mask: Seq<Correctness>,
    used: Seq<bool>,
    i: int,
) -> Seq<Correctness>
    decreases 5 - i,
{
    if i < 0 || i >= 5 {
        mask
    } else if mask[i] == Correctness::Correct {
        mark_misplaced(answer, guess, mask, used, i + 1)
    } else {
        match first_unused(answer, used, guess[i], 0) {
            Some(j) => mark_misplaced(
                answer,
                guess,
                mask.update(i, Correctness::Misplaced),
                used.update(j, true),
                i + 1,
            ),
            None => mark_misplaced(answer, guess, mask, used, i + 1),
        }
    }
}

/// The full feedback for `guess` scored against `answer`: greens first, then a
/// single left-to-right claim per yellow.
pub open spec fn spec_compute(answer: Seq<u8>, guess: Seq<u8>) -> Seq<Correctness> {
    mark_misplaced(
        answer,
        guess,
        green_mask(answer, guess),
        green_used(answer, guess),
        0,
    )
}

/// The leftmost answer position holding letter `g` that `used` has not
/// claimed yet, if any.
fn find_unused_pos(answer: &Word, used: &[bool; 5], g: u8) -> (r: Option<usize>)
    ensures
        match r {
            Some(j) => j < 5 && first_unused(answer@, used@, g, 0) == Some(j as int),
            None => first_unused(answer@, used@, g, 0) is None,
        },
{
    let mut j: usize = 0;
    while j < 5
        invariant
            j <= 5,
            first_unused(answer@, used@, g, 0) == first_unused(answer@, used@, g, j as int),
        decreases 5 - j,
    {
        if answer[j] == g && !used[j] {
            return Some(j);
        }
        j = j + 1;
    }
    None
}

impl Correctness {
    /// Scores `guess` against the hidden `answer`: greens first, then one
    /// left-to-right claim per yellow, exactly as `spec_compute` states.
    pub fn compute(answer: Word, guess: Word) -> (mask: Pattern)
        ensures
            mask@ == spec_compute(answer@, guess@),
    {
        let mut c: Pattern = [Correctness::Wrong; 5];
        let mut used: [bool; 5] = [false; 5];
        let mut i: usize = 0;
        while i < 5
            invariant
                i <= 5,
                forall|k: int| 0 <= k < i ==> c@[k] == green_mask(answer@, guess@)[k],
                forall|k: int| i <= k < 5 ==> c@[k] == Correctness::Wrong,
                forall|k: int| 0 <= k < i ==> used@[k] == green_used(answer@, guess@)[k],
                forall|k: int| i <= k < 5 ==> used@[k] == false,
            decreases 5 - i,
        {
            if answer[i] == guess[i] {
                c[i] = Correctness::Correct;
                used[i] = true;
            }
            i = i + 1;
        }
        proof {
            assert(c@ =~= green_mask(answer@, guess@));
            assert(used@ =~= green_used(answer@, guess@));
        }
        i = 0;
        while i < 5
            invariant
                i <= 5,
                mark_misplaced(answer@, guess@, c@, used@, i as int) == spec_compute(
                    answer@,
                    guess@,
                ),
            decreases 5 - i,
        {
            if c[i] == Correctness::Correct {
                // already green; the second pass skips it
            } else {
                match find_unused_pos(&answer, &used, guess[i]) {
                    Some(j) => {
                        c[i] = Correctness::Misplaced;
                        used[j] = true;
                    },
                    None => {},
                }
            }
            i = i + 1;
        }
        c
    }
}

/// The base-3 digit each correctness value stands for in the pattern table.
pub open spec fn mark_digit(c: Correctness) -> int {
    match c {
        Correctness::Correct => 0,
        Correctness::Misplaced => 1,
        Correctness::Wrong => 2,
    }
}

/// The correctness value a base-3 digit stands for.
pub open spec fn digit_mark(d: int) -> Correctness {
    if d == 0 {
        Correctness::Correct
    } else if d == 1 {
        Correctness::Misplaced
    } else {
        Correctness::Wrong
    }
}

/// The mask in slot `n` of the full pattern table: the base-3 digits of `n`,
/// one per position, most significant first.
pub open spec fn mask_of_index(n: int) -> Seq<Correctness> {
    seq![
        digit_mark((n / 81) % 3),
        digit_mark((n / 27) % 3),
        digit_mark((n / 9) % 3),
        digit_mark((n / 3) % 3),
        digit_mark(n % 3),
    ]
}

/// The slot of the pattern table that holds mask `m`.
pub open spec fn index_of_mask(m: Seq<Correctness>) -> int {
    81 * mark_digit(m[0]) + 27 * mark_digit(m[1]) + 9 * mark_digit(m[2]) + 3 * mark_digit(m[3])
        + mark_digit(m[4])
}

/// Every five-position mask sits in a slot of its own in the pattern table.
pub proof fn lemma_mask_round_trip(m: Seq<Correctness>)
    requires
        m.len() == 5,
    ensures
        0 <= index_of_mask(m) < 243,
        mask_of_index(index_of_mask(m)) == m,
{
    let a = mark_digit(m[0]);
    let b = mark_digit(m[1]);
    let c = mark_digit(m[2]);
    let d = mark_digit(m[3]);
    let e = mark_digit(m[4]);
    let n = index_of_mask(m);
    vstd::arithmetic::div_mod::lemma_fundamental_div_mod_converse_div(
        n,
        81,
        a,
        27 * b + 9 * c + 3 * d + e,
    );
    vstd::arithmetic::div_mod::lemma_small_mod(a as nat, 3);
    vstd::arithmetic::div_mod::lemma_fundamental_div_mod_converse_div(
        n,
        27,
        3 * a + b,
        9 * c + 3 * d + e,
    );
    vstd::arithmetic::div_mod::lemma_fundamental_div_mod_converse_mod(3 * a + b, 3, a, b);
    vstd::arithmetic::div_mod::lemma_fundamental_div_mod_converse_div(
        n,
        9,
        9 * a + 3 * b + c,
        3 * d + e,
    );
    vstd::arithmetic::div_mod::lemma_fundamental_div_mod_converse_mod(
        9 * a + 3 * b + c,
        3,
        3 * a + b,
        c,
    );
    vstd::arithmetic::div_mod::lemma_fundamental_div_mod_converse_div(
        n,
        3,
        27 * a + 9 * b + 3 * c + d,
        e,
    );
    vstd::arithmetic::div_mod::lemma_fundamental_div_mod_converse_mod(
        27 * a + 9 * b + 3 * c + d,
        3,
        9 * a + 3 * b + c,
        d,
    );
    vstd::arithmetic::div_mod::lemma_fundamental_div_mod_converse_mod(
        n,
        3,
        27 * a + 9 * b + 3 * c + d,
        e,
    );
    assert(mask_of_index(n) =~= m);
}

/// Every slot of the pattern table is named by its own mask: reading a slot's
/// mask and asking for that mask's slot leads back to where one started.
pub proof fn lemma_index_round_trip(n: int)
    requires
        0 <= n < 243,
    ensures
        index_of_mask(mask_of_index(n)) == n,
{
    let a = n / 81;
    vstd::arithmetic::div_mod::lemma_fundamental_div_mod(n, 81);
    let r1 = n % 81;
    vstd::arithmetic::div_mod::lemma_fundamental_div_mod(r1, 27);
    let b = r1 / 27;
    let r2 = r1 % 27;
    vstd::arithmetic::div_mod::lemma_fundamental_div_mod(r2, 9);
    let c = r2 / 9;
    let r3 = r2 % 9;
    vstd::arithmetic::div_mod::lemma_fundamental_div_mod(r3, 3);
    let d = r3 / 3;
    let e = r3 % 3;
    vstd::arithmetic::div_mod::lemma_small_mod(a as nat, 3);
    vstd::arithmetic::div_mod::lemma_fundamental_div_mod_converse_div(
        n,
        27,
        3 * a + b,
        9 * c + 3 * d + e,
    );
    vstd::arithmetic::div_mod::lemma_fundamental_div_mod_converse_mod(3 * a + b, 3, a, b);
    vstd::arithmetic::div_mod::lemma_fundamental_div_mod_converse_div(
        n,
        9,
        9 * a + 3 * b + c,
        3 * d + e,
    );
    vstd::arithmetic::div_mod::lemma_fundamental_div_mod_converse_mod(
        9 * a + 3 * b + c,
        3,
        3 * a + b,
        c,
    );
    vstd::arithmetic::div_mod::lemma_fundamental_div_mod_converse_div(
        n,
        3,
        27 * a + 9 * b + 3 * c + d,
        e,
    );
    vstd::arithmetic::div_mod::lemma_fundamental_div_mod_converse_mod(
        27 * a + 9 * b + 3 * c + d,
        3,
        9 * a + 3 * b + c,
        d,
    );
    vstd::arithmetic::div_mod::lemma_fundamental_div_mod_converse_mod(
        n,
        3,
        27 * a + 9 * b + 3 * c + d,
        e,
    );
}

impl Correctness {
    /// The correctness value standing for base-3 digit `d`.
    fn of_digit(d: usize) -> (c: Correctness)
        requires
            d < 3,
        ensures
            c == digit_mark(d as int),
    {
        if d == 0 {
            Correctness::Correct
        } else if d == 1 {
            Correctness::Misplaced
        } else {
            Correctness::Wrong
        }
    }

    /// The full pattern table: all 243 five-position feedback masks, each in
    /// the slot its base-3 digits name, so each exactly once, in a fixed
    /// order.
    pub fn patterns() -> (r: Vec<Pattern>)
        ensures
            r@.len() == 243,
            forall|n: int| 0 <= n < 243 ==> (#[trigger] r@[n])@ == mask_of_index(n),
            forall|m: Seq<Correctness>|
                m.len() == 5 ==> 0 <= #[trigger] index_of_mask(m) < 243 && (r@[index_of_mask(
                    m,
                )])@ == m,
    {
        let mut r: Vec<Pattern> = Vec::new();
        let mut n: usize = 0;
        while n < 243
            invariant
                n <= 243,
                r@.len() == n,
                forall|k: int| 0 <= k < n ==> (#[trigger] r@[k])@ == mask_of_index(k),
            decreases 243 - n,
        {
            let p: Pattern = [
                Self::of_digit((n / 81) % 3),
                Self::of_digit((n / 27) % 3),
                Self::of_digit((n / 9) % 3),
                Self::of_digit((n / 3) % 3),
                Self::of_digit(n % 3),
            ];
            proof {
                assert(p@ =~= mask_of_index(n as int));
            }
            r.push(p);
            n = n + 1;
        }
        proof {
            assert forall|m: Seq<Correctness>|
                m.len() == 5 implies 0 <= #[trigger] index_of_mask(m) < 243 && (r@[index_of_mask(
                m,
            )])@ == m by {
                lemma_mask_round_trip(m);
            }
        }
        r
    }
}

/// One played round: the guessed word and the feedback it earned.
pub struct Guess {
    pub word: Word,
    pub mask: Pattern,
}

impl Guess {
    /// Whether `word`, were it the hidden answer, would have produced exactly
    /// this round's feedback for this round's guess.
    pub fn matches(&self, word: Word) -> (r: bool)
        ensures
            r == (spec_compute(word@, self.word@) == self.mask@),
    {
        let m = Correctness::compute(word, self.word);
        let eq = m[0] == self.mask[0] && m[1] == self.mask[1] && m[2] == self.mask[2] && m[3]
            == self.mask[3] && m[4] == self.mask[4];
        proof {
            if eq {
                assert(m@ =~= self.mask@);
            } else {
                if m@ == self.mask@ {
                    assert(m@[0] == self.mask@[0]);
                    assert(m@[1] == self.mask@[1]);
                    assert(m@[2] == self.mask@[2]);
                    assert(m@[3] == self.mask@[3]);
                    assert(m@[4] == self.mask@[4]);
                }
            }
        }
        eq
    }
}

/// A guessing strategy: given the rounds played so far, produce the next word
/// to try.
pub trait Guesser {
    fn guess(&mut self, history: &Vec<Guess>) -> Word;
}

/// Whether two words agree at every position.
pub fn words_equal(a: Word, b: Word) -> (r: bool)
    ensures
        r == (a@ == b@),
{
    let eq = a[0] == b[0] && a[1] == b[1] && a[2] == b[2] && a[3] == b[3] && a[4] == b[4];
    proof {
        if eq {
            assert(a@ =~= b@);
        } else {
            if a@ == b@ {
                assert(a@[0] == b@[0]);
                assert(a@[1] == b@[1]);
                assert(a@[2] == b@[2]);
                assert(a@[3] == b@[3]);
                assert(a@[4] == b@[4]);
            }
        }
    }
    eq
}

/// Plays one game: asks the strategy for a word each round, stops with the
/// 0-based round index as soon as a guess equals the answer, and gives up
/// after 33 rounds. The bound is deliberately wider than the canonical six
/// guesses, so that score distributions are not cut short.
pub fn play<G: Guesser>(answer: Word, guesser: G) -> (r: Option<usize>)
    ensures
        match r {
            Some(i) => i < 33,
            None => true,
        },
{
    let mut guesser = guesser;
    let mut history: Vec<Guess> = Vec::new();
    let mut i: usize = 0;
    while i < 33
        invariant
            i <= 33,
        decreases 33 - i,
    {
        let guess = guesser.guess(&history);
        if words_equal(guess, answer) {
            return Some(i);
        }
        let mask = Correctness::compute(answer, guess);
        history.push(Guess { word: guess, mask });
        i = i + 1;
    }
    None
}

/// The second pass rewrites positions but never changes how many there are.
proof fn lemma_mark_misplaced_len(
    answer: Seq<u8>,
    guess: Seq<u8>,
    mask: Seq<Correctness>,
    used: Seq<bool>,
    i: int,
)
    requires
        mask.len() == 5,
        0 <= i,
    ensures
        mark_misplaced(answer, guess, mask, used, i).len() == 5,
    decreases 5 - i,
{
    if i < 5 {
        if mask[i] == Correctness::Correct {
            lemma_mark_misplaced_len(answer, guess, mask, used, i + 1);
        } else {
            match first_unused(answer, used, guess[i], 0) {
                Some(j) => lemma_mark_misplaced_len(
                    answer,
                    guess,
                    mask.update(i, Correctness::Misplaced),
                    used.update(j, true),
                    i + 1,
                ),
                None => lemma_mark_misplaced_len(answer, guess, mask, used, i + 1),
            }
        }
    }
}

/// A feedback mask always covers the five guess positions.
pub proof fn lemma_spec_compute_len(answer: Seq<u8>, guess: Seq<u8>)
    ensures
        spec_compute(answer, guess).len() == 5,
{
    lemma_mark_misplaced_len(
        answer,
        guess,
        green_mask(answer, guess),
        green_used(answer, guess),
        0,
    );
}

/// Law: scoring any word against itself yields all-green feedback.
pub proof fn lemma_compute_self(w: Seq<u8>)
    requires
        w.len() == 5,
    ensures
        spec_compute(w, w) == Seq::new(5, |i: int| Correctness::Correct),
{
    assert(green_mask(w, w) =~= Seq::new(5, |i: int| Correctness::Correct));
    lemma_mark_misplaced_all_green(w, w, green_mask(w, w), green_used(w, w), 0);
}

/// A mask that is green everywhere leaves the second pass nothing to do.
proof fn lemma_mark_misplaced_all_green(
    answer: Seq<u8>,
    guess: Seq<u8>,
    mask: Seq<Correctness>,
    used: Seq<bool>,
    i: int,
)
    requires
        forall|k: int| 0 <= k < 5 ==> mask[k] == Correctness::Correct,
        0 <= i,
    ensures
        mark_misplaced(answer, guess, mask, used, i) == mask,
    decreases 5 - i,
{
    if i < 5 {
        lemma_mark_misplaced_all_green(answer, guess, mask, used, i + 1);
    }
}

} // verus!


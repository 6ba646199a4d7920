//! The candidate set of the entropy strategy: the words still consistent with
//! every round of feedback, each carrying its corpus frequency, together with
//! the weight sums the entropy score is built from and the first-wins
//! selection of a champion score.

use crate::{
    index_of_mask, lemma_index_round_trip, lemma_mask_round_trip, lemma_spec_compute_len,
    mask_of_index, spec_compute, Correctness, Guess, Pattern, Word,
};
use vstd::prelude::*;

verus! {

broadcast use vstd::array::group_array_axioms;

/// Whether candidate pair `p` (word and frequency) survives the feedback
/// `observed` earned by `guess`: it does iff the candidate, played as the
/// answer, would have produced exactly that feedback.
pub open spec fn keeps(p: (Word, usize), guess: Seq<u8>, observed: Seq<Correctness>) -> bool {
    spec_compute(p.0@, guess) == observed
}

/// The candidate pairs of `s` that survive the feedback, in their original
/// order.
pub open spec fn filtered(
    s: Seq<(Word, usize)>,
    guess: Seq<u8>,
    observed: Seq<Correctness>,
) -> Seq<(Word, usize)>
    decreases s.len(),
{
    if s.len() == 0 {
        Seq::empty()
    } else {
        let rest = filtered(s.drop_last(), guess, observed);
        if keeps(s.last(), guess, observed) {
            rest.push(s.last())
        } else {
            rest
        }
    }
}

/// The summed frequency weight of a candidate sequence.
pub open spec fn total_of(s: Seq<(Word, usize)>) -> int
    decreases s.len(),
{
    if s.len() == 0 {
        0
    } else {
        total_of(s.drop_last()) + s.last().1
    }
}

/// Filtering never grows the candidate sequence.
pub proof fn lemma_filtered_len(s: Seq<(Word, usize)>, guess: Seq<u8>, observed: Seq<Correctness>)
    ensures
        filtered(s, guess, observed).len() <= s.len(),
    decreases s.len(),
{
    if s.len() > 0 {
        lemma_filtered_len(s.drop_last(), guess, observed);
    }
}

/// Every pair that filtering keeps survives the feedback.
proof fn lemma_filtered_keeps(s: Seq<(Word, usize)>, guess: Seq<u8>, observed: Seq<Correctness>)
    ensures
        forall|k: int|
            0 <= k < filtered(s, guess, observed).len() ==> keeps(
                #[trigger] filtered(s, guess, observed)[k],
                guess,
                observed,
            ),
    decreases s.len(),
{
    if s.len() > 0 {
        lemma_filtered_keeps(s.drop_last(), guess, observed);
        let rest = filtered(s.drop_last(), guess, observed);
        assert forall|k: int|
            0 <= k < filtered(s, guess, observed).len() implies keeps(
            #[trigger] filtered(s, guess, observed)[k],
            guess,
            observed,
        ) by {
            if keeps(s.last(), guess, observed) {
                if k < rest.len() {
                    assert(filtered(s, guess, observed)[k] == rest[k]);
                } else {
                    assert(filtered(s, guess, observed)[k] == s.last());
                }
            } else {
                assert(filtered(s, guess, observed)[k] == rest[k]);
            }
        }
    }
}

/// Appending one pair adds exactly that pair's frequency to the total.
proof fn lemma_total_push(s: Seq<(Word, usize)>, p: (Word, usize))
    ensures
        total_of(s.push(p)) == total_of(s) + p.1,
{
    assert(s.push(p).drop_last() =~= s);
    assert(s.push(p).last() == p);
}

/// A sequence whose every pair survives the feedback is left whole by
/// filtering.
proof fn lemma_filtered_of_kept(s: Seq<(Word, usize)>, guess: Seq<u8>, observed: Seq<Correctness>)
    requires
        forall|k: int| 0 <= k < s.len() ==> keeps(#[trigger] s[k], guess, observed),
    ensures
        filtered(s, guess, observed) == s,
    decreases s.len(),
{
    if s.len() > 0 {
        assert(forall|k: int|
            0 <= k < s.drop_last().len() ==> keeps(#[trigger] s.drop_last()[k], guess, observed));
        lemma_filtered_of_kept(s.drop_last(), guess, observed);
        assert(s.drop_last().push(s.last()) =~= s);
    } else {
        assert(filtered(s, guess, observed) =~= s);
    }
}

/// Law: filtering retains a candidate pair exactly when it was already there
/// and its word, played as the answer, would have produced the observed
/// feedback.
pub proof fn lemma_filtered_membership(
    s: Seq<(Word, usize)>,
    guess: Seq<u8>,
    observed: Seq<Correctness>,
    p: (Word, usize),
)
    ensures
        filtered(s, guess, observed).contains(p) <==> (s.contains(p) && keeps(
            p,
            guess,
            observed,
        )),
    decreases s.len(),
{
    broadcast use vstd::seq_lib::lemma_seq_contains_after_push;

    if s.len() == 0 {
        assert(!filtered(s, guess, observed).contains(p));
        assert(!s.contains(p));
    } else {
        lemma_filtered_membership(s.drop_last(), guess, observed, p);
        assert(s.drop_last().push(s.last()) =~= s);
        assert(s.contains(p) <==> (s.drop_last().contains(p) || p == s.last()));
    }
}

/// Law: filtering twice with the same guess and feedback removes nothing the
/// first pass did not already remove.
pub proof fn lemma_filter_idempotent(
    s: Seq<(Word, usize)>,
    guess: Seq<u8>,
    observed: Seq<Correctness>,
)
    ensures
        filtered(filtered(s, guess, observed), guess, observed) == filtered(s, guess, observed),
{
    lemma_filtered_keeps(s, guess, observed);
    lemma_filtered_of_kept(filtered(s, guess, observed), guess, observed);
}

/// A frequency sum is never negative.
proof fn lemma_total_nonneg(s: Seq<(Word, usize)>)
    ensures
        total_of(s) >= 0,
    decreases s.len(),
{
    if s.len() > 0 {
        lemma_total_nonneg(s.drop_last());
    }
}

/// Extending a prefix by one pair adds exactly that pair's frequency.
proof fn lemma_total_take_step(s: Seq<(Word, usize)>, i: int)
    requires
        0 <= i < s.len(),
    ensures
        total_of(s.take(i + 1)) == total_of(s.take(i)) + s[i].1,
{
    assert(s.take(i + 1).drop_last() =~= s.take(i));
}

/// A prefix never weighs more than the whole sequence.
proof fn lemma_total_take_le(s: Seq<(Word, usize)>, i: int)
    requires
        0 <= i <= s.len(),
    ensures
        total_of(s.take(i)) <= total_of(s),
    decreases s.len() - i,
{
    if i == s.len() {
        assert(s.take(i) =~= s);
    } else {
        lemma_total_take_step(s, i);
        lemma_total_take_le(s, i + 1);
    }
}

/// The survivors of a filter never weigh more than the whole sequence.
proof fn lemma_filtered_total_le(
    s: Seq<(Word, usize)>,
    guess: Seq<u8>,
    observed: Seq<Correctness>,
)
    ensures
        total_of(filtered(s, guess, observed)) <= total_of(s),
    decreases s.len(),
{
    if s.len() > 0 {
        lemma_filtered_total_le(s.drop_last(), guess, observed);
        if keeps(s.last(), guess, observed) {
            lemma_total_push(filtered(s.drop_last(), guess, observed), s.last());
        }
    }
}

/// The summed weight of the pattern table's first `n` slots for `guess` over
/// the candidates `s`.
pub open spec fn weight_sum(s: Seq<(Word, usize)>, guess: Seq<u8>, n: int) -> int
    decreases n,
{
    if n <= 0 {
        0
    } else {
        weight_sum(s, guess, n - 1) + total_of(filtered(s, guess, mask_of_index(n - 1)))
    }
}

/// With no candidates, every slot weighs nothing.
proof fn lemma_weight_sum_empty(guess: Seq<u8>, n: int)
    requires
        n >= 0,
    ensures
        weight_sum(Seq::<(Word, usize)>::empty(), guess, n) == 0,
    decreases n,
{
    if n > 0 {
        lemma_weight_sum_empty(guess, n - 1);
    }
}

/// One more candidate pair adds its frequency to exactly the one slot whose
/// mask its word would produce against the guess.
proof fn lemma_weight_sum_step(s: Seq<(Word, usize)>, guess: Seq<u8>, n: int)
    requires
        s.len() > 0,
        0 <= n <= 243,
    ensures
        weight_sum(s, guess, n) == weight_sum(s.drop_last(), guess, n) + (
        if index_of_mask(spec_compute(s.last().0@, guess)) < n {
            s.last().1 as int
        } else {
            0
        }),
    decreases n,
{
    let m_star = spec_compute(s.last().0@, guess);
    let slot = index_of_mask(m_star);
    lemma_spec_compute_len(s.last().0@, guess);
    lemma_mask_round_trip(m_star);
    if n > 0 {
        lemma_weight_sum_step(s, guess, n - 1);
        if keeps(s.last(), guess, mask_of_index(n - 1)) {
            lemma_index_round_trip(n - 1);
            assert(n - 1 == slot);
            lemma_total_push(filtered(s.drop_last(), guess, mask_of_index(n - 1)), s.last());
        } else {
            assert(n - 1 != slot);
        }
    }
}

/// Law: for any guess, the weights of the 243 feedback patterns partition the
/// candidates' total weight: every candidate pair is counted under exactly
/// the one pattern its word would produce, so the pattern probabilities the
/// entropy score is built from sum to one.
pub proof fn lemma_weights_partition(s: Seq<(Word, usize)>, guess: Seq<u8>)
    ensures
        weight_sum(s, guess, 243) == total_of(s),
    decreases s.len(),
{
    if s.len() == 0 {
        lemma_weight_sum_empty(guess, 243);
        assert(s =~= Seq::<(Word, usize)>::empty());
    } else {
        lemma_weights_partition(s.drop_last(), guess);
        lemma_weight_sum_step(s, guess, 243);
        lemma_spec_compute_len(s.last().0@, guess);
        lemma_mask_round_trip(spec_compute(s.last().0@, guess));
    }
}

/// The working set of candidate words still consistent with every round of
/// feedback seen so far in one game, each with its corpus frequency.
pub struct OnceInit {
    remaining: Vec<(Word, usize)>,
}

impl View for OnceInit {
    type V = Seq<(Word, usize)>;

    closed spec fn view(&self) -> Seq<(Word, usize)> {
        self.remaining@
    }
}

impl OnceInit {
    /// Well-formed: the summed frequency weight fits a machine word, so every
    /// weight sum over the set can be computed exactly.
    pub open spec fn wf(&self) -> bool {
        total_of(self@) <= usize::MAX
    }

    /// Starts a game with the full corpus as the candidate set.
    pub fn new(corpus: Vec<(Word, usize)>) -> (s: Self)
        requires
            total_of(corpus@) <= usize::MAX,
        ensures
            s@ == corpus@,
            s.wf(),
    {
        OnceInit { remaining: corpus }
    }

    /// Removes every candidate that would not have produced `observed` when
    /// scored as the answer against `guess`. Survivors keep their order, and
    /// the set never grows. With the true answer in the corpus the set can
    /// never empty; a caller that sees `len` reach zero has caught an
    /// inconsistency between its corpus and its feedback and should fail hard
    /// rather than guess on.
    pub fn filter(&mut self, guess: Word, observed: &Pattern)
        requires
            old(self).wf(),
        ensures
            final(self)@ == filtered(old(self)@, guess@, observed@),
            final(self)@.len() <= old(self)@.len(),
            final(self).wf(),
    {
        let ghost orig = self.remaining@;
        let g = Guess { word: guess, mask: *observed };
        let mut kept: Vec<(Word, usize)> = Vec::new();
        let mut i: usize = 0;
        while i < self.remaining.len()
            invariant
                i <= self.remaining@.len(),
                self.remaining@ == orig,
                g.word == guess,
                g.mask == *observed,
                kept@ == filtered(orig.take(i as int), guess@, observed@),
            decreases self.remaining@.len() - i,
        {
            let p = self.remaining[i];
            proof {
                assert(orig.take(i as int + 1).drop_last() =~= orig.take(i as int));
                assert(orig.take(i as int + 1).last() == p);
            }
            if g.matches(p.0) {
                kept.push(p);
            }
            i = i + 1;
        }
        proof {
            assert(orig.take(orig.len() as int) =~= orig);
            lemma_filtered_len(orig, guess@, observed@);
            lemma_filtered_total_le(orig, guess@, observed@);
        }
        self.remaining = kept;
    }

    /// The summed frequency of all remaining candidates.
    pub fn total_weight(&self) -> (t: usize)
        requires
            self.wf(),
        ensures
            t as int == total_of(self@),
    {
        let mut acc: usize = 0;
        let mut i: usize = 0;
        while i < self.remaining.len()
            invariant
                i <= self.remaining@.len(),
                self.wf(),
                acc as int == total_of(self.remaining@.take(i as int)),
            decreases self.remaining@.len() - i,
        {
            proof {
                lemma_total_take_step(self.remaining@, i as int);
                lemma_total_take_le(self.remaining@, i as int + 1);
                lemma_total_nonneg(self.remaining@.take(i as int));
            }
            acc = acc + self.remaining[i].1;
            i = i + 1;
        }
        proof {
            assert(self.remaining@.take(self.remaining@.len() as int) =~= self.remaining@);
        }
        acc
    }

    /// The summed frequency of the remaining candidates that would yield
    /// feedback `pattern` if `guess` were played: the weight of `pattern` in
    /// the distribution that `guess` induces over the candidate set.
    pub fn pattern_weight(&self, guess: Word, pattern: &Pattern) -> (t: usize)
        requires
            self.wf(),
        ensures
            t as int == total_of(filtered(self@, guess@, pattern@)),
    {
        let g = Guess { word: guess, mask: *pattern };
        let mut acc: usize = 0;
        let mut i: usize = 0;
        while i < self.remaining.len()
            invariant
                i <= self.remaining@.len(),
                self.wf(),
                g.word == guess,
                g.mask == *pattern,
                acc as int == total_of(filtered(self.remaining@.take(i as int), guess@, pattern@)),
            decreases self.remaining@.len() - i,
        {
            let p = self.remaining[i];
            proof {
                assert(self.remaining@.take(i as int + 1).drop_last() =~= self.remaining@.take(
                    i as int,
                ));
                assert(self.remaining@.take(i as int + 1).last() == p);
                lemma_filtered_total_le(
                    self.remaining@.take(i as int + 1),
                    guess@,
                    pattern@,
                );
                lemma_total_take_le(self.remaining@, i as int + 1);
                lemma_total_nonneg(
                    filtered(self.remaining@.take(i as int), guess@, pattern@),
                );
                if keeps(p, guess@, pattern@) {
                    lemma_total_push(
                        filtered(self.remaining@.take(i as int), guess@, pattern@),
                        p,
                    );
                }
            }
            if g.matches(p.0) {
                acc = acc + p.1;
            }
            i = i + 1;
        }
        proof {
            assert(self.remaining@.take(self.remaining@.len() as int) =~= self.remaining@);
        }
        acc
    }

    /// How many candidates remain.
    pub fn len(&self) -> (n: usize)
        ensures
            n == self@.len(),
    {
        self.remaining.len()
    }

    /// The candidate word in slot `i`, in corpus order.
    pub fn word_at(&self, i: usize) -> (w: Word)
        requires
            i < self@.len(),
        ensures
            w == self@[i as int].0,
    {
        self.remaining[i].0
    }

    /// The frequency of the candidate in slot `i`.
    pub fn count_at(&self, i: usize) -> (c: usize)
        requires
            i < self@.len(),
        ensures
            c == self@[i as int].1,
    {
        self.remaining[i].1
    }
}

/// The slot of the first maximal score: a later score displaces the champion
/// only when strictly greater.
pub open spec fn argmax(s: Seq<u64>) -> int
    decreases s.len(),
{
    if s.len() <= 1 {
        0
    } else {
        let p = argmax(s.drop_last());
        if s.last() > s[p] {
            s.len() - 1
        } else {
            p
        }
    }
}

/// Law: the champion slot holds a maximal score, and every earlier slot is
/// strictly below it, so equal scores resolve to the earliest.
pub proof fn lemma_argmax_first_max(s: Seq<u64>)
    requires
        s.len() > 0,
    ensures
        0 <= argmax(s) < s.len(),
        forall|j: int| 0 <= j < s.len() ==> #[trigger] s[j] <= s[argmax(s)],
        forall|j: int| 0 <= j < argmax(s) ==> #[trigger] s[j] < s[argmax(s)],
    decreases s.len(),
{
    if s.len() > 1 {
        lemma_argmax_first_max(s.drop_last());
        assert(forall|j: int| 0 <= j < s.len() - 1 ==> s.drop_last()[j] == s[j]);
    }
}

/// The slot of the first maximal score among `scores`.
pub fn best_index(scores: &Vec<u64>) -> (i: usize)
    requires
        scores@.len() > 0,
    ensures
        i as int == argmax(scores@),
        i < scores@.len(),
{
    let mut best: usize = 0;
    let mut j: usize = 1;
    while j < scores.len()
        invariant
            1 <= j <= scores@.len(),
            best < j,
            best as int == argmax(scores@.take(j as int)),
        decreases scores@.len() - j,
    {
        proof {
            assert(scores@.take(j as int + 1).drop_last() =~= scores@.take(j as int));
            assert(scores@.take(j as int + 1).last() == scores@[j as int]);
        }
        if scores[j] > scores[best] {
            best = j;
        }
        j = j + 1;
    }
    proof {
        assert(scores@.take(scores@.len() as int) =~= scores@);
        lemma_argmax_first_max(scores@);
    }
    best
}

/// The bytes of the fixed opening word of the entropy strategy.
pub open spec fn opening() -> Seq<u8> {
    seq![116u8, 97u8, 114u8, 101u8, 115u8]
}

/// Law: the entropy strategy opens every game with the same fixed word, the
/// empirically best first guess over the full corpus, so no game recomputes
/// the invariant first round.
pub fn opening_word() -> (w: Word)
    ensures
        w@ == opening(),
{
    let w: Word = [116u8, 97u8, 114u8, 101u8, 115u8];
    proof {
        assert(w@ =~= opening());
    }
    w
}

} // verus!

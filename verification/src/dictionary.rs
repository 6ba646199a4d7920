//! Loading the word corpus: one line per word, five letters, a single space,
//! and a decimal frequency. The corpus is a trusted build-time asset, so any
//! malformed line is fatal at load time and nothing is loaded partially.

use crate::algorithms::once_init::total_of;
use crate::Word;
use vstd::prelude::*;

verus! {

broadcast use vstd::array::group_array_axioms;

/// Why a corpus text failed to load.
#[derive(Debug, Clone, Copy, PartialEq, Eq)]
pub enum LoadError {
    /// A line has no space to split the word from its frequency.
    MissingSeparator,
    /// The part before the first space is not exactly five letters.
    WrongWordLength,
    /// The part after the separator is empty, holds a non-digit, or names a
    /// number too large for a machine word.
    BadFrequency,
    /// The summed frequency of the whole corpus overflows a machine word, so
    /// weight totals could not be computed.
    TooHeavy,
}

/// Whether byte `b` is a decimal digit.
pub open spec fn is_digit(b: u8) -> bool {
    48 <= b <= 57
}

/// The value of one digit byte; a non-digit contributes nothing.
pub open spec fn digit_of(b: u8) -> int {
    if is_digit(b) {
        b - 48
    } else {
        0
    }
}

/// The number the decimal digits spell, most significant first.
pub open spec fn dec_value(s: Seq<u8>) -> int
    decreases s.len(),
{
    if s.len() == 0 {
        0
    } else {
        dec_value(s.drop_last()) * 10 + digit_of(s.last())
    }
}

/// A decimal value is never negative.
proof fn lemma_dec_value_nonneg(s: Seq<u8>)
    ensures
        dec_value(s) >= 0,
    decreases s.len(),
{
    if s.len() > 0 {
        lemma_dec_value_nonneg(s.drop_last());
    }
}

/// Reading more digits never shrinks the value.
proof fn lemma_dec_value_prefix_le(s: Seq<u8>, i: int)
    requires
        0 <= i <= s.len(),
    ensures
        dec_value(s.take(i)) <= dec_value(s),
    decreases s.len() - i,
{
    if i == s.len() {
        assert(s.take(i) =~= s);
    } else {
        assert(s.take(i + 1).drop_last() =~= s.take(i));
        lemma_dec_value_nonneg(s.take(i));
        lemma_dec_value_prefix_le(s, i + 1);
    }
}

/// The first position at or after `j` holding a space, if any.
pub open spec fn first_space(l: Seq<u8>, j: int) -> Option<int>
    decreases l.len() - j,
{
    if j < 0 || j >= l.len() {
        None
    } else if l[j] == 32 {
        Some(j)
    } else {
        first_space(l, j + 1)
    }
}

/// What one corpus line means: its five-letter word and its frequency, or why
/// the line is malformed.
pub open spec fn spec_parse_line(l: Seq<u8>) -> Result<(Seq<u8>, int), LoadError> {
    match first_space(l, 0) {
        None => Err(LoadError::MissingSeparator),
        Some(s) => if s != 5 {
            Err(LoadError::WrongWordLength)
        } else if l.len() <= 6 || (exists|k: int| 6 <= k < l.len() && !is_digit(l[k])) {
            Err(LoadError::BadFrequency)
        } else if dec_value(l.skip(6)) > usize::MAX {
            Err(LoadError::BadFrequency)
        } else {
            Ok((l.take(5), dec_value(l.skip(6))))
        },
    }
}

/// The lines of `t`, split at every newline; a trailing newline closes the
/// last line rather than opening an empty one. `cur` is the line under
/// construction.
pub open spec fn split_from(t: Seq<u8>, cur: Seq<u8>) -> Seq<Seq<u8>>
    decreases t.len(),
{
    if t.len() == 0 {
        if cur.len() == 0 {
            Seq::empty()
        } else {
            seq![cur]
        }
    } else if t.first() == 10 {
        seq![cur] + split_from(t.skip(1), Seq::empty())
    } else {
        split_from(t.skip(1), cur.push(t.first()))
    }
}

/// The lines of a whole corpus text.
pub open spec fn spec_lines(t: Seq<u8>) -> Seq<Seq<u8>> {
    split_from(t, Seq::empty())
}

/// What a sequence of lines means: every line parsed in order, or the error
/// of the first malformed one.
pub open spec fn spec_parse_lines(ls: Seq<Seq<u8>>) -> Result<Seq<(Seq<u8>, int)>, LoadError>
    decreases ls.len(),
{
    if ls.len() == 0 {
        Ok(Seq::empty())
    } else {
        match spec_parse_line(ls.first()) {
            Err(e) => Err(e),
            Ok(p) => match spec_parse_lines(ls.skip(1)) {
                Err(e) => Err(e),
                Ok(rest) => Ok(seq![p] + rest),
            },
        }
    }
}

/// The summed frequency of parsed corpus pairs.
pub open spec fn total_values(ps: Seq<(Seq<u8>, int)>) -> int
    decreases ps.len(),
{
    if ps.len() == 0 {
        0
    } else {
        total_values(ps.drop_last()) + ps.last().1
    }
}

/// What a whole corpus text means: all its lines parsed, provided their
/// summed frequency fits a machine word.
pub open spec fn spec_load(t: Seq<u8>) -> Result<Seq<(Seq<u8>, int)>, LoadError> {
    match spec_parse_lines(spec_lines(t)) {
        Err(e) => Err(e),
        Ok(ps) => if total_values(ps) <= usize::MAX {
            Ok(ps)
        } else {
            Err(LoadError::TooHeavy)
        },
    }
}

/// The mathematical reading of an executable corpus: each word as its byte
/// sequence, each frequency as an integer.
pub open spec fn pairs_view(v: Seq<(Word, usize)>) -> Seq<(Seq<u8>, int)> {
    Seq::new(v.len(), |i: int| (v[i].0@, v[i].1 as int))
}

/// Appending one parsed pair adds exactly its frequency.
proof fn lemma_total_values_push(ps: Seq<(Seq<u8>, int)>, q: (Seq<u8>, int))
    ensures
        total_values(ps.push(q)) == total_values(ps) + q.1,
{
    assert(ps.push(q).drop_last() =~= ps);
    assert(ps.push(q).last() == q);
}

/// The mathematical reading of a corpus weighs exactly what the corpus does.
proof fn lemma_total_values_view(v: Seq<(Word, usize)>)
    ensures
        total_values(pairs_view(v)) == total_of(v),
    decreases v.len(),
{
    if v.len() > 0 {
        lemma_total_values_view(v.drop_last());
        assert(pairs_view(v).drop_last() =~= pairs_view(v.drop_last()));
    } else {
        assert(pairs_view(v) =~= Seq::<(Seq<u8>, int)>::empty());
    }
}

/// The first space of the line, if any.
fn find_space(l: &Vec<u8>) -> (r: Option<usize>)
    ensures
        match r {
            Some(j) => j < l@.len() && first_space(l@, 0) == Some(j as int),
            None => first_space(l@, 0) is None,
        },
{
    let mut j: usize = 0;
    while j < l.len()
        invariant
            j <= l@.len(),
            first_space(l@, 0) == first_space(l@, j as int),
        decreases l@.len() - j,
    {
        if l[j] == 32 {
            return Some(j);
        }
        j = j + 1;
    }
    None
}

/// Parses one corpus line into its word and frequency, exactly as
/// `spec_parse_line` reads it.
pub fn parse_line(l: &Vec<u8>) -> (r: Result<(Word, usize), LoadError>)
    ensures
        match r {
            Ok(p) => spec_parse_line(l@) == Ok::<(Seq<u8>, int), LoadError>((p.0@, p.1 as int)),
            Err(e) => spec_parse_line(l@) == Err::<(Seq<u8>, int), LoadError>(e),
        },
{
    let sep = find_space(l);
    match sep {
        None => Err(LoadError::MissingSeparator),
        Some(s) => {
            if s != 5 {
                return Err(LoadError::WrongWordLength);
            }
            if l.len() <= 6 {
                return Err(LoadError::BadFrequency);
            }
            let ghost digits = l@.skip(6);
            let mut v: u128 = 0;
            let mut k: usize = 6;
            while k < l.len()
                invariant
                    6 <= k <= l@.len(),
                    l@.len() > 6,
                    first_space(l@, 0) == Some(5int),
                    digits == l@.skip(6),
                    forall|t: int| 6 <= t < k ==> is_digit(#[trigger] l@[t]),
                    v as int == dec_value(digits.take(k - 6)),
                    v <= usize::MAX as u128,
                decreases l@.len() - k,
            {
                let b = l[k];
                if b < 48 || b > 57 {
                    proof {
                        assert(!is_digit(l@[k as int]));
                        assert(exists|t: int| 6 <= t < l@.len() && !is_digit(l@[t]));
                    }
                    return Err(LoadError::BadFrequency);
                }
                proof {
                    assert(digits[k - 6] == l@[k as int]);
                    assert(digits.take(k - 6 + 1).drop_last() =~= digits.take(k - 6));
                    assert(digits.take(k - 6 + 1).last() == l@[k as int]);
                }
                v = v * 10 + ((b - 48) as u128);
                if v > (usize::MAX as u128) {
                    proof {
                        assert(v as int == dec_value(digits.take(k - 6 + 1)));
                        lemma_dec_value_prefix_le(digits, k - 6 + 1);
                        assert(dec_value(l@.skip(6)) > usize::MAX);
                    }
                    return Err(LoadError::BadFrequency);
                }
                k = k + 1;
            }
            proof {
                assert(digits.take(l@.len() - 6) =~= digits);
            }
            let w: Word = [l[0], l[1], l[2], l[3], l[4]];
            proof {
                assert(w@ =~= l@.take(5));
            }
            Ok((w, v as usize))
        },
    }
}

/// Splits the corpus text into its lines, exactly as `spec_lines` reads it.
fn lines_of(text: &Vec<u8>) -> (r: Vec<Vec<u8>>)
    ensures
        r.deep_view() == spec_lines(text@),
{
    let mut out: Vec<Vec<u8>> = Vec::new();
    let mut cur: Vec<u8> = Vec::new();
    let mut i: usize = 0;
    proof {
        assert(out.deep_view() =~~= Seq::<Seq<u8>>::empty());
        assert(text@.skip(0) =~= text@);
        assert(Seq::<Seq<u8>>::empty() + split_from(text@, Seq::<u8>::empty()) =~~= split_from(
            text@,
            Seq::<u8>::empty(),
        ));
    }
    while i < text.len()
        invariant
            i <= text@.len(),
            spec_lines(text@) == out.deep_view() + split_from(text@.skip(i as int), cur@),
        decreases text@.len() - i,
    {
        let b = text[i];
        proof {
            assert(text@.skip(i as int).first() == b);
            assert(text@.skip(i as int).skip(1) =~= text@.skip(i as int + 1));
        }
        if b == 10 {
            let ghost old_out = out.deep_view();
            let ghost old_cur = cur@;
            out.push(cur);
            cur = Vec::new();
            proof {
                assert(out.deep_view() =~~= old_out.push(old_cur));
                assert(old_out + (seq![old_cur] + split_from(
                    text@.skip(i as int + 1),
                    Seq::empty(),
                )) =~~= out.deep_view() + split_from(text@.skip(i as int + 1), cur@));
            }
        } else {
            cur.push(b);
        }
        i = i + 1;
    }
    proof {
        assert(text@.skip(text@.len() as int) =~= Seq::<u8>::empty());
    }
    if cur.len() > 0 {
        let ghost old_out = out.deep_view();
        let ghost old_cur = cur@;
        out.push(cur);
        proof {
            assert(out.deep_view() =~~= old_out.push(old_cur));
            assert(old_out + seq![old_cur] =~~= out.deep_view());
        }
    } else {
        proof {
            assert(out.deep_view() + Seq::<Seq<u8>>::empty() =~~= out.deep_view());
        }
    }
    out
}

/// Parses a whole corpus text, exactly as `spec_load` reads it: every line a
/// five-letter word, a space and a decimal frequency, with the summed
/// frequency fitting a machine word. On success the corpus comes back in file
/// order, ready to open a game with.
pub fn parse_dictionary(text: &Vec<u8>) -> (r: Result<Vec<(Word, usize)>, LoadError>)
    ensures
        match r {
            Ok(v) => spec_load(text@) == Ok::<Seq<(Seq<u8>, int)>, LoadError>(pairs_view(v@))
                && total_of(v@) <= usize::MAX,
            Err(e) => spec_load(text@) == Err::<Seq<(Seq<u8>, int)>, LoadError>(e),
        },
{
    let lines = lines_of(text);
    let ghost ls = lines.deep_view();
    let mut acc: Vec<(Word, usize)> = Vec::new();
    let mut total: usize = 0;
    let mut heavy: bool = false;
    let mut i: usize = 0;
    proof {
        assert(pairs_view(acc@) =~~= Seq::<(Seq<u8>, int)>::empty());
        assert(ls.skip(0) =~~= ls);
        let sp = spec_parse_lines(ls);
        if sp is Ok {
            assert(Seq::<(Seq<u8>, int)>::empty() + sp->Ok_0 =~~= sp->Ok_0);
        }
    }
    while i < lines.len()
        invariant
            i <= ls.len(),
            lines.deep_view() == ls,
            lines@.len() == ls.len(),
            ls == spec_lines(text@),
            spec_parse_lines(ls) == (match spec_parse_lines(ls.skip(i as int)) {
                Ok(rest) => Ok::<Seq<(Seq<u8>, int)>, LoadError>(pairs_view(acc@) + rest),
                Err(e) => Err(e),
            }),
            heavy ==> total_values(pairs_view(acc@)) > usize::MAX,
            !heavy ==> total as int == total_values(pairs_view(acc@)),
        decreases ls.len() - i,
    {
        let line = &lines[i];
        proof {
            assert(line@ == ls[i as int]);
            assert(ls.skip(i as int).first() == ls[i as int]);
            assert(ls.skip(i as int).skip(1) =~~= ls.skip(i as int + 1));
        }
        match parse_line(line) {
            Err(e) => {
                return Err(e);
            },
            Ok(p) => {
                let ghost old_pairs = pairs_view(acc@);
                let ghost q = (p.0@, p.1 as int);
                proof {
                    lemma_total_values_push(old_pairs, q);
                }
                if !heavy {
                    if p.1 > usize::MAX - total {
                        heavy = true;
                    } else {
                        total = total + p.1;
                    }
                }
                acc.push(p);
                proof {
                    assert(pairs_view(acc@) =~~= old_pairs.push(q));
                    let sp = spec_parse_lines(ls.skip(i as int + 1));
                    if sp is Ok {
                        let rest = sp->Ok_0;
                        assert(old_pairs + (seq![q] + rest) =~~= pairs_view(acc@) + rest);
                    }
                }
            },
        }
        i = i + 1;
    }
    proof {
        assert(ls.skip(ls.len() as int) =~= Seq::<Seq<u8>>::empty());
        assert(pairs_view(acc@) + Seq::<(Seq<u8>, int)>::empty() =~~= pairs_view(acc@));
    }
    if heavy {
        return Err(LoadError::TooHeavy);
    }
    proof {
        lemma_total_values_view(acc@);
    }
    Ok(acc)
}

} // verus!

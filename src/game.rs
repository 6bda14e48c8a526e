use vstd::prelude::*;
use crate::types::{CharAlignment, WordMatch};
use crate::matcher::{alignments, match_word};
use crate::text::{chars_of, same_chars};

verus! {

/// Why a guess was refused.
#[derive(Copy, Clone, Debug, PartialEq, Eq, Structural)]
pub enum InvalidationReason {
    WrongLength,
    UnknownWord,
    RepeatWord,
}

/// Whether an accepted guess hit the target.
#[derive(Copy, Clone, Debug, PartialEq, Eq, Structural)]
pub enum GuessResult {
    Correct,
    Wrong,
}

/// The outcome of submitting a guess.
#[derive(Debug)]
pub enum WordValidation {
    Invalid(InvalidationReason, String),
    Valid(GuessResult, WordMatch),
}

/// Why a game ends, if it does.
#[derive(Copy, Clone, Debug, PartialEq, Eq, Structural)]
pub enum GameEndTriggers {
    Timeout,
    NoTriesLeft,
    StillPlaying,
}

/// Whether the game goes on, given whether its time ran out, its budget of
/// tries (if any) and the number of guesses made.
pub fn end_trigger(time_expired: bool, tries: Option<usize>, guesses_made: usize) -> (r:
    GameEndTriggers)
    ensures
        r == (if time_expired {
            GameEndTriggers::Timeout
        } else if tries is Some && guesses_made >= tries->0 {
            GameEndTriggers::NoTriesLeft
        } else {
            GameEndTriggers::StillPlaying
        }),
{
    if time_expired {
        return GameEndTriggers::Timeout;
    }
    match tries {
        Some(t) => {
            if guesses_made >= t {
                return GameEndTriggers::NoTriesLeft;
            }
        },
        None => {},
    }
    GameEndTriggers::StillPlaying
}

/// The words of earlier guesses.
pub open spec fn guessed_views(prev: Seq<WordMatch>) -> Seq<Seq<char>> {
    Seq::new(prev.len(), |k: int| prev[k].word@)
}

fn was_guessed(prev: &Vec<WordMatch>, w: &Vec<char>) -> (r: bool)
    ensures
        r == guessed_views(prev@).contains(w@),
{
    let ghost views = guessed_views(prev@);
    let mut k: usize = 0;
    while k < prev.len()
        invariant
            views == guessed_views(prev@),
            k <= prev.len(),
            forall|j: int| 0 <= j < k ==> views[j] != w@,
        decreases prev.len() - k,
    {
        let y = chars_of(prev[k].word.as_str());
        if same_chars(w, &y) {
            assert(views[k as int] == w@);
            return true;
        }
        k += 1;
    }
    false
}

/// Judges a guess against the target: refused when its length is outside
/// `word_size` or differs from the target's, when it is not a known word
/// (`known`), or when it was guessed before (`prev`); otherwise accepted with
/// its feedback, correct exactly when it is the target.
pub fn judge_guess(
    guessed_word: &str,
    target_word: &str,
    word_size: (usize, usize),
    known: bool,
    prev: &Vec<WordMatch>,
) -> (r: WordValidation)
    ensures
        match r {
            WordValidation::Invalid(reason, w) => {
                &&& w@ == guessed_word@
                &&& reason == if guessed_word@.len() < word_size.0 || guessed_word@.len()
                    > word_size.1 || guessed_word@.len() != target_word@.len() {
                    InvalidationReason::WrongLength
                } else if !known {
                    InvalidationReason::UnknownWord
                } else {
                    InvalidationReason::RepeatWord
                }
                &&& reason == InvalidationReason::RepeatWord ==> guessed_views(prev@).contains(
                    guessed_word@,
                )
            },
            WordValidation::Valid(result, m) => {
                &&& word_size.0 <= guessed_word@.len() <= word_size.1
                &&& guessed_word@.len() == target_word@.len()
                &&& known
                &&& !guessed_views(prev@).contains(guessed_word@)
                &&& m.word@ == guessed_word@
                &&& m.aligns@ == alignments(target_word@, guessed_word@)
                &&& (result == GuessResult::Correct <==> guessed_word@ == target_word@)
            },
        },
{
    let g = chars_of(guessed_word);
    let t = chars_of(target_word);
    if g.len() < word_size.0 || g.len() > word_size.1 || g.len() != t.len() {
        return WordValidation::Invalid(InvalidationReason::WrongLength, guessed_word.to_owned());
    }
    if !known {
        return WordValidation::Invalid(InvalidationReason::UnknownWord, guessed_word.to_owned());
    }
    if was_guessed(prev, &g) {
        return WordValidation::Invalid(InvalidationReason::RepeatWord, guessed_word.to_owned());
    }
    let m = match_word(target_word, guessed_word);
    if same_chars(&t, &g) {
        WordValidation::Valid(GuessResult::Correct, m)
    } else {
        WordValidation::Valid(GuessResult::Wrong, m)
    }
}

/// A mutator that hands feedback on unchanged.
#[derive(Debug, Default)]
pub struct NoopMutator {}

impl NoopMutator {
    pub fn mutate(&mut self, cmatch: CharAlignment) -> (r: CharAlignment)
        ensures
            r == cmatch,
    {
        cmatch
    }
}

/// Corrupts one alignment, given the random draws already made: `flip`
/// decides whether it changes at all, `coin` which way a misplaced one goes.
/// An exact or a not-found alignment becomes misplaced; a misplaced one
/// becomes exact on heads and not found on tails.
pub fn mutated(cmatch: CharAlignment, flip: bool, coin: bool) -> (r: CharAlignment)
    ensures
        r == (if !flip {
            cmatch
        } else {
            match cmatch {
                CharAlignment::Misplaced => if coin {
                    CharAlignment::Exact
                } else {
                    CharAlignment::NotFound
                },
                _ => CharAlignment::Misplaced,
            }
        }),
{
    if !flip {
        return cmatch;
    }
    match cmatch {
        CharAlignment::Exact => CharAlignment::Misplaced,
        CharAlignment::NotFound => CharAlignment::Misplaced,
        CharAlignment::Misplaced => if coin {
            CharAlignment::Exact
        } else {
            CharAlignment::NotFound
        },
    }
}

} // verus!

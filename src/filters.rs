use vstd::prelude::*;
use crate::types::{CharAlignment, CharMatch, WordMatch, pair_up};
use crate::text::{chars_of, contains_char};
use crate::matcher::{alignments, open_guesses, open_targets};

verus! {

/// Constraints on candidate words derived from one round of feedback.
#[derive(Debug)]
pub struct PosFilterCriteria {
    /// The letter required at each position, where one is known.
    pub pos: Vec<Option<char>>,
    /// The letters ruled out at each position.
    pub nopos: Vec<Vec<char>>,
    /// Letters known to occur somewhere in the word.
    pub inc: Vec<char>,
    /// Letters known not to occur anywhere in the word.
    pub exc: Vec<char>,
    /// The accepted range of word lengths, both ends included.
    pub size: (usize, usize),
}

/// Some guessed occurrence of `x` was found in the target (exact or misplaced).
pub open spec fn confirmed(ms: Seq<CharMatch>, x: char) -> bool {
    exists|k: int| 0 <= k < ms.len() && ms[k].c == x && ms[k].align != CharAlignment::NotFound
}

/// Some guessed occurrence of `x` was not found, and none was found.
pub open spec fn ruled_out(ms: Seq<CharMatch>, x: char) -> bool {
    (exists|k: int| 0 <= k < ms.len() && ms[k].c == x && ms[k].align == CharAlignment::NotFound)
        && !confirmed(ms, x)
}

/// `w` could be the target word, as far as the feedback `ms` tells.
pub open spec fn consistent(ms: Seq<CharMatch>, w: Seq<char>) -> bool {
    &&& w.len() == ms.len()
    &&& forall|x: char| confirmed(ms, x) ==> w.contains(x)
    &&& forall|x: char| ruled_out(ms, x) ==> !w.contains(x)
    &&& forall|i: int|
        0 <= i < ms.len() && ms[i].align == CharAlignment::Exact ==> w[i] == ms[i].c
    &&& forall|i: int|
        0 <= i < ms.len() && ms[i].align != CharAlignment::Exact ==> w[i] != ms[i].c
}

/// `w` meets every constraint held in `f`.
pub open spec fn admits(f: PosFilterCriteria, w: Seq<char>) -> bool {
    &&& f.size.0 <= w.len() <= f.size.1
    &&& forall|k: int| 0 <= k < f.inc@.len() ==> w.contains(#[trigger] f.inc@[k])
    &&& forall|k: int| 0 <= k < f.exc@.len() ==> !w.contains(#[trigger] f.exc@[k])
    &&& forall|i: int|
        0 <= i < f.pos@.len() && i < w.len() ==> (#[trigger] f.pos@[i] is None || f.pos@[i]
            == Some(w[i]))
    &&& forall|i: int, k: int|
        0 <= i < f.nopos@.len() && i < w.len() && 0 <= k < f.nopos@[i]@.len() ==> (
        #[trigger] f.nopos@[i]@[k]) != w[i]
}

pub open spec fn required_at(m: CharMatch) -> Option<char> {
    if m.align == CharAlignment::Exact {
        Some(m.c)
    } else {
        None
    }
}

pub open spec fn banned_at(m: CharMatch) -> Seq<char> {
    if m.align == CharAlignment::Exact {
        Seq::empty()
    } else {
        seq![m.c]
    }
}

/// The letters of the matches that satisfy `keep`, in order.
pub open spec fn letters_where(ms: Seq<CharMatch>, keep: spec_fn(CharMatch) -> bool) -> Seq<char>
    decreases ms.len(),
{
    if ms.len() == 0 {
        Seq::empty()
    } else {
        let rest = letters_where(ms.drop_last(), keep);
        if keep(ms.last()) {
            rest.push(ms.last().c)
        } else {
            rest
        }
    }
}

/// The letters found somewhere (exact or misplaced), in order.
pub open spec fn found_letters(ms: Seq<CharMatch>) -> Seq<char> {
    letters_where(ms, |m: CharMatch| m.align != CharAlignment::NotFound)
}

/// The letters not found, skipping those found elsewhere, in order.
pub open spec fn missing_letters(ms: Seq<CharMatch>) -> Seq<char> {
    letters_where(
        ms,
        |m: CharMatch| m.align == CharAlignment::NotFound && !confirmed(ms, m.c),
    )
}

impl PosFilterCriteria {
    /// The constraints that the feedback `matches` places on the target word.
    pub fn from_matches(matches: &[CharMatch]) -> (r: Self)
        ensures
            r.size == (matches@.len() as usize, matches@.len() as usize),
            r.pos@ == Seq::new(matches@.len(), |i: int| required_at(matches@[i])),
            r.nopos@.len() == matches@.len(),
            forall|i: int| 0 <= i < matches@.len() ==> r.nopos@[i]@ == banned_at(matches@[i]),
            r.inc@ == found_letters(matches@),
            r.exc@ == missing_letters(matches@),
            forall|x: char| r.inc@.contains(x) <==> confirmed(matches@, x),
            forall|x: char| r.exc@.contains(x) <==> ruled_out(matches@, x),
            forall|w: Seq<char>| admits(r, w) <==> consistent(matches@, w),
    {
        let n = matches.len();
        let ghost ms = matches@;
        let mut pos: Vec<Option<char>> = Vec::new();
        let mut nopos: Vec<Vec<char>> = Vec::new();
        let mut inc: Vec<char> = Vec::new();
        let mut i: usize = 0;
        while i < n
            invariant
                n == ms.len(),
                ms == matches@,
                i <= n,
                pos@ == Seq::new(i as nat, |j: int| required_at(ms[j])),
                inc@ == found_letters(ms.subrange(0, i as int)),
                nopos@.len() == i,
                forall|j: int| 0 <= j < i ==> nopos@[j]@ == banned_at(ms[j]),
                forall|x: char|
                    inc@.contains(x) <==> exists|k: int|
                        0 <= k < i && ms[k].c == x && ms[k].align != CharAlignment::NotFound,
            decreases n - i,
        {
            let m = matches[i];
            proof {
                assert(ms.subrange(0, i + 1).drop_last() =~= ms.subrange(0, i as int));
                assert(ms.subrange(0, i + 1).last() == ms[i as int]);
            }
            if m.align == CharAlignment::Exact {
                pos.push(Some(m.c));
                nopos.push(Vec::new());
            } else {
                pos.push(None);
                let mut banned: Vec<char> = Vec::new();
                banned.push(m.c);
                assert(banned@ =~= seq![m.c]);
                nopos.push(banned);
            }
            let ghost before = inc@;
            if m.align != CharAlignment::NotFound {
                inc.push(m.c);
            }
            proof {
                assert forall|x: char|
                    inc@.contains(x) <==> exists|k: int|
                        0 <= k < i + 1 && ms[k].c == x && ms[k].align
                            != CharAlignment::NotFound by {
                    if inc@.contains(x) {
                        let t = choose|t: int| 0 <= t < inc@.len() && inc@[t] == x;
                        if t < before.len() {
                            assert(before[t] == x);
                            assert(before.contains(x));
                        } else {
                            assert(ms[i as int].c == x);
                        }
                    }
                    if exists|k: int|
                        0 <= k < i + 1 && ms[k].c == x && ms[k].align != CharAlignment::NotFound {
                        let k = choose|k: int|
                            0 <= k < i + 1 && ms[k].c == x && ms[k].align
                                != CharAlignment::NotFound;
                        if k == i {
                            assert(inc@[inc@.len() - 1] == x);
                        } else {
                            assert(before.contains(x));
                            let t = choose|t: int| 0 <= t < before.len() && before[t] == x;
                            assert(inc@[t] == x);
                        }
                    }
                }
            }
            i += 1;
            assert(pos@ =~= Seq::new(i as nat, |j: int| required_at(ms[j])));
        }
        assert(ms.subrange(0, n as int) =~= ms);
        let mut exc: Vec<char> = Vec::new();
        let mut i: usize = 0;
        while i < n
            invariant
                n == ms.len(),
                ms == matches@,
                i <= n,
                forall|x: char| inc@.contains(x) <==> confirmed(ms, x),
                inc@ == found_letters(ms),
                exc@ == letters_where(
                    ms.subrange(0, i as int),
                    |m: CharMatch| m.align == CharAlignment::NotFound && !confirmed(ms, m.c),
                ),
                forall|x: char|
                    #[trigger] exc@.contains(x) <==> (exists|k: int|
                        0 <= k < i && ms[k].c == x && ms[k].align == CharAlignment::NotFound)
                        && !confirmed(ms, x),
            decreases n - i,
        {
            let m = matches[i];
            proof {
                assert(ms.subrange(0, i + 1).drop_last() =~= ms.subrange(0, i as int));
                assert(ms.subrange(0, i + 1).last() == ms[i as int]);
            }
            let ghost before = exc@;
            let fresh = m.align == CharAlignment::NotFound && !contains_char(&inc, m.c);
            if fresh {
                exc.push(m.c);
            }
            proof {
                assert forall|x: char|
                    #[trigger] exc@.contains(x) <==> (exists|k: int|
                        0 <= k < i + 1 && ms[k].c == x && ms[k].align == CharAlignment::NotFound)
                        && !confirmed(ms, x) by {
                    if exc@.contains(x) {
                        let t = choose|t: int| 0 <= t < exc@.len() && exc@[t] == x;
                        if t < before.len() {
                            assert(before[t] == x);
                            assert(before.contains(x));
                            assert(exists|k: int|
                                0 <= k < i && ms[k].c == x && ms[k].align
                                    == CharAlignment::NotFound);
                            let k0 = choose|k: int|
                                0 <= k < i && ms[k].c == x && ms[k].align
                                    == CharAlignment::NotFound;
                            assert(0 <= k0 < i + 1 && ms[k0].c == x);
                        } else {
                            assert(fresh);
                            assert(ms[i as int].c == x);
                            assert(ms[i as int].align == CharAlignment::NotFound);
                            assert(!confirmed(ms, x));
                        }
                    }
                    if (exists|k: int|
                        0 <= k < i + 1 && ms[k].c == x && ms[k].align == CharAlignment::NotFound)
                        && !confirmed(ms, x) {
                        let k = choose|k: int|
                            0 <= k < i + 1 && ms[k].c == x && ms[k].align
                                == CharAlignment::NotFound;
                        if k == i {
                            assert(!inc@.contains(x));
                            assert(fresh);
                            assert(exc@[exc@.len() - 1] == x);
                        } else {
                            assert(before.contains(x));
                            let t = choose|t: int| 0 <= t < before.len() && before[t] == x;
                            assert(exc@[t] == x);
                        }
                    }
                }
            }
            i += 1;
        }
        assert(ms.subrange(0, n as int) =~= ms);
        let r = PosFilterCriteria { pos, nopos, inc, exc, size: (n, n) };
        proof {
            lemma_admits_iff_consistent(r, ms);
        }
        r
    }
}

impl PosFilterCriteria {
    /// The constraints that the feedback in `m` places on the target word.
    pub fn from_word_match(m: &WordMatch) -> (r: Self)
        ensures
            forall|w: Seq<char>|
                admits(r, w) <==> consistent(pair_up(m.word@, m.aligns@), w),
    {
        let ms = m.char_matches();
        Self::from_matches(ms.as_slice())
    }

    /// Whether `word` meets every constraint.
    pub fn check(&self, word: &str) -> (r: bool)
        ensures
            r == admits(*self, word@),
    {
        let w = chars_of(word);
        if w.len() < self.size.0 || w.len() > self.size.1 {
            return false;
        }
        let mut k: usize = 0;
        while k < self.inc.len()
            invariant
                w@ == word@,
                self.size.0 <= w@.len() <= self.size.1,
                k <= self.inc.len(),
                forall|j: int| 0 <= j < k ==> w@.contains(#[trigger] self.inc@[j]),
            decreases self.inc.len() - k,
        {
            if !contains_char(&w, self.inc[k]) {
                assert(!word@.contains(self.inc@[k as int]));
                return false;
            }
            k += 1;
        }
        let mut k: usize = 0;
        while k < self.exc.len()
            invariant
                w@ == word@,
                self.size.0 <= w@.len() <= self.size.1,
                forall|j: int| 0 <= j < self.inc@.len() ==> w@.contains(#[trigger] self.inc@[j]),
                k <= self.exc.len(),
                forall|j: int| 0 <= j < k ==> !w@.contains(#[trigger] self.exc@[j]),
            decreases self.exc.len() - k,
        {
            if contains_char(&w, self.exc[k]) {
                assert(word@.contains(self.exc@[k as int]));
                return false;
            }
            k += 1;
        }
        let mut i: usize = 0;
        while i < self.pos.len() && i < w.len()
            invariant
                w@ == word@,
                self.size.0 <= w@.len() <= self.size.1,
                forall|j: int| 0 <= j < self.inc@.len() ==> w@.contains(#[trigger] self.inc@[j]),
                forall|j: int| 0 <= j < self.exc@.len() ==> !w@.contains(#[trigger] self.exc@[j]),
                i <= self.pos.len(),
                forall|j: int|
                    0 <= j < i && j < w@.len() ==> (#[trigger] self.pos@[j] is None
                        || self.pos@[j] == Some(w@[j])),
            decreases self.pos.len() - i,
        {
            match self.pos[i] {
                Some(c) => {
                    if c != w[i] {
                        assert(self.pos@[i as int] != Some(word@[i as int]));
                        return false;
                    }
                },
                None => {},
            }
            i += 1;
        }
        let mut i: usize = 0;
        while i < self.nopos.len() && i < w.len()
            invariant
                w@ == word@,
                self.size.0 <= w@.len() <= self.size.1,
                forall|j: int| 0 <= j < self.inc@.len() ==> w@.contains(#[trigger] self.inc@[j]),
                forall|j: int| 0 <= j < self.exc@.len() ==> !w@.contains(#[trigger] self.exc@[j]),
                forall|j: int|
                    0 <= j < self.pos@.len() && j < w@.len() ==> (#[trigger] self.pos@[j] is None
                        || self.pos@[j] == Some(w@[j])),
                i <= self.nopos.len(),
                forall|j: int, k: int|
                    0 <= j < i && j < w@.len() && 0 <= k < self.nopos@[j]@.len() ==> (
                    #[trigger] self.nopos@[j]@[k]) != w@[j],
            decreases self.nopos.len() - i,
        {
            let banned = &self.nopos[i];
            let mut k: usize = 0;
            while k < banned.len()
                invariant
                    w@ == word@,
                    i < self.nopos.len(),
                    i < w.len(),
                    banned@ == self.nopos@[i as int]@,
                    k <= banned.len(),
                    forall|j: int| 0 <= j < k ==> (#[trigger] banned@[j]) != w@[i as int],
                decreases banned.len() - k,
            {
                if banned[k] == w[i] {
                    assert(self.nopos@[i as int]@[k as int] == word@[i as int]);
                    return false;
                }
                k += 1;
            }
            i += 1;
        }
        true
    }
}

/// Another name for the positional filter criteria.
pub type FilterCriteria = PosFilterCriteria;

/// Whether `word` meets every constraint in `criteria`.
pub fn is_viable_word(word: &str, criteria: &FilterCriteria) -> (r: bool)
    ensures
        r == admits(*criteria, word@),
{
    criteria.check(word)
}

/// The words of `pool` that the feedback (`word`, `aligns`) leaves possible,
/// in the order of the pool.
pub open spec fn narrowed(pool: Seq<&str>, word: Seq<char>, aligns: Seq<CharAlignment>) -> Seq<
    &str,
> {
    pool.filter(|w: &str| consistent(pair_up(word, aligns), w@))
}

/// The words of `pool` that remain possible after the feedback `m`.
pub fn narrow<'a>(pool: &Vec<&'a str>, m: &WordMatch) -> (r: Vec<&'a str>)
    ensures
        r@ == narrowed(pool@, m.word@, m.aligns@),
{
    let filter = PosFilterCriteria::from_word_match(m);
    let ghost pred = |w: &str| consistent(pair_up(m.word@, m.aligns@), w@);
    let mut kept: Vec<&'a str> = Vec::new();
    let mut i: usize = 0;
    while i < pool.len()
        invariant
            pred == (|w: &str| consistent(pair_up(m.word@, m.aligns@), w@)),
            forall|w: Seq<char>| admits(filter, w) <==> consistent(pair_up(m.word@, m.aligns@), w),
            i <= pool.len(),
            kept@ == pool@.subrange(0, i as int).filter(pred),
        decreases pool.len() - i,
    {
        proof {
            reveal(Seq::filter);
            assert(pool@.subrange(0, i + 1).drop_last() =~= pool@.subrange(0, i as int));
        }
        if filter.check(pool[i]) {
            kept.push(pool[i]);
        }
        i += 1;
    }
    assert(pool@.subrange(0, pool.len() as int) =~= pool@);
    kept
}

/// Narrowing never grows the pool, and a target in the pool stays in it
/// after feedback that the target itself gave.
pub proof fn lemma_narrowing_keeps_target(pool: Seq<&str>, target: &str, guess: Seq<char>)
    requires
        pool.contains(target),
        target@.len() == guess.len(),
    ensures
        narrowed(pool, guess, alignments(target@, guess)).len() <= pool.len(),
        narrowed(pool, guess, alignments(target@, guess)).contains(target),
{
    broadcast use vstd::seq_lib::group_filter_ensures;

    let pred = |w: &str| consistent(pair_up(guess, alignments(target@, guess)), w@);
    lemma_target_survives_feedback(target@, guess);
    let k = choose|k: int| 0 <= k < pool.len() && pool[k] == target;
    assert(pred(pool[k]));
    pool.lemma_filter_contains(pred, k);
    pool.lemma_filter_len(pred);
}

/// A wrong guess is inconsistent with its own feedback: somewhere it differs
/// from the target, and there the feedback rules out its own letter.
pub proof fn lemma_wrong_guess_eliminated(target: Seq<char>, guess: Seq<char>)
    requires
        target.len() == guess.len(),
        target != guess,
    ensures
        !consistent(pair_up(guess, alignments(target, guess)), guess),
{
    let ms = pair_up(guess, alignments(target, guess));
    if forall|i: int| 0 <= i < target.len() ==> target[i] == guess[i] {
        assert(target =~= guess);
    }
    let i = choose|i: int| 0 <= i < target.len() && target[i] != guess[i];
    assert(ms[i].align != CharAlignment::Exact && ms[i].c == guess[i]);
}

proof fn lemma_filter_drops(s: Seq<&str>, keep: spec_fn(&str) -> bool, k: int)
    requires
        0 <= k < s.len(),
        !keep(s[k]),
    ensures
        s.filter(keep).len() < s.len(),
    decreases s.len(),
{
    reveal(Seq::filter);
    broadcast use vstd::seq_lib::group_filter_ensures;

    let rest = s.drop_last();
    rest.lemma_filter_len(keep);
    if k < s.len() - 1 {
        assert(rest[k] == s[k]);
        lemma_filter_drops(rest, keep, k);
    }
}

/// Each round makes progress: when the guess is a word of the pool other than
/// the target, narrowing by the target's feedback keeps the target and
/// removes at least one word (the guess). A solver that guesses words of its
/// pool therefore finds the target within as many guesses as the pool has
/// words.
pub proof fn lemma_round_progress(pool: Seq<&str>, target: &str, k: int)
    requires
        pool.contains(target),
        0 <= k < pool.len(),
        pool[k]@.len() == target@.len(),
        pool[k]@ != target@,
    ensures
        narrowed(pool, pool[k]@, alignments(target@, pool[k]@)).contains(target),
        narrowed(pool, pool[k]@, alignments(target@, pool[k]@)).len() < pool.len(),
{
    let g = pool[k]@;
    lemma_narrowing_keeps_target(pool, target, g);
    lemma_wrong_guess_eliminated(target@, g);
    let keep = |w: &str| consistent(pair_up(g, alignments(target@, g)), w@);
    lemma_filter_drops(pool, keep, k);
}

/// The target word always meets the constraints derived from its own
/// feedback: whatever word is guessed, the feedback it receives from the
/// target is consistent with the target.
pub proof fn lemma_target_survives_feedback(target: Seq<char>, guess: Seq<char>)
    requires
        target.len() == guess.len(),
    ensures
        consistent(pair_up(guess, alignments(target, guess)), target),
{
    let ms = pair_up(guess, alignments(target, guess));
    let n = target.len() as int;
    assert(ms.len() == n);
    assert forall|x: char| confirmed(ms, x) implies target.contains(x) by {
        let k = choose|k: int|
            0 <= k < ms.len() && ms[k].c == x && ms[k].align != CharAlignment::NotFound;
        if target[k] == guess[k] {
            assert(target[k] == x);
        } else {
            lemma_open_target_exists(target, guess, x, n);
            let j = choose|j: int| 0 <= j < n && target[j] == x;
            assert(target[j] == x);
        }
    }
    assert forall|x: char| ruled_out(ms, x) implies !target.contains(x) by {
        if target.contains(x) {
            let j = choose|j: int| 0 <= j < n && target[j] == x;
            let k = choose|k: int|
                0 <= k < ms.len() && ms[k].c == x && ms[k].align == CharAlignment::NotFound;
            if target[j] == guess[j] {
                assert(ms[j].align == CharAlignment::Exact && ms[j].c == x);
            } else {
                lemma_open_target_counted(target, guess, x, j, n);
                lemma_first_open_guess(target, guess, x, k);
                let f = choose|f: int|
                    0 <= f < k && guess[f] == x && target[f] != guess[f]
                        && open_guesses(target, guess, x, f) == 0;
                assert(ms[f].align == CharAlignment::Misplaced && ms[f].c == x);
            }
        }
    }
}

/// A letter that the feedback reports as found somewhere (exact or misplaced)
/// is never excluded outright, even where another occurrence of it was not
/// found.
pub proof fn lemma_found_letter_not_excluded(ms: Seq<CharMatch>, j: int)
    requires
        0 <= j < ms.len(),
        ms[j].align != CharAlignment::NotFound,
    ensures
        !ruled_out(ms, ms[j].c),
{
    assert(confirmed(ms, ms[j].c));
}

proof fn lemma_open_target_exists(t: Seq<char>, g: Seq<char>, c: char, k: int)
    requires
        0 <= k <= t.len(),
        t.len() == g.len(),
        open_targets(t, g, c, k) > 0,
    ensures
        exists|j: int| 0 <= j < k && t[j] == c,
    decreases k,
{
    if t[k - 1] == c && t[k - 1] != g[k - 1] {
        assert(t[k - 1] == c);
    } else {
        lemma_open_target_exists(t, g, c, k - 1);
    }
}

proof fn lemma_open_target_counted(t: Seq<char>, g: Seq<char>, c: char, j: int, k: int)
    requires
        0 <= j < k <= t.len(),
        t.len() == g.len(),
        t[j] == c,
        t[j] != g[j],
    ensures
        open_targets(t, g, c, k) > 0,
    decreases k,
{
    if j < k - 1 {
        lemma_open_target_counted(t, g, c, j, k - 1);
    }
}

proof fn lemma_first_open_guess(t: Seq<char>, g: Seq<char>, c: char, k: int)
    requires
        0 <= k <= g.len(),
        t.len() == g.len(),
        open_guesses(t, g, c, k) > 0,
    ensures
        exists|f: int|
            0 <= f < k && g[f] == c && t[f] != g[f] && open_guesses(t, g, c, f) == 0,
    decreases k,
{
    if open_guesses(t, g, c, k - 1) > 0 {
        lemma_first_open_guess(t, g, c, k - 1);
    } else {
        assert(g[k - 1] == c && t[k - 1] != g[k - 1]);
    }
}

proof fn lemma_admits_iff_consistent(r: PosFilterCriteria, ms: Seq<CharMatch>)
    requires
        ms.len() <= usize::MAX,
        r.size == (ms.len() as usize, ms.len() as usize),
        r.pos@ == Seq::new(ms.len(), |i: int| required_at(ms[i])),
        r.nopos@.len() == ms.len(),
        forall|i: int| 0 <= i < ms.len() ==> r.nopos@[i]@ == banned_at(ms[i]),
        forall|x: char| r.inc@.contains(x) <==> confirmed(ms, x),
        forall|x: char| r.exc@.contains(x) <==> ruled_out(ms, x),
    ensures
        forall|w: Seq<char>| admits(r, w) <==> consistent(ms, w),
{
    assert forall|w: Seq<char>| admits(r, w) <==> consistent(ms, w) by {
        if admits(r, w) {
            assert forall|x: char| confirmed(ms, x) implies w.contains(x) by {
                assert(r.inc@.contains(x));
                let k = choose|k: int| 0 <= k < r.inc@.len() && r.inc@[k] == x;
                assert(w.contains(r.inc@[k]));
            }
            assert forall|x: char| ruled_out(ms, x) implies !w.contains(x) by {
                assert(r.exc@.contains(x));
                let k = choose|k: int| 0 <= k < r.exc@.len() && r.exc@[k] == x;
                assert(!w.contains(r.exc@[k]));
            }
            assert forall|i: int|
                0 <= i < ms.len() && ms[i].align == CharAlignment::Exact implies w[i]
                == ms[i].c by {
                assert(r.pos@[i] == required_at(ms[i]));
            }
            assert forall|i: int|
                0 <= i < ms.len() && ms[i].align != CharAlignment::Exact implies w[i]
                != ms[i].c by {
                assert(r.nopos@[i]@ == banned_at(ms[i]));
                assert(r.nopos@[i]@[0] == ms[i].c);
            }
        }
        if consistent(ms, w) {
            assert forall|k: int| 0 <= k < r.inc@.len() implies w.contains(
                #[trigger] r.inc@[k],
            ) by {
                assert(r.inc@.contains(r.inc@[k]));
            }
            assert forall|k: int| 0 <= k < r.exc@.len() implies !w.contains(
                #[trigger] r.exc@[k],
            ) by {
                assert(r.exc@.contains(r.exc@[k]));
            }
            assert forall|i: int| 0 <= i < r.pos@.len() && i < w.len() implies (
            #[trigger] r.pos@[i] is None || r.pos@[i] == Some(w[i])) by {
                assert(r.pos@[i] == required_at(ms[i]));
            }
            assert forall|i: int, k: int|
                0 <= i < r.nopos@.len() && i < w.len() && 0 <= k < r.nopos@[i]@.len() implies (
            #[trigger] r.nopos@[i]@[k]) != w[i] by {
                assert(r.nopos@[i]@ == banned_at(ms[i]));
            }
        }
    }
}

} // verus!

use vstd::prelude::*;
use crate::types::{CharAlignment, WordMatch};
use crate::text::chars_of;
use crate::scoring::occurrences;

verus! {

/// Guess positions before `k` that hold `c` and are not exact hits.
pub open spec fn open_guesses(t: Seq<char>, g: Seq<char>, c: char, k: int) -> nat
    decreases k,
{
    if k <= 0 {
        0
    } else {
        open_guesses(t, g, c, k - 1) + if g[k - 1] == c && t[k - 1] != g[k - 1] {
            1nat
        } else {
            0nat
        }
    }
}

/// Target positions before `k` that hold `c` and were not hit exactly by the guess.
pub open spec fn open_targets(t: Seq<char>, g: Seq<char>, c: char, k: int) -> nat
    decreases k,
{
    if k <= 0 {
        0
    } else {
        open_targets(t, g, c, k - 1) + if t[k - 1] == c && t[k - 1] != g[k - 1] {
            1nat
        } else {
            0nat
        }
    }
}

/// Feedback for guess position `i`: exact where the letters agree; otherwise
/// misplaced while unclaimed occurrences of the letter remain in the target,
/// earlier guess positions claiming them first.
pub open spec fn alignment_at(t: Seq<char>, g: Seq<char>, i: int) -> CharAlignment {
    if t[i] == g[i] {
        CharAlignment::Exact
    } else if open_guesses(t, g, g[i], i) < open_targets(t, g, g[i], t.len() as int) {
        CharAlignment::Misplaced
    } else {
        CharAlignment::NotFound
    }
}

/// The feedback for guessing `g` when the target is `t`.
pub open spec fn alignments(t: Seq<char>, g: Seq<char>) -> Seq<CharAlignment> {
    Seq::new(g.len(), |i: int| alignment_at(t, g, i))
}

fn count_open_guesses(t: &Vec<char>, g: &Vec<char>, c: char, k: usize) -> (r: usize)
    requires
        t.len() == g.len(),
        k <= g.len(),
    ensures
        r == open_guesses(t@, g@, c, k as int),
{
    let mut n: usize = 0;
    let mut i: usize = 0;
    while i < k
        invariant
            t.len() == g.len(),
            k <= g.len(),
            i <= k,
            n == open_guesses(t@, g@, c, i as int),
            n <= i,
        decreases k - i,
    {
        if g[i] == c && t[i] != g[i] {
            n += 1;
        }
        i += 1;
    }
    n
}

fn count_open_targets(t: &Vec<char>, g: &Vec<char>, c: char) -> (r: usize)
    requires
        t.len() == g.len(),
    ensures
        r == open_targets(t@, g@, c, t.len() as int),
{
    let mut n: usize = 0;
    let mut i: usize = 0;
    while i < t.len()
        invariant
            t.len() == g.len(),
            i <= t.len(),
            n == open_targets(t@, g@, c, i as int),
            n <= i,
        decreases t.len() - i,
    {
        if t[i] == c && t[i] != g[i] {
            n += 1;
        }
        i += 1;
    }
    n
}

/// The feedback for guessing `guess` when the hidden word is `target`.
pub fn match_word(target: &str, guess: &str) -> (r: WordMatch)
    requires
        target@.len() == guess@.len(),
    ensures
        r.word@ == guess@,
        r.aligns@ == alignments(target@, guess@),
{
    let t = chars_of(target);
    let g = chars_of(guess);
    let mut aligns: Vec<CharAlignment> = Vec::new();
    let mut i: usize = 0;
    while i < g.len()
        invariant
            t@ == target@,
            g@ == guess@,
            t.len() == g.len(),
            i <= g.len(),
            aligns@ == alignments(t@, g@).subrange(0, i as int),
        decreases g.len() - i,
    {
        let a = if t[i] == g[i] {
            CharAlignment::Exact
        } else if count_open_guesses(&t, &g, g[i], i) < count_open_targets(&t, &g, g[i]) {
            CharAlignment::Misplaced
        } else {
            CharAlignment::NotFound
        };
        aligns.push(a);
        i += 1;
    }
    assert(aligns@ =~= alignments(t@, g@));
    WordMatch { word: guess.to_owned(), aligns }
}

/// A word matched against itself is exact at every position.
pub proof fn lemma_self_match_exact(w: Seq<char>)
    ensures
        forall|i: int| 0 <= i < w.len() ==> alignments(w, w)[i] == CharAlignment::Exact,
{
}

/// Guess positions before `k` holding `c` that the feedback credits as found
/// (exact or misplaced).
pub open spec fn credited(t: Seq<char>, g: Seq<char>, c: char, k: int) -> nat
    decreases k,
{
    if k <= 0 {
        0
    } else {
        credited(t, g, c, k - 1) + if g[k - 1] == c && alignment_at(t, g, k - 1)
            != CharAlignment::NotFound {
            1nat
        } else {
            0nat
        }
    }
}

/// Positions before `k` where guess and target both hold `c`.
pub open spec fn exact_hits(t: Seq<char>, g: Seq<char>, c: char, k: int) -> nat
    decreases k,
{
    if k <= 0 {
        0
    } else {
        exact_hits(t, g, c, k - 1) + if g[k - 1] == c && t[k - 1] == c {
            1nat
        } else {
            0nat
        }
    }
}

proof fn lemma_credit_split(t: Seq<char>, g: Seq<char>, c: char, k: int)
    requires
        t.len() == g.len(),
        0 <= k <= g.len(),
    ensures
        credited(t, g, c, k) == exact_hits(t, g, c, k) + if open_guesses(t, g, c, k)
            < open_targets(t, g, c, t.len() as int) {
            open_guesses(t, g, c, k)
        } else {
            open_targets(t, g, c, t.len() as int)
        },
        occurrences(t, c, k) == exact_hits(t, g, c, k) + open_targets(t, g, c, k),
    decreases k,
{
    if k > 0 {
        lemma_credit_split(t, g, c, k - 1);
    }
}

/// However often a letter is guessed, the feedback credits it as found (exact
/// or misplaced) at no more positions than the target holds it.
pub proof fn lemma_credit_within_target(t: Seq<char>, g: Seq<char>, c: char)
    requires
        t.len() == g.len(),
    ensures
        credited(t, g, c, g.len() as int) <= occurrences(t, c, t.len() as int),
{
    lemma_credit_split(t, g, c, g.len() as int);
}

} // verus!

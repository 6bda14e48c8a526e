use vstd::prelude::*;
use crate::types::WordMatch;
use crate::filters::{narrow, narrowed};
use crate::scoring::{
    count_letter, score_word, pool_score, scores_fit, word_views, lemma_counts_score,
};

verus! {

/// The word that a pass over the first `k + 1` words of `p` settles on: a
/// later word replaces the current choice only when it scores strictly
/// higher.
pub open spec fn pool_pick(p: Seq<Seq<char>>, k: int) -> int
    decreases k,
{
    if k <= 0 {
        0
    } else {
        let b = pool_pick(p, k - 1);
        if pool_score(p, p[b]) >= pool_score(p, p[k]) {
            b
        } else {
            k
        }
    }
}

/// The word picked among the first `k + 1` scores highest among them, and
/// every earlier word among them scores strictly lower.
pub proof fn lemma_pool_pick_is_best(p: Seq<Seq<char>>, k: int)
    requires
        0 <= k,
    ensures
        0 <= pool_pick(p, k) <= k,
        forall|j: int| 0 <= j <= k ==> pool_score(p, #[trigger] p[j]) <= pool_score(p, p[pool_pick(p, k)]),
        forall|j: int|
            0 <= j < pool_pick(p, k) ==> pool_score(p, #[trigger] p[j]) < pool_score(p, p[pool_pick(p, k)]),
    decreases k,
{
    if k > 0 {
        lemma_pool_pick_is_best(p, k - 1);
    }
}

/// A greedy solver: it guesses the remaining word whose letters are most
/// common at their positions, then drops the words that the feedback rules out.
#[derive(Debug)]
pub struct PositionalSolver<'a> {
    wordlist: Vec<&'a str>,
}

impl<'a> PositionalSolver<'a> {
    /// The words still possible.
    pub closed spec fn words(&self) -> Seq<&'a str> {
        self.wordlist@
    }

    /// A solver over the pool `wordlist`.
    pub fn new(wordlist: &Vec<&'a str>) -> (r: Self)
        ensures
            r.words() == wordlist@,
    {
        PositionalSolver { wordlist: copy_words(wordlist) }
    }

    /// The words still possible.
    pub fn word_list(&self) -> (r: Vec<&'a str>)
        ensures
            r@ == self.words(),
    {
        copy_words(&self.wordlist)
    }

    /// Starts over with the pool `wordlist`.
    pub fn reload_wordlist(&mut self, wordlist: &Vec<&'a str>)
        ensures
            final(self).words() == wordlist@,
    {
        self.wordlist = copy_words(wordlist);
    }

    /// The best-scoring remaining word, the first among equals; `None`
    /// when no word remains.
    pub fn guess(&self) -> (r: Option<String>)
        requires
            scores_fit(word_views(self.words())),
        ensures
            r is None <==> self.words().len() == 0,
            r is Some ==> r->0@ == self.words()[pool_pick(
                word_views(self.words()),
                self.words().len() - 1,
            )]@,
    {
        if self.wordlist.len() == 0 {
            return None;
        }
        let ghost p = word_views(self.wordlist@);
        let counts = count_letter(&self.wordlist);
        proof {
            lemma_counts_score(counts, p);
        }
        let mut best: usize = 0;
        let mut best_score = score_word(self.wordlist[0], &counts);
        let mut k: usize = 1;
        while k < self.wordlist.len()
            invariant
                p == word_views(self.wordlist@),
                forall|w: Seq<char>| crate::scoring::table_score(counts, w) == pool_score(p, w),
                crate::scoring::bounded(counts),
                1 <= k <= self.wordlist.len(),
                best == pool_pick(p, k - 1),
                best < k,
                best_score == pool_score(p, p[best as int]),
            decreases self.wordlist.len() - k,
        {
            let s = score_word(self.wordlist[k], &counts);
            if !(best_score >= s) {
                best = k;
                best_score = s;
            }
            k += 1;
        }
        Some(self.wordlist[best].to_owned())
    }

    /// Keeps only the words that the feedback `guess_result` leaves possible.
    pub fn narrow_words(&mut self, guess_result: &WordMatch)
        ensures
            final(self).words() == narrowed(old(self).words(), guess_result.word@, guess_result.aligns@),
    {
        self.wordlist = narrow(&self.wordlist, guess_result);
    }
}

/// A copy of a list of words.
pub(crate) fn copy_words<'a>(words: &Vec<&'a str>) -> (r: Vec<&'a str>)
    ensures
        r@ == words@,
{
    let mut r: Vec<&'a str> = Vec::new();
    let mut i: usize = 0;
    while i < words.len()
        invariant
            i <= words.len(),
            r@ == words@.subrange(0, i as int),
        decreases words.len() - i,
    {
        r.push(words[i]);
        i += 1;
    }
    assert(r@ =~= words@);
    r
}

} // verus!

use vstd::prelude::*;
use crate::types::CharAlignment;
use crate::matcher::{alignments, match_word};
use crate::pairs::{PairKey, PatternTable, table_entries, table_new, table_insert, table_get};
use crate::text::{chars_of, same_chars};
use crate::types::{WordMatch, pair_up};
use crate::filters::{PosFilterCriteria, admits, consistent, narrowed};
use crate::positional::copy_words;
use crate::scoring::word_views;

verus! {

/// Every word of the pool has the same length.
pub open spec fn uniform(words: Seq<&str>) -> bool {
    forall|i: int, j: int|
        0 <= i < words.len() && 0 <= j < words.len() ==> (#[trigger] words[i])@.len()
            == (#[trigger] words[j])@.len()
}

/// `table` holds, for every target index `t` and guess index `g` of `words`,
/// the feedback that guessing `words[g]` receives when the target is `words[t]`,
/// and no key outside the pool.
pub open spec fn table_covers(table: PatternTable, words: Seq<&str>) -> bool {
    &&& forall|t: usize, g: usize|
        t < words.len() && g < words.len() ==> {
            &&& #[trigger] table_entries(table).contains_key((t, g))
            &&& table_entries(table)[(t, g)] == alignments(words[t as int]@, words[g as int]@)
        }
    &&& keys_within(table, words.len())
}

/// Every key of `table` is a pair of indices below `n`.
pub open spec fn keys_within(table: PatternTable, n: nat) -> bool {
    forall|k: PairKey| #[trigger] table_entries(table).contains_key(k) ==> k.0 < n && k.1 < n
}

pub open spec fn holds_pair(table: PatternTable, words: Seq<&str>, t: usize, g: usize) -> bool {
    &&& table_entries(table).contains_key((t, g))
    &&& table_entries(table)[(t, g)] == alignments(words[t as int]@, words[g as int]@)
}

/// Whether every word of the pool has the same length.
pub fn uniform_lengths(words: &Vec<&str>) -> (r: bool)
    ensures
        r == uniform(words@),
{
    if words.len() == 0 {
        return true;
    }
    let first = chars_of(words[0]).len();
    let mut i: usize = 1;
    while i < words.len()
        invariant
            words@.len() > 0,
            first == words@[0]@.len(),
            1 <= i <= words.len(),
            forall|k: int| 0 <= k < i ==> (#[trigger] words@[k])@.len() == first,
        decreases words.len() - i,
    {
        if chars_of(words[i]).len() != first {
            assert(words@[i as int]@.len() != words@[0]@.len());
            return false;
        }
        i += 1;
    }
    true
}

/// The feedback of every ordered pair of words of the pool.
fn create_match_map(words: &Vec<&str>) -> (r: PatternTable)
    requires
        uniform(words@),
    ensures
        table_covers(r, words@),
{
    let n = words.len();
    let mut table = table_new();
    let mut t: usize = 0;
    while t < n
        invariant
            n == words@.len(),
            uniform(words@),
            t <= n,
            forall|a: usize, b: usize| a < t && b < n ==> #[trigger] holds_pair(table, words@, a, b),
            keys_within(table, n as nat),
        decreases n - t,
    {
        let mut g: usize = 0;
        while g < n
            invariant
                n == words@.len(),
                uniform(words@),
                t < n,
                g <= n,
                keys_within(table, n as nat),
                forall|a: usize, b: usize|
                    (a < t && b < n) || (a == t && b < g) ==> #[trigger] holds_pair(
                        table,
                        words@,
                        a,
                        b,
                    ),
            decreases n - g,
        {
            proof {
                assert(words@[t as int]@.len() == words@[g as int]@.len());
            }
            let m = match_word(words[t], words[g]);
            let ghost before = table;
            table_insert(&mut table, (t, g), m.aligns);
            proof {
                assert forall|k: PairKey| #[trigger] table_entries(table).contains_key(k) implies k.0
                    < n && k.1 < n by {
                    if k != (t, g) {
                        assert(table_entries(before).contains_key(k));
                    }
                }
                assert forall|a: usize, b: usize|
                    (a < t && b < n) || (a == t && b < g + 1) implies #[trigger] holds_pair(
                    table,
                    words@,
                    a,
                    b,
                ) by {
                    if a != t || b != g {
                        assert((a, b) != (t, g));
                        assert(holds_pair(before, words@, a, b));
                    }
                }
            }
            g += 1;
        }
        t += 1;
    }
    proof {
        assert forall|a: usize, b: usize| a < words@.len() && b < words@.len() implies {
            &&& #[trigger] table_entries(table).contains_key((a, b))
            &&& table_entries(table)[(a, b)] == alignments(words@[a as int]@, words@[b as int]@)
        } by {
            assert(holds_pair(table, words@, a, b));
        }
    }
    table
}

/// Whether two pools hold the same words in the same order.
fn same_words(a: &Vec<&str>, b: &Vec<&str>) -> (r: bool)
    ensures
        r ==> a@.len() == b@.len() && forall|i: int| 0 <= i < a@.len() ==> a@[i]@ == b@[i]@,
{
    if a.len() != b.len() {
        return false;
    }
    let mut i: usize = 0;
    while i < a.len()
        invariant
            a.len() == b.len(),
            i <= a.len(),
            forall|k: int| 0 <= k < i ==> a@[k]@ == b@[k]@,
        decreases a.len() - i,
    {
        let x = chars_of(a[i]);
        let y = chars_of(b[i]);
        if !same_chars(&x, &y) {
            return false;
        }
        i += 1;
    }
    true
}


/// The targets, among `ts`, from which guessing `g` receives the feedback `pat`.
pub open spec fn pattern_count(ts: Seq<Seq<char>>, g: Seq<char>, pat: Seq<CharAlignment>) -> nat
    decreases ts.len(),
{
    if ts.len() == 0 {
        0
    } else {
        pattern_count(ts.drop_last(), g, pat) + if alignments(ts.last(), g) == pat {
            1nat
        } else {
            0nat
        }
    }
}

/// How many targets give each feedback pattern to one guess.
#[derive(Debug)]
pub struct Histogram {
    pub patterns: Vec<Vec<CharAlignment>>,
    pub counts: Vec<usize>,
}

/// `h` lists each feedback pattern that guessing `g` receives from some
/// target of `ts` once, with the number of targets that give it.
pub open spec fn is_histogram(h: Histogram, ts: Seq<Seq<char>>, g: Seq<char>) -> bool {
    counted(h.patterns@, h.counts@, ts, g)
}

pub open spec fn counted(
    patterns: Seq<Vec<CharAlignment>>,
    counts: Seq<usize>,
    ts: Seq<Seq<char>>,
    g: Seq<char>,
) -> bool {
    &&& patterns.len() == counts.len()
    &&& forall|a: int, b: int|
        0 <= a < b < patterns.len() ==> (#[trigger] patterns[a])@ != (#[trigger] patterns[b])@
    &&& forall|e: int|
        0 <= e < counts.len() ==> #[trigger] counts[e] == pattern_count(ts, g, patterns[e]@)
            && counts[e] > 0
    &&& forall|j: int| 0 <= j < ts.len() ==> lists(patterns, alignments(#[trigger] ts[j], g))
}

/// Some entry of `patterns` is `pat`.
pub open spec fn lists(patterns: Seq<Vec<CharAlignment>>, pat: Seq<CharAlignment>) -> bool {
    exists|e: int| 0 <= e < patterns.len() && (#[trigger] patterns[e])@ == pat
}

/// The words at the given indices of the pool.
pub open spec fn picked(words: Seq<&str>, idx: Seq<usize>) -> Seq<Seq<char>> {
    Seq::new(idx.len(), |k: int| words[idx[k] as int]@)
}

/// The sum of a list of counts.
pub open spec fn total_of(counts: Seq<usize>) -> nat
    decreases counts.len(),
{
    if counts.len() == 0 {
        0
    } else {
        total_of(counts.drop_last()) + counts.last() as nat
    }
}

spec fn sum_counts(ps: Seq<Vec<CharAlignment>>, ts: Seq<Seq<char>>, g: Seq<char>) -> nat
    decreases ps.len(),
{
    if ps.len() == 0 {
        0
    } else {
        sum_counts(ps.drop_last(), ts, g) + pattern_count(ts, g, ps.last()@)
    }
}

spec fn copies(ps: Seq<Vec<CharAlignment>>, pat: Seq<CharAlignment>) -> nat
    decreases ps.len(),
{
    if ps.len() == 0 {
        0
    } else {
        copies(ps.drop_last(), pat) + if ps.last()@ == pat {
            1nat
        } else {
            0nat
        }
    }
}

spec fn distinct(ps: Seq<Vec<CharAlignment>>) -> bool {
    forall|a: int, b: int| 0 <= a < b < ps.len() ==> (#[trigger] ps[a])@ != (#[trigger] ps[b])@
}

proof fn lemma_total_is_sum(h: Histogram, ts: Seq<Seq<char>>, g: Seq<char>, k: int)
    requires
        is_histogram(h, ts, g),
        0 <= k <= h.counts@.len(),
    ensures
        total_of(h.counts@.subrange(0, k)) == sum_counts(h.patterns@.subrange(0, k), ts, g),
    decreases k,
{
    if k > 0 {
        lemma_total_is_sum(h, ts, g, k - 1);
        assert(h.counts@.subrange(0, k).drop_last() =~= h.counts@.subrange(0, k - 1));
        assert(h.patterns@.subrange(0, k).drop_last() =~= h.patterns@.subrange(0, k - 1));
        assert(h.counts@[k - 1] == pattern_count(ts, g, h.patterns@[k - 1]@));
    }
}

proof fn lemma_sum_counts_step(ps: Seq<Vec<CharAlignment>>, ts: Seq<Seq<char>>, g: Seq<char>)
    requires
        ts.len() > 0,
    ensures
        sum_counts(ps, ts, g) == sum_counts(ps, ts.drop_last(), g) + copies(
            ps,
            alignments(ts.last(), g),
        ),
    decreases ps.len(),
{
    if ps.len() > 0 {
        lemma_sum_counts_step(ps.drop_last(), ts, g);
    }
}

proof fn lemma_sum_counts_empty(ps: Seq<Vec<CharAlignment>>, ts: Seq<Seq<char>>, g: Seq<char>)
    requires
        ts.len() == 0,
    ensures
        sum_counts(ps, ts, g) == 0,
    decreases ps.len(),
{
    if ps.len() > 0 {
        lemma_sum_counts_empty(ps.drop_last(), ts, g);
    }
}

proof fn lemma_one_copy(ps: Seq<Vec<CharAlignment>>, pat: Seq<CharAlignment>)
    requires
        distinct(ps),
        lists(ps, pat),
    ensures
        copies(ps, pat) == 1,
    decreases ps.len(),
{
    let q = ps.drop_last();
    assert(distinct(q)) by {
        assert forall|a: int, b: int| 0 <= a < b < q.len() implies (#[trigger] q[a])@ != (
        #[trigger] q[b])@ by {
            assert(ps[a]@ != ps[b]@);
        }
    }
    if ps.last()@ == pat {
        assert forall|e: int| 0 <= e < q.len() implies (#[trigger] q[e])@ != pat by {
            assert(ps[e]@ != ps[ps.len() - 1]@);
        }
        lemma_no_copy(q, pat);
    } else {
        let e = choose|e: int| 0 <= e < ps.len() && (#[trigger] ps[e])@ == pat;
        assert(q[e]@ == pat);
        lemma_one_copy(q, pat);
    }
}

proof fn lemma_no_copy(ps: Seq<Vec<CharAlignment>>, pat: Seq<CharAlignment>)
    requires
        forall|e: int| 0 <= e < ps.len() ==> (#[trigger] ps[e])@ != pat,
    ensures
        copies(ps, pat) == 0,
    decreases ps.len(),
{
    if ps.len() > 0 {
        let q = ps.drop_last();
        assert forall|e: int| 0 <= e < q.len() implies (#[trigger] q[e])@ != pat by {
            assert(ps[e]@ != pat);
        }
        lemma_no_copy(q, pat);
    }
}

proof fn lemma_sum_counts_covers(ps: Seq<Vec<CharAlignment>>, ts: Seq<Seq<char>>, g: Seq<char>)
    requires
        distinct(ps),
        forall|j: int| 0 <= j < ts.len() ==> lists(ps, alignments(#[trigger] ts[j], g)),
    ensures
        sum_counts(ps, ts, g) == ts.len(),
    decreases ts.len(),
{
    if ts.len() == 0 {
        lemma_sum_counts_empty(ps, ts, g);
    } else {
        let q = ts.drop_last();
        assert forall|j: int| 0 <= j < q.len() implies lists(ps, alignments(#[trigger] q[j], g)) by {
            assert(q[j] == ts[j]);
        }
        lemma_sum_counts_covers(ps, q, g);
        lemma_sum_counts_step(ps, ts, g);
        assert(lists(ps, alignments(ts[ts.len() - 1], g)));
        lemma_one_copy(ps, alignments(ts.last(), g));
    }
}

/// A histogram partitions its targets: each listed count is positive and the
/// counts add up to the number of targets. Hence the frequencies
/// `count / targets` form a probability distribution.
pub proof fn lemma_histogram_partitions(h: Histogram, ts: Seq<Seq<char>>, g: Seq<char>)
    requires
        is_histogram(h, ts, g),
    ensures
        total_of(h.counts@) == ts.len(),
        forall|e: int| 0 <= e < h.counts@.len() ==> #[trigger] h.counts@[e] >= 1,
{
    lemma_total_is_sum(h, ts, g, h.counts@.len() as int);
    assert(h.counts@.subrange(0, h.counts@.len() as int) =~= h.counts@);
    assert(h.patterns@.subrange(0, h.counts@.len() as int) =~= h.patterns@);
    lemma_sum_counts_covers(h.patterns@, ts, g);
}

proof fn lemma_pattern_count_absent(ts: Seq<Seq<char>>, g: Seq<char>, pat: Seq<CharAlignment>)
    requires
        forall|j: int| 0 <= j < ts.len() ==> alignments(ts[j], g) != pat,
    ensures
        pattern_count(ts, g, pat) == 0,
    decreases ts.len(),
{
    if ts.len() > 0 {
        let q = ts.drop_last();
        assert forall|j: int| 0 <= j < q.len() implies alignments(q[j], g) != pat by {
            assert(q[j] == ts[j]);
        }
        lemma_pattern_count_absent(q, g, pat);
    }
}

fn same_pattern(a: &Vec<CharAlignment>, b: &Vec<CharAlignment>) -> (r: bool)
    ensures
        r == (a@ == b@),
{
    if a.len() != b.len() {
        return false;
    }
    let mut i: usize = 0;
    while i < a.len()
        invariant
            a.len() == b.len(),
            i <= a.len(),
            forall|k: int| 0 <= k < i ==> a@[k] == b@[k],
        decreases a.len() - i,
    {
        if a[i] != b[i] {
            return false;
        }
        i += 1;
    }
    assert(a@ =~= b@);
    true
}

/// The histogram of the feedback that guessing `words[guess]` receives from
/// each target `words[t]`, `t` in `targets`.
fn create_word_dist(
    guess: usize,
    targets: &Vec<usize>,
    words: &Vec<&str>,
    table: &PatternTable,
) -> (r: Histogram)
    requires
        table_covers(*table, words@),
        guess < words@.len(),
        forall|k: int| 0 <= k < targets@.len() ==> (#[trigger] targets@[k]) < words@.len(),
    ensures
        is_histogram(r, picked(words@, targets@), words@[guess as int]@),
{
    let ghost ts = picked(words@, targets@);
    let ghost g = words@[guess as int]@;
    let mut patterns: Vec<Vec<CharAlignment>> = Vec::new();
    let mut counts: Vec<usize> = Vec::new();
    let mut i: usize = 0;
    while i < targets.len()
        invariant
            table_covers(*table, words@),
            guess < words@.len(),
            forall|k: int| 0 <= k < targets@.len() ==> (#[trigger] targets@[k]) < words@.len(),
            ts == picked(words@, targets@),
            g == words@[guess as int]@,
            i <= targets.len(),
            counted(patterns@, counts@, ts.subrange(0, i as int), g),
            forall|e: int| 0 <= e < counts@.len() ==> #[trigger] counts@[e] <= i,
        decreases targets.len() - i,
    {
        let t = targets[i];
        let ghost prev = ts.subrange(0, i as int);
        let ghost next = ts.subrange(0, i + 1);
        proof {
            assert(next.drop_last() =~= prev);
            assert(next.last() == ts[i as int]);
            assert(table_entries(*table).contains_key((t, guess)));
        }
        let pat = match table_get(table, (t, guess)) {
            Some(p) => p,
            None => Vec::new(),
        };
        assert(pat@ == alignments(ts[i as int], g));
        let mut e: usize = 0;
        let mut found = false;
        while e < patterns.len()
            invariant_except_break
                !found,
            invariant
                patterns@.len() == counts@.len(),
                e <= patterns.len(),
                forall|k: int| 0 <= k < e ==> (#[trigger] patterns@[k])@ != pat@,
            ensures
                found ==> e < patterns.len() && patterns@[e as int]@ == pat@,
                !found ==> e == patterns.len(),
            decreases patterns.len() - e,
        {
            if same_pattern(&patterns[e], &pat) {
                found = true;
                break;
            }
            e += 1;
        }
        let ghost old_patterns = patterns@;
        let ghost old_counts = counts@;
        if found {
            let c = counts[e];
            counts.set(e, c + 1);
            proof {
                assert forall|k: int| 0 <= k < counts@.len() implies #[trigger] counts@[k]
                    == pattern_count(next, g, patterns@[k]@) && counts@[k] > 0 by {
                    if k != e {
                        assert(patterns@[k]@ != pat@);
                    }
                }
                assert forall|j: int| 0 <= j < next.len() implies lists(
                    patterns@,
                    alignments(#[trigger] next[j], g),
                ) by {
                    if j < i {
                        assert(next[j] == prev[j]);
                        assert(lists(old_patterns, alignments(prev[j], g)));
                        let k = choose|k: int|
                            0 <= k < old_patterns.len() && (#[trigger] old_patterns[k])@
                                == alignments(prev[j], g);
                        assert(patterns@[k]@ == alignments(next[j], g));
                    } else {
                        assert(patterns@[e as int]@ == alignments(next[j], g));
                    }
                }
            }
        } else {
            proof {
                assert forall|j: int| 0 <= j < prev.len() implies alignments(prev[j], g)
                    != pat@ by {
                    assert(lists(patterns@, alignments(prev[j], g)));
                    let k = choose|k: int|
                        0 <= k < patterns@.len() && (#[trigger] patterns@[k])@ == alignments(
                            prev[j],
                            g,
                        );
                }
                lemma_pattern_count_absent(prev, g, pat@);
            }
            patterns.push(pat);
            counts.push(1);
            proof {
                let last = patterns@.len() - 1;
                assert forall|a: int, b: int|
                    0 <= a < b < patterns@.len() implies (#[trigger] patterns@[a])@ != (
                    #[trigger] patterns@[b])@ by {
                    if b == last {
                        assert(old_patterns[a]@ != pat@);
                    } else {
                        assert(old_patterns[a]@ != old_patterns[b]@);
                    }
                }
                assert forall|k: int| 0 <= k < counts@.len() implies #[trigger] counts@[k]
                    == pattern_count(next, g, patterns@[k]@) && counts@[k] > 0 by {
                    if k < last {
                        assert(old_patterns[k]@ != pat@);
                        assert(counts@[k] == old_counts[k]);
                    }
                }
                assert forall|j: int| 0 <= j < next.len() implies lists(
                    patterns@,
                    alignments(#[trigger] next[j], g),
                ) by {
                    if j < i {
                        assert(next[j] == prev[j]);
                        assert(lists(old_patterns, alignments(prev[j], g)));
                        let k = choose|k: int|
                            0 <= k < old_patterns.len() && (#[trigger] old_patterns[k])@
                                == alignments(prev[j], g);
                        assert(patterns@[k] == old_patterns[k]);
                    } else {
                        assert(patterns@[last]@ == alignments(next[j], g));
                    }
                }
            }
        }
        i += 1;
    }
    assert(ts.subrange(0, targets.len() as int) =~= ts);
    Histogram { patterns, counts }
}

/// The words at the given indices, in the order of the indices.
pub open spec fn at_indices<'a>(words: Seq<&'a str>, idx: Seq<usize>) -> Seq<&'a str> {
    Seq::new(idx.len(), |k: int| words[idx[k] as int])
}

/// Every index lies within the pool.
pub open spec fn in_range(idx: Seq<usize>, n: nat) -> bool {
    forall|k: int| 0 <= k < idx.len() ==> (#[trigger] idx[k]) < n
}

proof fn lemma_picked_at_indices(words: Seq<&str>, idx: Seq<usize>)
    ensures
        picked(words, idx) == Seq::new(
            at_indices(words, idx).len(),
            |k: int| at_indices(words, idx)[k]@,
        ),
{
    assert(picked(words, idx) =~= Seq::new(
        at_indices(words, idx).len(),
        |k: int| at_indices(words, idx)[k]@,
    ));
}

/// Filtering indices by a test on their words, then taking the words, is
/// filtering the words.
proof fn lemma_filter_at_indices(words: Seq<&str>, idx: Seq<usize>, keep: spec_fn(&str) -> bool)
    ensures
        at_indices(words, idx.filter(|k: usize| keep(words[k as int]))) == at_indices(
            words,
            idx,
        ).filter(keep),
    decreases idx.len(),
{
    reveal(Seq::filter);
    let f = |k: usize| keep(words[k as int]);
    if idx.len() > 0 {
        let rest = idx.drop_last();
        lemma_filter_at_indices(words, rest, keep);
        assert(at_indices(words, idx).drop_last() =~= at_indices(words, rest));
        if f(idx.last()) {
            assert(at_indices(words, idx.filter(f)) =~= at_indices(words, rest.filter(f)).push(
                words[idx.last() as int],
            ));
        }
    } else {
        assert(at_indices(words, idx.filter(f)) =~= at_indices(words, idx).filter(keep));
    }
}

fn all_indices(n: usize) -> (r: Vec<usize>)
    ensures
        r@.len() == n,
        forall|k: int| 0 <= k < n ==> r@[k] == k,
{
    let mut r: Vec<usize> = Vec::new();
    let mut i: usize = 0;
    while i < n
        invariant
            i <= n,
            r@.len() == i,
            forall|k: int| 0 <= k < i ==> r@[k] == k,
        decreases n - i,
    {
        r.push(i);
        i += 1;
    }
    r
}

/// The indices in `idx` whose words remain possible after the feedback `m`.
fn narrow_indices(words: &Vec<&str>, idx: &Vec<usize>, m: &WordMatch) -> (r: Vec<usize>)
    requires
        in_range(idx@, words@.len()),
    ensures
        in_range(r@, words@.len()),
        at_indices(words@, r@) == narrowed(at_indices(words@, idx@), m.word@, m.aligns@),
{
    let filter = PosFilterCriteria::from_word_match(m);
    let ghost keep = |w: &str| consistent(pair_up(m.word@, m.aligns@), w@);
    let ghost f = |k: usize| keep(words@[k as int]);
    let mut kept: Vec<usize> = Vec::new();
    let mut i: usize = 0;
    while i < idx.len()
        invariant
            in_range(idx@, words@.len()),
            keep == (|w: &str| consistent(pair_up(m.word@, m.aligns@), w@)),
            f == (|k: usize| keep(words@[k as int])),
            forall|w: Seq<char>| admits(filter, w) <==> consistent(pair_up(m.word@, m.aligns@), w),
            i <= idx.len(),
            kept@ == idx@.subrange(0, i as int).filter(f),
            in_range(kept@, words@.len()),
        decreases idx.len() - i,
    {
        proof {
            reveal(Seq::filter);
            assert(idx@.subrange(0, i + 1).drop_last() =~= idx@.subrange(0, i as int));
        }
        let k = idx[i];
        if filter.check(words[k]) {
            kept.push(k);
        }
        i += 1;
    }
    proof {
        assert(idx@.subrange(0, idx.len() as int) =~= idx@);
        lemma_filter_at_indices(words@, idx@, keep);
    }
    kept
}

/// A pool of words of one length with the feedback of every ordered pair
/// of them precomputed.
#[derive(Debug)]
pub struct MatchCache<'a> {
    words: Vec<&'a str>,
    table: PatternTable,
}

impl<'a> MatchCache<'a> {
    /// The pool.
    pub closed spec fn words(&self) -> Seq<&'a str> {
        self.words@
    }

    /// The state is consistent: the precomputed feedback covers the pool and
    /// every index lies within it.
    pub closed spec fn wf(&self) -> bool {
        uniform(self.words@) && table_covers(self.table, self.words@)
    }

    /// Precomputes the feedback of every ordered pair of `words`.
    pub fn new(words: &Vec<&'a str>) -> (r: Self)
        requires
            uniform(words@),
        ensures
            r.wf(),
            r.words() == words@,
    {
        MatchCache { words: copy_words(words), table: create_match_map(words) }
    }

    /// Switches to the pool `words`, keeping the precomputed feedback where
    /// the pool holds the same words as before.
    pub fn rebase(&mut self, words: &Vec<&'a str>)
        requires
            old(self).wf(),
            uniform(words@),
        ensures
            final(self).wf(),
            final(self).words() == words@,
    {
        if same_words(&self.words, words) {
            self.words = copy_words(words);
        } else {
            *self = MatchCache::new(words);
        }
    }

    /// The histogram of the feedback that guessing word `guess` receives
    /// from each word at the indices `targets`.
    fn dist(&self, guess: usize, targets: &Vec<usize>) -> (r: Histogram)
        requires
            self.wf(),
            guess < self.words().len(),
            in_range(targets@, self.words().len()),
        ensures
            is_histogram(r, picked(self.words(), targets@), self.words()[guess as int]@),
    {
        create_word_dist(guess, targets, &self.words, &self.table)
    }
}

/// The statistics of one candidate guess, from which its expected
/// information is computed.
#[derive(Debug)]
pub struct Candidate {
    /// How many of the possible targets give each feedback pattern.
    pub dist: Histogram,
    /// For each earlier round, how many targets of the full pool would have
    /// given this guess the feedback observed in that round.
    pub history: Vec<usize>,
    /// Whether the guess itself is still a possible target.
    pub plausible: bool,
}

/// The candidate that a pass over the first `k + 1` scores settles on: a
/// later candidate replaces the current choice only when it scores strictly
/// higher.
pub open spec fn first_best(scores: Seq<u64>, k: int) -> int
    decreases k,
{
    if k <= 0 {
        0
    } else {
        let b = first_best(scores, k - 1);
        if scores[b] >= scores[k] {
            b
        } else {
            k
        }
    }
}

/// The candidate picked scores highest, and no earlier candidate scores as high.
pub proof fn lemma_first_best_is_best(scores: Seq<u64>, k: int)
    requires
        0 <= k < scores.len(),
    ensures
        0 <= first_best(scores, k) <= k,
        forall|j: int| 0 <= j <= k ==> #[trigger] scores[j] <= scores[first_best(scores, k)],
        forall|j: int| 0 <= j < first_best(scores, k) ==> #[trigger] scores[j] < scores[first_best(
            scores,
            k,
        )],
    decreases k,
{
    if k > 0 {
        lemma_first_best_is_best(scores, k - 1);
    }
}

/// The index of the first highest score.
pub fn pick_first_best(scores: &Vec<u64>) -> (r: usize)
    requires
        scores@.len() > 0,
    ensures
        r == first_best(scores@, scores@.len() - 1),
        r < scores@.len(),
{
    let mut best: usize = 0;
    let mut k: usize = 1;
    while k < scores.len()
        invariant
            1 <= k <= scores.len(),
            best == first_best(scores@, k - 1),
            best < k,
        decreases scores.len() - k,
    {
        if !(scores[best] >= scores[k]) {
            best = k;
        }
        k += 1;
    }
    best
}


/// The indices `0..n`.
pub open spec fn index_seq(n: nat) -> Seq<usize> {
    Seq::new(n, |k: int| k as usize)
}

/// The indices of the words of `words` that are not among `prev`, in order.
pub open spec fn unguessed(words: Seq<&str>, prev: Seq<Seq<char>>) -> Seq<usize> {
    index_seq(words.len()).filter(|g: usize| !prev.contains(words[g as int]@))
}

/// Whether `w` is among `prev`.
fn is_guessed(prev: &Vec<String>, w: &str) -> (r: bool)
    ensures
        r == Seq::new(prev@.len(), |k: int| prev@[k]@).contains(w@),
{
    let ghost views = Seq::new(prev@.len(), |k: int| prev@[k]@);
    let x = chars_of(w);
    let mut k: usize = 0;
    while k < prev.len()
        invariant
            views == Seq::new(prev@.len(), |k: int| prev@[k]@),
            x@ == w@,
            k <= prev.len(),
            forall|j: int| 0 <= j < k ==> views[j] != w@,
        decreases prev.len() - k,
    {
        let y = chars_of(prev[k].as_str());
        if same_chars(&x, &y) {
            assert(views[k as int] == w@);
            return true;
        }
        k += 1;
    }
    false
}

/// The indices of the words of the pool that are not among `prev`.
fn unguessed_ids(words: &Vec<&str>, prev: &Vec<String>) -> (r: Vec<usize>)
    ensures
        r@ == unguessed(words@, Seq::new(prev@.len(), |k: int| prev@[k]@)),
        in_range(r@, words@.len()),
{
    let ghost views = Seq::new(prev@.len(), |k: int| prev@[k]@);
    let ghost f = |g: usize| !views.contains(words@[g as int]@);
    let mut r: Vec<usize> = Vec::new();
    let mut g: usize = 0;
    while g < words.len()
        invariant
            views == Seq::new(prev@.len(), |k: int| prev@[k]@),
            f == (|g: usize| !views.contains(words@[g as int]@)),
            g <= words.len(),
            r@ == index_seq(words@.len()).subrange(0, g as int).filter(f),
            in_range(r@, words@.len()),
        decreases words.len() - g,
    {
        proof {
            reveal(Seq::filter);
            assert(index_seq(words@.len()).subrange(0, g + 1).drop_last() =~= index_seq(
                words@.len(),
            ).subrange(0, g as int));
        }
        if !is_guessed(prev, words[g]) {
            r.push(g);
        }
        g += 1;
    }
    assert(index_seq(words@.len()).subrange(0, words.len() as int) =~= index_seq(words@.len()));
    r
}

/// The word at `k` of `words`, as an owned string.
fn owned_word(words: &Vec<&str>, k: usize) -> (r: String)
    requires
        k < words@.len(),
    ensures
        r@ == words@[k as int]@,
{
    words[k].to_owned()
}

/// An entropy solver whose pool of possible targets shrinks with every
/// round; the histograms are recomputed over the remaining words.
#[derive(Debug)]
pub struct GlobalShrinkingEntropySolver<'a> {
    cache: MatchCache<'a>,
    active: Vec<usize>,
}

impl<'a> GlobalShrinkingEntropySolver<'a> {
    /// The words still possible.
    pub closed spec fn words(&self) -> Seq<&'a str> {
        at_indices(self.cache.words(), self.active@)
    }

    /// The state is consistent: the precomputed feedback covers the pool and
    /// every index lies within it.
    pub closed spec fn wf(&self) -> bool {
        self.cache.wf() && in_range(self.active@, self.cache.words().len())
    }

    /// A solver over the pool `base_wordlist`, whose words share one length.
    pub fn new(base_wordlist: &Vec<&'a str>) -> (r: Self)
        requires
            uniform(base_wordlist@),
        ensures
            r.wf(),
            r.words() == base_wordlist@,
    {
        let cache = MatchCache::new(base_wordlist);
        let active = all_indices(base_wordlist.len());
        let r = GlobalShrinkingEntropySolver { cache, active };
        assert(r.words() =~= base_wordlist@);
        r
    }

    /// Starts over with the pool `wordlist`.
    pub fn reload_wordlist(&mut self, wordlist: &Vec<&'a str>)
        requires
            old(self).wf(),
            uniform(wordlist@),
        ensures
            final(self).wf(),
            final(self).words() == wordlist@,
    {
        self.cache.rebase(wordlist);
        self.active = all_indices(wordlist.len());
        assert(self.words() =~= wordlist@);
    }

    /// The number of words still possible.
    pub fn pool_size(&self) -> (r: usize)
        ensures
            r == self.words().len(),
    {
        self.active.len()
    }

    /// One candidate per remaining word, in order: the histogram of the
    /// feedback it receives from each remaining word.
    pub fn candidates(&self) -> (r: Vec<Candidate>)
        requires
            self.wf(),
        ensures
            r@.len() == self.words().len(),
            forall|k: int|
                0 <= k < r@.len() ==> {
                    &&& is_histogram(
                        (#[trigger] r@[k]).dist,
                        word_views(self.words()),
                        self.words()[k]@,
                    )
                    &&& r@[k].history@.len() == 0
                    &&& r@[k].plausible
                },
    {
        proof {
            lemma_picked_at_indices(self.cache.words(), self.active@);
        }
        let mut r: Vec<Candidate> = Vec::new();
        let mut k: usize = 0;
        while k < self.active.len()
            invariant
                self.wf(),
                picked(self.cache.words(), self.active@) == word_views(self.words()),
                k <= self.active.len(),
                r@.len() == k,
                forall|j: int|
                    0 <= j < k ==> {
                        &&& is_histogram(
                            (#[trigger] r@[j]).dist,
                            word_views(self.words()),
                            self.words()[j]@,
                        )
                        &&& r@[j].history@.len() == 0
                        &&& r@[j].plausible
                    },
            decreases self.active.len() - k,
        {
            let dist = self.cache.dist(self.active[k], &self.active);
            r.push(Candidate { dist, history: Vec::new(), plausible: true });
            k += 1;
        }
        r
    }

    /// The remaining word whose score is highest, the first among equals;
    /// `scores` holds one score per remaining word, in order.
    pub fn guess_by(&self, scores: &Vec<u64>) -> (r: Option<String>)
        requires
            self.wf(),
            scores@.len() == self.words().len(),
        ensures
            r is None <==> self.words().len() == 0,
            r is Some ==> r->0@ == self.words()[first_best(scores@, scores@.len() - 1)]@,
    {
        if scores.len() == 0 {
            return None;
        }
        let best = pick_first_best(scores);
        Some(owned_word(&self.cache.words, self.active[best]))
    }

    /// Keeps only the words that the feedback `guess_result` leaves possible.
    pub fn narrow_words(&mut self, guess_result: &WordMatch)
        requires
            old(self).wf(),
        ensures
            final(self).wf(),
            final(self).words() == narrowed(
                old(self).words(),
                guess_result.word@,
                guess_result.aligns@,
            ),
    {
        self.active = narrow_indices(&self.cache.words, &self.active, guess_result);
    }
}

fn contains_index(idx: &Vec<usize>, k: usize) -> (r: bool)
    ensures
        r == idx@.contains(k),
{
    let mut i: usize = 0;
    while i < idx.len()
        invariant
            i <= idx.len(),
            forall|j: int| 0 <= j < i ==> idx@[j] != k,
        decreases idx.len() - i,
    {
        if idx[i] == k {
            return true;
        }
        i += 1;
    }
    false
}

/// An entropy solver that keeps its full pool as the guesses it weighs and
/// narrows only the list of possible targets; a guess that could itself be
/// the target is marked as such.
#[derive(Debug)]
pub struct GlobalFilteredEntropySolver<'a> {
    cache: MatchCache<'a>,
    filtered: Vec<usize>,
    prev_guesses: Vec<String>,
}

impl<'a> GlobalFilteredEntropySolver<'a> {
    /// The full pool.
    pub closed spec fn words(&self) -> Seq<&'a str> {
        self.cache.words()
    }

    /// The words still possible as targets.
    pub closed spec fn filtered_words(&self) -> Seq<&'a str> {
        at_indices(self.cache.words(), self.filtered@)
    }

    /// The indices, into the full pool, of the words still possible.
    pub closed spec fn filtered_ids(&self) -> Seq<usize> {
        self.filtered@
    }

    /// The words guessed so far.
    pub closed spec fn guessed(&self) -> Seq<Seq<char>> {
        Seq::new(self.prev_guesses@.len(), |k: int| self.prev_guesses@[k]@)
    }

    /// The state is consistent: the precomputed feedback covers the pool and
    /// every index lies within it.
    pub closed spec fn wf(&self) -> bool {
        self.cache.wf() && in_range(self.filtered@, self.cache.words().len())
    }

    /// The indices of the words of the pool not guessed yet: the candidates.
    pub open spec fn candidate_ids(&self) -> Seq<usize> {
        unguessed(self.words(), self.guessed())
    }

    /// A solver over the pool `base_wordlist`, whose words share one length.
    pub fn new(base_wordlist: &Vec<&'a str>) -> (r: Self)
        requires
            uniform(base_wordlist@),
        ensures
            r.wf(),
            r.words() == base_wordlist@,
            r.filtered_words() == base_wordlist@,
            r.guessed().len() == 0,
    {
        let cache = MatchCache::new(base_wordlist);
        let filtered = all_indices(base_wordlist.len());
        let r = GlobalFilteredEntropySolver { cache, filtered, prev_guesses: Vec::new() };
        assert(r.filtered_words() =~= base_wordlist@);
        r
    }

    /// Starts over with the pool `wordlist`.
    pub fn reload_wordlist(&mut self, wordlist: &Vec<&'a str>)
        requires
            old(self).wf(),
            uniform(wordlist@),
        ensures
            final(self).wf(),
            final(self).words() == wordlist@,
            final(self).filtered_words() == wordlist@,
            final(self).guessed().len() == 0,
    {
        self.cache.rebase(wordlist);
        self.filtered = all_indices(wordlist.len());
        self.prev_guesses = Vec::new();
        assert(self.filtered_words() =~= wordlist@);
    }

    /// The size of the full pool.
    pub fn pool_size(&self) -> (r: usize)
        ensures
            r == self.words().len(),
    {
        self.cache.words.len()
    }

    /// One candidate per word of the pool not guessed yet, in order: the
    /// histogram of the feedback it receives from each possible target, and
    /// whether it is a possible target itself.
    pub fn candidates(&self) -> (r: Vec<Candidate>)
        requires
            self.wf(),
        ensures
            r@.len() == self.candidate_ids().len(),
            forall|k: int|
                0 <= k < r@.len() ==> {
                    &&& is_histogram(
                        (#[trigger] r@[k]).dist,
                        word_views(self.filtered_words()),
                        self.words()[self.candidate_ids()[k] as int]@,
                    )
                    &&& r@[k].history@.len() == 0
                    &&& r@[k].plausible == self.filtered_ids().contains(self.candidate_ids()[k])
                },
    {
        proof {
            lemma_picked_at_indices(self.cache.words(), self.filtered@);
        }
        let ids = unguessed_ids(&self.cache.words, &self.prev_guesses);
        let mut r: Vec<Candidate> = Vec::new();
        let mut k: usize = 0;
        while k < ids.len()
            invariant
                self.wf(),
                ids@ == self.candidate_ids(),
                in_range(ids@, self.cache.words().len()),
                picked(self.cache.words(), self.filtered@) == word_views(self.filtered_words()),
                k <= ids.len(),
                r@.len() == k,
                forall|j: int|
                    0 <= j < k ==> {
                        &&& is_histogram(
                            (#[trigger] r@[j]).dist,
                            word_views(self.filtered_words()),
                            self.words()[ids@[j] as int]@,
                        )
                        &&& r@[j].history@.len() == 0
                        &&& r@[j].plausible == self.filtered@.contains(ids@[j])
                    },
            decreases ids.len() - k,
        {
            let g = ids[k];
            let dist = self.cache.dist(g, &self.filtered);
            let plausible = contains_index(&self.filtered, g);
            r.push(Candidate { dist, history: Vec::new(), plausible });
            k += 1;
        }
        r
    }

    /// The candidate whose score is highest, the first among equals;
    /// `scores` holds one score per candidate, in order.
    pub fn guess_by(&self, scores: &Vec<u64>) -> (r: Option<String>)
        requires
            self.wf(),
            scores@.len() == self.candidate_ids().len(),
        ensures
            r is None <==> self.candidate_ids().len() == 0,
            r is Some ==> r->0@ == self.words()[self.candidate_ids()[first_best(
                scores@,
                scores@.len() - 1,
            )] as int]@,
    {
        if scores.len() == 0 {
            return None;
        }
        let ids = unguessed_ids(&self.cache.words, &self.prev_guesses);
        let best = pick_first_best(scores);
        Some(owned_word(&self.cache.words, ids[best]))
    }

    /// Records the guess and keeps, as possible targets, only the words that
    /// the feedback `guess_result` leaves possible.
    pub fn narrow_words(&mut self, guess_result: &WordMatch)
        requires
            old(self).wf(),
        ensures
            final(self).wf(),
            final(self).words() == old(self).words(),
            final(self).filtered_words() == narrowed(
                old(self).filtered_words(),
                guess_result.word@,
                guess_result.aligns@,
            ),
            final(self).guessed() == old(self).guessed().push(guess_result.word@),
    {
        self.filtered = narrow_indices(&self.cache.words, &self.filtered, guess_result);
        self.prev_guesses.push(guess_result.word.clone());
        assert(self.guessed() =~= old(self).guessed().push(guess_result.word@));
    }
}

fn copy_pattern(p: &Vec<CharAlignment>) -> (r: Vec<CharAlignment>)
    ensures
        r@ == p@,
{
    let mut r: Vec<CharAlignment> = Vec::new();
    let mut i: usize = 0;
    while i < p.len()
        invariant
            i <= p.len(),
            r@ == p@.subrange(0, i as int),
        decreases p.len() - i,
    {
        r.push(p[i]);
        i += 1;
    }
    assert(r@ =~= p@);
    r
}

fn copy_histogram(h: &Histogram, Ghost(ts): Ghost<Seq<Seq<char>>>, Ghost(g): Ghost<Seq<char>>) -> (r:
    Histogram)
    requires
        is_histogram(*h, ts, g),
    ensures
        is_histogram(r, ts, g),
{
    let mut patterns: Vec<Vec<CharAlignment>> = Vec::new();
    let mut counts: Vec<usize> = Vec::new();
    let mut i: usize = 0;
    while i < h.patterns.len()
        invariant
            is_histogram(*h, ts, g),
            i <= h.patterns.len(),
            patterns@.len() == i,
            counts@ == h.counts@.subrange(0, i as int),
            forall|k: int| 0 <= k < i ==> (#[trigger] patterns@[k])@ == h.patterns@[k]@,
        decreases h.patterns.len() - i,
    {
        patterns.push(copy_pattern(&h.patterns[i]));
        counts.push(h.counts[i]);
        i += 1;
    }
    assert(counts@ =~= h.counts@);
    let r = Histogram { patterns, counts };
    assert forall|j: int| 0 <= j < ts.len() implies lists(
        r.patterns@,
        alignments(#[trigger] ts[j], g),
    ) by {
        assert(lists(h.patterns@, alignments(ts[j], g)));
        let e = choose|e: int|
            0 <= e < h.patterns@.len() && (#[trigger] h.patterns@[e])@ == alignments(ts[j], g);
        assert(r.patterns@[e]@ == h.patterns@[e]@);
    }
    assert forall|a: int, b: int| 0 <= a < b < r.patterns@.len() implies (
    #[trigger] r.patterns@[a])@ != (#[trigger] r.patterns@[b])@ by {
        assert(h.patterns@[a]@ != h.patterns@[b]@);
    }
    assert forall|e: int| 0 <= e < r.counts@.len() implies #[trigger] r.counts@[e]
        == pattern_count(ts, g, r.patterns@[e]@) && r.counts@[e] > 0 by {
        assert(r.patterns@[e]@ == h.patterns@[e]@);
        assert(h.counts@[e] == pattern_count(ts, g, h.patterns@[e]@));
    }
    assert(counted(r.patterns@, r.counts@, ts, g));
    r
}

/// The number of targets that give the pattern `pat`, read off a histogram.
fn hist_count(
    h: &Histogram,
    pat: &Vec<CharAlignment>,
    Ghost(ts): Ghost<Seq<Seq<char>>>,
    Ghost(g): Ghost<Seq<char>>,
) -> (r: usize)
    requires
        is_histogram(*h, ts, g),
    ensures
        r == pattern_count(ts, g, pat@),
{
    let mut e: usize = 0;
    while e < h.patterns.len()
        invariant
            is_histogram(*h, ts, g),
            e <= h.patterns.len(),
            forall|k: int| 0 <= k < e ==> (#[trigger] h.patterns@[k])@ != pat@,
        decreases h.patterns.len() - e,
    {
        if same_pattern(&h.patterns[e], pat) {
            return h.counts[e];
        }
        e += 1;
    }
    proof {
        assert forall|j: int| 0 <= j < ts.len() implies alignments(ts[j], g) != pat@ by {
            assert(lists(h.patterns@, alignments(ts[j], g)));
            let k = choose|k: int|
                0 <= k < h.patterns@.len() && (#[trigger] h.patterns@[k])@ == alignments(
                    ts[j],
                    g,
                );
        }
        lemma_pattern_count_absent(ts, g, pat@);
    }
    0
}

/// The words of earlier feedback.
pub open spec fn match_words(prev: Seq<WordMatch>) -> Seq<Seq<char>> {
    Seq::new(prev.len(), |k: int| prev[k].word@)
}

fn guessed_words(prev: &Vec<WordMatch>) -> (r: Vec<String>)
    ensures
        Seq::new(r@.len(), |k: int| r@[k]@) == match_words(prev@),
{
    let mut r: Vec<String> = Vec::new();
    let mut i: usize = 0;
    while i < prev.len()
        invariant
            i <= prev.len(),
            r@.len() == i,
            forall|k: int| 0 <= k < i ==> (#[trigger] r@[k])@ == prev@[k].word@,
        decreases prev.len() - i,
    {
        r.push(prev[i].word.clone());
        i += 1;
    }
    assert(Seq::new(r@.len(), |k: int| r@[k]@) =~= match_words(prev@));
    r
}

/// An entropy solver that builds the histograms once over its full pool and
/// never narrows it; it only avoids repeating a guess, and it weighs each
/// candidate by how the observed feedback of earlier rounds would have split
/// the pool for it.
#[derive(Debug)]
pub struct EntropySolver<'a> {
    cache: MatchCache<'a>,
    dist_map: Vec<Histogram>,
    prev_guesses: Vec<WordMatch>,
}

impl<'a> EntropySolver<'a> {
    /// The pool.
    pub closed spec fn words(&self) -> Seq<&'a str> {
        self.cache.words()
    }

    /// The feedback received so far.
    pub closed spec fn history(&self) -> Seq<WordMatch> {
        self.prev_guesses@
    }

    /// The state is consistent: the precomputed feedback covers the pool and
    /// every index lies within it.
    pub closed spec fn wf(&self) -> bool {
        &&& self.cache.wf()
        &&& self.dist_map@.len() == self.cache.words().len()
        &&& forall|g: int|
            0 <= g < self.dist_map@.len() ==> is_histogram(
                #[trigger] self.dist_map@[g],
                word_views(self.cache.words()),
                self.cache.words()[g]@,
            )
    }

    /// The indices of the words of the pool not guessed yet: the candidates.
    pub open spec fn candidate_ids(&self) -> Seq<usize> {
        unguessed(self.words(), match_words(self.history()))
    }

    fn create_dist_map(cache: &MatchCache<'a>) -> (r: Vec<Histogram>)
        requires
            cache.wf(),
        ensures
            r@.len() == cache.words().len(),
            forall|g: int|
                0 <= g < r@.len() ==> is_histogram(
                    #[trigger] r@[g],
                    word_views(cache.words()),
                    cache.words()[g]@,
                ),
    {
        let n = cache.words.len();
        let all = all_indices(n);
        proof {
            assert(picked(cache.words(), all@) =~= word_views(cache.words()));
        }
        let mut r: Vec<Histogram> = Vec::new();
        let mut g: usize = 0;
        while g < n
            invariant
                cache.wf(),
                n == cache.words().len(),
                all@.len() == n,
                in_range(all@, n as nat),
                picked(cache.words(), all@) == word_views(cache.words()),
                g <= n,
                r@.len() == g,
                forall|j: int|
                    0 <= j < g ==> is_histogram(
                        #[trigger] r@[j],
                        word_views(cache.words()),
                        cache.words()[j]@,
                    ),
            decreases n - g,
        {
            r.push(cache.dist(g, &all));
            g += 1;
        }
        r
    }

    /// A solver over the pool `base_wordlist`, whose words share one length.
    pub fn new(base_wordlist: &Vec<&'a str>) -> (r: Self)
        requires
            uniform(base_wordlist@),
        ensures
            r.wf(),
            r.words() == base_wordlist@,
            r.history().len() == 0,
    {
        let cache = MatchCache::new(base_wordlist);
        let dist_map = Self::create_dist_map(&cache);
        EntropySolver { cache, dist_map, prev_guesses: Vec::new() }
    }

    /// Starts over with the pool `wordlist`, reusing the histograms where
    /// the pool is unchanged.
    pub fn reload_wordlist(&mut self, wordlist: &Vec<&'a str>)
        requires
            old(self).wf(),
            uniform(wordlist@),
        ensures
            final(self).wf(),
            final(self).words() == wordlist@,
            final(self).history().len() == 0,
    {
        if same_words(&self.cache.words, wordlist) {
            self.cache.rebase(wordlist);
            proof {
                assert(word_views(self.cache.words()) =~= word_views(old(self).cache.words()));
            }
        } else {
            self.cache.rebase(wordlist);
            self.dist_map = Self::create_dist_map(&self.cache);
        }
        self.prev_guesses = Vec::new();
    }

    /// The size of the pool.
    pub fn pool_size(&self) -> (r: usize)
        ensures
            r == self.words().len(),
    {
        self.cache.words.len()
    }

    /// One candidate per word not guessed yet, in order: the histogram of the
    /// feedback it receives from each word of the pool, and for each earlier
    /// round how many words of the pool would have given it that round's
    /// feedback.
    pub fn candidates(&self) -> (r: Vec<Candidate>)
        requires
            self.wf(),
        ensures
            r@.len() == self.candidate_ids().len(),
            forall|k: int|
                0 <= k < r@.len() ==> {
                    &&& is_histogram(
                        (#[trigger] r@[k]).dist,
                        word_views(self.words()),
                        self.words()[self.candidate_ids()[k] as int]@,
                    )
                    &&& r@[k].history@.len() == self.history().len()
                    &&& forall|j: int|
                        0 <= j < self.history().len() ==> r@[k].history@[j] == pattern_count(
                            word_views(self.words()),
                            self.words()[self.candidate_ids()[k] as int]@,
                            self.history()[j].aligns@,
                        )
                    &&& r@[k].plausible
                },
    {
        let prev_words = guessed_words(&self.prev_guesses);
        let ids = unguessed_ids(&self.cache.words, &prev_words);
        let ghost ts = word_views(self.cache.words());
        let mut r: Vec<Candidate> = Vec::new();
        let mut k: usize = 0;
        while k < ids.len()
            invariant
                self.wf(),
                ts == word_views(self.cache.words()),
                ids@ == self.candidate_ids(),
                in_range(ids@, self.cache.words().len()),
                k <= ids.len(),
                r@.len() == k,
                forall|i: int|
                    0 <= i < k ==> {
                        &&& is_histogram(
                            (#[trigger] r@[i]).dist,
                            ts,
                            self.words()[ids@[i] as int]@,
                        )
                        &&& r@[i].history@.len() == self.history().len()
                        &&& forall|j: int|
                            0 <= j < self.history().len() ==> r@[i].history@[j] == pattern_count(
                                ts,
                                self.words()[ids@[i] as int]@,
                                self.history()[j].aligns@,
                            )
                        &&& r@[i].plausible
                    },
            decreases ids.len() - k,
        {
            let g = ids[k];
            let ghost gw = self.cache.words()[g as int]@;
            let h = &self.dist_map[g];
            let mut history: Vec<usize> = Vec::new();
            let mut j: usize = 0;
            while j < self.prev_guesses.len()
                invariant
                    is_histogram(*h, ts, gw),
                    j <= self.prev_guesses.len(),
                    history@.len() == j,
                    forall|i: int|
                        0 <= i < j ==> #[trigger] history@[i] == pattern_count(
                            ts,
                            gw,
                            self.prev_guesses@[i].aligns@,
                        ),
                decreases self.prev_guesses.len() - j,
            {
                history.push(hist_count(h, &self.prev_guesses[j].aligns, Ghost(ts), Ghost(gw)));
                j += 1;
            }
            let dist = copy_histogram(h, Ghost(ts), Ghost(gw));
            r.push(Candidate { dist, history, plausible: true });
            k += 1;
        }
        r
    }

    /// The candidate whose score is highest, the first among equals;
    /// `scores` holds one score per candidate, in order.
    pub fn guess_by(&self, scores: &Vec<u64>) -> (r: Option<String>)
        requires
            self.wf(),
            scores@.len() == self.candidate_ids().len(),
        ensures
            r is None <==> self.candidate_ids().len() == 0,
            r is Some ==> r->0@ == self.words()[self.candidate_ids()[first_best(
                scores@,
                scores@.len() - 1,
            )] as int]@,
    {
        if scores.len() == 0 {
            return None;
        }
        let prev_words = guessed_words(&self.prev_guesses);
        let ids = unguessed_ids(&self.cache.words, &prev_words);
        let best = pick_first_best(scores);
        Some(owned_word(&self.cache.words, ids[best]))
    }

    /// Records the feedback `guess_result`; the pool itself is kept.
    pub fn narrow_words(&mut self, guess_result: &WordMatch)
        requires
            old(self).wf(),
        ensures
            final(self).wf(),
            final(self).words() == old(self).words(),
            final(self).history().len() == old(self).history().len() + 1,
            forall|j: int|
                0 <= j < old(self).history().len() ==> #[trigger] final(self).history()[j]
                    == old(self).history()[j],
            final(self).history().last().word@ == guess_result.word@,
            final(self).history().last().aligns@ == guess_result.aligns@,
    {
        let m = WordMatch { word: guess_result.word.clone(), aligns: copy_pattern(&guess_result.aligns) };
        self.prev_guesses.push(m);
    }
}

} // verus!

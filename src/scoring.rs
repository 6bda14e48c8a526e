use vstd::prelude::*;
use crate::tally::{keys_unique, tally, tally_of, tally_bump};
use crate::text::chars_of;

verus! {

/// The characters of each word of a pool.
pub open spec fn word_views(pool: Seq<&str>) -> Seq<Seq<char>> {
    Seq::new(pool.len(), |k: int| pool[k]@)
}

/// The length of the longest word.
pub open spec fn width(p: Seq<Seq<char>>) -> nat
    decreases p.len(),
{
    if p.len() == 0 {
        0
    } else {
        let w = width(p.drop_last());
        if p.last().len() > w {
            p.last().len()
        } else {
            w
        }
    }
}

/// How many words hold `c` at position `i`.
pub open spec fn pos_count(p: Seq<Seq<char>>, i: int, c: char) -> nat
    decreases p.len(),
{
    if p.len() == 0 {
        0
    } else {
        pos_count(p.drop_last(), i, c) + if 0 <= i < p.last().len() && p.last()[i] == c {
            1nat
        } else {
            0nat
        }
    }
}

/// How often `c` occurs among the first `k` characters of `w`.
pub open spec fn occurrences(w: Seq<char>, c: char, k: int) -> nat
    decreases k,
{
    if k <= 0 {
        0
    } else {
        occurrences(w, c, k - 1) + if w[k - 1] == c {
            1nat
        } else {
            0nat
        }
    }
}

/// How often `c` occurs in the pool, at any position.
pub open spec fn total_count(p: Seq<Seq<char>>, c: char) -> nat
    decreases p.len(),
{
    if p.len() == 0 {
        0
    } else {
        total_count(p.drop_last(), c) + occurrences(p.last(), c, p.last().len() as int)
    }
}

/// Scores computed over the pool stay within 64 bits.
pub open spec fn scores_fit(p: Seq<Seq<char>>) -> bool {
    11 * width(p) * width(p) * p.len() <= u64::MAX
}

/// Letter counts over a pool: for each position the count of each letter
/// there, and the count of each letter over all positions.
#[derive(Debug)]
pub struct LetterFrequencies {
    pub width: usize,
    pub pool_size: usize,
    pub positions: Vec<Vec<(char, u64)>>,
    pub totals: Vec<(char, u64)>,
}

/// `f` holds the letter counts of the pool `p`.
pub open spec fn counts_of(f: LetterFrequencies, p: Seq<Seq<char>>) -> bool {
    &&& f.width == width(p)
    &&& f.pool_size == p.len()
    &&& f.positions@.len() == f.width
    &&& keys_unique(f.totals@)
    &&& forall|i: int| 0 <= i < f.width ==> keys_unique(#[trigger] f.positions@[i]@)
    &&& forall|i: int, c: char|
        0 <= i < f.width ==> #[trigger] tally(f.positions@[i]@, c) == pos_count(p, i, c)
    &&& forall|c: char| #[trigger] tally(f.totals@, c) == total_count(p, c)
}

proof fn lemma_width_bounds(p: Seq<Seq<char>>, k: int)
    requires
        0 <= k < p.len(),
    ensures
        p[k].len() <= width(p),
    decreases p.len(),
{
    if k < p.len() - 1 {
        lemma_width_bounds(p.drop_last(), k);
    }
}

proof fn lemma_pos_count_bound(p: Seq<Seq<char>>, i: int, c: char)
    ensures
        pos_count(p, i, c) <= p.len(),
    decreases p.len(),
{
    if p.len() > 0 {
        lemma_pos_count_bound(p.drop_last(), i, c);
    }
}

proof fn lemma_occurrences_bound(w: Seq<char>, c: char, k: int)
    requires
        0 <= k,
    ensures
        occurrences(w, c, k) <= k,
    decreases k,
{
    if k > 0 {
        lemma_occurrences_bound(w, c, k - 1);
    }
}

proof fn lemma_total_count_bound(p: Seq<Seq<char>>, c: char, m: nat)
    requires
        forall|k: int| 0 <= k < p.len() ==> (#[trigger] p[k]).len() <= m,
    ensures
        total_count(p, c) <= p.len() * m,
    decreases p.len(),
{
    if p.len() > 0 {
        let q = p.drop_last();
        assert forall|k: int| 0 <= k < q.len() implies (#[trigger] q[k]).len() <= m by {
            assert(q[k] == p[k]);
        }
        lemma_total_count_bound(q, c, m);
        lemma_occurrences_bound(p.last(), c, p.last().len() as int);
        assert(p.last().len() <= m);
        assert(q.len() * m + m == p.len() * m) by (nonlinear_arith)
            requires
                q.len() + 1 == p.len(),
        ;
    }
}

/// Every count over the pool `p` fits its bound: at most the pool's size at
/// one position, at most the pool's size times its width overall.
proof fn lemma_counts_bounded(p: Seq<Seq<char>>, i: int, c: char)
    ensures
        pos_count(p, i, c) <= p.len(),
        total_count(p, c) <= p.len() * width(p),
{
    lemma_pos_count_bound(p, i, c);
    assert forall|k: int| 0 <= k < p.len() implies (#[trigger] p[k]).len() <= width(p) by {
        lemma_width_bounds(p, k);
    }
    lemma_total_count_bound(p, c, width(p));
}

proof fn lemma_prefix_step(p: Seq<Seq<char>>, k: int)
    requires
        0 <= k < p.len(),
    ensures
        p.subrange(0, k + 1).drop_last() == p.subrange(0, k),
        p.subrange(0, k + 1).last() == p[k],
{
    assert(p.subrange(0, k + 1).drop_last() =~= p.subrange(0, k));
}

fn longest(words: &Vec<Vec<char>>, Ghost(p): Ghost<Seq<Seq<char>>>) -> (r: usize)
    requires
        words@.len() == p.len(),
        forall|k: int| 0 <= k < p.len() ==> (#[trigger] words@[k])@ == p[k],
    ensures
        r == width(p),
{
    let mut r: usize = 0;
    let mut k: usize = 0;
    while k < words.len()
        invariant
            words@.len() == p.len(),
            forall|j: int| 0 <= j < p.len() ==> (#[trigger] words@[j])@ == p[j],
            k <= words.len(),
            r == width(p.subrange(0, k as int)),
        decreases words.len() - k,
    {
        proof {
            lemma_prefix_step(p, k as int);
        }
        if words[k].len() > r {
            r = words[k].len();
        }
        k += 1;
    }
    assert(p.subrange(0, words.len() as int) =~= p);
    r
}

/// Counts each letter per position and over all positions of the pool.
pub fn count_letter(word_list: &Vec<&str>) -> (r: LetterFrequencies)
    requires
        scores_fit(word_views(word_list@)),
    ensures
        counts_of(r, word_views(word_list@)),
{
    let ghost p = word_views(word_list@);
    let mut words: Vec<Vec<char>> = Vec::new();
    let mut k: usize = 0;
    while k < word_list.len()
        invariant
            p == word_views(word_list@),
            k <= word_list.len(),
            words@.len() == k,
            forall|j: int| 0 <= j < k ==> (#[trigger] words@[j])@ == p[j],
        decreases word_list.len() - k,
    {
        words.push(chars_of(word_list[k]));
        k += 1;
    }
    let wd = longest(&words, Ghost(p));
    let n = words.len();
    let mut positions: Vec<Vec<(char, u64)>> = Vec::new();
    let mut i: usize = 0;
    while i < wd
        invariant
            i <= wd,
            positions@.len() == i,
            forall|j: int| 0 <= j < i ==> (#[trigger] positions@[j])@ == Seq::<(char, u64)>::empty(),
        decreases wd - i,
    {
        positions.push(Vec::new());
        i += 1;
    }
    let mut totals: Vec<(char, u64)> = Vec::new();
    proof {
        assert forall|j: int, c: char| 0 <= j < wd implies #[trigger] tally(
            positions@[j]@,
            c,
        ) == pos_count(p.subrange(0, 0), j, c) by {
            assert(p.subrange(0, 0).len() == 0);
        }
        assert forall|c: char| #[trigger] tally(totals@, c) == total_count(p.subrange(0, 0), c) by {
            assert(p.subrange(0, 0).len() == 0);
        }
    }
    let mut k: usize = 0;
    while k < n
        invariant
            p == word_views(word_list@),
            scores_fit(p),
            n == p.len(),
            words@.len() == n,
            forall|j: int| 0 <= j < n ==> (#[trigger] words@[j])@ == p[j],
            wd == width(p),
            k <= n,
            positions@.len() == wd,
            keys_unique(totals@),
            forall|j: int| 0 <= j < wd ==> keys_unique(#[trigger] positions@[j]@),
            forall|j: int, c: char|
                0 <= j < wd ==> #[trigger] tally(positions@[j]@, c) == pos_count(
                    p.subrange(0, k as int),
                    j,
                    c,
                ),
            forall|c: char| #[trigger] tally(totals@, c) == total_count(p.subrange(0, k as int), c),
        decreases n - k,
    {
        let w = &words[k];
        let ghost q = p.subrange(0, k as int);
        proof {
            lemma_width_bounds(p, k as int);
            lemma_prefix_step(p, k as int);
        }
        let mut j: usize = 0;
        while j < w.len()
            invariant
                p == word_views(word_list@),
                scores_fit(p),
                n == p.len(),
                k < n,
                q == p.subrange(0, k as int),
                w@ == p[k as int],
                w.len() <= wd,
                wd == width(p),
                j <= w.len(),
                positions@.len() == wd,
                keys_unique(totals@),
                forall|i: int| 0 <= i < wd ==> keys_unique(#[trigger] positions@[i]@),
                forall|i: int, c: char|
                    0 <= i < wd ==> #[trigger] tally(positions@[i]@, c) == pos_count(q, i, c)
                        + if i < j && w@[i] == c {
                        1nat
                    } else {
                        0nat
                    },
                forall|c: char| #[trigger] tally(totals@, c) == total_count(q, c) + occurrences(
                    w@,
                    c,
                    j as int,
                ),
            decreases w.len() - j,
        {
            let c = w[j];
            proof {
                lemma_counts_bounded(q, j as int, c);
                lemma_occurrences_bound(w@, c, j as int);
                assert(q.len() == k);
                assert(width(q) <= wd) by {
                    assert forall|t: int| 0 <= t < q.len() implies (#[trigger] q[t]).len()
                        <= wd by {
                        lemma_width_bounds(p, t);
                    }
                    lemma_width_le(q, wd as nat);
                }
                assert(q.len() * width(q) + j < u64::MAX) by (nonlinear_arith)
                    requires
                        q.len() < p.len(),
                        width(q) <= wd,
                        j < wd,
                        11 * wd * wd * p.len() <= u64::MAX,
                ;
            }
            tally_bump(&mut positions[j], c);
            tally_bump(&mut totals, c);
            j += 1;
        }
        proof {
            let q1 = p.subrange(0, k + 1);
            assert(q1.drop_last() == q);
            assert forall|i: int, c: char| 0 <= i < wd implies #[trigger] tally(
                positions@[i]@,
                c,
            ) == pos_count(q1, i, c) by {}
            assert forall|c: char| #[trigger] tally(totals@, c) == total_count(q1, c) by {}
        }
        k += 1;
    }
    assert(p.subrange(0, n as int) =~= p);
    LetterFrequencies { width: wd, pool_size: n, positions, totals }
}


/// The weight of a letter at one position, where it occurs there `pc` times in
/// the pool and `tc` times over all positions: the real-valued weight
/// `pc / n + 0.1 * tc / (n * wd)`, scaled by `10 * n * wd`. A letter absent
/// from a position weighs nothing there.
pub open spec fn letter_weight(pc: nat, tc: nat, wd: nat) -> nat {
    if pc == 0 {
        0
    } else {
        10 * wd * pc + tc
    }
}

/// The best weight that letter `c` reaches at any of the first `k` positions of `w`.
pub open spec fn best_weight(
    pc: spec_fn(int, char) -> nat,
    tc: spec_fn(char) -> nat,
    wd: nat,
    w: Seq<char>,
    c: char,
    k: int,
) -> nat
    decreases k,
{
    if k <= 0 {
        0
    } else {
        let b = best_weight(pc, tc, wd, w, c, k - 1);
        let x = if w[k - 1] == c {
            letter_weight(pc(k - 1, c), tc(c), wd)
        } else {
            0
        };
        if x > b {
            x
        } else {
            b
        }
    }
}

/// Position `i` holds the first occurrence of its letter in `w`.
pub open spec fn first_at(w: Seq<char>, i: int) -> bool {
    forall|j: int| 0 <= j < i ==> w[j] != w[i]
}

/// How many leading positions of `w` are scored.
pub open spec fn scored_len(w: Seq<char>, wd: nat) -> int {
    if w.len() <= wd {
        w.len() as int
    } else {
        wd as int
    }
}

/// The sum, over the distinct letters among the first `k` positions, of each
/// letter's best weight.
pub open spec fn score_upto(
    pc: spec_fn(int, char) -> nat,
    tc: spec_fn(char) -> nat,
    wd: nat,
    w: Seq<char>,
    k: int,
) -> nat
    decreases k,
{
    if k <= 0 {
        0
    } else {
        score_upto(pc, tc, wd, w, k - 1) + if first_at(w, k - 1) {
            best_weight(pc, tc, wd, w, w[k - 1], scored_len(w, wd))
        } else {
            0
        }
    }
}

pub open spec fn table_pos(f: LetterFrequencies, i: int, c: char) -> nat {
    if 0 <= i < f.positions@.len() {
        tally(f.positions@[i]@, c)
    } else {
        0
    }
}

/// The score of `w` under the letter counts held in `f`.
pub open spec fn table_score(f: LetterFrequencies, w: Seq<char>) -> nat {
    score_upto(
        |i: int, c: char| table_pos(f, i, c),
        |c: char| tally(f.totals@, c),
        f.width as nat,
        w,
        scored_len(w, f.width as nat),
    )
}

/// The score of `w` under the letter counts of the pool `p`.
pub open spec fn pool_score(p: Seq<Seq<char>>, w: Seq<char>) -> nat {
    score_upto(
        |i: int, c: char|
            if 0 <= i < width(p) {
                pos_count(p, i, c)
            } else {
                0
            },
        |c: char| total_count(p, c),
        width(p),
        w,
        scored_len(w, width(p)),
    )
}

/// The counts in `f` are small enough for every score to fit in 64 bits.
pub open spec fn bounded(f: LetterFrequencies) -> bool {
    &&& f.positions@.len() == f.width
    &&& keys_unique(f.totals@)
    &&& forall|i: int| 0 <= i < f.width ==> keys_unique(#[trigger] f.positions@[i]@)
    &&& forall|i: int, c: char|
        0 <= i < f.width ==> #[trigger] tally(f.positions@[i]@, c) <= f.pool_size
    &&& forall|c: char| #[trigger] tally(f.totals@, c) <= f.pool_size * f.width
    &&& 11 * f.width * f.width * f.pool_size <= u64::MAX
}

/// Counts of a pool whose scores fit are bounded, and score words as the pool does.
pub proof fn lemma_counts_score(f: LetterFrequencies, p: Seq<Seq<char>>)
    requires
        counts_of(f, p),
        scores_fit(p),
    ensures
        bounded(f),
        forall|w: Seq<char>| table_score(f, w) == pool_score(p, w),
{
    assert forall|i: int, c: char| 0 <= i < f.width implies #[trigger] tally(
        f.positions@[i]@,
        c,
    ) <= f.pool_size by {
        lemma_counts_bounded(p, i, c);
    }
    assert forall|c: char| #[trigger] tally(f.totals@, c) <= f.pool_size * f.width by {
        lemma_counts_bounded(p, 0, c);
    }
    let pc1 = |i: int, c: char| table_pos(f, i, c);
    let pc2 = |i: int, c: char|
        if 0 <= i < width(p) {
            pos_count(p, i, c)
        } else {
            0
        };
    let tc1 = |c: char| tally(f.totals@, c);
    let tc2 = |c: char| total_count(p, c);
    assert(pc1 =~= pc2);
    assert(tc1 =~= tc2);
}

proof fn lemma_best_weight_bound(
    f: LetterFrequencies,
    w: Seq<char>,
    c: char,
    k: int,
)
    requires
        bounded(f),
        k <= f.width,
    ensures
        best_weight(
            |i: int, c: char| table_pos(f, i, c),
            |c: char| tally(f.totals@, c),
            f.width as nat,
            w,
            c,
            k,
        ) <= 11 * f.width * f.pool_size,
    decreases k,
{
    if k > 0 {
        lemma_best_weight_bound(f, w, c, k - 1);
        let pc = table_pos(f, k - 1, c);
        let tc = tally(f.totals@, c);
        let wd = f.width as nat;
        let n = f.pool_size as nat;
        assert(pc <= n);
        assert(tc <= n * wd);
        assert(10 * wd * pc + tc <= 11 * wd * n) by (nonlinear_arith)
            requires
                pc <= n,
                tc <= n * wd,
        ;
    }
}

/// The score of `word`: over its distinct letters, the sum of the best
/// weight each reaches at any of its positions.
pub fn score_word(word: &str, letter_freq: &LetterFrequencies) -> (r: u64)
    requires
        bounded(*letter_freq),
    ensures
        r == table_score(*letter_freq, word@),
{
    let ghost f = *letter_freq;
    let ghost pc = |i: int, c: char| table_pos(f, i, c);
    let ghost tc = |c: char| tally(f.totals@, c);
    let w = chars_of(word);
    let wd = letter_freq.width;
    let m: usize = if w.len() <= wd { w.len() } else { wd };
    let ghost bound = 11 * wd * letter_freq.pool_size;
    let mut total: u64 = 0;
    let mut i: usize = 0;
    while i < m
        invariant
            f == *letter_freq,
            bounded(f),
            pc == (|i: int, c: char| table_pos(f, i, c)),
            tc == (|c: char| tally(f.totals@, c)),
            wd == f.width,
            w@ == word@,
            m == scored_len(w@, wd as nat),
            m <= wd,
            bound == 11 * wd * f.pool_size,
            i <= m,
            total == score_upto(pc, tc, wd as nat, w@, i as int),
            total <= i * bound,
        decreases m - i,
    {
        let c = w[i];
        let mut first = true;
        let mut j: usize = 0;
        while j < i
            invariant
                i < m,
                m <= w.len(),
                c == w@[i as int],
                j <= i,
                first == forall|t: int| 0 <= t < j ==> w@[t] != w@[i as int],
            decreases i - j,
        {
            if w[j] == c {
                first = false;
            }
            j += 1;
        }
        if first {
            let mut best: u64 = 0;
            let mut j: usize = 0;
            while j < m
                invariant
                    f == *letter_freq,
                    bounded(f),
                    pc == (|i: int, c: char| table_pos(f, i, c)),
                    tc == (|c: char| tally(f.totals@, c)),
                    wd == f.width,
                    m <= wd,
                    m <= w.len(),
                    j <= m,
                    best == best_weight(pc, tc, wd as nat, w@, c, j as int),
                decreases m - j,
            {
                if w[j] == c {
                    let pcount = tally_of(&letter_freq.positions[j], c);
                    if pcount > 0 {
                        let tcount = tally_of(&letter_freq.totals, c);
                        proof {
                            assert(pcount <= f.pool_size);
                            assert(tcount <= f.pool_size * wd);
                            assert(10 * wd * pcount + tcount <= 11 * wd * f.pool_size)
                                by (nonlinear_arith)
                                requires
                                    pcount <= f.pool_size,
                                    tcount <= f.pool_size * wd,
                            ;
                            assert(11 * wd * f.pool_size <= 11 * wd * wd * f.pool_size)
                                by (nonlinear_arith)
                                requires
                                    1 <= wd,
                            ;
                            assert(10 * wd <= 10 * wd * pcount) by (nonlinear_arith)
                                requires
                                    1 <= pcount,
                            ;
                        }
                        let x = 10 * (wd as u64) * pcount + tcount;
                        if x > best {
                            best = x;
                        }
                    }
                }
                j += 1;
            }
            proof {
                lemma_best_weight_bound(f, w@, c, m as int);
                assert(total + best <= (i + 1) * bound) by (nonlinear_arith)
                    requires
                        total <= i * bound,
                        best <= bound,
                ;
                assert((i + 1) * bound <= wd * bound) by (nonlinear_arith)
                    requires
                        i + 1 <= wd,
                        bound >= 0,
                ;
                assert(wd * bound <= u64::MAX) by (nonlinear_arith)
                    requires
                        bound == 11 * wd * f.pool_size,
                        11 * wd * wd * f.pool_size <= u64::MAX,
                ;
            }
            total = total + best;
        } else {
            proof {
                assert((i + 1) * bound >= i * bound) by (nonlinear_arith)
                    requires
                        bound >= 0,
                ;
            }
        }
        i += 1;
    }
    total
}

/// Whether the scores of the pool fit in 64 bits.
pub fn scores_fit_pool(pool: &Vec<&str>) -> (r: bool)
    ensures
        r == scores_fit(word_views(pool@)),
{
    let ghost p = word_views(pool@);
    let mut words: Vec<Vec<char>> = Vec::new();
    let mut k: usize = 0;
    while k < pool.len()
        invariant
            p == word_views(pool@),
            k <= pool.len(),
            words@.len() == k,
            forall|j: int| 0 <= j < k ==> (#[trigger] words@[j])@ == p[j],
        decreases pool.len() - k,
    {
        words.push(chars_of(pool[k]));
        k += 1;
    }
    let wd = longest(&words, Ghost(p)) as u64;
    let n = pool.len() as u64;
    if wd == 0 || n == 0 {
        assert(11 * wd * wd * n == 0) by (nonlinear_arith)
            requires
                wd == 0 || n == 0,
        ;
        return true;
    }
    let a = match 11u64.checked_mul(wd) {
        Some(a) => a,
        None => {
            assert(11 * wd * wd * n >= 11 * wd) by (nonlinear_arith)
                requires
                    wd >= 1,
                    n >= 1,
            ;
            return false;
        },
    };
    let b = match a.checked_mul(wd) {
        Some(b) => b,
        None => {
            assert(a * wd * n >= a * wd) by (nonlinear_arith)
                requires
                    n >= 1,
                    a >= 0,
                    wd >= 0,
            ;
            return false;
        },
    };
    match b.checked_mul(n) {
        Some(_) => true,
        None => false,
    }
}

proof fn lemma_width_le(p: Seq<Seq<char>>, m: nat)
    requires
        forall|k: int| 0 <= k < p.len() ==> (#[trigger] p[k]).len() <= m,
    ensures
        width(p) <= m,
    decreases p.len(),
{
    if p.len() > 0 {
        let q = p.drop_last();
        assert forall|k: int| 0 <= k < q.len() implies (#[trigger] q[k]).len() <= m by {
            assert(q[k] == p[k]);
        }
        lemma_width_le(q, m);
    }
}

} // verus!

use jordle::entropy::Candidate;
use jordle::scoring::{count_letter, score_word};
use jordle::{
    match_word, EntropySolver, GlobalFilteredEntropySolver, GlobalShrinkingEntropySolver,
    PositionalSolver,
};

use jordle::CharAlignment::{Exact as X, Misplaced as M, NotFound as N};

const POOL: [&str; 5] = ["crane", "slate", "adieu", "trace", "scare"];

fn pool() -> Vec<&'static str> {
    POOL.to_vec()
}

fn entropy(counts: &[usize], total: usize) -> f64 {
    let n = total as f64;
    counts
        .iter()
        .map(|c| {
            let p = *c as f64 / n;
            p * (1.0 / p).log2()
        })
        .sum()
}

fn scores(cands: &[Candidate], total: usize) -> Vec<u64> {
    cands
        .iter()
        .map(|c| (entropy(&c.dist.counts, total) as f32).to_bits() as u64)
        .collect()
}

#[test]
fn letter_counts_of_pool() {
    let f = count_letter(&pool());
    assert_eq!(f.width, 5);
    assert_eq!(f.pool_size, 5);
    let at = |i: usize, c: char| {
        f.positions[i].iter().find(|e| e.0 == c).map(|e| e.1).unwrap_or(0)
    };
    let tot = |c: char| f.totals.iter().find(|e| e.0 == c).map(|e| e.1).unwrap_or(0);
    assert_eq!(at(0, 's'), 2);
    assert_eq!(at(2, 'a'), 4);
    assert_eq!(at(4, 'e'), 4);
    assert_eq!(at(3, 'z'), 0);
    assert_eq!(tot('a'), 5);
    assert_eq!(tot('c'), 3);
    assert_eq!(tot('u'), 1);
}

#[test]
fn word_scores_over_pool() {
    let f = count_letter(&pool());
    assert_eq!(score_word("crane", &f), 617);
    assert_eq!(score_word("slate", &f), 615);
    assert_eq!(score_word("adieu", &f), 263);
    assert_eq!(score_word("trace", &f), 618);
    assert_eq!(score_word("scare", &f), 618);
    assert_eq!(score_word("zzzzz", &f), 0);
}

#[test]
fn repeated_letter_counts_once() {
    let f = count_letter(&vec!["aabbb", "abbbb"]);
    // a: best at 0 (2 words) -> 10*5*2 + 3; b: best at 2 (2 words) -> 100 + 7
    assert_eq!(score_word("aabbb", &f), 103 + 107);
}

#[test]
fn positional_solver_end_to_end() {
    let run = || {
        let mut solver = PositionalSolver::new(&pool());
        let mut guesses = Vec::new();
        loop {
            let g = solver.guess().expect("a word remains");
            guesses.push(g.clone());
            let m = match_word("crane", &g);
            if g == "crane" || guesses.len() > POOL.len() {
                break;
            }
            solver.narrow_words(&m);
        }
        guesses
    };
    let first = run();
    assert_eq!(first, vec!["trace", "crane"]);
    assert_eq!(run(), first);
}

#[test]
fn positional_narrowing_keeps_target_and_shrinks() {
    let mut solver = PositionalSolver::new(&pool());
    solver.narrow_words(&match_word("crane", "scare"));
    assert_eq!(solver.word_list(), vec!["crane", "trace"]);
    // crane and trace tie; the first wins
    assert_eq!(solver.guess(), Some("crane".to_string()));
    solver.narrow_words(&match_word("crane", "crane"));
    assert_eq!(solver.word_list(), vec!["crane"]);
}

#[test]
fn positional_solver_empty_pool() {
    let mut solver = PositionalSolver::new(&pool());
    solver.reload_wordlist(&vec![]);
    assert_eq!(solver.guess(), None);
    solver.reload_wordlist(&pool());
    assert_eq!(solver.guess(), Some("trace".to_string()));
}

#[test]
fn shrinking_histograms_split_pool() {
    let solver = GlobalShrinkingEntropySolver::new(&pool());
    assert_eq!(solver.pool_size(), 5);
    let cands = solver.candidates();
    assert_eq!(cands.len(), 5);
    assert_eq!(cands[0].dist.counts, vec![1, 1, 1, 1, 1]);
    assert_eq!(
        cands[0].dist.patterns,
        vec![
            vec![X, X, X, X, X],
            vec![N, N, X, N, X],
            vec![N, N, M, N, M],
            vec![M, X, X, N, X],
            vec![M, M, X, N, X],
        ]
    );
    for c in &cands {
        assert_eq!(c.dist.counts.iter().sum::<usize>(), 5);
        let h = entropy(&c.dist.counts, 5);
        assert!(h >= 0.0 && h <= (5f64).log2() + 1e-9);
    }
}

#[test]
fn shrinking_solver_narrows_and_finds_target() {
    let mut solver = GlobalShrinkingEntropySolver::new(&pool());
    let mut guesses = Vec::new();
    loop {
        let cands = solver.candidates();
        let g = solver.guess_by(&scores(&cands, solver.pool_size())).expect("a word remains");
        guesses.push(g.clone());
        if g == "crane" || guesses.len() > POOL.len() {
            break;
        }
        let before = solver.pool_size();
        solver.narrow_words(&match_word("crane", &g));
        assert!(solver.pool_size() <= before);
        assert!(solver.pool_size() >= 1);
    }
    assert_eq!(guesses.last().map(|s| s.as_str()), Some("crane"));
    assert!(guesses.len() <= POOL.len());
}

#[test]
fn first_best_score_wins_ties() {
    let solver = GlobalShrinkingEntropySolver::new(&pool());
    assert_eq!(solver.guess_by(&vec![3, 7, 7, 1, 0]), Some("slate".to_string()));
    assert_eq!(solver.guess_by(&vec![0, 0, 0, 0, 0]), Some("crane".to_string()));
}

#[test]
fn singleton_pool_returns_its_word() {
    let one = vec!["happy"];
    let solver = EntropySolver::new(&one);
    let cands = solver.candidates();
    assert_eq!(cands.len(), 1);
    assert_eq!(cands[0].dist.counts, vec![1]);
    assert_eq!(entropy(&cands[0].dist.counts, 1), 0.0);
    assert_eq!(solver.guess_by(&scores(&cands, 1)), Some("happy".to_string()));

    let solver = GlobalShrinkingEntropySolver::new(&one);
    assert_eq!(solver.guess_by(&vec![0]), Some("happy".to_string()));
    let solver = GlobalFilteredEntropySolver::new(&one);
    assert_eq!(solver.guess_by(&vec![0]), Some("happy".to_string()));
}

#[test]
fn entropy_solver_skips_guessed_words_and_keeps_history() {
    let mut solver = EntropySolver::new(&pool());
    let m = match_word("crane", "scare");
    solver.narrow_words(&m);
    let cands = solver.candidates();
    assert_eq!(cands.len(), 4);
    // crane is the first candidate; of the pool only crane itself gives it
    // the feedback that scare received.
    assert_eq!(cands[0].history, vec![0]);
    assert_eq!(solver.pool_size(), 5);
    let s = vec![0, 0, 0, 9];
    assert_eq!(solver.guess_by(&s), Some("trace".to_string()));
    solver.reload_wordlist(&pool());
    assert_eq!(solver.candidates().len(), 5);
}

#[test]
fn filtered_solver_marks_plausible_guesses() {
    let mut solver = GlobalFilteredEntropySolver::new(&pool());
    solver.narrow_words(&match_word("crane", "scare"));
    let cands = solver.candidates();
    assert_eq!(cands.len(), 4);
    let plausible: Vec<bool> = cands.iter().map(|c| c.plausible).collect();
    // candidates: crane, slate, adieu, trace; possible targets: crane, trace
    assert_eq!(plausible, vec![true, false, false, true]);
    for c in &cands {
        assert_eq!(c.dist.counts.iter().sum::<usize>(), 2);
    }
    assert_eq!(solver.pool_size(), 5);
    assert_eq!(solver.guess_by(&vec![1, 1, 1, 1]), Some("crane".to_string()));
}

#[test]
fn filtered_solver_reload_resets() {
    let mut solver = GlobalFilteredEntropySolver::new(&pool());
    solver.narrow_words(&match_word("crane", "scare"));
    solver.reload_wordlist(&vec!["happy", "hippo"]);
    assert_eq!(solver.pool_size(), 2);
    assert_eq!(solver.candidates().len(), 2);
}

#[test]
fn pool_checks() {
    assert!(jordle::entropy::uniform_lengths(&pool()));
    assert!(!jordle::entropy::uniform_lengths(&vec!["crane", "cran"]));
    assert!(jordle::entropy::uniform_lengths(&vec![]));
    assert!(jordle::scoring::scores_fit_pool(&pool()));
    assert!(jordle::scoring::scores_fit_pool(&vec![]));
}

#[test]
fn pick_first_best_of_scores() {
    assert_eq!(jordle::entropy::pick_first_best(&vec![2, 5, 5, 1]), 1);
    assert_eq!(jordle::entropy::pick_first_best(&vec![9]), 0);
}

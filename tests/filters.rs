use jordle::{match_word, CharAlignment, CharMatch, PosFilterCriteria};

use CharAlignment::{Exact, Misplaced, NotFound};

const POOL: [&str; 8] = ["crane", "slate", "adieu", "trace", "scare", "speed", "eerie", "abbey"];

#[test]
fn target_survives_its_own_feedback() {
    for target in POOL {
        for guess in POOL {
            let m = match_word(target, guess);
            let f = PosFilterCriteria::from_word_match(&m);
            assert!(f.check(target), "{} {}", target, guess);
        }
    }
}

#[test]
fn not_found_copy_of_exact_letter_does_not_exclude_it() {
    let m = match_word("crane", "eerie");
    let f = PosFilterCriteria::from_word_match(&m);
    assert!(!f.exc.contains(&'e'));
    assert!(f.inc.contains(&'e'));
    assert!(f.exc.contains(&'i'));
    assert!(f.check("crane"));
    assert!(f.check("trace"));
    assert!(!f.check("slate"));
}

#[test]
fn criteria_fields_from_matches() {
    let ms = vec![
        CharMatch { c: 's', align: NotFound },
        CharMatch { c: 'c', align: Misplaced },
        CharMatch { c: 'a', align: Exact },
        CharMatch { c: 'r', align: Misplaced },
        CharMatch { c: 'e', align: Exact },
    ];
    let f = PosFilterCriteria::from_matches(&ms);
    assert_eq!(f.pos, vec![None, None, Some('a'), None, Some('e')]);
    assert_eq!(f.nopos, vec![vec!['s'], vec!['c'], vec![], vec!['r'], vec![]]);
    assert_eq!(f.inc, vec!['c', 'a', 'r', 'e']);
    assert_eq!(f.exc, vec!['s']);
    assert_eq!(f.size, (5, 5));
}

#[test]
fn check_rejects_each_kind_of_violation() {
    let m = match_word("crane", "scare");
    let f = PosFilterCriteria::from_word_match(&m);
    assert!(f.check("crane"));
    assert!(f.check("trace"));
    assert!(!f.check("cranes"));
    assert!(!f.check("cran"));
    assert!(!f.check("slate"));
    assert!(!f.check("scare"));
    assert!(!f.check("crone"));
    assert!(!f.check("rcane"));
}

#[test]
fn viable_word_agrees_with_check() {
    let m = match_word("crane", "scare");
    let f = PosFilterCriteria::from_word_match(&m);
    for w in POOL {
        assert_eq!(jordle::filters::is_viable_word(w, &f), f.check(w));
    }
}

#[test]
fn narrowing_a_pool() {
    let pool: Vec<&str> = POOL.to_vec();
    let kept = jordle::filters::narrow(&pool, &match_word("crane", "scare"));
    assert_eq!(kept, vec!["crane", "trace"]);
}

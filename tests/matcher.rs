use jordle::{match_word, CharAlignment, CharMatch, WordMatch};

use CharAlignment::{Exact, Misplaced, NotFound};

#[test]
fn speed_erase_credits_each_target_letter_once() {
    let m = match_word("SPEED", "ERASE");
    assert_eq!(m.word, "ERASE");
    assert_eq!(m.aligns, vec![Misplaced, NotFound, NotFound, Misplaced, Misplaced]);
    let found_e = m
        .char_matches()
        .iter()
        .filter(|x| x.c == 'E' && x.align != NotFound)
        .count();
    assert!(found_e <= 2);
}

#[test]
fn extra_copies_of_a_letter_are_not_found() {
    let m = match_word("crane", "eerie");
    assert_eq!(m.aligns, vec![NotFound, NotFound, Misplaced, NotFound, Exact]);
}

#[test]
fn earlier_duplicate_claims_first() {
    let m = match_word("abbey", "babes");
    assert_eq!(m.aligns, vec![Misplaced, Misplaced, Exact, Exact, NotFound]);
}

#[test]
fn self_match_is_all_exact() {
    for w in ["crane", "slate", "adieu", "happy", "speed", "aaaaa"] {
        let m = match_word(w, w);
        assert_eq!(m.aligns, vec![Exact; 5]);
    }
}

#[test]
fn empty_words_match_trivially() {
    let m = match_word("", "");
    assert!(m.aligns.is_empty());
    assert_eq!(m.word, "");
}

#[test]
fn char_matches_pair_letters_with_alignments() {
    let m = WordMatch { word: "ab".to_string(), aligns: vec![Exact, NotFound] };
    assert_eq!(
        m.char_matches(),
        vec![CharMatch { c: 'a', align: Exact }, CharMatch { c: 'b', align: NotFound }]
    );
}

#[test]
fn alignment_symbols() {
    assert_eq!(NotFound.as_char(), '.');
    assert_eq!(Misplaced.as_char(), '-');
    assert_eq!(Exact.as_char(), 'x');
}

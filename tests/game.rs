use jordle::game::{end_trigger, judge_guess, mutated};
use CharAlignment::{Exact, Misplaced, NotFound};
use jordle::{
    match_word, CharAlignment, GameEndTriggers, GuessResult, InvalidationReason, NoopMutator,
    WordValidation,
};

#[test]
fn judge_refuses_wrong_length() {
    match judge_guess("cran", "crane", (5, 5), true, &vec![]) {
        WordValidation::Invalid(InvalidationReason::WrongLength, w) => assert_eq!(w, "cran"),
        other => panic!("{:?}", other),
    }
}

#[test]
fn judge_refuses_unknown_word() {
    match judge_guess("zzzzz", "crane", (5, 5), false, &vec![]) {
        WordValidation::Invalid(InvalidationReason::UnknownWord, w) => assert_eq!(w, "zzzzz"),
        other => panic!("{:?}", other),
    }
}

#[test]
fn judge_refuses_repeat_word() {
    let prev = vec![match_word("crane", "slate")];
    match judge_guess("slate", "crane", (5, 5), true, &prev) {
        WordValidation::Invalid(InvalidationReason::RepeatWord, w) => assert_eq!(w, "slate"),
        other => panic!("{:?}", other),
    }
}

#[test]
fn judge_accepts_wrong_and_correct() {
    match judge_guess("slate", "crane", (5, 5), true, &vec![]) {
        WordValidation::Valid(GuessResult::Wrong, m) => {
            assert_eq!(m.word, "slate");
            assert_eq!(m.aligns, match_word("crane", "slate").aligns);
        }
        other => panic!("{:?}", other),
    }
    match judge_guess("crane", "crane", (5, 5), true, &vec![]) {
        WordValidation::Valid(GuessResult::Correct, m) => {
            assert_eq!(m.aligns, vec![CharAlignment::Exact; 5])
        }
        other => panic!("{:?}", other),
    }
}

#[test]
fn end_triggers() {
    assert_eq!(end_trigger(true, Some(6), 0), GameEndTriggers::Timeout);
    assert_eq!(end_trigger(false, Some(6), 6), GameEndTriggers::NoTriesLeft);
    assert_eq!(end_trigger(false, Some(6), 5), GameEndTriggers::StillPlaying);
    assert_eq!(end_trigger(false, None, 100), GameEndTriggers::StillPlaying);
}

#[test]
fn mutation_mapping() {
    assert_eq!(mutated(Exact, false, true), Exact);
    assert_eq!(mutated(Exact, true, true), Misplaced);
    assert_eq!(mutated(NotFound, true, false), Misplaced);
    assert_eq!(mutated(Misplaced, true, true), Exact);
    assert_eq!(mutated(Misplaced, true, false), NotFound);
    let mut noop = NoopMutator::default();
    assert_eq!(noop.mutate(Misplaced), Misplaced);
}

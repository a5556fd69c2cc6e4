use typerlude::typing::key_units;
use typerlude::model::{Language, PracticeKind};
use typerlude::practice::engine::PracticeEngine;
use typerlude::practice::InputOutcome;

fn engine(kind: PracticeKind, target: &str) -> PracticeEngine {
    PracticeEngine::new(Language::En, kind, target, None).unwrap()
}

#[test]
fn typing_marks_each_cell_against_the_target() {
    let mut e = engine(PracticeKind::Words, "cat");
    assert_eq!(e.input("cx", 10), InputOutcome::Accepted);
    assert_eq!(e.cursor(), 2);
    assert_eq!(e.cell_correct(0), Some(true));
    assert_eq!(e.cell_correct(1), Some(false));
    assert_eq!(e.cell_correct(2), None);
    assert_eq!(e.attempted_units(), 2);
    assert_eq!(e.correct_units(), 1);
    assert_eq!(e.errors(), 1);
    assert_eq!(e.input("tzz", 20), InputOutcome::Finished);
    assert_eq!(e.cursor(), 3);
    assert!(e.target_complete());
    assert_eq!(e.input("a", 30), InputOutcome::Finished);
    assert_eq!(e.cursor(), 3);
}

#[test]
fn empty_targets_and_bad_units_are_refused() {
    assert_eq!(
        PracticeEngine::new(Language::En, PracticeKind::Words, "", None).err(),
        Some("practice target cannot be empty".to_string())
    );
    let ends = vec![1, 1];
    assert!(PracticeEngine::new_for_items(
        Language::En,
        PracticeKind::Words,
        "ab",
        &ends,
        None
    )
    .is_err());
}

#[test]
fn decomposed_input_is_normalized_before_comparison() {
    let mut e = engine(PracticeKind::Words, "\u{e9}");
    assert_eq!(e.target_len(), 1);
    assert_eq!(e.input("e\u{301}", 5), InputOutcome::Finished);
    assert_eq!(e.cell_correct(0), Some(true));
}

#[test]
fn pausing_ignores_input_and_backspace() {
    let mut e = engine(PracticeKind::Words, "ab");
    assert!(e.toggle_pause(1));
    assert!(e.is_paused());
    assert_eq!(e.input("a", 2), InputOutcome::IgnoredWhilePaused);
    assert!(!e.backspace());
    assert!(e.toggle_pause(3));
    assert_eq!(e.input("a", 4), InputOutcome::Accepted);
    assert!(e.backspace());
    assert_eq!(e.cursor(), 0);
    assert_eq!(e.correct_cells(), 0);
    assert_eq!(e.backspaces(), 1);
    let mut test = engine(PracticeKind::Test, "ab");
    assert!(!test.toggle_pause(1));
}

#[test]
fn key_practice_needs_every_cell_right() {
    let mut e = engine(PracticeKind::Key, "fj");
    assert_eq!(e.input("fx", 1), InputOutcome::Accepted);
    assert!(!e.target_complete());
    assert!(e.backspace());
    assert_eq!(e.input("j", 2), InputOutcome::Finished);
}

#[test]
fn enter_fills_the_rest_of_the_line() {
    let mut e = engine(PracticeKind::Sentence, "ab");
    assert_eq!(e.input("a", 1), InputOutcome::Accepted);
    assert_eq!(e.submit_line(2), InputOutcome::Finished);
    assert_eq!(e.cursor(), 2);
    assert_eq!(e.cell_correct(1), Some(false));
    assert_eq!(e.errors(), 1);
}

#[test]
fn the_time_limit_ends_the_practice() {
    let target = "abc";
    let mut e =
        PracticeEngine::new(Language::En, PracticeKind::Test, target, Some(100))
            .unwrap();
    assert_eq!(e.input("a", 1_000), InputOutcome::Accepted);
    assert!(!e.is_finished(1_050));
    assert!(e.is_finished(1_100));
    assert_eq!(e.input("b", 1_200), InputOutcome::Finished);
    e.finalize(1_500);
    assert_eq!(e.active_nanos(9_999), 100);
}

#[test]
fn intended_keys_count_right_and_wrong_presses_per_key() {
    let mut e = engine(PracticeKind::Words, "aab");
    assert_eq!(e.input("axb", 1), InputOutcome::Finished);
    let keys = e.intended_keys();
    assert_eq!(keys.len(), 2);
    assert_eq!((keys[0].key, keys[0].correct, keys[0].errors), ('a', 1, 1));
    assert_eq!((keys[1].key, keys[1].correct, keys[1].errors), ('b', 1, 0));
}

#[test]
fn hangul_syllables_split_into_two_set_keys() {
    assert_eq!(key_units(Language::Ko, "한"), vec!['ㅎ', 'ㅏ', 'ㄴ']);
    assert_eq!(key_units(Language::Ko, "과"), vec!['ㄱ', 'ㅗ', 'ㅏ']);
    assert_eq!(key_units(Language::Ko, "닭"), vec!['ㄷ', 'ㅏ', 'ㄹ', 'ㄱ']);
    assert_eq!(key_units(Language::Ko, "까"), vec!['ㄲ', 'ㅏ']);
    assert_eq!(key_units(Language::Ko, "a☃"), vec!['a', '☃']);
    assert_eq!(key_units(Language::En, "한"), vec!['한']);
}

#[test]
fn korean_practice_counts_jamo_keys() {
    let mut e = PracticeEngine::new(Language::Ko, PracticeKind::Words, "한글", None).unwrap();
    assert_eq!(e.input("한", 1), InputOutcome::Accepted);
    assert_eq!(e.attempted_units(), 3);
    assert_eq!(e.correct_units(), 3);
}

use typerlude::model::{Language, PracticeKind};
use typerlude::practice::engine::PracticeEngine;
use typerlude::practice::InputOutcome;

const SECOND: u64 = 1_000_000_000;

fn single(language: Language, kind: PracticeKind, target: &str, limit: Option<u64>) -> PracticeEngine {
    PracticeEngine::new(language, kind, target, limit).unwrap()
}

fn items(kind: PracticeKind, target: &str, ends: &[usize]) -> PracticeEngine {
    PracticeEngine::new_for_items(Language::En, kind, target, &ends.to_vec(), None)
        .unwrap()
}

fn snapshot(e: &PracticeEngine, now: u64) -> (usize, u64, u64, u64, u64, u64, u64) {
    (
        e.cursor(),
        e.attempted_units(),
        e.correct_units(),
        e.correct_cells(),
        e.errors(),
        e.backspaces(),
        e.active_nanos(now),
    )
}

fn correction_does_not_erase_an_accuracy_error_or_inflate_speed() {
    let mut engine = single(Language::Ko, PracticeKind::Key, "한", None);
    engine.input("강", 0);
    assert!(engine.backspace());
    engine.input("한", 60 * SECOND);
    assert_eq!(engine.correct_units(), 3);
    assert_eq!(engine.attempted_units(), 6);
    assert_eq!(engine.errors(), 1);
    assert_eq!(engine.backspaces(), 1);
    assert_eq!(engine.active_nanos(60 * SECOND), 60 * SECOND);
    assert_eq!(engine.correct_attempt_units(), 3);
}

#[test]
fn tests_correction_does_not_erase_an_accuracy_error_or_inflate_speed() {
    correction_does_not_erase_an_accuracy_error_or_inflate_speed();
}

#[test]
fn practice_correction_does_not_erase_an_accuracy_error_or_inflate_speed() {
    correction_does_not_erase_an_accuracy_error_or_inflate_speed();
}

fn paused_time_is_excluded_and_tests_refuse_pause() {
    let mut practice = single(Language::En, PracticeKind::Words, "ab", None);
    practice.input("a", 0);
    assert!(practice.toggle_pause(10 * SECOND));
    assert!(practice.toggle_pause(40 * SECOND));
    practice.input("b", 70 * SECOND);
    assert_eq!(practice.active_nanos(70 * SECOND), 40 * SECOND);

    let mut test = single(Language::En, PracticeKind::Test, "ab", Some(60 * SECOND));
    assert!(!test.toggle_pause(0));
}

#[test]
fn tests_paused_time_is_excluded_and_tests_refuse_pause() {
    paused_time_is_excluded_and_tests_refuse_pause();
}

#[test]
fn practice_paused_time_is_excluded_and_tests_refuse_pause() {
    paused_time_is_excluded_and_tests_refuse_pause();
}

fn a_current_pause_does_not_add_active_time() {
    let mut engine = single(Language::En, PracticeKind::Words, "ab", None);
    engine.input("a", 0);
    engine.toggle_pause(10 * SECOND);
    assert_eq!(engine.active_nanos(40 * SECOND), 10 * SECOND);
}

#[test]
fn tests_a_current_pause_does_not_add_active_time() {
    a_current_pause_does_not_add_active_time();
}

#[test]
fn practice_a_current_pause_does_not_add_active_time() {
    a_current_pause_does_not_add_active_time();
}

fn a_timed_test_finishes_at_its_active_deadline() {
    let mut engine = single(Language::En, PracticeKind::Test, "abcdef", Some(60 * SECOND));
    engine.input("a", 0);
    assert!(!engine.is_finished(59 * SECOND));
    assert!(engine.is_finished(60 * SECOND));
}

#[test]
fn tests_a_timed_test_finishes_at_its_active_deadline() {
    a_timed_test_finishes_at_its_active_deadline();
}

#[test]
fn practice_a_timed_test_finishes_at_its_active_deadline() {
    a_timed_test_finishes_at_its_active_deadline();
}

fn timed_finalization_clamps_late_active_time_and_then_freezes() {
    let mut test = single(Language::En, PracticeKind::Test, "abcdef", Some(60 * SECOND));
    test.input("a", 0);
    test.finalize(90 * SECOND);
    assert_eq!(test.active_nanos(90 * SECOND), 60 * SECOND);
    assert_eq!(snapshot(&test, 300 * SECOND), snapshot(&test, 90 * SECOND));

    let mut quick = single(Language::En, PracticeKind::Quick, "abcdef", Some(60 * SECOND));
    quick.input("a", 0);
    assert!(quick.toggle_pause(10 * SECOND));
    assert!(quick.toggle_pause(40 * SECOND));
    quick.finalize(100 * SECOND);
    assert_eq!(quick.active_nanos(100 * SECOND), 60 * SECOND);
}

#[test]
fn tests_timed_finalization_clamps_late_active_time_and_then_freezes() {
    timed_finalization_clamps_late_active_time_and_then_freezes();
}

#[test]
fn practice_timed_finalization_clamps_late_active_time_and_then_freezes() {
    timed_finalization_clamps_late_active_time_and_then_freezes();
}

fn empty_input_does_not_start_the_timer_or_change_accuracy() {
    let mut engine = single(Language::En, PracticeKind::Words, "a", None);
    assert_eq!(engine.input("", 0), InputOutcome::Accepted);
    assert_eq!(engine.active_nanos(60 * SECOND), 0);
    assert_eq!(engine.attempted_units(), 0);
    assert_eq!(engine.correct_attempt_units(), 0);
}

#[test]
fn tests_empty_input_does_not_start_the_timer_or_change_accuracy() {
    empty_input_does_not_start_the_timer_or_change_accuracy();
}

#[test]
fn practice_empty_input_does_not_start_the_timer_or_change_accuracy() {
    empty_input_does_not_start_the_timer_or_change_accuracy();
}

fn multi_grapheme_input_is_normalized_and_stops_at_completion() {
    let mut engine = single(Language::Ko, PracticeKind::Sentence, "한글", None);
    assert_eq!(engine.input("한글더", 0), InputOutcome::Finished);
    assert_eq!(engine.correct_units(), 6);
    assert_eq!(engine.attempted_units(), 6);
    assert_eq!(engine.errors(), 0);
    assert_eq!(engine.correct_cells(), 2);
    assert_eq!(engine.cursor(), 2);
}

#[test]
fn tests_multi_grapheme_input_is_normalized_and_stops_at_completion() {
    multi_grapheme_input_is_normalized_and_stops_at_completion();
}

#[test]
fn practice_multi_grapheme_input_is_normalized_and_stops_at_completion() {
    multi_grapheme_input_is_normalized_and_stops_at_completion();
}

fn intended_key_buckets_track_correct_and_erroneous_attempts() {
    let mut engine = single(Language::Ko, PracticeKind::Key, "한", None);
    engine.input("강", 0);
    engine.backspace();
    engine.input("한", 0);
    let keys = engine.intended_keys();
    for key in ['ㅎ', 'ㅏ', 'ㄴ'] {
        let count = keys.iter().find(|k| k.key == key).unwrap();
        assert_eq!((count.correct, count.errors), (1, 1));
    }
}

#[test]
fn tests_intended_key_buckets_track_correct_and_erroneous_attempts() {
    intended_key_buckets_track_correct_and_erroneous_attempts();
}

#[test]
fn practice_intended_key_buckets_track_correct_and_erroneous_attempts() {
    intended_key_buckets_track_correct_and_erroneous_attempts();
}

fn a_wrong_full_length_key_cell_requires_correction() {
    let mut engine = single(Language::En, PracticeKind::Key, "a", None);
    assert_eq!(engine.input("x", 0), InputOutcome::Accepted);
    assert!(!engine.is_finished(0));
    assert_eq!(engine.input("a", 0), InputOutcome::Accepted);
    assert_eq!(engine.attempted_units(), 1);
    assert!(engine.backspace());
    assert_eq!(engine.input("a", 0), InputOutcome::Finished);
    assert_eq!(engine.attempted_units(), 2);
}

#[test]
fn tests_a_wrong_full_length_key_cell_requires_correction() {
    a_wrong_full_length_key_cell_requires_correction();
}

#[test]
fn practice_a_wrong_full_length_key_cell_requires_correction() {
    a_wrong_full_length_key_cell_requires_correction();
}

fn a_wrong_line_advances_and_finishes_non_key_practice() {
    let mut engine = items(PracticeKind::Sentence, "ab cd", &[3, 5]);
    engine.input("ax", 0);
    assert_eq!(engine.current_line_index(), 0);
    engine.input(" ", 0);
    assert_eq!(engine.current_line_index(), 1);
    engine.input("cd", 0);
    assert!(engine.target_complete());
    assert_eq!(engine.errors(), 1);
}

#[test]
fn tests_a_wrong_line_advances_and_finishes_non_key_practice() {
    a_wrong_line_advances_and_finishes_non_key_practice();
}

#[test]
fn practice_a_wrong_line_advances_and_finishes_non_key_practice() {
    a_wrong_line_advances_and_finishes_non_key_practice();
}

fn enter_marks_the_untyped_remainder_wrong_and_moves_on() {
    let mut engine = items(PracticeKind::Sentence, "hello world", &[6, 11]);
    engine.input("he", 0);
    engine.submit_line(0);
    assert_eq!(engine.cursor(), 6);
    assert_eq!(engine.errors(), 4);
    assert_eq!(engine.current_line_index(), 1);
}

#[test]
fn tests_enter_marks_the_untyped_remainder_wrong_and_moves_on() {
    enter_marks_the_untyped_remainder_wrong_and_moves_on();
}

#[test]
fn practice_enter_marks_the_untyped_remainder_wrong_and_moves_on() {
    enter_marks_the_untyped_remainder_wrong_and_moves_on();
}

#[test]
fn one_enter_crosses_a_blank_line_run() {
    let mut engine = items(PracticeKind::Long, "a\n\nb", &[3, 4]);
    engine.input("a", 0);
    assert_eq!(engine.submit_line(0), InputOutcome::Accepted);
    assert_eq!(engine.cursor(), 3);
    assert_eq!(engine.current_line_index(), 2);
    assert_eq!(engine.attempted_units(), 2);
    assert_eq!(engine.correct_units(), 2);
    assert_eq!(engine.errors(), 0);
}

#[test]
fn an_incomplete_line_submission_also_crosses_a_blank_line_run() {
    let mut engine = items(PracticeKind::Long, "ab\n\nc", &[4, 5]);
    engine.input("a", 0);
    assert_eq!(engine.submit_line(0), InputOutcome::Accepted);
    assert_eq!(engine.cursor(), 4);
    assert_eq!(engine.current_line_index(), 2);
    assert_eq!(engine.attempted_units(), 3);
    assert_eq!(engine.correct_units(), 2);
    assert_eq!(engine.errors(), 1);
}

fn backspace_reopens_before_deleting_and_history_never_decreases() {
    let mut engine = items(PracticeKind::Sentence, "a b", &[2, 3]);
    engine.input("a ", 0);
    let attempted = engine.attempted_units();
    assert!(engine.backspace());
    assert_eq!(engine.cursor(), 2);
    assert!(engine.backspace());
    assert_eq!(engine.cursor(), 1);
    assert_eq!(engine.attempted_units(), attempted);
    assert_eq!(engine.backspaces(), 2);
}

#[test]
fn tests_backspace_reopens_before_deleting_and_history_never_decreases() {
    backspace_reopens_before_deleting_and_history_never_decreases();
}

#[test]
fn practice_backspace_reopens_before_deleting_and_history_never_decreases() {
    backspace_reopens_before_deleting_and_history_never_decreases();
}

fn paused_finished_and_timed_out_inputs_do_not_change_metrics() {
    let mut paused = single(Language::En, PracticeKind::Words, "ab", None);
    paused.input("a", 0);
    paused.toggle_pause(0);
    let before_pause = snapshot(&paused, 0);
    assert_eq!(paused.input("x", SECOND), InputOutcome::IgnoredWhilePaused);
    assert_eq!(snapshot(&paused, 0), before_pause);

    let mut completed = single(Language::En, PracticeKind::Words, "a", None);
    assert_eq!(completed.input("a", 0), InputOutcome::Finished);
    let before_extra = snapshot(&completed, 0);
    assert_eq!(completed.input("x", 0), InputOutcome::Finished);
    assert_eq!(snapshot(&completed, 0), before_extra);

    let mut timed = single(Language::En, PracticeKind::Test, "ab", Some(SECOND));
    timed.input("a", 0);
    let at_deadline = snapshot(&timed, SECOND);
    assert_eq!(timed.input("b", SECOND), InputOutcome::Finished);
    assert_eq!(snapshot(&timed, SECOND), at_deadline);
}

#[test]
fn tests_paused_finished_and_timed_out_inputs_do_not_change_metrics() {
    paused_finished_and_timed_out_inputs_do_not_change_metrics();
}

#[test]
fn practice_paused_finished_and_timed_out_inputs_do_not_change_metrics() {
    paused_finished_and_timed_out_inputs_do_not_change_metrics();
}

fn pause_blocks_backspace_and_time_limit_is_distinct_from_target_completion() {
    let mut paused = single(Language::En, PracticeKind::Words, "ab", None);
    paused.input("a", 0);
    assert!(paused.toggle_pause(0));
    assert!(paused.is_paused());
    assert!(!paused.backspace());
    assert_eq!(paused.cursor(), 1);

    let mut timed = single(Language::En, PracticeKind::Test, "a", Some(60 * SECOND));
    timed.input("a", 0);
    assert!(timed.target_complete());
    assert!(!timed.time_limit_reached(59 * SECOND));
    assert!(timed.time_limit_reached(60 * SECOND));
    assert_eq!(timed.language(), Language::En);
}

#[test]
fn tests_pause_blocks_backspace_and_time_limit_is_distinct_from_target_completion() {
    pause_blocks_backspace_and_time_limit_is_distinct_from_target_completion();
}

#[test]
fn practice_pause_blocks_backspace_and_time_limit_is_distinct_from_target_completion() {
    pause_blocks_backspace_and_time_limit_is_distinct_from_target_completion();
}

fn extending_a_completed_target_preserves_time_totals_and_normalizes() {
    let mut engine = single(Language::En, PracticeKind::Key, "a", None);

    assert_eq!(engine.input("x", 0), InputOutcome::Accepted);
    assert!(engine.backspace());
    assert_eq!(engine.input("a", 0), InputOutcome::Finished);
    assert!(engine.target_complete());
    assert!(engine.toggle_pause(10 * SECOND));
    assert!(engine.toggle_pause(40 * SECOND));
    engine.extend_target(" ", "e\u{301}", &vec![1]).unwrap();
    assert!(!engine.target_complete());
    assert_eq!(engine.target_clusters().concat(), "a é");
    assert_eq!(engine.line_ends(), &vec![3]);

    assert_eq!(engine.input(" é", 70 * SECOND), InputOutcome::Finished);
    let active = engine.active_nanos(70 * SECOND);
    assert_eq!(active, 40 * SECOND);
    assert_eq!(engine.correct_units(), 3);
    assert_eq!(engine.attempted_units(), 4);
    assert_eq!(engine.errors(), 1);
    assert_eq!(engine.backspaces(), 1);
    assert_eq!(engine.correct_units() as f64 / (active as f64 / (60 * SECOND) as f64), 4.5);
    assert_eq!(engine.correct_attempt_units() as f64 * 100.0 / engine.attempted_units() as f64, 75.0);
    let keys = engine.intended_keys();
    let a = keys.iter().find(|k| k.key == 'a').unwrap();
    assert_eq!((a.correct, a.errors), (1, 1));
}

#[test]
fn tests_extending_a_completed_target_preserves_time_totals_and_normalizes() {
    extending_a_completed_target_preserves_time_totals_and_normalizes();
}

#[test]
fn practice_extending_a_completed_target_preserves_time_totals_and_normalizes() {
    extending_a_completed_target_preserves_time_totals_and_normalizes();
}

fn empty_or_finalized_extension_is_transactional_and_finalization_freezes() {
    let mut engine = single(Language::En, PracticeKind::Words, "ab", None);
    engine.input("a", 0);
    let target_before = (engine.target_clusters().clone(), engine.cursor(), engine.cell_correct(0));
    let metrics_before = snapshot(&engine, 10 * SECOND);

    assert!(engine.extend_target(" ", "", &Vec::new()).is_err());
    assert_eq!(
        (engine.target_clusters().clone(), engine.cursor(), engine.cell_correct(0)),
        target_before
    );
    assert_eq!(snapshot(&engine, 10 * SECOND), metrics_before);

    engine.finalize(10 * SECOND);
    let frozen = snapshot(&engine, 10 * SECOND);
    assert_eq!(snapshot(&engine, 60 * SECOND), frozen);
    assert!(engine.extend_target(" ", "c", &vec![1]).is_err());
    assert_eq!(engine.input("b", 60 * SECOND), InputOutcome::Finished);
    assert!(!engine.backspace());
    assert!(!engine.toggle_pause(60 * SECOND));
}

#[test]
fn tests_empty_or_finalized_extension_is_transactional_and_finalization_freezes() {
    empty_or_finalized_extension_is_transactional_and_finalization_freezes();
}

#[test]
fn practice_empty_or_finalized_extension_is_transactional_and_finalization_freezes() {
    empty_or_finalized_extension_is_transactional_and_finalization_freezes();
}

#[test]
fn an_extension_adds_its_lines_after_the_target() {
    let mut engine = items(PracticeKind::Words, "ab cd", &[2, 5]);
    assert_eq!(engine.line_ends(), &vec![2, 5]);
    engine.extend_target(" ", "ef gh", &vec![2, 5]).unwrap();
    assert_eq!(engine.target_len(), 11);
    assert_eq!(engine.line_ends(), &vec![2, 5, 8, 11]);
    assert_eq!(
        engine.extend_target(" ", "ij", &vec![1]).err(),
        Some("practice item boundaries must be ordered and cover the target".to_string())
    );
    assert_eq!(engine.target_len(), 11);
}

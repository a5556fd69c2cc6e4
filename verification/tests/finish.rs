use typerlude::app::finish::{finish_practice, finish_step, session_entry, PracticeSummary};
use typerlude::app::keys::{notice_expired, paste_action, PasteAction};
use typerlude::app::navigation::Navigation;
use typerlude::app::Screen;
use typerlude::model::{Difficulty, Language, PracticeKind};
use typerlude::practice::engine::PracticeEngine;
use typerlude::practice::InputOutcome;
use typerlude::stats::{KeyCount, SessionEntry};

fn entry(id: &str, started: i128, date: i32, mode: PracticeKind, minutes: u64) -> SessionEntry {
    SessionEntry {
        schema_version: 1,
        id: id.into(),
        started_at_unix_ms: started,
        local_date: date,
        language: Language::En,
        mode,
        content_id: "fixture".into(),
        difficulty: None,
        duration_ms: minutes * 60_000,
        correct_units: 9,
        attempted_units: 10,
        errors: 1,
        backspaces: 0,
        intended_keys: Vec::new(),
    }
}

fn summary(kind: PracticeKind) -> PracticeSummary {
    PracticeSummary {
        language: Language::En,
        kind,
        words_difficulty: Difficulty::Hard,
        long_difficulty: Some(2),
        content_ids: Vec::new(),
        attempted_units: 12,
        correct_units: 10,
        errors: 2,
        backspaces: 1,
        intended_keys: vec![KeyCount { key: 'a', correct: 10, errors: 2 }],
        active_ms: 120_000,
        completed: 3,
        total: 8,
    }
}

#[test]
fn finishing_needs_a_practice_with_an_attempt() {
    let mut nav = Navigation::new();
    assert_eq!(finish_step(None, 0, &[], &[], 15, &mut nav).err().unwrap(), "no active practice");
    let mut idle = summary(PracticeKind::Words);
    idle.attempted_units = 0;
    assert_eq!(
        finish_step(Some(&idle), 0, &[], &[], 15, &mut nav).err().unwrap(),
        "cannot finish practice without an attempt"
    );
    assert_eq!(nav.screen, Screen::Home);
}

#[test]
fn finishing_records_content_difficulty_and_shows_the_result() {
    let mut nav = Navigation::new();
    let words = summary(PracticeKind::Words);
    let outcome = finish_step(Some(&words), 0, &[], &[], 15, &mut nav).unwrap();
    assert_eq!(outcome.content_id, "words");
    assert_eq!(outcome.difficulty, Some(3));
    assert_eq!(outcome.previous, None);
    assert_eq!(outcome.long_progress, None);
    assert_eq!(nav.screen, Screen::Result);
    assert_eq!(nav.parent, Screen::Home);
    assert_eq!(nav.focus, 0);

    let mut long = summary(PracticeKind::Long);
    long.content_ids = vec!["en-long-1".into(), "en-long-2".into()];
    let outcome = finish_step(Some(&long), 0, &[], &[], 15, &mut nav).unwrap();
    assert_eq!(outcome.content_id, "en-long-1");
    assert_eq!(outcome.difficulty, Some(2));
    assert_eq!(outcome.long_progress, Some((3, 8, 37)));
}

#[test]
fn the_previous_session_is_the_latest_comparable_one() {
    let sessions = vec![
        entry("b", 100, 0, PracticeKind::Words, 1),
        entry("a", 200, 0, PracticeKind::Words, 1),
        entry("c", 200, 0, PracticeKind::Words, 1),
        entry("z", 900, 0, PracticeKind::Long, 1),
        entry("a2", 150, 0, PracticeKind::Words, 1),
    ];
    let mut nav = Navigation::new();
    let outcome = finish_step(Some(&summary(PracticeKind::Words)), 0, &sessions, &vec![true; sessions.len()], 15, &mut nav).unwrap();
    assert_eq!(outcome.previous, Some(2));
}

#[test]
fn the_daily_goal_counts_the_day_and_this_session() {
    let sessions = vec![
        entry("a", 1, 7, PracticeKind::Words, 10),
        entry("b", 2, 6, PracticeKind::Words, 30),
        entry("c", 3, 7, PracticeKind::Long, 2),
    ];
    let mut nav = Navigation::new();
    let p = summary(PracticeKind::Words);
    assert!(finish_step(Some(&p), 7, &sessions, &vec![true; sessions.len()], 14, &mut nav).unwrap().daily_minutes_met);
    assert!(!finish_step(Some(&p), 7, &sessions, &vec![true; sessions.len()], 15, &mut nav).unwrap().daily_minutes_met);
}

#[test]
fn paste_is_ignored_with_a_notice_only_during_practice() {
    assert_eq!(
        paste_action(Screen::Practice, true, false, 5),
        PasteAction::IgnoreWithNotice { expires_at: 3_000_000_005 }
    );
    assert_eq!(paste_action(Screen::Practice, true, true, 5), PasteAction::Ignore);
    assert_eq!(paste_action(Screen::Practice, false, false, 5), PasteAction::Ignore);
    assert_eq!(paste_action(Screen::Home, true, false, 5), PasteAction::Ignore);
    assert_eq!(
        paste_action(Screen::Practice, true, false, u64::MAX),
        PasteAction::IgnoreWithNotice { expires_at: u64::MAX }
    );
}

#[test]
fn the_paste_notice_is_cleared_three_seconds_later() {
    assert!(!notice_expired(3_000_000_005, 3_000_000_004));
    assert!(notice_expired(3_000_000_005, 3_000_000_005));
    assert!(notice_expired(3_000_000_005, 9_000_000_000));
}

#[test]
fn only_a_test_is_graded_and_only_a_saved_session_is_kept() {
    let mut nav = Navigation::new();
    assert!(finish_step(Some(&summary(PracticeKind::Test)), 0, &[], &[], 15, &mut nav).unwrap().graded);
    assert!(!finish_step(Some(&summary(PracticeKind::Words)), 0, &[], &[], 15, &mut nav).unwrap().graded);
    let mut sessions = Vec::new();
    typerlude::app::finish::keep_saved_session(&mut sessions, entry("a", 1, 0, PracticeKind::Test, 1), false);
    assert!(sessions.is_empty());
    typerlude::app::finish::keep_saved_session(&mut sessions, entry("a", 1, 0, PracticeKind::Test, 1), true);
    assert_eq!(sessions.len(), 1);
    assert_eq!(sessions[0].id, "a");
}

#[test]
fn sessions_without_finite_speeds_are_not_the_previous_one() {
    let sessions = vec![
        entry("a", 100, 0, PracticeKind::Words, 1),
        entry("b", 200, 0, PracticeKind::Words, 1),
    ];
    let mut nav = Navigation::new();
    let outcome =
        finish_step(Some(&summary(PracticeKind::Words)), 0, &sessions, &[true, false], 15, &mut nav)
            .unwrap();
    assert_eq!(outcome.previous, Some(0));
    let none = finish_step(Some(&summary(PracticeKind::Words)), 0, &sessions, &[false, false], 15, &mut nav)
        .unwrap();
    assert_eq!(none.previous, None);
}

#[test]
fn the_session_record_carries_the_practice_counts() {
    let mut nav = Navigation::new();
    let words = summary(PracticeKind::Words);
    let outcome = finish_step(Some(&words), 19_000, &[], &[], 15, &mut nav).unwrap();
    let s = session_entry(&words, &outcome, "s-1".to_string(), 1_700_000_000_000, 19_000);
    assert_eq!(s.schema_version, 1);
    assert_eq!(s.id, "s-1");
    assert_eq!(s.started_at_unix_ms, 1_700_000_000_000);
    assert_eq!(s.local_date, 19_000);
    assert_eq!(s.language, Language::En);
    assert_eq!(s.mode, PracticeKind::Words);
    assert_eq!(s.content_id, "words");
    assert_eq!(s.difficulty, Some(3));
    assert_eq!(s.duration_ms, 120_000);
    assert_eq!(s.correct_units, 10);
    assert_eq!(s.attempted_units, 12);
    assert_eq!(s.errors, 2);
    assert_eq!(s.backspaces, 1);
    assert_eq!(s.intended_keys, vec![KeyCount { key: 'a', correct: 10, errors: 2 }]);
    assert!(s.validate().is_ok());
}

#[test]
fn a_summary_reads_the_engine_counts() {
    let mut e = PracticeEngine::new(Language::En, PracticeKind::Long, "abc", None).unwrap();
    assert_eq!(e.input("ax", 1_000_000), InputOutcome::Accepted);
    assert!(e.backspace());
    let p = PracticeSummary::from_engine(&e, Difficulty::Easy, Some(1), vec!["en-long".into()], 3_500_000_001);
    assert_eq!(p.language, Language::En);
    assert_eq!(p.kind, PracticeKind::Long);
    assert_eq!(p.attempted_units, 2);
    assert_eq!(p.correct_units, 1);
    assert_eq!(p.errors, 1);
    assert_eq!(p.backspaces, 1);
    assert_eq!(p.intended_keys.len(), 2);
    assert_eq!(p.active_ms, 3_499);
    assert_eq!(p.completed, 1);
    assert_eq!(p.total, 3);
    let mut nav = Navigation::new();
    let outcome = finish_step(Some(&p), 0, &[], &[], 15, &mut nav).unwrap();
    assert_eq!(outcome.content_id, "en-long");
    assert_eq!(outcome.long_progress, Some((1, 3, 33)));
    let s = session_entry(&p, &outcome, "x".to_string(), 5, 0);
    assert_eq!(s.attempted_units, e.attempted_units());
    assert_eq!(s.correct_units, e.correct_units());
}

#[test]
fn an_engine_without_attempts_cannot_be_finished() {
    let e = PracticeEngine::new(Language::En, PracticeKind::Long, "abc", None).unwrap();
    let p = PracticeSummary::from_engine(&e, Difficulty::Easy, None, Vec::new(), 5);
    let mut nav = Navigation::new();
    assert_eq!(
        finish_step(Some(&p), 0, &[], &[], 15, &mut nav).err().unwrap(),
        "cannot finish practice without an attempt"
    );
}

#[test]
fn finishing_a_practice_records_its_own_counts() {
    let mut nav = Navigation::new();
    let refused = finish_practice(None, Difficulty::Easy, None, Vec::new(), 0, "s".into(), 0, 0, &[], &[], 15, &mut nav);
    assert_eq!(refused.err().unwrap(), "no active practice");
    let mut e = PracticeEngine::new(Language::En, PracticeKind::Test, "abcd", None).unwrap();
    let idle = finish_practice(Some(&e), Difficulty::Easy, None, Vec::new(), 0, "s".into(), 0, 0, &[], &[], 15, &mut nav);
    assert_eq!(idle.err().unwrap(), "cannot finish practice without an attempt");
    assert_eq!(nav.screen, Screen::Home);
    assert_eq!(e.input("abx", 0), InputOutcome::Accepted);
    let (p, o, s) = finish_practice(
        Some(&e),
        Difficulty::Easy,
        None,
        Vec::new(),
        60_000_000_000,
        "t-1".into(),
        1_000,
        20_000,
        &[],
        &[],
        1,
        &mut nav,
    )
    .unwrap();
    assert_eq!(p.attempted_units, 3);
    assert!(o.graded);
    assert!(o.daily_minutes_met);
    assert_eq!(o.content_id, "test");
    assert_eq!(s.id, "t-1");
    assert_eq!(s.mode, PracticeKind::Test);
    assert_eq!(s.attempted_units, 3);
    assert_eq!(s.correct_units, 2);
    assert_eq!(s.errors, 1);
    assert_eq!(s.duration_ms, 60_000);
    assert_eq!(nav.screen, Screen::Result);
}

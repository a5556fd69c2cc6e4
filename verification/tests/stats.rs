use typerlude::model::{Language, PracticeKind};
use typerlude::stats::{
    daily_goal_met, has_key_attempts, history, history_positions, intended_key_counts, streak, KeyCount, Range,
    SessionEntry,
};

/// The number of days from 1970-01-01 to a calendar date (proleptic Gregorian).
fn date(year: i32, month: i32, day: i32) -> i32 {
    let y = if month <= 2 { year - 1 } else { year };
    let era = if y >= 0 { y } else { y - 399 } / 400;
    let yoe = y - era * 400;
    let mp = (month + 9) % 12;
    let doy = (153 * mp + 2) / 5 + day - 1;
    let doe = yoe * 365 + yoe / 4 - yoe / 100 + doy;
    era * 146_097 + doe - 719_468
}

#[test]
fn finite_ranges_include_exact_calendar_windows_and_exclude_future_dates() {
    let today = date(2026, 8, 7);
    assert!(Range::Days7.includes(date(2026, 8, 1), today));
    assert!(!Range::Days7.includes(date(2026, 7, 31), today));
    assert!(!Range::Days7.includes(date(2026, 8, 8), today));

    assert!(Range::Days30.includes(date(2026, 7, 9), today));
    assert!(!Range::Days30.includes(date(2026, 7, 8), today));
    assert!(!Range::Days30.includes(date(2026, 8, 8), today));

    assert!(Range::Days90.includes(date(2026, 5, 10), today));
    assert!(!Range::Days90.includes(date(2026, 5, 9), today));
    assert!(!Range::Days90.includes(date(2026, 8, 8), today));

    assert!(Range::All.includes(date(1900, 1, 1), today));
    assert!(Range::All.includes(date(2026, 8, 8), today));
}

#[test]
fn streak_deduplicates_today_and_yesterday_runs_and_rejects_old_gaps() {
    let today = date(2026, 8, 7);
    assert_eq!(
        streak(
            &vec![today, today, date(2026, 8, 6), date(2026, 8, 5)],
            today,
        ),
        3
    );
    assert_eq!(streak(&vec![date(2026, 8, 6), date(2026, 8, 5)], today), 2);
    assert_eq!(streak(&vec![date(2026, 8, 5)], today), 0);
    assert_eq!(streak(&vec![date(2026, 8, 8), date(2026, 8, 7)], today), 1);
}

#[test]
fn streaks_cross_month_ends_and_stop_at_the_first_gap() {
    let today = date(2026, 3, 1);
    assert_eq!(date(2026, 2, 28) + 1, today);
    assert_eq!(
        streak(&vec![date(2026, 2, 27), today, date(2026, 2, 28), date(2026, 2, 25)], today),
        3
    );
    assert_eq!(streak(&Vec::new(), today), 0);
    assert_eq!(streak(&vec![i32::MIN, i32::MIN + 1], i32::MIN + 1), 2);
}

fn session(id: &str, local_date: i32, language: Language) -> SessionEntry {
    SessionEntry {
        schema_version: 1,
        id: id.into(),
        started_at_unix_ms: 0,
        local_date,
        language,
        mode: PracticeKind::Words,
        content_id: "fixture".into(),
        difficulty: Some(1),
        duration_ms: 60_000,
        correct_units: 9,
        attempted_units: 10,
        errors: 1,
        backspaces: 0,
        intended_keys: Vec::new(),
    }
}

fn count(key: char, correct: u64, errors: u64) -> KeyCount {
    KeyCount { key, correct, errors }
}

#[test]
fn history_filters_without_mutation_and_sorts_timestamp_then_id_descending() {
    let today = date(2026, 8, 7);
    let mut a = session("a", today, Language::En);
    a.started_at_unix_ms = 100;
    let mut b = session("b", today, Language::En);
    b.started_at_unix_ms = 100;
    let mut other_language = session("z-ko", today, Language::Ko);
    other_language.started_at_unix_ms = 300;
    let mut other_mode = session("z-test", today, Language::En);
    other_mode.started_at_unix_ms = 400;
    other_mode.mode = PracticeKind::Test;
    let mut too_old = session("z-old", date(2026, 7, 31), Language::En);
    too_old.started_at_unix_ms = 500;
    let sessions = vec![a, b, other_language, other_mode, too_old];

    let selected = history(
        &sessions,
        Range::Days7,
        today,
        Some(Language::En),
        Some(PracticeKind::Words),
    );

    assert_eq!(
        selected
            .iter()
            .map(|record| record.id.as_str())
            .collect::<Vec<_>>(),
        ["b", "a"]
    );
    assert_eq!(sessions[0].id, "a");
}

#[test]
fn history_without_filters_lists_every_session_latest_first() {
    let today = date(2026, 8, 7);
    let mut first = session("first", today, Language::Ko);
    first.started_at_unix_ms = -5;
    let mut second = session("second", date(2026, 8, 1), Language::En);
    second.started_at_unix_ms = 7;
    let future = session("future", date(2026, 8, 8), Language::En);
    let sessions = vec![first, second, future];
    assert_eq!(history_positions(&sessions, Range::All, today, None, None), vec![1, 2, 0]);
    assert_eq!(history_positions(&sessions, Range::Days7, today, None, None), vec![1, 0]);
    let ids = |list: Vec<&SessionEntry>| list.iter().map(|s| s.id.clone()).collect::<Vec<_>>();
    assert_eq!(ids(history(&sessions, Range::All, today, None, None)), ["second", "future", "first"]);
    assert!(history(&[], Range::All, today, None, None).is_empty());
}

#[test]
fn intended_key_counts_filter_language_and_saturate_each_bucket() {
    let mut first = session("first-en", date(2026, 8, 7), Language::En);
    first.intended_keys = vec![count('x', u64::MAX, 5)];
    let mut second = session("second-en", date(2026, 8, 7), Language::En);
    second.intended_keys = vec![count('x', 1, u64::MAX)];
    let mut korean = session("other-ko", date(2026, 8, 7), Language::Ko);
    korean.intended_keys = vec![count('x', 7, 7), count('한', 9, 1)];

    assert_eq!(
        intended_key_counts(&[first, second, korean], Language::En),
        vec![count('x', u64::MAX, u64::MAX)]
    );
}

#[test]
fn intended_key_counts_sum_each_key_in_key_order() {
    let mut first = session("a", 0, Language::Ko);
    first.intended_keys = vec![count('ㅎ', 1, 0), count('a', 2, 3)];
    let mut second = session("b", 0, Language::Ko);
    second.intended_keys = vec![count('a', 4, 1), count('\u{3131}', 5, 5)];
    assert_eq!(
        intended_key_counts(&[first, second], Language::Ko),
        vec![count('a', 6, 4), count('ㄱ', 5, 5), count('ㅎ', 1, 0)]
    );
    assert!(intended_key_counts(&[], Language::En).is_empty());
}

#[test]
fn key_attempts_need_one_attempt_and_the_minimum() {
    let counts = vec![
        count('p', 10, 0),
        count('q', 1, 1),
        count('x', 8, 2),
        count('y', 4, 1),
        count('z', 2, 8),
    ];
    assert!(has_key_attempts(&counts, 5));
    assert!(!has_key_attempts(&counts, 11));
    assert!(!has_key_attempts(&[count('0', 0, 0)], 0));
    assert!(has_key_attempts(&[count('0', 0, 1)], 0));
    assert!(has_key_attempts(&[count('0', u64::MAX, u64::MAX)], u64::MAX));
}

#[test]
fn sessions_are_checked_field_by_field() {
    let mut entry = session("1722988800000-42-0", 0, Language::En);
    assert_eq!(entry.validate(), Ok(()));
    entry.schema_version = 2;
    assert_eq!(entry.validate().unwrap_err(), "unsupported session schema version 2");
    entry.schema_version = 1;
    entry.id = "../escape".into();
    assert_eq!(entry.validate().unwrap_err(), "session ID is not filesystem-safe");
    entry.id = String::new();
    assert_eq!(entry.validate().unwrap_err(), "session ID is not filesystem-safe");
    entry.id = "ok_id-1".into();
    entry.content_id = " \t".into();
    assert_eq!(entry.validate().unwrap_err(), "content ID must not be empty");
    entry.content_id = "stdin".into();
    entry.difficulty = Some(4);
    assert_eq!(entry.validate().unwrap_err(), "difficulty must be between 1 and 3");
    entry.difficulty = None;
    entry.attempted_units = 0;
    entry.correct_units = 0;
    assert_eq!(entry.validate().unwrap_err(), "cannot save an empty session");
    entry.attempted_units = 3;
    entry.correct_units = 4;
    assert_eq!(
        entry.validate().unwrap_err(),
        "correct units cannot exceed attempted units"
    );
    entry.correct_units = 3;
    assert_eq!(entry.validate(), Ok(()));
}

#[test]
fn the_daily_goal_counts_only_the_same_day_and_saturates() {
    let today = date(2026, 8, 7);
    let mut morning = session("morning", today, Language::En);
    morning.duration_ms = 10 * 60_000;
    let mut yesterday = session("yesterday", today - 1, Language::Ko);
    yesterday.duration_ms = 30 * 60_000;
    let sessions = vec![morning, yesterday];
    assert!(!daily_goal_met(&sessions, today, 4 * 60_000, 15));
    assert!(daily_goal_met(&sessions, today, 5 * 60_000, 15));
    assert!(daily_goal_met(&sessions, today - 1, 0, 30));
    let mut huge = session("huge", today, Language::En);
    huge.duration_ms = u64::MAX;
    assert!(daily_goal_met(&[huge], today, u64::MAX, u32::MAX));
    assert!(!daily_goal_met(&[], today, 0, 1));
}

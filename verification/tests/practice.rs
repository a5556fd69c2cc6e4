use typerlude::model::PracticeKind;
use typerlude::practice::{practice_lines, validate_item_ends, InputOutcome};
use unicode_segmentation::UnicodeSegmentation;
use unicode_width::UnicodeWidthStr;

fn line_texts(target: &str, item_ends: &[usize]) -> Vec<String> {
    let graphemes = target.graphemes(true).collect::<Vec<_>>();
    let ends = practice_lines(PracticeKind::Long, target, &item_ends.to_vec()).unwrap();
    let mut start = 0;
    let mut lines = Vec::new();
    for end in ends {
        lines.push(graphemes[start..end as usize].concat());
        start = end as usize;
    }
    lines
}

#[test]
fn practice_logical_lines_keep_english_words_and_korean_eojeol_whole() {
    let english = format!("{} world", "a".repeat(68));
    assert_eq!(
        line_texts(&english, &[english.graphemes(true).count()]),
        [format!("{} ", "a".repeat(68)), "world".into()]
    );

    let korean = format!("{} 세계", "가".repeat(34));
    assert_eq!(
        line_texts(&korean, &[korean.graphemes(true).count()]),
        [format!("{} ", "가".repeat(34)), "세계".into()]
    );
}

#[test]
fn practice_a_single_oversized_token_splits_only_at_grapheme_boundaries() {
    let target = "x".repeat(73);
    assert_eq!(
        line_texts(&target, &[73])
            .iter()
            .map(String::len)
            .collect::<Vec<_>>(),
        [72, 1]
    );
}

#[test]
fn practice_empty_targets_are_rejected() {
    assert_eq!(
        practice_lines(PracticeKind::Words, "", &vec![0]).unwrap_err(),
        "practice target cannot be empty"
    );
}

#[test]
fn line_feeds_and_item_ends_close_lines() {
    assert_eq!(line_texts("ab\ncd", &[5]), ["ab\n", "cd"]);
    assert_eq!(line_texts("ab\n\ncd", &[6]), ["ab\n", "\n", "cd"]);
    assert_eq!(line_texts("one two", &[3, 7]), ["one", " two"]);
}

#[test]
fn key_drills_are_a_single_line() {
    let target = "a".repeat(100);
    assert_eq!(
        practice_lines(PracticeKind::Key, &target, &vec![100]).unwrap(),
        [100]
    );
}

#[test]
fn item_ends_must_be_ordered_and_cover_the_target() {
    let message = "practice item boundaries must be ordered and cover the target";
    assert!(validate_item_ends(&[2, 5], 5).is_ok());
    assert_eq!(validate_item_ends(&[], 5).unwrap_err(), message);
    assert_eq!(validate_item_ends(&[0, 5], 5).unwrap_err(), message);
    assert_eq!(validate_item_ends(&[3, 3, 5], 5).unwrap_err(), message);
    assert_eq!(validate_item_ends(&[4], 5).unwrap_err(), message);
    assert_eq!(
        practice_lines(PracticeKind::Long, "hello", &vec![6]).unwrap_err(),
        message
    );
}

#[test]
fn input_outcomes_are_distinct() {
    assert_ne!(InputOutcome::Accepted, InputOutcome::Finished);
    assert_ne!(InputOutcome::Finished, InputOutcome::IgnoredWhilePaused);
}

#[test]
fn tests_logical_lines_keep_english_words_and_korean_eojeol_whole() {
    let english = format!("{} world", "a".repeat(68));
    assert_eq!(
        line_texts(&english, &[english.graphemes(true).count()]),
        [format!("{} ", "a".repeat(68)), "world".into()]
    );

    let korean = format!("{} 세계", "가".repeat(34));
    assert_eq!(
        line_texts(&korean, &[korean.graphemes(true).count()]),
        [format!("{} ", "가".repeat(34)), "세계".into()]
    );
}

#[test]
fn tests_a_single_oversized_token_splits_only_at_grapheme_boundaries() {
    let target = "x".repeat(73);
    assert_eq!(
        line_texts(&target, &[73])
            .iter()
            .map(String::len)
            .collect::<Vec<_>>(),
        [72, 1]
    );
}

#[test]
fn tests_empty_targets_are_rejected() {
    assert_eq!(
        practice_lines(PracticeKind::Words, "", &vec![0]).unwrap_err(),
        "practice target cannot be empty"
    );
}

#[test]
fn laid_out_lines_cover_the_text_within_the_line_width() {
    let target = format!(
        "{} {}\n{} 한국어 문장을 연습합니다 {}",
        "typing ".repeat(15),
        "x".repeat(80),
        "words and more words ".repeat(6),
        "끝".repeat(50)
    );
    let graphemes = target.graphemes(true).collect::<Vec<_>>();
    let ends = practice_lines(PracticeKind::Long, &target, &vec![graphemes.len()]).unwrap();
    assert_eq!(*ends.last().unwrap() as usize, graphemes.len());
    let mut start = 0;
    for end in ends {
        let end = end as usize;
        assert!(start < end);
        let width: usize = graphemes[start..end].iter().filter(|g| **g != "\n").map(|g| g.width()).sum();
        assert!(width <= 72, "line {start}..{end} is {width} wide");
        start = end;
    }
}

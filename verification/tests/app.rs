use std::path::PathBuf;
use std::time::Duration;
use typerlude::app::{
    adjust_mode_options, adjusted, catalog_match, catalog_target, catalog_target_checked,
    content_kind_order, cycle_difficulty, cycle_game_difficulty, cycle_index, cycle_mode,
    cycle_range, is_test_duration, key_sequence, key_stage, key_stages, long_items, long_scroll,
    other_language, paragraph_ends, practice_id, prepare_custom_text, quick_count_preset,
    quick_time_preset, select_catalog_items, CatalogStream, CustomTextSource, KeyModifiers,
    ModeOptions, QuickOptions, QuickSource, StopRule,
};
use typerlude::app::keys::{
    enter_action, key_action, practice_key_action, EnterAction, KeyAction, PracticeKeyAction,
    PracticeKeyState,
};
use typerlude::app::navigation::{focus_count, Navigation, ScreenSizes};
use typerlude::app::{Key, KeyInput, KeyKind, Screen};
use typerlude::content::{
    ContentCatalog, ContentItem, ContentKind, ContentPack, ResolvedItem, SourceMeta,
};
use typerlude::model::{Difficulty, Language, PracticeKind};
use typerlude::practice::validate_item_ends;
use typerlude::stats::Range;
use typerlude::storage::AppPaths;
use unicode_segmentation::UnicodeSegmentation;

fn source() -> SourceMeta {
    SourceMeta {
        author: "Example Author".into(),
        source_id: "example".into(),
        source_url: "https://example.com/source".into(),
        license: "CC-BY-4.0".into(),
        license_url: "https://creativecommons.org/licenses/by/4.0/".into(),
        modified: false,
        retrieved_at: "2026-08-07".into(),
    }
}

fn item(id: &str, language: Language, kind: ContentKind, text: &str, difficulty: Option<u8>) -> ResolvedItem {
    ResolvedItem {
        pack_id: "pack".into(),
        id: id.into(),
        language,
        kind,
        text: text.into(),
        difficulty,
        tags: Vec::new(),
        title: None,
        source: source(),
    }
}

#[test]
fn quick_options_accept_only_offered_stop_rules() {
    let ok = QuickOptions::new(Language::En, QuickSource::Words, StopRule::Items(25)).unwrap();
    assert_eq!(ok.language(), Language::En);
    assert_eq!(ok.source(), QuickSource::Words);
    assert_eq!(ok.stop(), StopRule::Items(25));
    let timed = QuickOptions::new(
        Language::Ko,
        QuickSource::Quote,
        StopRule::ActiveTime(Duration::from_secs(120)),
    )
    .unwrap();
    assert_eq!(timed.stop(), StopRule::ActiveTime(Duration::from_secs(120)));
    for stop in [
        StopRule::Items(26),
        StopRule::ActiveTime(Duration::from_secs(61)),
        StopRule::ActiveTime(Duration::from_millis(60_500)),
        StopRule::TargetEnd,
        StopRule::TargetOrActiveTime(Duration::from_secs(60)),
    ] {
        let error = QuickOptions::new(Language::En, QuickSource::Words, stop).unwrap_err();
        assert_eq!(error, "invalid Quick stop rule");
    }
}

#[test]
fn presets_and_test_durations() {
    assert_eq!(
        (0..4).map(quick_time_preset).collect::<Vec<_>>(),
        vec![15, 30, 60, 120]
    );
    assert_eq!(
        (0..4).map(quick_count_preset).collect::<Vec<_>>(),
        vec![10, 25, 50, 100]
    );
    for seconds in [60, 180, 300, 600] {
        assert!(is_test_duration(seconds));
    }
    for seconds in [0, 30, 120, 301, 3600] {
        assert!(!is_test_duration(seconds));
    }
}

#[test]
fn mode_options_default_to_a_thirty_second_quick_limit() {
    let mut options = ModeOptions::new(PracticeKind::Quick, Language::Ko);
    assert_eq!(options.kind, PracticeKind::Quick);
    assert_eq!(options.language, Language::Ko);
    assert_eq!(options.quick_preset, 1);
    assert_eq!(options.key_stage, 1);
    assert_eq!(options.word_difficulty, Difficulty::Mixed);
    assert_eq!(options.test_preset, 2);
    assert_eq!(options.quick_stop(), StopRule::ActiveTime(Duration::from_secs(30)));
    options.quick_items = true;
    options.quick_preset = 3;
    assert_eq!(options.quick_stop(), StopRule::Items(100));
}

#[test]
fn key_stages_accumulate_keys() {
    let english = key_stages(Language::En);
    assert_eq!(english.len(), 10);
    assert_eq!(english[0].title, "F/J");
    assert_eq!(english[0].keys, vec!['f', 'j']);
    assert_eq!(english[1].keys, vec!['f', 'j', 'd', 'k']);
    assert_eq!(english[9].title, "Full keyboard");
    for pair in english.windows(2) {
        assert!(pair[1].keys.starts_with(&pair[0].keys));
    }
    assert!(english[9].keys.contains(&' '));
    let korean = key_stages(Language::Ko);
    assert_eq!(korean.len(), 7);
    assert_eq!(korean[0].title, "기본자리 1");
    assert_eq!(korean[0].keys, vec!['ㅁ', 'ㄴ', 'ㅇ', 'ㄹ']);
    for pair in korean.windows(2) {
        assert!(pair[1].keys.starts_with(&pair[0].keys));
    }
}

#[test]
fn key_stage_numbers_outside_the_layout_are_refused() {
    assert_eq!(key_stage(Language::En, 3).unwrap().title, "S/L");
    assert_eq!(key_stage(Language::En, 0).unwrap_err(), "invalid key-practice stage");
    assert_eq!(key_stage(Language::En, 11).unwrap_err(), "invalid key-practice stage");
    assert_eq!(key_stage(Language::Ko, 7).unwrap().title, "전체 자판");
    assert_eq!(key_stage(Language::Ko, 8).unwrap_err(), "invalid key-practice stage");
    assert_eq!(
        key_sequence(Language::Ko, 8, false, &[], 1).unwrap_err(),
        "invalid key-practice stage"
    );
}

#[test]
fn ordered_key_sequences_repeat_the_cycle_with_weak_keys_twice() {
    let sequence = key_sequence(Language::En, 1, false, &[], 7).unwrap();
    assert_eq!(sequence.chars().count(), 120);
    assert_eq!(sequence, "fj".repeat(60));
    let weak = key_sequence(Language::En, 2, false, &['k', 'x', 'k'], 7).unwrap();
    let cycle = "fjdkkk";
    assert_eq!(weak, cycle.repeat(20));
}

#[test]
fn random_key_sequences_draw_only_from_the_cycle() {
    let sequence = key_sequence(Language::Ko, 1, true, &['ㅁ'], 42).unwrap();
    assert_eq!(sequence.chars().count(), 120);
    assert!(sequence.chars().all(|c| ['ㅁ', 'ㄴ', 'ㅇ', 'ㄹ'].contains(&c)));
    let first_key_count = sequence.chars().filter(|&c| c == 'ㅁ').count();
    assert_eq!(first_key_count, 60);
    assert_eq!(sequence, key_sequence(Language::Ko, 1, true, &['ㅁ'], 42).unwrap());
}

#[test]
fn cycles_wrap_in_both_directions() {
    assert_eq!(cycle_index(0, 4, -1), 3);
    assert_eq!(cycle_index(3, 4, 1), 0);
    assert_eq!(cycle_index(1, 4, 0), 2);
    assert_eq!(cycle_range(Range::Days7, -1), Range::All);
    assert_eq!(cycle_range(Range::All, 1), Range::Days7);
    assert_eq!(cycle_range(Range::Days30, 1), Range::Days90);
    assert_eq!(cycle_mode(None, -1), Some(PracticeKind::Test));
    assert_eq!(cycle_mode(Some(PracticeKind::Test), 1), None);
    assert_eq!(cycle_mode(None, 1), Some(PracticeKind::Quick));
    assert_eq!(cycle_difficulty(Difficulty::Mixed, 1), Difficulty::Easy);
    assert_eq!(cycle_difficulty(Difficulty::Easy, -1), Difficulty::Mixed);
    assert_eq!(cycle_game_difficulty(Difficulty::Hard, 1), Difficulty::Easy);
    assert_eq!(cycle_game_difficulty(Difficulty::Mixed, 1), Difficulty::Hard);
    assert_eq!(cycle_game_difficulty(Difficulty::Easy, -1), Difficulty::Hard);
    assert_eq!(other_language(Language::Ko), Language::En);
    assert_eq!(other_language(Language::En), Language::Ko);
}

#[test]
fn adjusted_steps_to_multiples_and_clamps() {
    assert_eq!(adjusted(95, 1, 10, 50, 200), 100);
    assert_eq!(adjusted(100, 1, 10, 50, 200), 110);
    assert_eq!(adjusted(95, -1, 10, 50, 200), 90);
    assert_eq!(adjusted(90, -1, 10, 50, 200), 80);
    assert_eq!(adjusted(50, -1, 10, 50, 200), 50);
    assert_eq!(adjusted(200, 1, 10, 50, 200), 200);
    assert_eq!(adjusted(10, 0, 10, 50, 200), 50);
    assert_eq!(adjusted(u32::MAX - 1, 1, 10, 0, u32::MAX), u32::MAX);
    assert_eq!(adjusted(3, -1, 5, 0, 100), 0);
}

#[test]
fn content_kinds_and_practice_ids() {
    assert_eq!(content_kind_order(ContentKind::Word), 0);
    assert_eq!(content_kind_order(ContentKind::Text), 3);
    assert_eq!(practice_id(PracticeKind::Sentence), "sentence");
    assert_eq!(practice_id(PracticeKind::Test), "test");
    assert_eq!(CustomTextSource::File.content_id(), "custom-file");
    assert_eq!(CustomTextSource::Stdin.content_id(), "stdin");
    let shift = KeyModifiers::shift_only();
    assert!(shift.shift && !shift.control && !shift.other);
    assert_eq!(KeyModifiers::none(), KeyModifiers::default());
    assert!(KeyModifiers::control_only().control);
    assert!(KeyModifiers::other_only().other);
}

#[test]
fn catalog_streams_match_language_kind_and_difficulty() {
    let stream = CatalogStream {
        language: Language::En,
        kinds: vec![ContentKind::Sentence, ContentKind::Quote],
        difficulty: Difficulty::Medium,
        separator: " ".into(),
        next_seed: 0,
        adaptive: false,
    };
    let medium = item("a", Language::En, ContentKind::Sentence, "A line.", Some(2));
    assert!(catalog_match(&medium, &stream));
    let easy = item("b", Language::En, ContentKind::Sentence, "A line.", Some(1));
    assert!(!catalog_match(&easy, &stream));
    let word = item("c", Language::En, ContentKind::Word, "line", Some(2));
    assert!(!catalog_match(&word, &stream));
    let korean = item("d", Language::Ko, ContentKind::Quote, "문장.", Some(2));
    assert!(!catalog_match(&korean, &stream));
    let mixed = CatalogStream { difficulty: Difficulty::Mixed, ..stream };
    assert!(catalog_match(&easy, &mixed));
}

#[test]
fn catalog_targets_join_items_and_count_graphemes() {
    let first = item("one", Language::Ko, ContentKind::Sentence, "한글", None);
    let second = item("two", Language::En, ContentKind::Sentence, "e\u{301}x", None);
    let third = item("three", Language::En, ContentKind::Sentence, "z", None);
    let items = [&first, &second, &third];
    let (target, ends, ids) = catalog_target(&items, "\r\n");
    assert_eq!(target, "한글\r\ne\u{301}x\r\nz");
    assert_eq!(ends, vec![3, 6, 7]);
    assert_eq!(ids, vec!["one", "two", "three"]);
    let (joined, ends, _) = catalog_target(&items, " / ");
    assert_eq!(joined, "한글 / e\u{301}x / z");
    assert_eq!(ends, vec![5, 10, 11]);
    assert_eq!(catalog_target_checked(&items, " / "), Some(catalog_target(&items, " / ")));
    let (empty, ends, ids) = catalog_target(&[], " ");
    assert!(empty.is_empty() && ends.is_empty() && ids.is_empty());
}

#[test]
fn paragraph_ends_follow_line_feed_runs() {
    assert_eq!(paragraph_ends(""), vec![0]);
    assert_eq!(paragraph_ends("ab"), vec![2]);
    assert_eq!(paragraph_ends("ab\ncd"), vec![3, 5]);
    assert_eq!(paragraph_ends("ab\n\n\ncd\nx"), vec![5, 8, 9]);
    assert_eq!(paragraph_ends("ab\n"), vec![3]);
    assert_eq!(paragraph_ends("a\r\nb"), vec![3]);
}

#[test]
fn custom_text_is_checked_and_normalized() {
    let practice = prepare_custom_text(CustomTextSource::Stdin, "notes", "one\r\n\r\ntwo").unwrap();
    assert_eq!(practice.target, "one\n\ntwo");
    assert_eq!(practice.item_ends, vec![5, 8]);
    assert_eq!(practice.metadata.title, "notes");
    assert_eq!(practice.metadata.author, "Standard input");
    assert_eq!(practice.metadata.source, "User-provided text");
    assert_eq!(practice.metadata.license, "Not redistributed");
    assert_eq!(practice.metadata.custom_source, Some(CustomTextSource::Stdin));
    let file = prepare_custom_text(CustomTextSource::File, "f", "x").unwrap();
    assert_eq!(file.metadata.author, "Local file");
    assert_eq!(
        prepare_custom_text(CustomTextSource::File, " ", "x").unwrap_err(),
        "custom text name must be visible"
    );
    assert_eq!(
        prepare_custom_text(CustomTextSource::File, "n\u{7}", "x").unwrap_err(),
        "custom text name must be visible"
    );
    assert_eq!(
        prepare_custom_text(CustomTextSource::File, "n", " \n ").unwrap_err(),
        "custom text is empty or contains a disallowed control character"
    );
    assert_eq!(
        prepare_custom_text(CustomTextSource::File, "n", "a\tb").unwrap_err(),
        "custom text is empty or contains a disallowed control character"
    );
    let large = "a".repeat(8 * 1024 * 1024 + 1);
    assert_eq!(
        prepare_custom_text(CustomTextSource::File, "n", &large).unwrap_err(),
        "custom text exceeds the 8 MiB limit"
    );
}

#[test]
fn override_paths_live_under_one_root() {
    let paths = AppPaths::from_override(PathBuf::from("/tmp/typerlude-home"));
    assert_eq!(paths.config, PathBuf::from("/tmp/typerlude-home/config.toml"));
    assert_eq!(paths.sessions, PathBuf::from("/tmp/typerlude-home/sessions"));
    assert_eq!(paths.content, PathBuf::from("/tmp/typerlude-home/content"));
    assert_eq!(paths.themes, PathBuf::from("/tmp/typerlude-home/themes"));
    assert_eq!(paths.update_cache, PathBuf::from("/tmp/typerlude-home/cache/update.json"));
}

fn text_item(id: &str, text: &str, tags: &[&str]) -> ContentItem {
    ContentItem {
        id: id.into(),
        kind: ContentKind::Text,
        text: text.into(),
        difficulty: None,
        tags: tags.iter().map(|tag| tag.to_string()).collect(),
        title: Some(id.into()),
        source: None,
    }
}

fn long_catalog() -> ContentCatalog {
    let mut catalog = ContentCatalog::new();
    catalog.insert(ContentPack {
        schema_version: 1,
        id: "en-long".into(),
        title: "English texts".into(),
        language: Language::En,
        source: source(),
        items: vec![
            text_item("en-a", "First text.", &["essay"]),
            text_item("en-b", "Second text.", &["poem"]),
            ContentItem {
                id: "en-word".into(),
                kind: ContentKind::Word,
                text: "word".into(),
                difficulty: Some(1),
                tags: Vec::new(),
                title: None,
                source: None,
            },
            text_item("en-c", "Third text.", &["poem", "essay"]),
        ],
    });
    catalog.insert(ContentPack {
        schema_version: 1,
        id: "ko-long".into(),
        title: "Korean texts".into(),
        language: Language::Ko,
        source: source(),
        items: vec![text_item("ko-a", "첫 글.", &[])],
    });
    catalog
}

#[test]
fn long_items_filter_language_kind_and_category() {
    let catalog = long_catalog();
    let ids = |items: Vec<&ResolvedItem>| items.iter().map(|item| item.id.clone()).collect::<Vec<_>>();
    assert_eq!(ids(long_items(&catalog, Language::En, None)), ["en-a", "en-b", "en-c"]);
    assert_eq!(ids(long_items(&catalog, Language::En, Some("poem"))), ["en-b", "en-c"]);
    assert_eq!(ids(long_items(&catalog, Language::Ko, None)), ["ko-a"]);
    assert!(long_items(&catalog, Language::Ko, Some("poem")).is_empty());
}

#[test]
fn switching_language_keeps_choices_within_the_new_language() {
    let catalog = long_catalog();
    let mut key = ModeOptions::new(PracticeKind::Key, Language::En);
    key.key_stage = 9;
    adjust_mode_options(&mut key, 0, 1, &catalog);
    assert_eq!(key.language, Language::Ko);
    assert_eq!(key.key_stage, 7);
    adjust_mode_options(&mut key, 0, 1, &catalog);
    assert_eq!((key.language, key.key_stage), (Language::En, 7));

    let mut long = ModeOptions::new(PracticeKind::Long, Language::En);
    long.long_selection = 2;
    adjust_mode_options(&mut long, 0, -1, &catalog);
    assert_eq!((long.language, long.long_selection), (Language::Ko, 0));

    let mut test = ModeOptions::new(PracticeKind::Test, Language::Ko);
    test.test_selection = 5;
    adjust_mode_options(&mut test, 0, 1, &catalog);
    assert_eq!((test.language, test.test_selection), (Language::En, 3));
    let empty = ContentCatalog::new();
    adjust_mode_options(&mut test, 0, 1, &empty);
    assert_eq!((test.language, test.test_selection), (Language::Ko, 0));
}

#[test]
fn focused_mode_options_toggle_and_cycle() {
    let catalog = long_catalog();
    let mut quick = ModeOptions::new(PracticeKind::Quick, Language::En);
    adjust_mode_options(&mut quick, 1, 1, &catalog);
    assert_eq!(quick.quick_source, QuickSource::Quote);
    adjust_mode_options(&mut quick, 2, -1, &catalog);
    assert!(quick.quick_items);
    adjust_mode_options(&mut quick, 3, -1, &catalog);
    assert_eq!(quick.quick_preset, 0);
    adjust_mode_options(&mut quick, 3, -1, &catalog);
    assert_eq!(quick.quick_preset, 3);
    adjust_mode_options(&mut quick, 4, 1, &catalog);
    assert_eq!(quick.quick_preset, 3);

    let mut key = ModeOptions::new(PracticeKind::Key, Language::Ko);
    adjust_mode_options(&mut key, 1, -1, &catalog);
    assert_eq!(key.key_stage, 7);
    adjust_mode_options(&mut key, 1, 1, &catalog);
    assert_eq!(key.key_stage, 1);
    adjust_mode_options(&mut key, 2, 1, &catalog);
    adjust_mode_options(&mut key, 3, 1, &catalog);
    assert!(key.key_random && key.key_weak_repeat);

    let mut words = ModeOptions::new(PracticeKind::Words, Language::En);
    adjust_mode_options(&mut words, 1, 1, &catalog);
    assert_eq!(words.word_difficulty, Difficulty::Easy);

    let mut test = ModeOptions::new(PracticeKind::Test, Language::En);
    adjust_mode_options(&mut test, 1, 1, &catalog);
    assert_eq!(test.test_preset, 3);
    adjust_mode_options(&mut test, 2, -1, &catalog);
    assert_eq!(test.test_selection, 3);
    adjust_mode_options(&mut test, 2, 1, &catalog);
    assert_eq!(test.test_selection, 0);

    let mut sentence = ModeOptions::new(PracticeKind::Sentence, Language::En);
    let before = format!("{sentence:?}");
    adjust_mode_options(&mut sentence, 1, 1, &catalog);
    assert_eq!(format!("{sentence:?}"), before);
}

fn text_stream(language: Language, adaptive: bool) -> CatalogStream {
    CatalogStream {
        language,
        kinds: vec![ContentKind::Text],
        difficulty: Difficulty::Mixed,
        separator: "\n\n".into(),
        next_seed: 0,
        adaptive,
    }
}

#[test]
fn catalog_selection_cycles_through_every_matching_item() {
    let catalog = long_catalog();
    let stream = text_stream(Language::En, false);
    let chosen = select_catalog_items(&catalog, &stream, 7, 11, None, |_| Vec::new()).unwrap();
    let ids = chosen.iter().map(|item| item.id.as_str()).collect::<Vec<_>>();
    assert_eq!(ids.len(), 7);
    for pass in ids.chunks(3) {
        let mut sorted = pass.to_vec();
        sorted.sort();
        sorted.dedup();
        assert_eq!(sorted.len(), pass.len());
        assert!(sorted.iter().all(|id| ["en-a", "en-b", "en-c"].contains(id)));
    }
    let again = select_catalog_items(&catalog, &stream, 7, 11, None, |_| Vec::new()).unwrap();
    assert_eq!(
        again.iter().map(|item| item.id.as_str()).collect::<Vec<_>>(),
        ids
    );
    assert!(select_catalog_items(&catalog, &stream, 0, 11, None, |_| Vec::new())
        .unwrap()
        .is_empty());
}

#[test]
fn catalog_selection_excludes_an_id_unless_it_is_the_only_one() {
    let catalog = long_catalog();
    let english = text_stream(Language::En, false);
    let chosen = select_catalog_items(&catalog, &english, 6, 3, Some("en-b"), |_| Vec::new()).unwrap();
    assert_eq!(chosen.len(), 6);
    assert!(chosen.iter().all(|item| item.id != "en-b"));
    let korean = text_stream(Language::Ko, false);
    let only = select_catalog_items(&catalog, &korean, 2, 3, Some("ko-a"), |_| Vec::new()).unwrap();
    assert_eq!(
        only.iter().map(|item| item.id.as_str()).collect::<Vec<_>>(),
        ["ko-a", "ko-a"]
    );
}

#[test]
fn catalog_selection_without_matching_items_is_refused() {
    let catalog = long_catalog();
    let mut stream = text_stream(Language::En, false);
    stream.kinds = vec![ContentKind::Quote];
    assert_eq!(
        select_catalog_items(&catalog, &stream, 1, 0, None, |_| Vec::new()).unwrap_err(),
        "no matching practice content"
    );
}

#[test]
fn adaptive_candidates_lead_each_pass() {
    let catalog = long_catalog();
    let stream = text_stream(Language::En, true);
    let items = catalog.items();
    let weak = items.iter().find(|item| item.id == "en-c").unwrap();
    let korean = items.iter().find(|item| item.id == "ko-a").unwrap();
    let chosen = select_catalog_items(&catalog, &stream, 8, 5, None, |_seed| vec![weak, korean])
        .unwrap();
    let ids = chosen.iter().map(|item| item.id.as_str()).collect::<Vec<_>>();
    assert_eq!(ids[0], "en-c");
    assert_eq!(ids[3], "en-c");
    assert_eq!(ids[6], "en-c");
    assert!(!ids.contains(&"ko-a"));
    for pass in ids.chunks(3) {
        let mut sorted = pass.to_vec();
        sorted.sort();
        sorted.dedup();
        assert_eq!(sorted.len(), pass.len());
    }
}

#[test]
fn a_step_back_undoes_a_step_forward() {
    for len in 1..6 {
        for index in 0..len {
            assert_eq!(cycle_index(cycle_index(index, len, 1), len, -1), index);
            assert_eq!(cycle_index(cycle_index(index, len, -1), len, 1), index);
        }
    }
}

#[test]
fn long_scroll_reports_the_paragraph_and_percent() {
    let ends = [5, 8, 12];
    let start = long_scroll(&ends, 0, 0, 12);
    assert_eq!((start.active_paragraph, start.total_paragraphs, start.percent), (1, 3, 0));
    let second = long_scroll(&ends, 5, 6, 12);
    assert_eq!((second.active_paragraph, second.percent), (2, 50));
    let last = long_scroll(&ends, 8, 11, 12);
    assert_eq!((last.active_paragraph, last.percent), (3, 91));
    let done = long_scroll(&ends, 12, 12, 12);
    assert_eq!((done.active_paragraph, done.percent), (3, 100));
    let huge = long_scroll(&ends, 0, usize::MAX, 7);
    assert_eq!(huge.percent, usize::MAX / 7);
    let none = long_scroll(&[], 0, 0, 1);
    assert_eq!((none.active_paragraph, none.total_paragraphs), (0, 0));
}

#[test]
fn random_key_sequences_reshuffle_the_whole_cycle_each_pass() {
    let sequence = key_sequence(Language::En, 2, true, &['k'], 9).unwrap();
    let keys = sequence.chars().collect::<Vec<_>>();
    assert_eq!(keys.len(), 120);
    for pass in keys.chunks(6) {
        let mut sorted = pass.to_vec();
        sorted.sort();
        assert_eq!(sorted, vec!['d', 'f', 'j', 'k', 'k', 'k']);
    }
    let seven = key_sequence(Language::Ko, 1, true, &['ㄴ', 'ㅁ', 'ㅁ'], 3).unwrap();
    let keys = seven.chars().collect::<Vec<_>>();
    for pass in keys.chunks(8).filter(|pass| pass.len() == 8) {
        assert_eq!(pass.iter().filter(|&&c| c == 'ㄴ').count(), 3);
        assert_eq!(pass.iter().filter(|&&c| c == 'ㅁ').count(), 3);
    }
}

#[test]
fn paragraph_ends_of_text_are_valid_item_ends() {
    for text in ["a", "ab\n\ncd", "\n\nx\ny", "첫 줄\n둘째 줄\n\n\n셋째", "x\n"] {
        let graphemes = UnicodeSegmentation::graphemes(text, true).count();
        assert_eq!(validate_item_ends(&paragraph_ends(text), graphemes), Ok(()), "{text:?}");
    }
}

fn press(key: Key) -> KeyInput {
    KeyInput { key, modifiers: KeyModifiers::none(), kind: KeyKind::Press }
}

fn with(key: Key, modifiers: KeyModifiers, kind: KeyKind) -> KeyInput {
    KeyInput { key, modifiers, kind }
}

#[test]
fn q_and_giyeok_go_back_outside_practice_and_help_opens_anywhere() {
    for screen in [Screen::Home, Screen::Stats, Screen::ContentDetail, Screen::Result] {
        assert_eq!(key_action(screen, press(Key::Char('q')), false), KeyAction::Escape);
        assert_eq!(key_action(screen, press(Key::Char('ㅂ')), false), KeyAction::Escape);
        assert_eq!(key_action(screen, press(Key::Esc), false), KeyAction::Escape);
        assert_eq!(
            key_action(screen, with(Key::Char('?'), KeyModifiers::shift_only(), KeyKind::Press), false),
            KeyAction::OpenHelp
        );
    }
    assert_eq!(
        key_action(Screen::Home, with(Key::Char('q'), KeyModifiers::control_only(), KeyKind::Press), false),
        KeyAction::Ignore
    );
    assert_eq!(key_action(Screen::Practice, press(Key::Char('q')), false), KeyAction::Practice);
}

#[test]
fn update_notice_keys_apply_only_while_the_notice_shows() {
    assert_eq!(key_action(Screen::Home, press(Key::Char('l')), true), KeyAction::DismissUpdate);
    assert_eq!(key_action(Screen::Result, press(Key::Char('s')), true), KeyAction::SkipUpdate);
    assert_eq!(key_action(Screen::Home, press(Key::Char('l')), false), KeyAction::Ignore);
    assert_eq!(key_action(Screen::Stats, press(Key::Char('s')), true), KeyAction::Ignore);
    assert_eq!(
        key_action(Screen::Home, with(Key::Char('l'), KeyModifiers::none(), KeyKind::Repeat), true),
        KeyAction::Ignore
    );
}

#[test]
fn navigation_keys_move_focus_adjust_and_activate() {
    assert_eq!(key_action(Screen::Home, press(Key::Tab), false), KeyAction::MoveTabFocus(1));
    assert_eq!(key_action(Screen::Home, press(Key::BackTab), false), KeyAction::MoveTabFocus(-1));
    assert_eq!(key_action(Screen::Home, press(Key::Down), false), KeyAction::MoveFocus(1));
    assert_eq!(key_action(Screen::Home, press(Key::Char('k')), false), KeyAction::MoveFocus(-1));
    assert_eq!(key_action(Screen::ModeOptions, press(Key::Left), false), KeyAction::Adjust(-1));
    assert_eq!(key_action(Screen::ModeOptions, press(Key::Right), false), KeyAction::Adjust(1));
    assert_eq!(
        key_action(Screen::ModeOptions, with(Key::Right, KeyModifiers::shift_only(), KeyKind::Press), false),
        KeyAction::Ignore
    );
    assert_eq!(key_action(Screen::Home, press(Key::Enter), false), KeyAction::Enter);
    assert_eq!(key_action(Screen::ContentDetail, press(Key::Char('d')), false), KeyAction::DisableContent);
    assert_eq!(
        key_action(Screen::ContentDetail, with(Key::Char('d'), KeyModifiers::none(), KeyKind::Repeat), false),
        KeyAction::Ignore
    );
    assert_eq!(key_action(Screen::Content, press(Key::Char('d')), false), KeyAction::Ignore);
    assert_eq!(key_action(Screen::Result, press(Key::Char('r')), false), KeyAction::Retry);
    assert_eq!(key_action(Screen::Result, press(Key::Char('n')), false), KeyAction::StartNext);
    assert_eq!(key_action(Screen::Home, press(Key::Char('r')), false), KeyAction::Ignore);
}

fn session(kind: PracticeKind, paused: bool, leave_confirmation: bool, attempted: bool) -> Option<PracticeKeyState> {
    Some(PracticeKeyState { kind, paused, leave_confirmation, attempted })
}

#[test]
fn escape_pauses_practice_while_q_and_giyeok_stay_typing_input() {
    let words = session(PracticeKind::Words, false, false, true);
    assert_eq!(practice_key_action(words, press(Key::Esc)), PracticeKeyAction::TogglePause);
    assert_eq!(
        practice_key_action(words, with(Key::Char('p'), KeyModifiers::control_only(), KeyKind::Press)),
        PracticeKeyAction::TogglePause
    );
    assert_eq!(practice_key_action(words, press(Key::Char('q'))), PracticeKeyAction::Input('q'));
    assert_eq!(practice_key_action(words, press(Key::Char('ㅂ'))), PracticeKeyAction::Input('ㅂ'));
    assert_eq!(practice_key_action(words, press(Key::Char(' '))), PracticeKeyAction::Submit);
    assert_eq!(practice_key_action(words, press(Key::Enter)), PracticeKeyAction::Submit);
    let sentence = session(PracticeKind::Sentence, false, false, false);
    assert_eq!(practice_key_action(sentence, press(Key::Char(' '))), PracticeKeyAction::Input(' '));
    assert_eq!(
        practice_key_action(sentence, with(Key::Char('A'), KeyModifiers::shift_only(), KeyKind::Repeat)),
        PracticeKeyAction::Input('A')
    );
    assert_eq!(
        practice_key_action(sentence, with(Key::Char('a'), KeyModifiers::control_only(), KeyKind::Press)),
        PracticeKeyAction::Ignore
    );
    assert_eq!(
        practice_key_action(sentence, with(Key::Backspace, KeyModifiers::none(), KeyKind::Repeat)),
        PracticeKeyAction::Backspace
    );
    assert_eq!(practice_key_action(None, press(Key::Char('a'))), PracticeKeyAction::Ignore);
}

#[test]
fn leaving_a_paused_session_needs_two_plain_q_presses() {
    let paused = session(PracticeKind::Long, true, false, true);
    assert_eq!(practice_key_action(paused, press(Key::Char('q'))), PracticeKeyAction::ConfirmLeave);
    assert_eq!(practice_key_action(paused, press(Key::Char('x'))), PracticeKeyAction::Ignore);
    let confirmed = session(PracticeKind::Long, true, true, true);
    assert_eq!(practice_key_action(confirmed, press(Key::Char('ㅂ'))), PracticeKeyAction::Finish);
    let untouched = session(PracticeKind::Long, true, true, false);
    assert_eq!(practice_key_action(untouched, press(Key::Char('q'))), PracticeKeyAction::Abandon);
    assert_eq!(practice_key_action(confirmed, press(Key::Esc)), PracticeKeyAction::TogglePause);
}

#[test]
fn tests_refuse_pause_and_ask_to_leave_instead() {
    let test = session(PracticeKind::Test, false, false, true);
    assert_eq!(practice_key_action(test, press(Key::Esc)), PracticeKeyAction::ToggleLeaveConfirmation);
    let asking = session(PracticeKind::Test, false, true, true);
    assert_eq!(practice_key_action(asking, press(Key::Char('q'))), PracticeKeyAction::Finish);
    assert_eq!(practice_key_action(asking, press(Key::Char('a'))), PracticeKeyAction::Ignore);
    assert_eq!(practice_key_action(asking, press(Key::Esc)), PracticeKeyAction::ToggleLeaveConfirmation);
    let untouched = session(PracticeKind::Test, false, true, false);
    assert_eq!(practice_key_action(untouched, press(Key::Char('q'))), PracticeKeyAction::Abandon);
}

#[test]
fn enter_opens_modes_and_screens_and_starts_practice_from_its_button() {
    let options = ModeOptions::new(PracticeKind::Quick, Language::En);
    assert_eq!(enter_action(Screen::Home, 0, &options), EnterAction::OpenModeOptions(PracticeKind::Quick));
    assert_eq!(enter_action(Screen::Home, 5, &options), EnterAction::OpenModeOptions(PracticeKind::Test));
    assert_eq!(enter_action(Screen::Home, 6, &options), EnterAction::Open(Screen::Stats));
    assert_eq!(enter_action(Screen::Home, 9, &options), EnterAction::Open(Screen::Settings));
    assert_eq!(enter_action(Screen::Home, 10, &options), EnterAction::Ignore);
    assert_eq!(enter_action(Screen::ModeOptions, 4, &options), EnterAction::StartQuick);
    assert_eq!(enter_action(Screen::ModeOptions, 2, &options), EnterAction::Adjust);
    let mut long = ModeOptions::new(PracticeKind::Long, Language::Ko);
    long.long_selection = 2;
    assert_eq!(enter_action(Screen::ModeOptions, 1, &long), EnterAction::StartLong(2));
    assert_eq!(enter_action(Screen::ModeOptions, 0, &long), EnterAction::Adjust);
    let mut test = ModeOptions::new(PracticeKind::Test, Language::En);
    test.test_selection = 1;
    assert_eq!(enter_action(Screen::ModeOptions, 3, &test), EnterAction::StartTest(2, 1));
    assert_eq!(enter_action(Screen::Stats, 1, &options), EnterAction::Adjust);
    assert_eq!(enter_action(Screen::Stats, 4, &options), EnterAction::Open(Screen::WeakKeys));
    assert_eq!(enter_action(Screen::Content, 3, &options), EnterAction::OpenContentDetail(3));
    assert_eq!(enter_action(Screen::Themes, 1, &options), EnterAction::SelectTheme(1));
    assert_eq!(enter_action(Screen::Practice, 0, &options), EnterAction::Ignore);
}

fn sizes() -> ScreenSizes {
    ScreenSizes { long_items: 3, content_packs: 0, detail_provenance: None, themes: 4 }
}

#[test]
fn focus_counts_follow_each_screen() {
    let sizes = sizes();
    assert_eq!(focus_count(Screen::Home, PracticeKind::Quick, &sizes), 10);
    assert_eq!(focus_count(Screen::ModeOptions, PracticeKind::Words, &sizes), 3);
    assert_eq!(focus_count(Screen::ModeOptions, PracticeKind::Long, &sizes), 4);
    assert_eq!(focus_count(Screen::Content, PracticeKind::Quick, &sizes), 1);
    assert_eq!(focus_count(Screen::ContentDetail, PracticeKind::Quick, &sizes), 1);
    let detail = ScreenSizes { detail_provenance: Some(5), ..sizes };
    assert_eq!(focus_count(Screen::ContentDetail, PracticeKind::Quick, &detail), 5);
    assert_eq!(focus_count(Screen::Themes, PracticeKind::Quick, &sizes), 4);
    assert_eq!(focus_count(Screen::Help, PracticeKind::Quick, &sizes), 1);
    let huge = ScreenSizes { long_items: usize::MAX, ..sizes };
    assert_eq!(focus_count(Screen::ModeOptions, PracticeKind::Long, &huge), usize::MAX);
}

#[test]
fn help_returns_to_the_screen_and_focus_it_was_opened_on() {
    let sizes = sizes();
    let mut options = ModeOptions::new(PracticeKind::Quick, Language::En);
    let mut nav = Navigation::new();
    nav.move_focus(1, &mut options, &sizes);
    nav.open(Screen::Stats);
    assert_eq!((nav.screen, nav.parent, nav.focus), (Screen::Stats, Screen::Home, 0));
    nav.move_focus(-1, &mut options, &sizes);
    assert_eq!(nav.focus, 4);
    nav.open(Screen::Help);
    assert_eq!((nav.screen, nav.parent, nav.parent_before_help), (Screen::Help, Screen::Stats, Some(Screen::Home)));
    nav.escape(&options, &sizes);
    assert_eq!((nav.screen, nav.parent, nav.focus), (Screen::Stats, Screen::Home, 4));
    nav.escape(&options, &sizes);
    assert_eq!((nav.screen, nav.focus), (Screen::Home, 1));
    assert_eq!(nav.remembered_focus(Screen::Stats), 4);
    assert!(!nav.quit);
    nav.escape(&options, &sizes);
    assert!(nav.quit);
}

#[test]
fn opening_screens_sets_where_going_back_leads() {
    let sizes = sizes();
    let options = ModeOptions::new(PracticeKind::Quick, Language::En);
    let mut nav = Navigation::new();
    nav.open(Screen::Stats);
    nav.open(Screen::History);
    assert_eq!(nav.parent, Screen::Stats);
    nav.open(Screen::History);
    assert_eq!((nav.screen, nav.focus), (Screen::History, 0));
    nav.open(Screen::Stats);
    assert_eq!(nav.parent, Screen::History);
    nav.open(Screen::Result);
    nav.escape(&options, &sizes);
    assert_eq!((nav.screen, nav.parent), (Screen::Home, Screen::Home));
    nav.open(Screen::Goals);
    nav.return_home(&options, &sizes);
    assert_eq!((nav.screen, nav.parent, nav.parent_before_help), (Screen::Home, Screen::Home, None));
}

#[test]
fn moving_through_long_texts_chooses_one() {
    let sizes = sizes();
    let mut options = ModeOptions::new(PracticeKind::Long, Language::En);
    let mut nav = Navigation::new();
    nav.open(Screen::ModeOptions);
    nav.move_focus(1, &mut options, &sizes);
    nav.move_focus(1, &mut options, &sizes);
    assert_eq!((nav.focus, options.long_selection), (2, 1));
    nav.move_focus(-1, &mut options, &sizes);
    nav.move_focus(-1, &mut options, &sizes);
    assert_eq!((nav.focus, options.long_selection), (0, 0));
    nav.move_focus(-1, &mut options, &sizes);
    assert_eq!((nav.focus, options.long_selection), (3, 2));
}

#[test]
fn custom_text_has_its_blank_line_runs_collapsed() {
    let practice = prepare_custom_text(CustomTextSource::File, "notes", "one\n\n\n\ntwo").unwrap();
    assert_eq!(practice.target, "one\n\ntwo");
}

#[test]
fn random_key_sequences_follow_the_seed() {
    let first = key_sequence(Language::En, 4, true, &[], 41).unwrap();
    let again = key_sequence(Language::En, 4, true, &[], 41).unwrap();
    assert_eq!(first, again);
    let other = (0..8u64)
        .map(|seed| key_sequence(Language::En, 4, true, &[], seed).unwrap())
        .filter(|s| *s != first)
        .count();
    assert!(other > 0);
}

#[test]
fn catalog_passes_follow_the_seed() {
    let catalog = long_catalog();
    let stream = text_stream(Language::En, false);
    let ids = |seed: u64| {
        select_catalog_items(&catalog, &stream, 9, seed, None, |_| Vec::new())
            .unwrap()
            .iter()
            .map(|item| item.id.clone())
            .collect::<Vec<_>>()
    };
    assert_eq!(ids(5), ids(5));
    assert!((0..16u64).any(|seed| ids(seed) != ids(5)));
}

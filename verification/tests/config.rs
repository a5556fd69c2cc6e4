use typerlude::config::{BossProgress, GameRecords, Settings};
use typerlude::content::{ContentCatalog, ContentItem, ContentKind, ContentPack, SourceMeta};
use typerlude::game::{
    archon_health, game_words, max_health, playable_word, BossKind, GameDifficulty, GameKind,
};
use typerlude::model::{Difficulty, Language};

const ALL_DIFFICULTIES: [GameDifficulty; 4] = [
    GameDifficulty::Easy,
    GameDifficulty::Medium,
    GameDifficulty::Hard,
    GameDifficulty::Hell,
];

#[test]
fn word_rain_high_scores_are_scoped_by_language_and_difficulty() {
    let settings = GameRecords {
        word_rain_high_scores: [[11, 12, 13], [21, 22, 23]],
        ..GameRecords::default()
    };

    for (language, difficulty, expected) in [
        (Language::Ko, GameDifficulty::Easy, 11),
        (Language::Ko, GameDifficulty::Medium, 12),
        (Language::Ko, GameDifficulty::Hard, 13),
        (Language::En, GameDifficulty::Easy, 21),
        (Language::En, GameDifficulty::Medium, 22),
        (Language::En, GameDifficulty::Hard, 23),
    ] {
        assert_eq!(
            settings.word_rain_high_score(language, difficulty),
            expected
        );
    }
}

#[test]
fn boss_progress_requires_prior_clears_and_easy_opens_the_next_boss() {
    let mut settings = GameRecords::default();
    assert!(settings.boss_is_unlocked(BossKind::IronWarden));
    assert!(!settings.boss_is_unlocked(BossKind::ThornQueen));
    assert!(settings.boss_difficulty_is_unlocked(BossKind::IronWarden, GameDifficulty::Easy,));
    assert!(
        !settings.boss_difficulty_is_unlocked(BossKind::IronWarden, GameDifficulty::Medium,)
    );

    settings.record_boss_clear(
        BossKind::IronWarden,
        Language::En,
        GameDifficulty::Easy,
        12_345,
    );

    assert_eq!(settings.boss_clear_rank(BossKind::IronWarden), 1);
    assert!(settings.boss_is_unlocked(BossKind::ThornQueen));
    assert!(
        settings.boss_difficulty_is_unlocked(BossKind::IronWarden, GameDifficulty::Medium,)
    );
    assert!(!settings.boss_difficulty_is_unlocked(BossKind::IronWarden, GameDifficulty::Hard,));
    assert_eq!(
        settings.boss_high_score(BossKind::IronWarden, Language::En, GameDifficulty::Easy,),
        12_345,
    );
    assert_eq!(
        settings.boss_high_score(BossKind::IronWarden, Language::Ko, GameDifficulty::Easy,),
        0,
    );
}

#[test]
fn recording_a_lower_clear_never_regresses_rank_or_best_score() {
    let mut settings = GameRecords::default();
    settings.record_boss_clear(
        BossKind::IronWarden,
        Language::En,
        GameDifficulty::Hard,
        20_000,
    );
    settings.record_boss_clear(
        BossKind::IronWarden,
        Language::En,
        GameDifficulty::Easy,
        10_000,
    );
    settings.record_boss_clear(
        BossKind::IronWarden,
        Language::En,
        GameDifficulty::Hard,
        19_000,
    );

    assert_eq!(settings.boss_clear_rank(BossKind::IronWarden), 3);
    assert_eq!(
        settings.boss_high_score(BossKind::IronWarden, Language::En, GameDifficulty::Hard,),
        20_000,
    );
}

#[test]
fn recording_an_appended_boss_extends_short_progress() {
    let mut settings = GameRecords {
        boss_battle_progress: Vec::new(),
        ..GameRecords::default()
    };

    settings.record_boss_clear(
        BossKind::NullArchon,
        Language::Ko,
        GameDifficulty::Easy,
        9_000,
    );

    assert_eq!(settings.boss_battle_progress.len(), 3);
    assert_eq!(settings.boss_clear_rank(BossKind::NullArchon), 1);
    assert_eq!(
        settings.boss_high_score(BossKind::NullArchon, Language::Ko, GameDifficulty::Easy,),
        9_000,
    );
}

#[test]
fn hell_scores_are_separate_and_four_clears_never_regress() {
    let mut settings = GameRecords::default();

    settings.set_word_rain_high_score(Language::Ko, GameDifficulty::Hard, 300);
    settings.set_word_rain_high_score(Language::Ko, GameDifficulty::Hell, 400);
    assert_eq!(
        settings.word_rain_high_score(Language::Ko, GameDifficulty::Hard),
        300
    );
    assert_eq!(
        settings.word_rain_high_score(Language::Ko, GameDifficulty::Hell),
        400
    );

    for difficulty in ALL_DIFFICULTIES {
        assert_eq!(
            settings.boss_difficulty_is_unlocked(BossKind::IronWarden, difficulty),
            difficulty.index() <= usize::from(settings.boss_clear_rank(BossKind::IronWarden)),
        );
        if settings.boss_difficulty_is_unlocked(BossKind::IronWarden, difficulty) {
            settings.record_boss_clear(
                BossKind::IronWarden,
                Language::En,
                difficulty,
                10_000 + difficulty.index() as u64,
            );
        }
    }

    assert_eq!(settings.boss_clear_rank(BossKind::IronWarden), 4);
    assert_eq!(
        settings.boss_high_score(BossKind::IronWarden, Language::En, GameDifficulty::Hell,),
        10_003,
    );
    settings.record_boss_clear(BossKind::IronWarden, Language::En, GameDifficulty::Hard, 1);
    assert_eq!(settings.boss_clear_rank(BossKind::IronWarden), 4);
}

#[test]
fn boss_clear_rank_above_four_is_rejected() {
    let mut settings = GameRecords::default();
    settings.boss_battle_progress[0].clear_rank = 5;

    let error = settings.validate_boss_progress().unwrap_err();

    assert!(
        error.contains("boss clear rank must be between 0 and 4"),
        "{error:#}",
    );
}

#[test]
fn a_clear_keeps_other_bosses_and_languages_untouched() {
    let mut settings = GameRecords::default();
    settings.record_boss_clear(BossKind::ThornQueen, Language::Ko, GameDifficulty::Medium, 77);
    assert_eq!(settings.boss_clear_rank(BossKind::ThornQueen), 2);
    assert_eq!(settings.boss_clear_rank(BossKind::IronWarden), 0);
    assert!(!settings.boss_is_unlocked(BossKind::ThornQueen));
    assert!(settings.boss_is_unlocked(BossKind::NullArchon));
    assert_eq!(settings.boss_battle_progress[0], BossProgress::default());
    assert_eq!(
        settings.boss_battle_progress[1].high_scores,
        [[0, 77, 0], [0, 0, 0]]
    );
    assert!(settings.validate_boss_progress().is_ok());
}

#[test]
fn bosses_have_fixed_health_per_tier() {
    assert_eq!(max_health(BossKind::IronWarden, Language::En, GameDifficulty::Easy), 280);
    assert_eq!(max_health(BossKind::IronWarden, Language::Ko, GameDifficulty::Hell), 975);
    assert_eq!(max_health(BossKind::ThornQueen, Language::En, GameDifficulty::Hard), 500);
    assert_eq!(max_health(BossKind::NullArchon, Language::Ko, GameDifficulty::Hell), 1_090);
    assert_eq!(max_health(BossKind::NullArchon, Language::En, GameDifficulty::Hell), 1_220);
    assert_eq!(archon_health(Language::En, GameDifficulty::Hard), 895);
    assert_eq!(archon_health(Language::Ko, GameDifficulty::Hard), 850);
}

#[test]
fn game_tiers_map_to_content_difficulty() {
    assert_eq!(GameDifficulty::Easy.content_difficulty(), Difficulty::Easy);
    assert_eq!(GameDifficulty::Medium.content_difficulty(), Difficulty::Medium);
    assert_eq!(GameDifficulty::Hard.content_difficulty(), Difficulty::Hard);
    assert_eq!(GameDifficulty::Hell.content_difficulty(), Difficulty::Hard);
    assert_eq!(GameDifficulty::Hell.index(), 3);
    assert_eq!(BossKind::NullArchon.index(), 2);
    assert_ne!(GameKind::WordRain, GameKind::BossBattle);
}

#[test]
fn playable_word_normalizes_nfc_and_enforces_display_width() {
    assert_eq!(playable_word("안녕"), Some("안녕".into()));
    assert_eq!(playable_word(""), None);
    assert_eq!(playable_word("\u{301}"), None);
    assert_eq!(playable_word(&"a".repeat(25)), None);
    assert_eq!(playable_word(&"界".repeat(12)), Some("界".repeat(12)));
    assert_eq!(playable_word(&"界".repeat(13)), None);
    assert_eq!(playable_word("e\u{301}"), Some("\u{e9}".into()));
}

#[test]
fn boss_difficulty_cycles_through_open_tiers_only() {
    let mut settings = GameRecords::default();
    assert_eq!(
        settings.cycle_boss_difficulty(BossKind::IronWarden, GameDifficulty::Easy, 1),
        GameDifficulty::Easy
    );
    settings.record_boss_clear(BossKind::IronWarden, Language::En, GameDifficulty::Easy, 1);
    assert_eq!(
        settings.cycle_boss_difficulty(BossKind::IronWarden, GameDifficulty::Easy, 1),
        GameDifficulty::Medium
    );
    assert_eq!(
        settings.cycle_boss_difficulty(BossKind::IronWarden, GameDifficulty::Medium, 1),
        GameDifficulty::Easy
    );
    assert_eq!(
        settings.cycle_boss_difficulty(BossKind::IronWarden, GameDifficulty::Easy, -1),
        GameDifficulty::Medium
    );
    assert_eq!(
        settings.cycle_boss_difficulty(BossKind::ThornQueen, GameDifficulty::Hard, 1),
        GameDifficulty::Easy
    );
    assert_eq!(
        settings.cycle_boss_difficulty(BossKind::NullArchon, GameDifficulty::Medium, 1),
        GameDifficulty::Easy
    );
    assert_eq!(
        settings.clamp_boss_difficulty(BossKind::IronWarden, GameDifficulty::Hell),
        GameDifficulty::Medium
    );
    assert_eq!(
        settings.clamp_boss_difficulty(BossKind::IronWarden, GameDifficulty::Easy),
        GameDifficulty::Easy
    );
    assert_eq!(
        settings.clamp_boss_difficulty(BossKind::NullArchon, GameDifficulty::Hard),
        GameDifficulty::Easy
    );
}

#[test]
fn default_settings_are_valid_and_english() {
    let settings = Settings::default();
    assert_eq!(settings.schema_version, 1);
    assert_eq!(settings.language, Language::En);
    assert_eq!(settings.ui_language, Language::En);
    assert_eq!(settings.theme, "default");
    assert_eq!((settings.target_kpm, settings.target_wpm, settings.daily_minutes), (450, 80, 15));
    assert!(settings.adaptive && settings.check_updates && settings.show_keyboard);
    assert!(settings.skipped_update_version.is_empty());
    assert_eq!(settings.records, GameRecords::new());
    assert_eq!(settings.validate(true), Ok(()));
}

#[test]
fn settings_report_the_first_invalid_value() {
    let mut settings = Settings::default();
    settings.schema_version = 12;
    settings.theme = " ".into();
    assert_eq!(
        settings.validate(true).unwrap_err(),
        "unsupported config schema version 12"
    );
    settings.schema_version = 1;
    assert_eq!(settings.validate(true).unwrap_err(), "theme must not be empty");
    settings.theme = "paper".into();
    settings.target_kpm = 5001;
    assert_eq!(settings.validate(true).unwrap_err(), "target_kpm must be between 1 and 5000");
    settings.target_kpm = 1;
    settings.target_wpm = 0;
    assert_eq!(settings.validate(true).unwrap_err(), "target_wpm must be between 1 and 5000");
    settings.target_wpm = 5000;
    settings.daily_minutes = 0;
    assert_eq!(
        settings.validate(false).unwrap_err(),
        "target_accuracy must be between 1 and 100"
    );
    assert_eq!(
        settings.validate(true).unwrap_err(),
        "daily_minutes must be between 1 and 1440"
    );
    settings.daily_minutes = 1440;
    settings.records.boss_battle_progress[2].clear_rank = 5;
    assert_eq!(
        settings.validate(true).unwrap_err(),
        "boss clear rank must be between 0 and 4"
    );
    settings.records.boss_battle_progress[2].clear_rank = 4;
    assert_eq!(settings.validate(true), Ok(()));
}

fn word(id: &str, text: &str, difficulty: u8) -> ContentItem {
    ContentItem {
        id: id.into(),
        kind: ContentKind::Word,
        text: text.into(),
        difficulty: Some(difficulty),
        tags: Vec::new(),
        title: None,
        source: None,
    }
}

#[test]
fn game_words_are_distinct_playable_words_of_the_tier() {
    let mut catalog = ContentCatalog::new();
    catalog.insert(ContentPack {
        schema_version: 1,
        id: "words".into(),
        title: "Words".into(),
        language: Language::En,
        source: SourceMeta {
            author: "Example Author".into(),
            source_id: "example".into(),
            source_url: "https://example.com/source".into(),
            license: "CC-BY-4.0".into(),
            license_url: "https://creativecommons.org/licenses/by/4.0/".into(),
            modified: false,
            retrieved_at: "2026-08-07".into(),
        },
        items: vec![
            word("w1", "cafe\u{301}", 3),
            word("w2", "alpha", 1),
            word("w3", "caf\u{e9}", 3),
            word("w4", &"x".repeat(25), 3),
            word("w5", "omega", 3),
        ],
    });
    assert_eq!(
        game_words(&catalog, Language::En, GameDifficulty::Hard),
        vec!["caf\u{e9}".to_string(), "omega".to_string()]
    );
    assert_eq!(
        game_words(&catalog, Language::En, GameDifficulty::Hell),
        game_words(&catalog, Language::En, GameDifficulty::Hard)
    );
    assert_eq!(game_words(&catalog, Language::En, GameDifficulty::Easy), vec!["alpha"]);
    assert!(game_words(&catalog, Language::En, GameDifficulty::Medium).is_empty());
    assert!(game_words(&catalog, Language::Ko, GameDifficulty::Easy).is_empty());
}

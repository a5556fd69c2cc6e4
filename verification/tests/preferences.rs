use typerlude::app::preferences::{
    activate_setting, adjust_goal, adjust_stats_filter, SettingsAction, StatsFilter,
};
use typerlude::config::Settings;
use typerlude::model::{Language, PracticeKind};
use typerlude::stats::Range;

#[test]
fn settings_rows_switch_languages_and_flip_aids() {
    let mut settings = Settings::default();
    assert_eq!(activate_setting(&mut settings, 0), SettingsAction::SaveLanguage(Language::Ko));
    assert_eq!(settings.language, Language::Ko);
    assert_eq!(activate_setting(&mut settings, 1), SettingsAction::Save);
    assert_eq!(settings.ui_language, Language::Ko);
    assert_eq!(activate_setting(&mut settings, 3), SettingsAction::Save);
    assert!(!settings.show_keyboard);
    assert_eq!(activate_setting(&mut settings, 4), SettingsAction::Save);
    assert!(!settings.show_finger_guide);
    assert_eq!(activate_setting(&mut settings, 5), SettingsAction::Save);
    assert!(!settings.show_live_speed);
    assert_eq!(activate_setting(&mut settings, 6), SettingsAction::Save);
    assert!(!settings.show_accuracy);
    assert_eq!(activate_setting(&mut settings, 7), SettingsAction::Save);
    assert!(!settings.adaptive);
    assert_eq!(activate_setting(&mut settings, 8), SettingsAction::Save);
    assert!(!settings.check_updates);
    assert_eq!(activate_setting(&mut settings, 8), SettingsAction::Save);
    assert!(settings.check_updates);
}

#[test]
fn theme_row_opens_the_theme_list_and_changes_nothing() {
    let mut settings = Settings::default();
    assert_eq!(activate_setting(&mut settings, 2), SettingsAction::OpenThemes);
    assert_eq!(activate_setting(&mut settings, 9), SettingsAction::Nothing);
    let fresh = Settings::default();
    assert_eq!(settings.language, fresh.language);
    assert_eq!(settings.theme, fresh.theme);
    assert!(settings.show_keyboard && settings.adaptive && settings.check_updates);
}

#[test]
fn goals_step_within_their_ranges() {
    let mut settings = Settings::default();
    assert!(adjust_goal(&mut settings, 0, 1));
    assert_eq!(settings.target_kpm, 460);
    assert!(adjust_goal(&mut settings, 0, -1));
    assert_eq!(settings.target_kpm, 450);
    settings.target_kpm = 455;
    assert!(adjust_goal(&mut settings, 0, -1));
    assert_eq!(settings.target_kpm, 450);
    settings.target_wpm = 4_998;
    assert!(adjust_goal(&mut settings, 1, 1));
    assert_eq!(settings.target_wpm, 5_000);
    settings.daily_minutes = 5;
    assert!(adjust_goal(&mut settings, 3, -1));
    assert_eq!(settings.daily_minutes, 1);
    settings.daily_minutes = 1_440;
    assert!(adjust_goal(&mut settings, 3, 1));
    assert_eq!(settings.daily_minutes, 1_440);
    assert!(!adjust_goal(&mut settings, 2, 1));
    assert!(!adjust_goal(&mut settings, 4, 1));
    assert_eq!(settings.target_wpm, 5_000);
}

#[test]
fn stats_filters_step_through_their_cycles() {
    let mut filter = StatsFilter { range: Range::All, language: Language::En, mode: None };
    adjust_stats_filter(&mut filter, 0, 1);
    assert_eq!(filter.range, Range::Days7);
    adjust_stats_filter(&mut filter, 0, -1);
    assert_eq!(filter.range, Range::All);
    adjust_stats_filter(&mut filter, 1, 1);
    assert_eq!(filter.language, Language::Ko);
    adjust_stats_filter(&mut filter, 2, -1);
    assert_eq!(filter.mode, Some(PracticeKind::Test));
    adjust_stats_filter(&mut filter, 2, 1);
    assert_eq!(filter.mode, None);
    adjust_stats_filter(&mut filter, 5, 1);
    assert_eq!(filter, StatsFilter { range: Range::All, language: Language::Ko, mode: None });
}

#[test]
fn activating_a_row_twice_gives_back_the_settings() {
    for focus in 0..10 {
        let mut settings = Settings::default();
        activate_setting(&mut settings, focus);
        activate_setting(&mut settings, focus);
        let fresh = Settings::default();
        assert_eq!(settings.language, fresh.language);
        assert_eq!(settings.ui_language, fresh.ui_language);
        assert_eq!(settings.show_keyboard, fresh.show_keyboard);
        assert_eq!(settings.show_finger_guide, fresh.show_finger_guide);
        assert_eq!(settings.show_live_speed, fresh.show_live_speed);
        assert_eq!(settings.show_accuracy, fresh.show_accuracy);
        assert_eq!(settings.adaptive, fresh.adaptive);
        assert_eq!(settings.check_updates, fresh.check_updates);
    }
}

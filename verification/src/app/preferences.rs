//! What the arrow keys and Enter do on the statistics, goals and settings screens: the
//! filters they step and the preferences they change. Saving a changed preference is the
//! caller's part; the change is kept only when the save succeeds.
use crate::app::{adjusted, adjusted_spec, cycle_mode, cycle_range, mode_index, mode_order,
    other_language, range_index, range_order, switched};
use crate::config::Settings;
use crate::model::{Language, PracticeKind};
use crate::stats::Range;
use vstd::prelude::*;

verus! {

/// The filters of the statistics and history screens.
#[derive(Clone, Copy, Debug, PartialEq, Eq, Structural)]
pub struct StatsFilter {
    pub range: Range,
    pub language: Language,
    pub mode: Option<PracticeKind>,
}

/// The filters after a step on the focused row: the range (row 0) and the practice mode
/// (row 2) step through their cycles, the language (row 1) switches, and any other row
/// leaves them as they are.
pub open spec fn stepped_filter(f: StatsFilter, focus: usize, delta: int) -> StatsFilter {
    if focus == 0 {
        StatsFilter {
            range: if delta >= 0 {
                range_order()[(range_index(f.range) + 1) % 4]
            } else {
                range_order()[(range_index(f.range) + 3) % 4]
            },
            ..f
        }
    } else if focus == 1 {
        StatsFilter { language: switched(f.language), ..f }
    } else if focus == 2 {
        StatsFilter {
            mode: if delta >= 0 {
                mode_order()[(mode_index(f.mode) + 1) % 7]
            } else {
                mode_order()[(mode_index(f.mode) + 6) % 7]
            },
            ..f
        }
    } else {
        f
    }
}

/// Steps the statistics filter on the focused row; see [`stepped_filter`].
pub fn adjust_stats_filter(filter: &mut StatsFilter, focus: usize, delta: isize)
    ensures
        *final(filter) == stepped_filter(*old(filter), focus, delta as int),
{
    if focus == 0 {
        filter.range = cycle_range(filter.range, delta);
    } else if focus == 1 {
        filter.language = other_language(filter.language);
    } else if focus == 2 {
        filter.mode = cycle_mode(filter.mode, delta);
    }
}

/// The goals after a step on the focused row: keys per minute (row 0) by 10 within 1..=5000,
/// words per minute (row 1) by 5 within 1..=5000, and minutes a day (row 3) by 5 within
/// 1..=1440. Row 2 is the target accuracy, a decimal that this step does not reach; it and
/// any other row leave the settings as they are.
pub open spec fn stepped_goals(s: Settings, focus: usize, delta: int) -> Settings {
    if focus == 0 {
        Settings { target_kpm: adjusted_spec(s.target_kpm, delta, 10, 1, 5000) as u32, ..s }
    } else if focus == 1 {
        Settings { target_wpm: adjusted_spec(s.target_wpm, delta, 5, 1, 5000) as u32, ..s }
    } else if focus == 3 {
        Settings { daily_minutes: adjusted_spec(s.daily_minutes, delta, 5, 1, 1440) as u32, ..s }
    } else {
        s
    }
}

/// Steps the goal on the focused row; see [`stepped_goals`]. Returns whether a goal row was
/// stepped, that is whether the settings are to be saved.
pub fn adjust_goal(settings: &mut Settings, focus: usize, delta: isize) -> (r: bool)
    ensures
        *final(settings) == stepped_goals(*old(settings), focus, delta as int),
        r == (focus == 0 || focus == 1 || focus == 3),
{
    if focus == 0 {
        settings.target_kpm = adjusted(settings.target_kpm, delta, 10, 1, 5000);
        true
    } else if focus == 1 {
        settings.target_wpm = adjusted(settings.target_wpm, delta, 5, 1, 5000);
        true
    } else if focus == 3 {
        settings.daily_minutes = adjusted(settings.daily_minutes, delta, 5, 1, 1440);
        true
    } else {
        false
    }
}

/// What follows Enter or an arrow on the settings screen.
#[derive(Clone, Copy, Debug, PartialEq, Eq, Structural)]
pub enum SettingsAction {
    /// Save the changed settings.
    Save,
    /// Save the changed settings, and once saved let the statistics follow this language.
    SaveLanguage(Language),
    /// Open the theme list.
    OpenThemes,
    /// Nothing changes.
    Nothing,
}

/// The settings after the focused row is activated: row 0 switches the practice language,
/// row 1 the interface language, and rows 3 to 8 flip the keyboard, the finger guide, the
/// live speed, the accuracy, adaptive practice and update checks. Row 2 (the theme list)
/// and any other row change nothing.
pub open spec fn activated(s: Settings, focus: usize) -> Settings {
    if focus == 0 {
        Settings { language: switched(s.language), ..s }
    } else if focus == 1 {
        Settings { ui_language: switched(s.ui_language), ..s }
    } else if focus == 3 {
        Settings { show_keyboard: !s.show_keyboard, ..s }
    } else if focus == 4 {
        Settings { show_finger_guide: !s.show_finger_guide, ..s }
    } else if focus == 5 {
        Settings { show_live_speed: !s.show_live_speed, ..s }
    } else if focus == 6 {
        Settings { show_accuracy: !s.show_accuracy, ..s }
    } else if focus == 7 {
        Settings { adaptive: !s.adaptive, ..s }
    } else if focus == 8 {
        Settings { check_updates: !s.check_updates, ..s }
    } else {
        s
    }
}

/// Activating the same settings row twice gives back the settings of before: each row
/// switches or flips one preference.
pub proof fn lemma_activating_twice_restores(s: Settings, focus: usize)
    ensures
        activated(activated(s, focus), focus) == s,
{
}

/// The action that goes with activating a settings row.
pub open spec fn activation_action(s: Settings, focus: usize) -> SettingsAction {
    if focus == 0 {
        SettingsAction::SaveLanguage(switched(s.language))
    } else if focus == 2 {
        SettingsAction::OpenThemes
    } else if focus <= 8 {
        SettingsAction::Save
    } else {
        SettingsAction::Nothing
    }
}

/// Activates the focused settings row; see [`activated`] and [`activation_action`].
pub fn activate_setting(settings: &mut Settings, focus: usize) -> (r: SettingsAction)
    ensures
        *final(settings) == activated(*old(settings), focus),
        r == activation_action(*old(settings), focus),
{
    if focus == 0 {
        let language = other_language(settings.language);
        settings.language = language;
        SettingsAction::SaveLanguage(language)
    } else if focus == 1 {
        settings.ui_language = other_language(settings.ui_language);
        SettingsAction::Save
    } else if focus == 2 {
        SettingsAction::OpenThemes
    } else if focus == 3 {
        settings.show_keyboard = !settings.show_keyboard;
        SettingsAction::Save
    } else if focus == 4 {
        settings.show_finger_guide = !settings.show_finger_guide;
        SettingsAction::Save
    } else if focus == 5 {
        settings.show_live_speed = !settings.show_live_speed;
        SettingsAction::Save
    } else if focus == 6 {
        settings.show_accuracy = !settings.show_accuracy;
        SettingsAction::Save
    } else if focus == 7 {
        settings.adaptive = !settings.adaptive;
        SettingsAction::Save
    } else if focus == 8 {
        settings.check_updates = !settings.check_updates;
        SettingsAction::Save
    } else {
        SettingsAction::Nothing
    }
}

} // verus!

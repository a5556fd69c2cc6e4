//! What a key press does: on the screens around practice, on the practice screen, and what
//! `Enter` activates.
use crate::app::{Key, KeyInput, KeyKind, KeyModifiers, ModeOptions, Screen};
use crate::model::PracticeKind;
use vstd::prelude::*;

verus! {

/// No modifier is held.
pub open spec fn no_modifiers(m: KeyModifiers) -> bool {
    !m.shift && !m.control && !m.other
}

/// Shift alone is held.
pub open spec fn shift_alone(m: KeyModifiers) -> bool {
    m.shift && !m.control && !m.other
}

/// Control alone is held.
pub open spec fn control_alone(m: KeyModifiers) -> bool {
    !m.shift && m.control && !m.other
}

/// The key is a plain `q`, or the key at the same place on the Korean layout, `ㅂ`, with no
/// modifier.
pub open spec fn plain_q(key: KeyInput) -> bool {
    no_modifiers(key.modifiers) && (key.key == Key::Char('q') || key.key == Key::Char('ㅂ'))
}

impl KeyInput {
    /// Whether the key is a plain `q` or `ㅂ`, the key that goes back.
    pub fn is_plain_q_command(&self) -> (r: bool)
        ensures
            r == plain_q(*self),
    {
        let plain = !self.modifiers.shift && !self.modifiers.control && !self.modifiers.other;
        plain && (self.key == Key::Char('q') || self.key == Key::Char('ㅂ'))
    }
}

/// What a key does on a screen other than the practice screen.
#[derive(Clone, Copy, Debug, PartialEq, Eq, Structural)]
pub enum KeyAction {
    /// The practice screen handles the key itself.
    Practice,
    /// Go back, or quit from Home.
    Escape,
    /// Open the help screen.
    OpenHelp,
    /// Hide the update notice.
    DismissUpdate,
    /// Skip the announced version and hide the notice.
    SkipUpdate,
    /// Move the focus to the next (1) or previous (-1) group.
    MoveTabFocus(isize),
    /// Move the focus down (1) or up (-1).
    MoveFocus(isize),
    /// Step the focused option forward (1) or back (-1).
    Adjust(isize),
    /// Disable the content pack on show.
    DisableContent,
    /// Activate what has the focus.
    Enter,
    /// Practise the same thing again.
    Retry,
    /// Go on to the next practice.
    StartNext,
    /// Nothing happens.
    Ignore,
}

/// What a key does on a screen; `update_notice_shown` says whether an update notice is on
/// show and was when the key arrived. The practice screen keeps its keys. Otherwise a plain
/// `q` or `ㅂ` goes back and `?` opens help; on Home and the result screen, with the notice
/// shown, a plain `l` hides it and a plain `s` skips the version. Then `Esc` goes back, `Tab`
/// and `Shift-Tab` move between groups, the arrows and a plain `j` or `k` move the focus, a
/// plain left or right arrow steps the focused option, a plain `d` pressed on a content pack
/// disables it, a plain `Enter` activates, and on the result screen a plain `r` retries and
/// a plain `n` starts the next practice.
pub open spec fn key_action_spec(screen: Screen, key: KeyInput, update_notice_shown: bool) -> KeyAction {
    let plain = no_modifiers(key.modifiers);
    if screen == Screen::Practice {
        KeyAction::Practice
    } else if plain_q(key) {
        KeyAction::Escape
    } else if key.key == Key::Char('?') && (plain || shift_alone(key.modifiers)) {
        KeyAction::OpenHelp
    } else if (screen == Screen::Home || screen == Screen::Result) && key.kind == KeyKind::Press
        && plain && update_notice_shown && key.key == Key::Char('l') {
        KeyAction::DismissUpdate
    } else if (screen == Screen::Home || screen == Screen::Result) && key.kind == KeyKind::Press
        && plain && update_notice_shown && key.key == Key::Char('s') {
        KeyAction::SkipUpdate
    } else {
        match key.key {
            Key::Esc => KeyAction::Escape,
            Key::Tab => KeyAction::MoveTabFocus(1isize),
            Key::BackTab => KeyAction::MoveTabFocus(-1isize),
            Key::Down => KeyAction::MoveFocus(1isize),
            Key::Up => KeyAction::MoveFocus(-1isize),
            Key::Char(c) => if c == 'j' && plain {
                KeyAction::MoveFocus(1isize)
            } else if c == 'k' && plain {
                KeyAction::MoveFocus(-1isize)
            } else if c == 'd' && plain && screen == Screen::ContentDetail && key.kind
                == KeyKind::Press {
                KeyAction::DisableContent
            } else if c == 'r' && plain && screen == Screen::Result {
                KeyAction::Retry
            } else if c == 'n' && plain && screen == Screen::Result {
                KeyAction::StartNext
            } else {
                KeyAction::Ignore
            },
            Key::Left => if plain {
                KeyAction::Adjust(-1isize)
            } else {
                KeyAction::Ignore
            },
            Key::Right => if plain {
                KeyAction::Adjust(1isize)
            } else {
                KeyAction::Ignore
            },
            Key::Enter => if plain {
                KeyAction::Enter
            } else {
                KeyAction::Ignore
            },
            _ => KeyAction::Ignore,
        }
    }
}

/// What a key does on a screen; see [`key_action_spec`].
pub fn key_action(screen: Screen, key: KeyInput, update_notice_shown: bool) -> (r: KeyAction)
    ensures
        r == key_action_spec(screen, key, update_notice_shown),
{
    let plain = !key.modifiers.shift && !key.modifiers.control && !key.modifiers.other;
    let shift = key.modifiers.shift && !key.modifiers.control && !key.modifiers.other;
    if screen == Screen::Practice {
        return KeyAction::Practice;
    }
    if key.is_plain_q_command() {
        return KeyAction::Escape;
    }
    if key.key == Key::Char('?') && (plain || shift) {
        return KeyAction::OpenHelp;
    }
    if (screen == Screen::Home || screen == Screen::Result) && key.kind == KeyKind::Press && plain
        && update_notice_shown {
        if key.key == Key::Char('l') {
            return KeyAction::DismissUpdate;
        }
        if key.key == Key::Char('s') {
            return KeyAction::SkipUpdate;
        }
    }
    match key.key {
        Key::Esc => KeyAction::Escape,
        Key::Tab => KeyAction::MoveTabFocus(1),
        Key::BackTab => KeyAction::MoveTabFocus(-1),
        Key::Down => KeyAction::MoveFocus(1),
        Key::Up => KeyAction::MoveFocus(-1),
        Key::Char(c) => {
            if c == 'j' && plain {
                KeyAction::MoveFocus(1)
            } else if c == 'k' && plain {
                KeyAction::MoveFocus(-1)
            } else if c == 'd' && plain && screen == Screen::ContentDetail && key.kind
                == KeyKind::Press {
                KeyAction::DisableContent
            } else if c == 'r' && plain && screen == Screen::Result {
                KeyAction::Retry
            } else if c == 'n' && plain && screen == Screen::Result {
                KeyAction::StartNext
            } else {
                KeyAction::Ignore
            }
        },
        Key::Left => if plain {
            KeyAction::Adjust(-1)
        } else {
            KeyAction::Ignore
        },
        Key::Right => if plain {
            KeyAction::Adjust(1)
        } else {
            KeyAction::Ignore
        },
        Key::Enter => if plain {
            KeyAction::Enter
        } else {
            KeyAction::Ignore
        },
        _ => KeyAction::Ignore,
    }
}

/// What the practice screen knows of the session when a key arrives.
#[derive(Clone, Copy, Debug, PartialEq, Eq, Structural)]
pub struct PracticeKeyState {
    pub kind: PracticeKind,
    pub paused: bool,
    pub leave_confirmation: bool,
    /// Whether anything has been typed yet.
    pub attempted: bool,
}

/// What a key does on the practice screen.
#[derive(Clone, Copy, Debug, PartialEq, Eq, Structural)]
pub enum PracticeKeyAction {
    /// Ask for, or withdraw, confirmation to leave a test.
    ToggleLeaveConfirmation,
    /// Leave with what was typed: finish the session and show its result.
    Finish,
    /// Leave with nothing typed: drop the session and go home.
    Abandon,
    /// Pause or resume; when the session does, the leave confirmation is withdrawn.
    TogglePause,
    /// Ask for confirmation to leave a paused session.
    ConfirmLeave,
    /// Delete the last input.
    Backspace,
    /// Submit the current line or word.
    Submit,
    /// Type a character.
    Input(char),
    /// Nothing happens.
    Ignore,
}

/// A key that is pressed or repeats.
pub open spec fn typing_key(kind: KeyKind) -> bool {
    kind == KeyKind::Press || kind == KeyKind::Repeat
}

/// What a key does on the practice screen, for a session (or none). In a test, `Esc` asks or
/// withdraws confirmation to leave, and once it is asked only a plain `q` or `ㅂ` counts: it
/// leaves. Otherwise `Esc` or `Ctrl-P` pauses or resumes. While paused, a first plain `q` or
/// `ㅂ` asks for confirmation and a second leaves. Leaving finishes the session when something
/// was typed, and drops it when nothing was. Otherwise `Backspace` deletes, a plain space in
/// word practice submits the word, a character (plain or shifted) is typed, and `Enter`
/// (plain or shifted) submits.
pub open spec fn practice_key_action_spec(state: Option<PracticeKeyState>, key: KeyInput) -> PracticeKeyAction {
    let press = key.kind == KeyKind::Press;
    let leave = if state is Some && state->0.attempted {
        PracticeKeyAction::Finish
    } else {
        PracticeKeyAction::Abandon
    };
    match state {
        None => PracticeKeyAction::Ignore,
        Some(s) => if s.kind == PracticeKind::Test && press && key.key == Key::Esc {
            PracticeKeyAction::ToggleLeaveConfirmation
        } else if s.kind == PracticeKind::Test && s.leave_confirmation {
            if press && plain_q(key) {
                leave
            } else {
                PracticeKeyAction::Ignore
            }
        } else if press && (key.key == Key::Esc || ((key.key == Key::Char('p') || key.key
            == Key::Char('P')) && control_alone(key.modifiers))) {
            PracticeKeyAction::TogglePause
        } else if s.paused {
            if press && plain_q(key) {
                if !s.leave_confirmation {
                    PracticeKeyAction::ConfirmLeave
                } else {
                    leave
                }
            } else {
                PracticeKeyAction::Ignore
            }
        } else {
            let plain = no_modifiers(key.modifiers);
            let typed = plain || shift_alone(key.modifiers);
            match key.key {
                Key::Backspace => if typing_key(key.kind) {
                    PracticeKeyAction::Backspace
                } else {
                    PracticeKeyAction::Ignore
                },
                Key::Char(c) => if c == ' ' && s.kind == PracticeKind::Words && typing_key(
                    key.kind,
                ) && plain {
                    PracticeKeyAction::Submit
                } else if typing_key(key.kind) && typed {
                    PracticeKeyAction::Input(c)
                } else {
                    PracticeKeyAction::Ignore
                },
                Key::Enter => if typing_key(key.kind) && typed {
                    PracticeKeyAction::Submit
                } else {
                    PracticeKeyAction::Ignore
                },
                _ => PracticeKeyAction::Ignore,
            }
        },
    }
}

/// What a key does on the practice screen; see [`practice_key_action_spec`].
pub fn practice_key_action(state: Option<PracticeKeyState>, key: KeyInput) -> (r:
    PracticeKeyAction)
    ensures
        r == practice_key_action_spec(state, key),
{
    let s = match state {
        None => {
            return PracticeKeyAction::Ignore;
        },
        Some(s) => s,
    };
    let press = key.kind == KeyKind::Press;
    let leave = if s.attempted {
        PracticeKeyAction::Finish
    } else {
        PracticeKeyAction::Abandon
    };
    if s.kind == PracticeKind::Test {
        if press && key.key == Key::Esc {
            return PracticeKeyAction::ToggleLeaveConfirmation;
        }
        if s.leave_confirmation {
            if press && key.is_plain_q_command() {
                return leave;
            }
            return PracticeKeyAction::Ignore;
        }
    }
    let control = !key.modifiers.shift && key.modifiers.control && !key.modifiers.other;
    if press && (key.key == Key::Esc || ((key.key == Key::Char('p') || key.key == Key::Char('P'))
        && control)) {
        return PracticeKeyAction::TogglePause;
    }
    if s.paused {
        if press && key.is_plain_q_command() {
            if !s.leave_confirmation {
                return PracticeKeyAction::ConfirmLeave;
            }
            return leave;
        }
        return PracticeKeyAction::Ignore;
    }
    let typing = key.kind == KeyKind::Press || key.kind == KeyKind::Repeat;
    let plain = !key.modifiers.shift && !key.modifiers.control && !key.modifiers.other;
    let typed = plain || (key.modifiers.shift && !key.modifiers.control && !key.modifiers.other);
    match key.key {
        Key::Backspace => if typing {
            PracticeKeyAction::Backspace
        } else {
            PracticeKeyAction::Ignore
        },
        Key::Char(c) => {
            if c == ' ' && s.kind == PracticeKind::Words && typing && plain {
                PracticeKeyAction::Submit
            } else if typing && typed {
                PracticeKeyAction::Input(c)
            } else {
                PracticeKeyAction::Ignore
            }
        },
        Key::Enter => if typing && typed {
            PracticeKeyAction::Submit
        } else {
            PracticeKeyAction::Ignore
        },
        _ => PracticeKeyAction::Ignore,
    }
}

/// What `Enter` activates.
#[derive(Clone, Copy, Debug, PartialEq, Eq, Structural)]
pub enum EnterAction {
    /// Open the options of a practice mode, with its defaults.
    OpenModeOptions(PracticeKind),
    /// Open a screen.
    Open(Screen),
    /// Start Quick practice with the options on show.
    StartQuick,
    /// Start key practice with the options on show.
    StartKey,
    /// Start word practice with the options on show.
    StartWords,
    /// Start sentence practice.
    StartSentence,
    /// Start the long text at this position among the language's long texts, if there is one.
    StartLong(usize),
    /// Start a test with the duration preset at the first position and the text chosen by
    /// the second: 0 for a random text, `n` for the `n`-th long text.
    StartTest(usize, usize),
    /// Step the focused option forward.
    Adjust,
    /// Open the content pack at this position, if there is one.
    OpenContentDetail(usize),
    /// Change the setting at this position.
    ActivateSetting(usize),
    /// Choose the theme at this position, if there is one, and go back.
    SelectTheme(usize),
    /// Nothing happens.
    Ignore,
}

/// The practice modes in the order Home lists them.
pub open spec fn home_mode(focus: usize) -> PracticeKind {
    if focus == 0 {
        PracticeKind::Quick
    } else if focus == 1 {
        PracticeKind::Key
    } else if focus == 2 {
        PracticeKind::Words
    } else if focus == 3 {
        PracticeKind::Sentence
    } else if focus == 4 {
        PracticeKind::Long
    } else {
        PracticeKind::Test
    }
}

/// What `Enter` activates on a screen with the focus at `focus`. On Home the first six
/// entries open the practice modes, then statistics, goals, content and settings. On a mode's
/// options the start button starts it (any other entry steps its option); statistics step
/// their first three entries and open history and weak keys; history and goals step; content,
/// settings and themes act on the entry at the focus.
pub open spec fn enter_action_spec(screen: Screen, focus: usize, options: ModeOptions) -> EnterAction {
    match screen {
        Screen::Home => if focus <= 5 {
            EnterAction::OpenModeOptions(home_mode(focus))
        } else if focus == 6 {
            EnterAction::Open(Screen::Stats)
        } else if focus == 7 {
            EnterAction::Open(Screen::Goals)
        } else if focus == 8 {
            EnterAction::Open(Screen::Content)
        } else if focus == 9 {
            EnterAction::Open(Screen::Settings)
        } else {
            EnterAction::Ignore
        },
        Screen::ModeOptions => match options.kind {
            PracticeKind::Quick => if focus == 4 {
                EnterAction::StartQuick
            } else {
                EnterAction::Adjust
            },
            PracticeKind::Key => if focus == 4 {
                EnterAction::StartKey
            } else {
                EnterAction::Adjust
            },
            PracticeKind::Words => if focus == 2 {
                EnterAction::StartWords
            } else {
                EnterAction::Adjust
            },
            PracticeKind::Sentence => if focus == 1 {
                EnterAction::StartSentence
            } else {
                EnterAction::Adjust
            },
            PracticeKind::Long => if focus != 0 {
                EnterAction::StartLong(options.long_selection)
            } else {
                EnterAction::Adjust
            },
            PracticeKind::Test => if focus == 3 {
                EnterAction::StartTest(options.test_preset, options.test_selection)
            } else {
                EnterAction::Adjust
            },
        },
        Screen::Stats => if focus <= 2 {
            EnterAction::Adjust
        } else if focus == 3 {
            EnterAction::Open(Screen::History)
        } else if focus == 4 {
            EnterAction::Open(Screen::WeakKeys)
        } else {
            EnterAction::Ignore
        },
        Screen::History => EnterAction::Adjust,
        Screen::Goals => EnterAction::Adjust,
        Screen::Content => EnterAction::OpenContentDetail(focus),
        Screen::Settings => EnterAction::ActivateSetting(focus),
        Screen::Themes => EnterAction::SelectTheme(focus),
        _ => EnterAction::Ignore,
    }
}

/// What `Enter` activates; see [`enter_action_spec`].
pub fn enter_action(screen: Screen, focus: usize, options: &ModeOptions) -> (r: EnterAction)
    ensures
        r == enter_action_spec(screen, focus, *options),
{
    match screen {
        Screen::Home => {
            if focus <= 5 {
                let kind = if focus == 0 {
                    PracticeKind::Quick
                } else if focus == 1 {
                    PracticeKind::Key
                } else if focus == 2 {
                    PracticeKind::Words
                } else if focus == 3 {
                    PracticeKind::Sentence
                } else if focus == 4 {
                    PracticeKind::Long
                } else {
                    PracticeKind::Test
                };
                EnterAction::OpenModeOptions(kind)
            } else if focus == 6 {
                EnterAction::Open(Screen::Stats)
            } else if focus == 7 {
                EnterAction::Open(Screen::Goals)
            } else if focus == 8 {
                EnterAction::Open(Screen::Content)
            } else if focus == 9 {
                EnterAction::Open(Screen::Settings)
            } else {
                EnterAction::Ignore
            }
        },
        Screen::ModeOptions => {
            let start = match options.kind {
                PracticeKind::Quick => focus == 4,
                PracticeKind::Key => focus == 4,
                PracticeKind::Words => focus == 2,
                PracticeKind::Sentence => focus == 1,
                PracticeKind::Long => focus != 0,
                PracticeKind::Test => focus == 3,
            };
            if !start {
                return EnterAction::Adjust;
            }
            match options.kind {
                PracticeKind::Quick => EnterAction::StartQuick,
                PracticeKind::Key => EnterAction::StartKey,
                PracticeKind::Words => EnterAction::StartWords,
                PracticeKind::Sentence => EnterAction::StartSentence,
                PracticeKind::Long => EnterAction::StartLong(options.long_selection),
                PracticeKind::Test => EnterAction::StartTest(
                    options.test_preset,
                    options.test_selection,
                ),
            }
        },
        Screen::Stats => {
            if focus <= 2 {
                EnterAction::Adjust
            } else if focus == 3 {
                EnterAction::Open(Screen::History)
            } else if focus == 4 {
                EnterAction::Open(Screen::WeakKeys)
            } else {
                EnterAction::Ignore
            }
        },
        Screen::History => EnterAction::Adjust,
        Screen::Goals => EnterAction::Adjust,
        Screen::Content => EnterAction::OpenContentDetail(focus),
        Screen::Settings => EnterAction::ActivateSetting(focus),
        Screen::Themes => EnterAction::SelectTheme(focus),
        _ => EnterAction::Ignore,
    }
}

/// How long the notice of an ignored paste stays, in nanoseconds.
pub const PASTE_NOTICE_NANOS: u64 = 3_000_000_000;

/// What a paste does. Pasted text is never typed: at most a notice says it was ignored.
#[derive(Clone, Copy, Debug, PartialEq, Eq, Structural)]
pub enum PasteAction {
    /// The paste is dropped and the practice screen says so until `expires_at` (nanoseconds).
    IgnoreWithNotice { expires_at: u64 },
    /// The paste is dropped silently.
    Ignore,
}

/// When a notice shown at `now` expires: three seconds later, or at once where that time
/// cannot be counted.
pub open spec fn notice_expiry(now: u64) -> u64 {
    if now + PASTE_NOTICE_NANOS <= u64::MAX {
        (now + PASTE_NOTICE_NANOS) as u64
    } else {
        now
    }
}

/// What a paste at `now` does on `screen`: on the practice screen, with a practice under way
/// that is not a test asking whether to leave, it is dropped with a notice that lasts three
/// seconds; anywhere else it is dropped silently. It never reaches the practice as input.
pub fn paste_action(screen: Screen, practice_active: bool, test_leave_confirmation: bool, now: u64) -> (r:
    PasteAction)
    ensures
        r == if screen == Screen::Practice && practice_active && !test_leave_confirmation {
            PasteAction::IgnoreWithNotice { expires_at: notice_expiry(now) }
        } else {
            PasteAction::Ignore
        },
{
    if screen == Screen::Practice && practice_active && !test_leave_confirmation {
        let expires_at = match now.checked_add(PASTE_NOTICE_NANOS) {
            Some(t) => t,
            None => now,
        };
        PasteAction::IgnoreWithNotice { expires_at }
    } else {
        PasteAction::Ignore
    }
}

/// Whether a notice that expires at `expires_at` is cleared by a tick at `now`.
pub fn notice_expired(expires_at: u64, now: u64) -> (r: bool)
    ensures
        r == (now >= expires_at),
{
    now >= expires_at
}

/// The notice of a paste at `now` stays on show before three seconds have passed and is
/// cleared by a tick from then on (where that time can be counted).
pub proof fn lemma_paste_notice_lasts_three_seconds(now: u64, later: u64)
    requires
        now + PASTE_NOTICE_NANOS <= u64::MAX,
    ensures
        (later >= notice_expiry(now)) <==> (later >= now + PASTE_NOTICE_NANOS),
{
}

} // verus!

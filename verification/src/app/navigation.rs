//! Moving between screens: which screen is on show, where going back leads, and where the
//! focus is on each screen.
use crate::app::{ModeOptions, Screen};
use crate::model::PracticeKind;
use vstd::prelude::*;

verus! {

/// The position of a screen among the screens.
pub open spec fn screen_slot(screen: Screen) -> int {
    match screen {
        Screen::Home => 0,
        Screen::ModeOptions => 1,
        Screen::Practice => 2,
        Screen::Result => 3,
        Screen::Stats => 4,
        Screen::History => 5,
        Screen::WeakKeys => 6,
        Screen::Goals => 7,
        Screen::Content => 8,
        Screen::ContentDetail => 9,
        Screen::Settings => 10,
        Screen::Themes => 11,
        Screen::Help => 12,
    }
}

/// The position of a screen among the screens.
fn slot_of(screen: Screen) -> (r: usize)
    ensures
        r == screen_slot(screen),
        r < 13,
{
    match screen {
        Screen::Home => 0,
        Screen::ModeOptions => 1,
        Screen::Practice => 2,
        Screen::Result => 3,
        Screen::Stats => 4,
        Screen::History => 5,
        Screen::WeakKeys => 6,
        Screen::Goals => 7,
        Screen::Content => 8,
        Screen::ContentDetail => 9,
        Screen::Settings => 10,
        Screen::Themes => 11,
        Screen::Help => 12,
    }
}

/// The sizes of the lists that some screens show: the long texts in the language of the
/// mode options, the content packs, the provenance entries of the pack on show (none when no
/// pack is on show), and the themes.
#[derive(Clone, Copy, Debug, PartialEq, Eq, Structural)]
pub struct ScreenSizes {
    pub long_items: usize,
    pub content_packs: usize,
    pub detail_provenance: Option<usize>,
    pub themes: usize,
}

/// At least one.
pub open spec fn at_least_one(n: usize) -> int {
    if n == 0 {
        1
    } else {
        n as int
    }
}

/// How many entries the focus can move through on a screen: fixed numbers for most screens;
/// on a mode's options, the options and the start button (for long text, the language's long
/// texts after the language); on lists, the list's length, at least one.
pub open spec fn focus_count_spec(screen: Screen, kind: PracticeKind, sizes: ScreenSizes) -> int {
    match screen {
        Screen::Home => 10,
        Screen::ModeOptions => match kind {
            PracticeKind::Quick => 5,
            PracticeKind::Key => 5,
            PracticeKind::Words => 3,
            PracticeKind::Sentence => 2,
            PracticeKind::Test => 4,
            PracticeKind::Long => if sizes.long_items == usize::MAX {
                usize::MAX as int
            } else {
                sizes.long_items + 1
            },
        },
        Screen::Stats => 5,
        Screen::History => 3,
        Screen::Goals => 4,
        Screen::Content => at_least_one(sizes.content_packs),
        Screen::ContentDetail => match sizes.detail_provenance {
            Some(n) => at_least_one(n),
            None => 1,
        },
        Screen::Settings => 9,
        Screen::Themes => at_least_one(sizes.themes),
        _ => 1,
    }
}

/// How many entries the focus can move through on a screen; see [`focus_count_spec`].
pub fn focus_count(screen: Screen, kind: PracticeKind, sizes: &ScreenSizes) -> (r: usize)
    ensures
        r == focus_count_spec(screen, kind, *sizes),
        r >= 1,
{
    match screen {
        Screen::Home => 10,
        Screen::ModeOptions => match kind {
            PracticeKind::Quick | PracticeKind::Key => 5,
            PracticeKind::Words => 3,
            PracticeKind::Sentence => 2,
            PracticeKind::Test => 4,
            PracticeKind::Long => sizes.long_items.saturating_add(1),
        },
        Screen::Stats => 5,
        Screen::History => 3,
        Screen::Goals => 4,
        Screen::Content => if sizes.content_packs == 0 {
            1
        } else {
            sizes.content_packs
        },
        Screen::ContentDetail => match sizes.detail_provenance {
            Some(n) => if n == 0 {
                1
            } else {
                n
            },
            None => 1,
        },
        Screen::Settings => 9,
        Screen::Themes => if sizes.themes == 0 {
            1
        } else {
            sizes.themes
        },
        _ => 1,
    }
}

/// Where the interface is: the screen on show, the screen that going back leads to, the one
/// that going back led to before help was opened, the focus, the focus last left on each
/// screen, and whether the program is to quit.
#[derive(Clone, Debug, PartialEq, Eq)]
pub struct Navigation {
    pub screen: Screen,
    pub parent: Screen,
    pub parent_before_help: Option<Screen>,
    pub focus: usize,
    focus_memory: Vec<usize>,
    pub quit: bool,
}

/// The mathematical model of [`Navigation`].
pub struct NavigationView {
    pub screen: Screen,
    pub parent: Screen,
    pub parent_before_help: Option<Screen>,
    pub focus: usize,
    /// The focus last left on each screen, by its position among the screens.
    pub memory: Seq<usize>,
    pub quit: bool,
}

impl View for Navigation {
    type V = NavigationView;

    closed spec fn view(&self) -> NavigationView {
        NavigationView {
            screen: self.screen,
            parent: self.parent,
            parent_before_help: self.parent_before_help,
            focus: self.focus,
            memory: self.focus_memory@,
            quit: self.quit,
        }
    }
}

/// The focus is remembered for every screen; going back from a screen leads elsewhere,
/// except from Home; on help, going back leads to a screen other than help; and where going
/// back led before help is kept only while help is on show.
pub open spec fn nav_wf(v: NavigationView) -> bool {
    &&& v.memory.len() == 13
    &&& v.parent == v.screen ==> v.screen == Screen::Home
    &&& v.screen == Screen::Help ==> v.parent != Screen::Help
    &&& v.screen != Screen::Help ==> v.parent_before_help is None
}

/// The state with the focus on show remembered for its screen.
pub open spec fn remembered(v: NavigationView) -> NavigationView {
    NavigationView { memory: v.memory.update(screen_slot(v.screen), v.focus), ..v }
}

/// The state after `screen` comes on show with the focus last left there, kept within its
/// entries (`count`).
pub open spec fn restored(v: NavigationView, screen: Screen, count: int) -> NavigationView {
    let kept = v.memory[screen_slot(screen)];
    NavigationView {
        screen,
        focus: if kept > count - 1 {
            (count - 1) as usize
        } else {
            kept
        },
        ..v
    }
}

/// The state after a screen is opened. Opening the screen on show puts the focus on its
/// first entry. Opening help remembers the screen to go back to and, for after that, where
/// going back led. Opening another screen makes the screen left (or, from help, the screen
/// help was opened on) the one to go back to, unless it is the screen opened, then Home.
pub open spec fn opened(v: NavigationView, screen: Screen) -> NavigationView {
    if screen == v.screen {
        NavigationView { focus: 0, ..v }
    } else {
        let w = remembered(v);
        if screen == Screen::Help {
            NavigationView {
                parent_before_help: Some(v.parent),
                parent: v.screen,
                screen: Screen::Help,
                focus: 0,
                ..w
            }
        } else {
            let prior = if v.screen == Screen::Help {
                v.parent
            } else {
                v.screen
            };
            NavigationView {
                parent: if prior == screen {
                    Screen::Home
                } else {
                    prior
                },
                parent_before_help: None,
                screen,
                focus: 0,
                ..w
            }
        }
    }
}

/// The state after going back Home, with the focus last left there.
pub open spec fn homed(v: NavigationView, count: int) -> NavigationView {
    let w = remembered(v);
    restored(
        NavigationView { parent: Screen::Home, parent_before_help: None, ..w },
        Screen::Home,
        count,
    )
}

/// The result screen after a practice: the focus is remembered, going back leads Home, and
/// the focus is on the first entry.
pub open spec fn showing_result(v: NavigationView) -> NavigationView {
    NavigationView {
        screen: Screen::Result,
        parent: Screen::Home,
        parent_before_help: None,
        focus: 0,
        ..remembered(v)
    }
}

/// The screen that going back from `v` shows.
pub open spec fn back_destination(v: NavigationView) -> Screen {
    match v.screen {
        Screen::Home => Screen::Home,
        Screen::Result => Screen::Home,
        Screen::Help => v.parent,
        _ => if v.parent == v.screen {
            Screen::Home
        } else {
            v.parent
        },
    }
}

/// The state after going back, given the entries of the screen it leads to (`count`). From
/// Home the program quits; from a result, Home comes back; from help, the screen it was opened
/// on, with going back leading where it led before; from any other screen, the screen to go
/// back to (Home when that is the screen itself), with going back then leading Home.
pub open spec fn escaped(v: NavigationView, count: int) -> NavigationView {
    let w = remembered(v);
    match v.screen {
        Screen::Home => NavigationView { quit: true, ..w },
        Screen::Result => homed(v, count),
        Screen::Help => {
            let restored_parent = match v.parent_before_help {
                Some(p) => p,
                None => Screen::Home,
            };
            restored(
                NavigationView {
                    parent: if restored_parent == v.parent {
                        Screen::Home
                    } else {
                        restored_parent
                    },
                    parent_before_help: None,
                    ..w
                },
                v.parent,
                count,
            )
        },
        _ => restored(
            NavigationView { parent: Screen::Home, parent_before_help: None, ..w },
            back_destination(v),
            count,
        ),
    }
}

impl Navigation {
    /// The interface as it starts: Home, with every focus on the first entry.
    pub fn new() -> (r: Self)
        ensures
            nav_wf(r@),
            r@.screen == Screen::Home,
            r@.parent == Screen::Home,
            r@.parent_before_help is None,
            r@.focus == 0,
            r@.memory == Seq::new(13, |i: int| 0usize),
            !r@.quit,
    {
        let mut memory: Vec<usize> = Vec::new();
        for i in 0..13
            invariant
                memory@ == Seq::new(i as nat, |k: int| 0usize),
        {
            memory.push(0);
            assert(memory@ =~= Seq::new((i + 1) as nat, |k: int| 0usize));
        }
        Navigation {
            screen: Screen::Home,
            parent: Screen::Home,
            parent_before_help: None,
            focus: 0,
            focus_memory: memory,
            quit: false,
        }
    }

    /// The focus last left on a screen.
    pub fn remembered_focus(&self, screen: Screen) -> (r: usize)
        requires
            nav_wf(self@),
        ensures
            r == self@.memory[screen_slot(screen)],
    {
        self.focus_memory[slot_of(screen)]
    }

    /// Remembers the focus on show for its screen.
    fn remember_focus(&mut self)
        requires
            nav_wf(old(self)@),
        ensures
            final(self)@ == remembered(old(self)@),
    {
        let slot = slot_of(self.screen);
        self.focus_memory.set(slot, self.focus);
    }

    /// Shows a screen with the focus last left there, within its `count` entries.
    fn restore_focus(&mut self, screen: Screen, count: usize)
        requires
            old(self)@.memory.len() == 13,
            count >= 1,
        ensures
            final(self)@ == restored(old(self)@, screen, count as int),
    {
        self.screen = screen;
        let kept = self.focus_memory[slot_of(screen)];
        self.focus = if kept > count - 1 {
            count - 1
        } else {
            kept
        };
    }

    /// Opens a screen; see [`opened`].
    pub fn open(&mut self, screen: Screen)
        requires
            nav_wf(old(self)@),
        ensures
            nav_wf(final(self)@),
            final(self)@ == opened(old(self)@, screen),
    {
        if screen == self.screen {
            self.focus = 0;
            return;
        }
        self.remember_focus();
        if screen == Screen::Help {
            self.parent_before_help = Some(self.parent);
            self.parent = self.screen;
            self.screen = Screen::Help;
            self.focus = 0;
            return;
        }
        let prior = if self.screen == Screen::Help {
            self.parent
        } else {
            self.screen
        };
        self.parent = if prior == screen {
            Screen::Home
        } else {
            prior
        };
        self.parent_before_help = None;
        self.screen = screen;
        self.focus = 0;
    }

    /// Shows the result screen after a practice; see [`showing_result`].
    pub fn show_result(&mut self)
        requires
            nav_wf(old(self)@),
        ensures
            nav_wf(final(self)@),
            final(self)@ == showing_result(old(self)@),
    {
        self.remember_focus();
        self.screen = Screen::Result;
        self.parent = Screen::Home;
        self.parent_before_help = None;
        self.focus = 0;
    }

    /// Goes back Home; see [`homed`]. `options` and `sizes` give Home's entries.
    pub fn return_home(&mut self, options: &ModeOptions, sizes: &ScreenSizes)
        requires
            nav_wf(old(self)@),
        ensures
            nav_wf(final(self)@),
            final(self)@ == homed(
                old(self)@,
                focus_count_spec(Screen::Home, options.kind, *sizes),
            ),
    {
        self.remember_focus();
        self.parent = Screen::Home;
        self.parent_before_help = None;
        let count = focus_count(Screen::Home, options.kind, sizes);
        self.restore_focus(Screen::Home, count);
    }

    /// Goes back; see [`escaped`]. `options` and `sizes` give the entries of the screen it
    /// leads to.
    pub fn escape(&mut self, options: &ModeOptions, sizes: &ScreenSizes)
        requires
            nav_wf(old(self)@),
        ensures
            nav_wf(final(self)@),
            final(self)@ == escaped(
                old(self)@,
                focus_count_spec(back_destination(old(self)@), options.kind, *sizes),
            ),
    {
        let ghost v = self@;
        self.remember_focus();
        match self.screen {
            Screen::Home => {
                self.quit = true;
            },
            Screen::Result => {
                self.parent = Screen::Home;
                self.parent_before_help = None;
                let count = focus_count(Screen::Home, options.kind, sizes);
                self.restore_focus(Screen::Home, count);
            },
            Screen::Help => {
                let destination = self.parent;
                let restored_parent = match self.parent_before_help {
                    Some(p) => p,
                    None => Screen::Home,
                };
                self.parent_before_help = None;
                self.parent = if restored_parent == destination {
                    Screen::Home
                } else {
                    restored_parent
                };
                let count = focus_count(destination, options.kind, sizes);
                self.restore_focus(destination, count);
            },
            _ => {
                let destination = if self.parent == self.screen {
                    Screen::Home
                } else {
                    self.parent
                };
                self.parent = Screen::Home;
                self.parent_before_help = None;
                let count = focus_count(destination, options.kind, sizes);
                self.restore_focus(destination, count);
            },
        }
    }

    /// Moves the focus down (`delta >= 0`) or up through the screen's entries, wrapping
    /// around; on long-text options, the focus on a text chooses that text.
    pub fn move_focus(&mut self, delta: isize, options: &mut ModeOptions, sizes: &ScreenSizes)
        requires
            nav_wf(old(self)@),
            crate::app::cycle_fits(
                old(self)@.focus as int,
                focus_count_spec(old(self)@.screen, old(options).kind, *sizes),
                delta as int,
            ),
        ensures
            nav_wf(final(self)@),
            final(self)@ == (NavigationView {
                focus: crate::app::cycled(
                    old(self)@.focus as int,
                    focus_count_spec(old(self)@.screen, old(options).kind, *sizes),
                    delta as int,
                ) as usize,
                ..old(self)@
            }),
            *final(options) == if old(self)@.screen == Screen::ModeOptions && old(options).kind
                == PracticeKind::Long && final(self)@.focus != 0 {
                ModeOptions { long_selection: (final(self)@.focus - 1) as usize, ..*old(options) }
            } else {
                *old(options)
            },
    {
        let count = focus_count(self.screen, options.kind, sizes);
        self.focus = crate::app::cycle_index(self.focus, count, delta);
        if self.screen == Screen::ModeOptions && options.kind == PracticeKind::Long && self.focus
            != 0 {
            options.long_selection = self.focus - 1;
        }
    }
}

/// Opening help and going back shows the screen help was opened on again, with the focus it
/// had and with going back leading where it led, when the focus was within the screen's
/// entries.
pub proof fn lemma_help_round_trip(v: NavigationView, count: int)
    requires
        nav_wf(v),
        v.screen != Screen::Help,
        0 <= v.focus < count,
    ensures
        ({
            let w = escaped(opened(v, Screen::Help), count);
            &&& w.screen == v.screen
            &&& w.parent == v.parent
            &&& w.parent_before_help is None
            &&& w.focus == v.focus
            &&& w.quit == v.quit
        }),
{
    let h = opened(v, Screen::Help);
    assert(h.memory[screen_slot(v.screen)] == v.focus);
    assert(remembered(h).memory[screen_slot(v.screen)] == v.focus);
}

} // verus!

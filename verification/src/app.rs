//! The application's screens, input events, practice options and the rules that the
//! interface applies to them.
use crate::content::{
    CatalogView, ContentCatalog, ContentKind, ResolvedItem, ResolvedItemView, SourceMeta,
};
use crate::model::{Difficulty, Language, PracticeKind};
use crate::stats::Range;
use std::time::Duration;
use vstd::arithmetic::div_mod::{
    lemma_mod_add_multiples_vanish, lemma_mod_multiples_vanish, lemma_mod_self_0, lemma_small_mod,
};
use vstd::prelude::*;

pub mod keys;
pub mod navigation;
pub mod adaptive;
pub mod finish;
pub mod preferences;
pub mod summaries;

verus! {

/// The length of a `Duration` in nanoseconds (`Duration::as_nanos`).
pub uninterp spec fn duration_nanos(d: Duration) -> u128;

/// Calls `Duration::from_secs`. Claimed: the result lasts exactly `secs` seconds.
#[verifier::external_body]
pub(crate) fn from_secs(secs: u64) -> (r: Duration)
    ensures
        duration_nanos(r) == secs as int * 1_000_000_000,
{
    Duration::from_secs(secs)
}

/// Calls `Duration::as_nanos`. Claimed: the result is the length of the duration.
#[verifier::external_body]
pub(crate) fn as_nanos(d: &Duration) -> (r: u128)
    ensures
        r == duration_nanos(*d),
{
    d.as_nanos()
}

/// The screens of the application.
#[derive(Clone, Copy, Debug, PartialEq, Eq, Hash, Structural)]
pub enum Screen {
    Home,
    ModeOptions,
    Practice,
    Result,
    Stats,
    History,
    WeakKeys,
    Goals,
    Content,
    ContentDetail,
    Settings,
    Themes,
    Help,
}

/// A terminal input event, reduced to what the application reacts to.
#[derive(Clone, Copy, Debug, PartialEq, Eq, Structural)]
pub enum InputEvent {
    Key(KeyInput),
    Paste,
    Ignored,
}

/// A key press or repeat with its modifiers.
#[derive(Clone, Copy, Debug, PartialEq, Eq, Structural)]
pub struct KeyInput {
    pub key: Key,
    pub modifiers: KeyModifiers,
    pub kind: KeyKind,
}

/// The keys the application distinguishes.
#[derive(Clone, Copy, Debug, PartialEq, Eq, Structural)]
pub enum Key {
    BackTab,
    Backspace,
    Char(char),
    Down,
    Enter,
    Esc,
    Left,
    Right,
    Tab,
    Up,
    Other,
}

/// Whether a key event is a first press or an auto-repeat.
#[derive(Clone, Copy, Debug, PartialEq, Eq, Structural)]
pub enum KeyKind {
    Press,
    Repeat,
}

/// The modifier keys held with a key.
#[derive(Clone, Copy, Debug, Default, PartialEq, Eq, Structural)]
pub struct KeyModifiers {
    pub shift: bool,
    pub control: bool,
    pub other: bool,
}

impl KeyModifiers {
    /// No modifier.
    pub fn none() -> (r: Self)
        ensures
            !r.shift && !r.control && !r.other,
    {
        KeyModifiers { shift: false, control: false, other: false }
    }

    /// Shift alone.
    pub fn shift_only() -> (r: Self)
        ensures
            r.shift && !r.control && !r.other,
    {
        KeyModifiers { shift: true, control: false, other: false }
    }

    /// Control alone.
    pub fn control_only() -> (r: Self)
        ensures
            !r.shift && r.control && !r.other,
    {
        KeyModifiers { shift: false, control: true, other: false }
    }

    /// Some other modifier alone.
    pub fn other_only() -> (r: Self)
        ensures
            !r.shift && !r.control && r.other,
    {
        KeyModifiers { shift: false, control: false, other: true }
    }
}

/// The grade of a typing test.
#[derive(Clone, Copy, Debug, PartialEq, Eq, Structural)]
pub enum Grade {
    A,
    B,
    C,
    D,
}

/// Where an item's attribution came from.
#[derive(Clone, Debug)]
pub struct ContentProvenance {
    pub item_id: Option<String>,
    pub source: SourceMeta,
}

/// What the content screen shows of one pack.
#[derive(Clone, Debug)]
pub struct ContentPackSummary {
    pub id: String,
    pub sample_item_id: String,
    pub provenance: Vec<ContentProvenance>,
    pub language: Language,
    pub items: usize,
    pub licenses: Vec<String>,
    pub kinds: Vec<ContentKind>,
    pub enabled: bool,
    pub built_in: bool,
}

/// Where custom practice text came from.
#[derive(Clone, Copy, Debug, PartialEq, Eq, Structural)]
pub enum CustomTextSource {
    File,
    Stdin,
}

impl CustomTextSource {
    /// The content ID under which custom text is practised.
    pub fn content_id(self) -> (r: &'static str)
        ensures
            r@ == match self {
                CustomTextSource::File => "custom-file"@,
                CustomTextSource::Stdin => "stdin"@,
            },
    {
        match self {
            CustomTextSource::File => "custom-file",
            CustomTextSource::Stdin => "stdin",
        }
    }
}

/// What the long-text screen shows about the text.
#[derive(Clone, Debug, PartialEq, Eq)]
pub struct LongMetadata {
    pub title: String,
    pub author: String,
    pub source: String,
    pub license: String,
    pub difficulty: Option<u8>,
    pub tags: Vec<String>,
    pub custom_source: Option<CustomTextSource>,
}

/// How far through a long text the typist is.
#[derive(Clone, Copy, Debug, PartialEq, Eq, Structural)]
pub struct LongScroll {
    pub active_paragraph: usize,
    pub total_paragraphs: usize,
    pub percent: usize,
}

/// How many paragraph ends are at or before a position (the ends are in increasing order).
pub open spec fn ends_passed(item_ends: Seq<usize>, position: int) -> int
    decreases item_ends.len(),
{
    if item_ends.len() == 0 || item_ends[0] > position {
        0
    } else {
        1 + ends_passed(item_ends.drop_first(), position)
    }
}

/// Where the typist is in a long text: the paragraph that holds `position` (the start of the
/// current line, or the cursor), counted from 1 and at most the number of paragraphs; that
/// number; and how far the cursor is through the target, in whole percent.
pub fn long_scroll(item_ends: &[usize], position: usize, cursor: usize, target_len: usize) -> (r:
    LongScroll)
    requires
        target_len > 0,
    ensures
        r.total_paragraphs == item_ends@.len(),
        r.active_paragraph == if ends_passed(item_ends@, position as int) + 1 < item_ends@.len() {
            ends_passed(item_ends@, position as int) + 1
        } else {
            item_ends@.len() as int
        },
        r.percent == (if cursor * 100 > usize::MAX {
            usize::MAX as int
        } else {
            cursor * 100
        }) / (target_len as int),
{
    let total = item_ends.len();
    let mut passed: usize = 0;
    assert(item_ends@.skip(0) =~= item_ends@);
    while passed < total && item_ends[passed] <= position
        invariant
            passed <= total,
            total == item_ends@.len(),
            ends_passed(item_ends@, position as int) == passed + ends_passed(
                item_ends@.skip(passed as int),
                position as int,
            ),
        decreases total - passed,
    {
        assert(item_ends@.skip(passed as int).drop_first() =~= item_ends@.skip(passed + 1));
        passed += 1;
    }
    let paragraph = passed.saturating_add(1);
    let limit = usize::MAX / 100;
    let scaled = if cursor > limit {
        assert(cursor * 100 > usize::MAX) by (nonlinear_arith)
            requires
                cursor > limit,
                limit == usize::MAX / 100,
        ;
        usize::MAX
    } else {
        assert(cursor * 100 <= usize::MAX) by (nonlinear_arith)
            requires
                cursor <= limit,
                limit == usize::MAX / 100,
        ;
        cursor * 100
    };
    LongScroll {
        active_paragraph: if paragraph < total {
            paragraph
        } else {
            total
        },
        total_paragraphs: total,
        percent: scaled / target_len,
    }
}

/// When a practice session ends.
#[derive(Clone, Copy, Debug, PartialEq, Eq)]
pub enum StopRule {
    TargetEnd,
    Items(usize),
    ActiveTime(Duration),
    TargetOrActiveTime(Duration),
}

/// What Quick practice draws from.
#[derive(Clone, Copy, Debug, PartialEq, Eq, Structural)]
pub enum QuickSource {
    Words,
    Quote,
}

/// The options of a Quick practice session.
#[derive(Clone, Debug, PartialEq, Eq)]
pub struct QuickOptions {
    language: Language,
    source: QuickSource,
    stop: StopRule,
}

impl View for QuickOptions {
    type V = (Language, QuickSource, StopRule);

    closed spec fn view(&self) -> (Language, QuickSource, StopRule) {
        (self.language, self.source, self.stop)
    }
}

/// The Quick time limits, in seconds.
pub open spec fn quick_time_presets() -> Seq<u64> {
    seq![15u64, 30, 60, 120]
}

/// The Quick item counts.
pub open spec fn quick_count_presets() -> Seq<usize> {
    seq![10usize, 25, 50, 100]
}

/// The typing-test durations, in seconds.
pub open spec fn test_duration_presets() -> Seq<u64> {
    seq![60u64, 180, 300, 600]
}

/// The Quick time limit at a preset index.
pub fn quick_time_preset(index: usize) -> (r: u64)
    requires
        index < 4,
    ensures
        r == quick_time_presets()[index as int],
{
    if index == 0 {
        15
    } else if index == 1 {
        30
    } else if index == 2 {
        60
    } else {
        120
    }
}

/// The Quick item count at a preset index.
pub fn quick_count_preset(index: usize) -> (r: usize)
    requires
        index < 4,
    ensures
        r == quick_count_presets()[index as int],
{
    if index == 0 {
        10
    } else if index == 1 {
        25
    } else if index == 2 {
        50
    } else {
        100
    }
}

/// Whether a duration is one of the typing-test presets.
pub fn is_test_duration(seconds: u64) -> (r: bool)
    ensures
        r == test_duration_presets().contains(seconds),
{
    let r = seconds == 60 || seconds == 180 || seconds == 300 || seconds == 600;
    proof {
        if r {
            if seconds == 60 {
                assert(test_duration_presets()[0] == seconds);
            } else if seconds == 180 {
                assert(test_duration_presets()[1] == seconds);
            } else if seconds == 300 {
                assert(test_duration_presets()[2] == seconds);
            } else {
                assert(test_duration_presets()[3] == seconds);
            }
        }
    }
    r
}

/// Whether a stop rule is one that Quick practice offers: one of its time limits or item
/// counts.
pub open spec fn valid_quick_stop(stop: StopRule) -> bool {
    match stop {
        StopRule::ActiveTime(d) => exists|i: int|
            0 <= i < 4 && duration_nanos(d) == quick_time_presets()[i] as int * 1_000_000_000,
        StopRule::Items(n) => quick_count_presets().contains(n),
        StopRule::TargetEnd => false,
        StopRule::TargetOrActiveTime(_) => false,
    }
}

impl QuickOptions {
    /// Quick options with a stop rule that Quick practice offers; any other rule is refused.
    pub fn new(language: Language, source: QuickSource, stop: StopRule) -> (r: Result<
        Self,
        String,
    >)
        ensures
            r is Ok <==> valid_quick_stop(stop),
            r matches Ok(o) ==> o@ == (language, source, stop),
            r matches Err(m) ==> m@ == "invalid Quick stop rule"@,
    {
        let valid = match stop {
            StopRule::ActiveTime(duration) => {
                let nanos = as_nanos(&duration);
                let mut found = false;
                for i in 0..4
                    invariant
                        nanos == duration_nanos(duration),
                        found == exists|j: int|
                            0 <= j < i && nanos == quick_time_presets()[j] as int * 1_000_000_000,
                {
                    if nanos == quick_time_preset(i) as u128 * 1_000_000_000 {
                        found = true;
                    }
                }
                found
            },
            StopRule::Items(items) => {
                let mut found = false;
                for i in 0..4
                    invariant
                        found == exists|j: int| 0 <= j < i && quick_count_presets()[j] == items,
                {
                    if quick_count_preset(i) == items {
                        found = true;
                    }
                }
                found
            },
            StopRule::TargetEnd => false,
            StopRule::TargetOrActiveTime(_) => false,
        };
        if !valid {
            return Err("invalid Quick stop rule".to_owned());
        }
        Ok(QuickOptions { language, source, stop })
    }

    /// The language of the session.
    pub fn language(&self) -> (r: Language)
        ensures
            r == self@.0,
    {
        self.language
    }

    /// What the session draws from.
    pub fn source(&self) -> (r: QuickSource)
        ensures
            r == self@.1,
    {
        self.source
    }

    /// When the session ends.
    pub fn stop(&self) -> (r: StopRule)
        ensures
            r == self@.2,
    {
        self.stop
    }
}

/// The options a mode screen is editing.
#[derive(Clone, Debug)]
pub struct ModeOptions {
    pub kind: PracticeKind,
    pub language: Language,
    pub quick_source: QuickSource,
    pub quick_items: bool,
    pub quick_preset: usize,
    pub key_stage: u8,
    pub key_random: bool,
    pub key_weak_repeat: bool,
    pub word_difficulty: Difficulty,
    pub test_preset: usize,
    pub test_selection: usize,
    pub long_selection: usize,
}

impl ModeOptions {
    /// The defaults for a mode: words, a 30-second limit, key stage 1, mixed difficulty and a
    /// 300-second test.
    pub fn new(kind: PracticeKind, language: Language) -> (r: Self)
        ensures
            r.kind == kind,
            r.language == language,
            r.quick_source == QuickSource::Words,
            !r.quick_items,
            r.quick_preset == 1,
            r.key_stage == 1,
            !r.key_random,
            !r.key_weak_repeat,
            r.word_difficulty == Difficulty::Mixed,
            r.test_preset == 2,
            r.test_selection == 0,
            r.long_selection == 0,
    {
        ModeOptions {
            kind,
            language,
            quick_source: QuickSource::Words,
            quick_items: false,
            quick_preset: 1,
            key_stage: 1,
            key_random: false,
            key_weak_repeat: false,
            word_difficulty: Difficulty::Mixed,
            test_preset: 2,
            test_selection: 0,
            long_selection: 0,
        }
    }

    /// The stop rule of the Quick preset chosen: an item count or a time limit.
    pub fn quick_stop(&self) -> (r: StopRule)
        requires
            self.quick_preset < 4,
        ensures
            self.quick_items ==> r == StopRule::Items(quick_count_presets()[self.quick_preset as int]),
            !self.quick_items ==> (r matches StopRule::ActiveTime(d) && duration_nanos(d)
                == quick_time_presets()[self.quick_preset as int] as int * 1_000_000_000),
    {
        if self.quick_items {
            StopRule::Items(quick_count_preset(self.quick_preset))
        } else {
            StopRule::ActiveTime(from_secs(quick_time_preset(self.quick_preset)))
        }
    }
}

/// The other of the two languages.
pub fn other_language(language: Language) -> (r: Language)
    ensures
        r != language,
{
    match language {
        Language::Ko => Language::En,
        Language::En => Language::Ko,
    }
}

/// A step through a cycle of `len` positions from `index` stays within `usize`.
pub open spec fn cycle_fits(index: int, len: int, delta: int) -> bool {
    &&& 0 < len
    &&& delta < 0 ==> index + len <= usize::MAX
    &&& delta >= 0 ==> index + 1 <= usize::MAX
}

/// The position one step back (`delta < 0`) or forward from `index` in a cycle of `len`.
pub open spec fn cycled(index: int, len: int, delta: int) -> int {
    if delta < 0 {
        (index + len - 1) % len
    } else {
        (index + 1) % len
    }
}

/// The next (`delta >= 0`) or previous (`delta < 0`) position in a cycle of `len`.
pub fn cycle_index(index: usize, len: usize, delta: isize) -> (r: usize)
    requires
        cycle_fits(index as int, len as int, delta as int),
    ensures
        r == cycled(index as int, len as int, delta as int),
        r < len,
{
    if delta < 0 {
        (index + len - 1) % len
    } else {
        (index + 1) % len
    }
}

/// A step back through a cycle undoes a step forward, and a step forward undoes a step back.
pub proof fn lemma_cycle_steps_undo(index: int, len: int)
    requires
        0 <= index < len,
    ensures
        cycled(cycled(index, len, 1), len, -1) == index,
        cycled(cycled(index, len, -1), len, 1) == index,
{
    lemma_small_mod(index as nat, len as nat);
    if index + 1 < len {
        lemma_small_mod((index + 1) as nat, len as nat);
    } else {
        lemma_mod_self_0(len);
        lemma_small_mod((len - 1) as nat, len as nat);
    }
    lemma_mod_add_multiples_vanish(index, len);
    if index >= 1 {
        lemma_small_mod((index - 1) as nat, len as nat);
        lemma_mod_add_multiples_vanish(index - 1, len);
    } else {
        lemma_small_mod((len - 1) as nat, len as nat);
        lemma_mod_self_0(len);
    }
}

/// The statistics ranges in the order the interface cycles through them.
pub open spec fn range_order() -> Seq<Range> {
    seq![Range::Days7, Range::Days30, Range::Days90, Range::All]
}

/// The position of a range in [`range_order`].
pub open spec fn range_index(r: Range) -> int {
    match r {
        Range::Days7 => 0,
        Range::Days30 => 1,
        Range::Days90 => 2,
        Range::All => 3,
    }
}

/// The next or previous statistics range, wrapping around.
pub fn cycle_range(range: Range, delta: isize) -> (r: Range)
    ensures
        delta >= 0 ==> r == range_order()[(range_index(range) + 1) % 4],
        delta < 0 ==> r == range_order()[(range_index(range) + 3) % 4],
{
    let index: usize = match range {
        Range::Days7 => 0,
        Range::Days30 => 1,
        Range::Days90 => 2,
        Range::All => 3,
    };
    let next = cycle_index(index, 4, delta);
    if next == 0 {
        Range::Days7
    } else if next == 1 {
        Range::Days30
    } else if next == 2 {
        Range::Days90
    } else {
        Range::All
    }
}

/// The practice-mode filters in the order the interface cycles through them (all modes first).
pub open spec fn mode_order() -> Seq<Option<PracticeKind>> {
    seq![
        None,
        Some(PracticeKind::Quick),
        Some(PracticeKind::Key),
        Some(PracticeKind::Words),
        Some(PracticeKind::Sentence),
        Some(PracticeKind::Long),
        Some(PracticeKind::Test),
    ]
}

/// The position of a mode filter in [`mode_order`].
pub open spec fn mode_index(m: Option<PracticeKind>) -> int {
    match m {
        None => 0,
        Some(PracticeKind::Quick) => 1,
        Some(PracticeKind::Key) => 2,
        Some(PracticeKind::Words) => 3,
        Some(PracticeKind::Sentence) => 4,
        Some(PracticeKind::Long) => 5,
        Some(PracticeKind::Test) => 6,
    }
}

/// The mode filter at a position of [`mode_order`].
fn mode_at(index: usize) -> (r: Option<PracticeKind>)
    requires
        index < 7,
    ensures
        r == mode_order()[index as int],
{
    if index == 0 {
        None
    } else if index == 1 {
        Some(PracticeKind::Quick)
    } else if index == 2 {
        Some(PracticeKind::Key)
    } else if index == 3 {
        Some(PracticeKind::Words)
    } else if index == 4 {
        Some(PracticeKind::Sentence)
    } else if index == 5 {
        Some(PracticeKind::Long)
    } else {
        Some(PracticeKind::Test)
    }
}

/// The next or previous practice-mode filter, wrapping around.
pub fn cycle_mode(mode: Option<PracticeKind>, delta: isize) -> (r: Option<PracticeKind>)
    ensures
        delta >= 0 ==> r == mode_order()[(mode_index(mode) + 1) % 7],
        delta < 0 ==> r == mode_order()[(mode_index(mode) + 6) % 7],
{
    let index: usize = match mode {
        None => 0,
        Some(PracticeKind::Quick) => 1,
        Some(PracticeKind::Key) => 2,
        Some(PracticeKind::Words) => 3,
        Some(PracticeKind::Sentence) => 4,
        Some(PracticeKind::Long) => 5,
        Some(PracticeKind::Test) => 6,
    };
    mode_at(cycle_index(index, 7, delta))
}

/// The difficulties in the order the interface cycles through them.
pub open spec fn difficulty_order() -> Seq<Difficulty> {
    seq![Difficulty::Easy, Difficulty::Medium, Difficulty::Hard, Difficulty::Mixed]
}

/// The position of a difficulty in [`difficulty_order`].
pub open spec fn difficulty_index(d: Difficulty) -> int {
    match d {
        Difficulty::Easy => 0,
        Difficulty::Medium => 1,
        Difficulty::Hard => 2,
        Difficulty::Mixed => 3,
    }
}

/// The next or previous word difficulty, wrapping around.
pub fn cycle_difficulty(difficulty: Difficulty, delta: isize) -> (r: Difficulty)
    ensures
        delta >= 0 ==> r == difficulty_order()[(difficulty_index(difficulty) + 1) % 4],
        delta < 0 ==> r == difficulty_order()[(difficulty_index(difficulty) + 3) % 4],
{
    let index: usize = match difficulty {
        Difficulty::Easy => 0,
        Difficulty::Medium => 1,
        Difficulty::Hard => 2,
        Difficulty::Mixed => 3,
    };
    let next = cycle_index(index, 4, delta);
    if next == 0 {
        Difficulty::Easy
    } else if next == 1 {
        Difficulty::Medium
    } else if next == 2 {
        Difficulty::Hard
    } else {
        Difficulty::Mixed
    }
}

/// The next or previous game difficulty among easy, medium and hard, wrapping around; a
/// difficulty outside those counts as medium.
pub fn cycle_game_difficulty(difficulty: Difficulty, delta: isize) -> (r: Difficulty)
    ensures
        ({
            let i = match difficulty {
                Difficulty::Easy => 0int,
                Difficulty::Hard => 2int,
                _ => 1int,
            };
            let order = seq![Difficulty::Easy, Difficulty::Medium, Difficulty::Hard];
            &&& delta >= 0 ==> r == order[(i + 1) % 3]
            &&& delta < 0 ==> r == order[(i + 2) % 3]
        }),
{
    let index: usize = match difficulty {
        Difficulty::Easy => 0,
        Difficulty::Hard => 2,
        _ => 1,
    };
    let next = cycle_index(index, 3, delta);
    if next == 0 {
        Difficulty::Easy
    } else if next == 1 {
        Difficulty::Medium
    } else {
        Difficulty::Hard
    }
}

/// A setting stepped by `step` within `minimum..=maximum`: the value is first clamped, a step
/// down goes to the previous multiple of `step` (or one step lower when it is a multiple), a
/// step up goes to the next multiple, and the result is clamped again.
pub open spec fn adjusted_spec(value: u32, delta: int, step: u32, minimum: u32, maximum: u32) -> int {
    let v = if value < minimum {
        minimum as int
    } else if value > maximum {
        maximum as int
    } else {
        value as int
    };
    let next = if delta < 0 {
        if v % (step as int) == 0 {
            if v >= step {
                v - step
            } else {
                0
            }
        } else {
            v / (step as int) * (step as int)
        }
    } else if delta > 0 {
        let up = v / (step as int) * (step as int) + step;
        if up > u32::MAX {
            u32::MAX as int
        } else {
            up
        }
    } else {
        v
    };
    if next < minimum {
        minimum as int
    } else if next > maximum {
        maximum as int
    } else {
        next
    }
}

/// Steps a numeric setting; see [`adjusted_spec`].
pub fn adjusted(value: u32, delta: isize, step: u32, minimum: u32, maximum: u32) -> (r: u32)
    requires
        step > 0,
        minimum <= maximum,
    ensures
        r == adjusted_spec(value, delta as int, step, minimum, maximum),
{
    let value = if value < minimum {
        minimum
    } else if value > maximum {
        maximum
    } else {
        value
    };
    let next = if delta < 0 {
        if value % step == 0 {
            value.saturating_sub(step)
        } else {
            assert(value / step * step <= value) by (nonlinear_arith)
                requires
                    step > 0,
            ;
            value / step * step
        }
    } else if delta > 0 {
        assert(value / step * step <= value) by (nonlinear_arith)
            requires
                step > 0,
        ;
        (value / step * step).saturating_add(step)
    } else {
        value
    };
    if next < minimum {
        minimum
    } else if next > maximum {
        maximum
    } else {
        next
    }
}

/// The order in which content kinds are listed.
pub fn content_kind_order(kind: ContentKind) -> (r: u8)
    ensures
        r == match kind {
            ContentKind::Word => 0u8,
            ContentKind::Sentence => 1u8,
            ContentKind::Quote => 2u8,
            ContentKind::Text => 3u8,
        },
{
    match kind {
        ContentKind::Word => 0,
        ContentKind::Sentence => 1,
        ContentKind::Quote => 2,
        ContentKind::Text => 3,
    }
}

/// The identifier of a practice mode in saved records.
pub fn practice_id(kind: PracticeKind) -> (r: &'static str)
    ensures
        r@ == match kind {
            PracticeKind::Quick => "quick"@,
            PracticeKind::Key => "key"@,
            PracticeKind::Words => "words"@,
            PracticeKind::Sentence => "sentence"@,
            PracticeKind::Long => "long"@,
            PracticeKind::Test => "test"@,
        },
{
    match kind {
        PracticeKind::Quick => "quick",
        PracticeKind::Key => "key",
        PracticeKind::Words => "words",
        PracticeKind::Sentence => "sentence",
        PracticeKind::Long => "long",
        PracticeKind::Test => "test",
    }
}

/// The number of long texts in a language.
pub open spec fn long_count(catalog: CatalogView, language: Language) -> int {
    catalog.items.filter(
        |x: ResolvedItemView| x.language == language && x.kind == ContentKind::Text,
    ).len() as int
}

/// The other of the two languages.
pub open spec fn switched(language: Language) -> Language {
    match language {
        Language::Ko => Language::En,
        Language::En => Language::Ko,
    }
}

/// Adjusting the option at `focus` by `delta` stays within `usize`, given the number of long
/// texts in the options' language.
pub open spec fn adjustable(o: ModeOptions, focus: usize, delta: int, long: int) -> bool {
    match (o.kind, focus) {
        (PracticeKind::Quick, 3) => cycle_fits(o.quick_preset as int, 4, delta),
        (PracticeKind::Test, 1) => cycle_fits(o.test_preset as int, 4, delta),
        (PracticeKind::Test, 2) => long + 1 <= usize::MAX && cycle_fits(
            o.test_selection as int,
            long + 1,
            delta,
        ),
        _ => true,
    }
}

/// The mode options after the one at `focus` is adjusted by `delta`. The language (focus 0)
/// switches, and the key stage, the long text or the test text chosen is kept within what
/// the new language offers. For Quick, focus 1 switches between words and quotes, 2 between
/// an item count and a time limit, and 3 steps through the presets; for key practice, 1
/// steps through the stages and 2 and 3 toggle random order and weak-key repetition; for
/// words, 1 steps through the difficulties; for a test, 1 steps through the durations and 2
/// through the texts and the random choice after them.
pub open spec fn adjusted_options(o: ModeOptions, focus: usize, delta: int, catalog: CatalogView) -> ModeOptions {
    if focus == 0 {
        let language = switched(o.language);
        let long = long_count(catalog, language);
        match o.kind {
            PracticeKind::Key => ModeOptions {
                language,
                key_stage: if o.key_stage > stage_count(language) {
                    stage_count(language) as u8
                } else {
                    o.key_stage
                },
                ..o
            },
            PracticeKind::Long => ModeOptions {
                language,
                long_selection: if o.long_selection > long - 1 && long >= 1 {
                    (long - 1) as usize
                } else if long == 0 {
                    0
                } else {
                    o.long_selection
                },
                ..o
            },
            PracticeKind::Test => ModeOptions {
                language,
                test_selection: if o.test_selection > long {
                    long as usize
                } else {
                    o.test_selection
                },
                ..o
            },
            _ => ModeOptions { language, ..o },
        }
    } else {
        let long = long_count(catalog, o.language);
        match (o.kind, focus) {
            (PracticeKind::Quick, 1) => ModeOptions {
                quick_source: match o.quick_source {
                    QuickSource::Words => QuickSource::Quote,
                    QuickSource::Quote => QuickSource::Words,
                },
                ..o
            },
            (PracticeKind::Quick, 2) => ModeOptions { quick_items: !o.quick_items, ..o },
            (PracticeKind::Quick, 3) => ModeOptions {
                quick_preset: cycled(o.quick_preset as int, 4, delta) as usize,
                ..o
            },
            (PracticeKind::Key, 1) => ModeOptions {
                key_stage: (cycled(
                    if o.key_stage >= 1 {
                        o.key_stage - 1
                    } else {
                        0
                    },
                    stage_count(o.language) as int,
                    delta,
                ) + 1) as u8,
                ..o
            },
            (PracticeKind::Key, 2) => ModeOptions { key_random: !o.key_random, ..o },
            (PracticeKind::Key, 3) => ModeOptions { key_weak_repeat: !o.key_weak_repeat, ..o },
            (PracticeKind::Words, 1) => ModeOptions {
                word_difficulty: difficulty_order()[if delta >= 0 {
                    (difficulty_index(o.word_difficulty) + 1) % 4
                } else {
                    (difficulty_index(o.word_difficulty) + 3) % 4
                }],
                ..o
            },
            (PracticeKind::Test, 1) => ModeOptions {
                test_preset: cycled(o.test_preset as int, 4, delta) as usize,
                ..o
            },
            (PracticeKind::Test, 2) => ModeOptions {
                test_selection: cycled(o.test_selection as int, long + 1, delta) as usize,
                ..o
            },
            _ => o,
        }
    }
}

/// Adjusts the mode option at `focus` by `delta` (see [`adjusted_options`]); the focus itself
/// stays where it is.
pub fn adjust_mode_options(options: &mut ModeOptions, focus: usize, delta: isize, catalog: &ContentCatalog)
    requires
        adjustable(
            *old(options),
            focus,
            delta as int,
            long_count(catalog@, old(options).language),
        ),
    ensures
        *final(options) == adjusted_options(*old(options), focus, delta as int, catalog@),
{
    if focus == 0 {
        options.language = other_language(options.language);
        match options.kind {
            PracticeKind::Key => {
                let stages: u8 = match options.language {
                    Language::Ko => 7,
                    Language::En => 10,
                };
                if options.key_stage > stages {
                    options.key_stage = stages;
                }
            },
            PracticeKind::Long => {
                let item_count = catalog.count(options.language, ContentKind::Text);
                let last = item_count.saturating_sub(1);
                if options.long_selection > last {
                    options.long_selection = last;
                }
            },
            PracticeKind::Test => {
                let item_count = catalog.count(options.language, ContentKind::Text);
                if options.test_selection > item_count {
                    options.test_selection = item_count;
                }
            },
            _ => {},
        }
        return;
    }
    match (options.kind, focus) {
        (PracticeKind::Quick, 1) => {
            options.quick_source = match options.quick_source {
                QuickSource::Words => QuickSource::Quote,
                QuickSource::Quote => QuickSource::Words,
            };
        },
        (PracticeKind::Quick, 2) => {
            options.quick_items = !options.quick_items;
        },
        (PracticeKind::Quick, 3) => {
            options.quick_preset = cycle_index(options.quick_preset, 4, delta);
        },
        (PracticeKind::Key, 1) => {
            let stages: usize = match options.language {
                Language::Ko => 7,
                Language::En => 10,
            };
            let stage = cycle_index(options.key_stage.saturating_sub(1) as usize, stages, delta);
            options.key_stage = (stage + 1) as u8;
        },
        (PracticeKind::Key, 2) => {
            options.key_random = !options.key_random;
        },
        (PracticeKind::Key, 3) => {
            options.key_weak_repeat = !options.key_weak_repeat;
        },
        (PracticeKind::Words, 1) => {
            options.word_difficulty = cycle_difficulty(options.word_difficulty, delta);
        },
        (PracticeKind::Test, 1) => {
            options.test_preset = cycle_index(options.test_preset, 4, delta);
        },
        (PracticeKind::Test, 2) => {
            let item_count = catalog.count(options.language, ContentKind::Text);
            options.test_selection = cycle_index(options.test_selection, item_count + 1, delta);
        },
        _ => {},
    }
}

/// The long texts of a language, in catalog order; with a category, only those tagged with
/// it.
pub fn long_items<'a>(catalog: &'a ContentCatalog, language: Language, category: Option<&str>) -> (r:
    Vec<&'a ResolvedItem>)
    ensures
        r@.map_values(|x: &ResolvedItem| x@) == catalog@.items.filter(
            |x: ResolvedItemView| x.language == language && x.kind == ContentKind::Text && (
            category matches Some(tag) ==> x.tags.contains(tag@)),
        ),
{
    let items = catalog.items();
    let ghost pred = |x: ResolvedItemView| x.language == language && x.kind == ContentKind::Text && (
    category matches Some(tag) ==> x.tags.contains(tag@));
    let mut selected: Vec<&'a ResolvedItem> = Vec::new();
    for i in 0..items.len()
        invariant
            crate::content::resolved_views(items@) == catalog@.items,
            selected@.map_values(|x: &ResolvedItem| x@) == catalog@.items.take(i as int).filter(pred),
            pred == (|x: ResolvedItemView| x.language == language && x.kind == ContentKind::Text && (
            category matches Some(tag) ==> x.tags.contains(tag@))),
    {
        let item = &items[i];
        proof {
            catalog@.items.take(i as int).lemma_filter_push(catalog@.items[i as int], pred);
            assert(catalog@.items.take(i + 1) =~= catalog@.items.take(i as int).push(catalog@.items[i as int]));
            assert(item@ == catalog@.items[i as int]);
        }
        let mut tagged = true;
        match category {
            Some(tag) => {
                tagged = false;
                for t in 0..item.tags.len()
                    invariant
                        tagged == exists|m: int| 0 <= m < t && item.tags@[m]@ == tag@,
                {
                    if crate::text::str_eq(item.tags[t].as_str(), tag) {
                        tagged = true;
                    }
                }
                proof {
                    assert(tagged == item@.tags.contains(tag@)) by {
                        if tagged {
                            let m = choose|m: int| 0 <= m < item.tags@.len() && item.tags@[m]@ == tag@;
                            assert(item@.tags[m] == tag@);
                        }
                        if item@.tags.contains(tag@) {
                            let m = choose|m: int| 0 <= m < item@.tags.len() && item@.tags[m] == tag@;
                            assert(item.tags@[m]@ == tag@);
                        }
                    }
                }
            },
            None => {},
        }
        if item.language == language && item.kind == ContentKind::Text && tagged {
            let ghost before = selected@;
            selected.push(item);
            assert(selected@.map_values(|x: &ResolvedItem| x@) =~= before.map_values(|x: &ResolvedItem| x@).push(item@));
        }
    }
    assert(catalog@.items.take(items@.len() as int) =~= catalog@.items);
    selected
}

/// One stage of key practice: its title and the keys it drills.
#[derive(Clone, Debug, PartialEq, Eq)]
pub struct KeyStage {
    pub title: String,
    pub keys: Vec<char>,
}

/// The digits, symbols and space that the last stage of either layout adds.
pub open spec fn symbol_keys() -> Seq<char> {
    seq![
        '1', '2', '3', '4', '5', '6', '7', '8', '9', '0', '!', '@', '#', '$', '%', '^', '&', '*',
        '(', ')', '-', '_', '=', '+', '[', '{', ']', '}', '\\', '|', '\'', '"', ',', '<', '.',
        '>', '/', '?', '`', '~', ' ',
    ]
}

/// The keys that English stage `n` (1..=10) adds to the stage before it.
pub open spec fn en_new_keys(n: int) -> Seq<char> {
    if n == 1 {
        seq!['f', 'j']
    } else if n == 2 {
        seq!['d', 'k']
    } else if n == 3 {
        seq!['s', 'l']
    } else if n == 4 {
        seq!['a', ';']
    } else if n == 5 {
        seq!['g', 'h']
    } else if n == 6 {
        seq!['e', 'i']
    } else if n == 7 {
        seq!['r', 'u', 't', 'y', 'w', 'o', 'q', 'p']
    } else if n == 8 {
        seq!['c', 'v', 'b', 'n', 'm', 'x', 'z']
    } else if n == 9 {
        seq![
            'A', 'B', 'C', 'D', 'E', 'F', 'G', 'H', 'I', 'J', 'K', 'L', 'M', 'N', 'O', 'P', 'Q',
            'R', 'S', 'T', 'U', 'V', 'W', 'X', 'Y', 'Z', ':',
        ]
    } else {
        symbol_keys()
    }
}

/// The keys that Korean stage `n` (1..=7) adds to the stage before it.
pub open spec fn ko_new_keys(n: int) -> Seq<char> {
    if n == 1 {
        seq!['ㅁ', 'ㄴ', 'ㅇ', 'ㄹ']
    } else if n == 2 {
        seq!['ㅎ', 'ㅗ', 'ㅓ', 'ㅏ']
    } else if n == 3 {
        seq!['ㅣ', 'ㅋ', 'ㅌ', 'ㅊ', 'ㅍ', 'ㅠ', 'ㅜ', 'ㅡ']
    } else if n == 4 {
        seq!['ㅂ', 'ㅈ', 'ㄷ', 'ㄱ', 'ㅅ']
    } else if n == 5 {
        seq!['ㅛ', 'ㅕ', 'ㅑ', 'ㅐ', 'ㅔ']
    } else if n == 6 {
        seq!['ㅃ', 'ㅉ', 'ㄸ', 'ㄲ', 'ㅆ', 'ㅒ', 'ㅖ']
    } else {
        symbol_keys()
    }
}

/// The number of key stages of a layout.
pub open spec fn stage_count(language: Language) -> nat {
    match language {
        Language::Ko => 7,
        Language::En => 10,
    }
}

/// The keys that stage `n` of a layout adds.
pub open spec fn new_keys(language: Language, n: int) -> Seq<char> {
    match language {
        Language::Ko => ko_new_keys(n),
        Language::En => en_new_keys(n),
    }
}

/// The keys of stage `n` (counted from 1): each stage drills the keys of the stage before it
/// and the keys it adds.
pub open spec fn stage_keys(language: Language, n: nat) -> Seq<char>
    decreases n,
{
    if n <= 1 {
        new_keys(language, 1)
    } else {
        stage_keys(language, (n - 1) as nat) + new_keys(language, n as int)
    }
}

/// The title of stage `n` of a layout.
pub open spec fn stage_title(language: Language, n: int) -> Seq<char> {
    match language {
        Language::En => if n == 1 {
            "F/J"@
        } else if n == 2 {
            "D/K"@
        } else if n == 3 {
            "S/L"@
        } else if n == 4 {
            "A/;"@
        } else if n == 5 {
            "Home row"@
        } else if n == 6 {
            "E/I"@
        } else if n == 7 {
            "Top row"@
        } else if n == 8 {
            "Letters"@
        } else if n == 9 {
            "Shift"@
        } else {
            "Full keyboard"@
        },
        Language::Ko => if n == 1 {
            "기본자리 1"@
        } else if n == 2 {
            "기본자리 2"@
        } else if n == 3 {
            "아랫줄"@
        } else if n == 4 {
            "윗줄 자음"@
        } else if n == 5 {
            "윗줄 모음"@
        } else if n == 6 {
            "Shift 조합"@
        } else {
            "전체 자판"@
        },
    }
}

/// Appends the keys of a slice to a list of keys.
fn push_keys(keys: &mut Vec<char>, more: &[char])
    ensures
        final(keys)@ == old(keys)@ + more@,
{
    for i in 0..more.len()
        invariant
            keys@ == old(keys)@ + more@.subrange(0, i as int),
    {
        keys.push(more[i]);
        assert(keys@ =~= old(keys)@ + more@.subrange(0, i + 1));
    }
    assert(more@.subrange(0, more@.len() as int) =~= more@);
}

/// Appends the digits, symbols and space of the last stage.
fn push_symbol_keys(keys: &mut Vec<char>)
    ensures
        final(keys)@ == old(keys)@ + symbol_keys(),
{
    let symbols = [
        '1', '2', '3', '4', '5', '6', '7', '8', '9', '0', '!', '@', '#', '$', '%', '^', '&', '*',
        '(', ')', '-', '_', '=', '+', '[', '{', ']', '}', '\\', '|', '\'', '"', ',', '<', '.',
        '>', '/', '?', '`', '~', ' ',
    ];
    assert(symbols@ =~= symbol_keys());
    push_keys(keys, &symbols);
}

/// Appends the keys that stage `n` of a layout adds.
fn push_new_keys(language: Language, n: usize, keys: &mut Vec<char>)
    requires
        1 <= n <= stage_count(language),
    ensures
        final(keys)@ == old(keys)@ + new_keys(language, n as int),
{
    match language {
        Language::En => {
            if n == 1 {
                let k = ['f', 'j'];
                assert(k@ =~= en_new_keys(1));
                push_keys(keys, &k);
            } else if n == 2 {
                let k = ['d', 'k'];
                assert(k@ =~= en_new_keys(2));
                push_keys(keys, &k);
            } else if n == 3 {
                let k = ['s', 'l'];
                assert(k@ =~= en_new_keys(3));
                push_keys(keys, &k);
            } else if n == 4 {
                let k = ['a', ';'];
                assert(k@ =~= en_new_keys(4));
                push_keys(keys, &k);
            } else if n == 5 {
                let k = ['g', 'h'];
                assert(k@ =~= en_new_keys(5));
                push_keys(keys, &k);
            } else if n == 6 {
                let k = ['e', 'i'];
                assert(k@ =~= en_new_keys(6));
                push_keys(keys, &k);
            } else if n == 7 {
                let k = ['r', 'u', 't', 'y', 'w', 'o', 'q', 'p'];
                assert(k@ =~= en_new_keys(7));
                push_keys(keys, &k);
            } else if n == 8 {
                let k = ['c', 'v', 'b', 'n', 'm', 'x', 'z'];
                assert(k@ =~= en_new_keys(8));
                push_keys(keys, &k);
            } else if n == 9 {
                let k = [
                    'A', 'B', 'C', 'D', 'E', 'F', 'G', 'H', 'I', 'J', 'K', 'L', 'M', 'N', 'O', 'P',
                    'Q', 'R', 'S', 'T', 'U', 'V', 'W', 'X', 'Y', 'Z', ':',
                ];
                assert(k@ =~= en_new_keys(9));
                push_keys(keys, &k);
            } else {
                push_symbol_keys(keys);
            }
        },
        Language::Ko => {
            if n == 1 {
                let k = ['ㅁ', 'ㄴ', 'ㅇ', 'ㄹ'];
                assert(k@ =~= ko_new_keys(1));
                push_keys(keys, &k);
            } else if n == 2 {
                let k = ['ㅎ', 'ㅗ', 'ㅓ', 'ㅏ'];
                assert(k@ =~= ko_new_keys(2));
                push_keys(keys, &k);
            } else if n == 3 {
                let k = ['ㅣ', 'ㅋ', 'ㅌ', 'ㅊ', 'ㅍ', 'ㅠ', 'ㅜ', 'ㅡ'];
                assert(k@ =~= ko_new_keys(3));
                push_keys(keys, &k);
            } else if n == 4 {
                let k = ['ㅂ', 'ㅈ', 'ㄷ', 'ㄱ', 'ㅅ'];
                assert(k@ =~= ko_new_keys(4));
                push_keys(keys, &k);
            } else if n == 5 {
                let k = ['ㅛ', 'ㅕ', 'ㅑ', 'ㅐ', 'ㅔ'];
                assert(k@ =~= ko_new_keys(5));
                push_keys(keys, &k);
            } else if n == 6 {
                let k = ['ㅃ', 'ㅉ', 'ㄸ', 'ㄲ', 'ㅆ', 'ㅒ', 'ㅖ'];
                assert(k@ =~= ko_new_keys(6));
                push_keys(keys, &k);
            } else {
                push_symbol_keys(keys);
            }
        },
    }
}

/// The title of stage `n` of a layout.
fn stage_title_of(language: Language, n: usize) -> (r: String)
    ensures
        r@ == stage_title(language, n as int),
{
    let title = match language {
        Language::En => if n == 1 {
            "F/J"
        } else if n == 2 {
            "D/K"
        } else if n == 3 {
            "S/L"
        } else if n == 4 {
            "A/;"
        } else if n == 5 {
            "Home row"
        } else if n == 6 {
            "E/I"
        } else if n == 7 {
            "Top row"
        } else if n == 8 {
            "Letters"
        } else if n == 9 {
            "Shift"
        } else {
            "Full keyboard"
        },
        Language::Ko => if n == 1 {
            "기본자리 1"
        } else if n == 2 {
            "기본자리 2"
        } else if n == 3 {
            "아랫줄"
        } else if n == 4 {
            "윗줄 자음"
        } else if n == 5 {
            "윗줄 모음"
        } else if n == 6 {
            "Shift 조합"
        } else {
            "전체 자판"
        },
    };
    title.to_owned()
}

/// The key-practice stages of a layout, from the home-row keys to the full keyboard.
pub fn key_stages(language: Language) -> (r: Vec<KeyStage>)
    ensures
        r@.len() == stage_count(language),
        forall|i: int|
            0 <= i < r@.len() ==> (#[trigger] r@[i]).keys@ == stage_keys(language, (i + 1) as nat)
                && r@[i].title@ == stage_title(language, i + 1),
{
    let count: usize = match language {
        Language::Ko => 7,
        Language::En => 10,
    };
    let mut stages: Vec<KeyStage> = Vec::new();
    let mut keys: Vec<char> = Vec::new();
    for n in 1..count + 1
        invariant
            count == stage_count(language),
            stages@.len() == n - 1,
            n >= 2 ==> keys@ == stage_keys(language, (n - 1) as nat),
            forall|i: int|
                0 <= i < stages@.len() ==> (#[trigger] stages@[i]).keys@ == stage_keys(
                    language,
                    (i + 1) as nat,
                ) && stages@[i].title@ == stage_title(language, i + 1),
    {
        if n == 1 {
            keys = Vec::new();
        }
        let ghost before = keys@;
        push_new_keys(language, n, &mut keys);
        assert(keys@ == stage_keys(language, n as nat)) by {
            if n == 1 {
                assert(before =~= Seq::<char>::empty());
                assert(keys@ =~= new_keys(language, 1));
            }
        }
        stages.push(KeyStage { title: stage_title_of(language, n), keys: keys.clone() });
    }
    stages
}

/// The key-practice stage numbered `stage` (from 1); any other number is refused.
pub fn key_stage(language: Language, stage: u8) -> (r: Result<KeyStage, String>)
    ensures
        r is Ok <==> 1 <= stage <= stage_count(language),
        r matches Ok(s) ==> s.keys@ == stage_keys(language, stage as nat) && s.title@
            == stage_title(language, stage as int),
        r matches Err(m) ==> m@ == "invalid key-practice stage"@,
{
    let mut stages = key_stages(language);
    if stage < 1 || stage as usize > stages.len() {
        return Err("invalid key-practice stage".to_owned());
    }
    Ok(stages.remove(stage as usize - 1))
}

/// What `fastrand::Rng::shuffle` does on a generator holding `seed`, for a list of `len`
/// items, on a machine whose `usize` has `bits` bits: position `i` then holds the item that
/// was at position `.0[i]`, and the generator holds `.1` afterwards.
pub uninterp spec fn shuffled_by(seed: u64, len: nat, bits: u32) -> (Seq<int>, u64);

/// A list put in an order: position `i` holds the item at `order[i]`.
pub open spec fn permuted<A>(s: Seq<A>, order: Seq<int>) -> Seq<A> {
    Seq::new(s.len(), |i: int| s[order[i]])
}

/// Calls `fastrand::Rng::with_seed(seed)`, `Rng::shuffle` on `items`, then `Rng::get_seed`.
/// Claimed: the shuffle only swaps items, at positions drawn from the generator alone, so
/// the new order and the generator's state afterwards depend on the seed, the length and the
/// width of `usize` only (named [`shuffled_by`]); the items are the same ones; and the
/// returned value is the state afterwards, from which `with_seed` rebuilds the generator.
#[verifier::external_body]
pub(crate) fn shuffle_seeded<T>(seed: u64, bits: u32, items: &mut Vec<T>) -> (next: u64)
    requires
        bits == usize::BITS,
    ensures
        final(items)@.to_multiset() == old(items)@.to_multiset(),
        final(items)@.len() == old(items)@.len(),
        forall|i: int|
            0 <= i < old(items)@.len() ==> 0 <= #[trigger] shuffled_by(
                seed,
                old(items)@.len(),
                bits,
            ).0[i] < old(items)@.len(),
        final(items)@ == permuted(old(items)@, shuffled_by(seed, old(items)@.len(), bits).0),
        next == shuffled_by(seed, old(items)@.len(), bits).1,
{
    let mut rng = fastrand::Rng::with_seed(seed);
    rng.shuffle(items);
    rng.get_seed()
}

/// The cycle as pass `p` of a random key sequence types it: one generator seeded with
/// `seed` shuffles the cycle before every pass, each pass starting from the order before.
/// Also the generator's state after that pass.
pub open spec fn shuffled_pass(cycle: Seq<char>, seed: u64, p: nat) -> (Seq<char>, u64)
    decreases p,
{
    let (prev, state) = if p == 0 {
        (cycle, seed)
    } else {
        shuffled_pass(cycle, seed, (p - 1) as nat)
    };
    let (order, next) = shuffled_by(state, cycle.len(), usize::BITS);
    (permuted(prev, order), next)
}

/// The number of keys in a key-practice sequence.
pub open spec fn key_sequence_units() -> nat {
    120
}

/// The weak keys that the first `n` weak keys add to a stage's cycle: each weak key of the
/// stage, at its first mention, twice.
pub open spec fn weak_extension(keys: Seq<char>, weak: Seq<char>, n: nat) -> Seq<char>
    decreases n,
{
    if n == 0 {
        seq![]
    } else {
        let w = weak[n - 1];
        weak_extension(keys, weak, (n - 1) as nat) + if keys.contains(w) && !weak.take(
            n - 1,
        ).contains(w) {
            seq![w, w]
        } else {
            seq![]
        }
    }
}

/// The cycle of keys a stage drills: the stage's keys, then each of its weak keys twice.
pub open spec fn key_cycle(language: Language, stage: nat, weak: Seq<char>) -> Seq<char> {
    let keys = stage_keys(language, stage);
    keys + weak_extension(keys, weak, weak.len())
}

/// Whether a key is in a list of keys.
fn has_key(keys: &Vec<char>, key: char) -> (r: bool)
    ensures
        r == keys@.contains(key),
{
    for i in 0..keys.len()
        invariant
            forall|j: int| 0 <= j < i ==> keys@[j] != key,
    {
        if keys[i] == key {
            return true;
        }
    }
    false
}

/// Whether a key is among the first `n` of a slice.
fn has_key_before(keys: &[char], n: usize, key: char) -> (r: bool)
    requires
        n <= keys@.len(),
    ensures
        r == keys@.take(n as int).contains(key),
{
    for i in 0..n
        invariant
            n <= keys@.len(),
            forall|j: int| 0 <= j < i ==> keys@[j] != key,
    {
        if keys[i] == key {
            assert(keys@.take(n as int)[i as int] == key);
            return true;
        }
    }
    assert forall|j: int| 0 <= j < n implies keys@.take(n as int)[j] != key by {
        assert(keys@.take(n as int)[j] == keys@[j]);
    }
    false
}

/// Pass `p` through a cycle of `len` keys in a key sequence.
pub open spec fn key_pass(s: Seq<char>, p: int, len: int) -> Seq<char> {
    s.subrange(p * len, p * len + len)
}

/// A key-practice sequence of 120 keys for a stage. The stage's keys, then each of its weak
/// keys twice, form a cycle that is repeated in order, or reshuffled before every pass when
/// `random` is set. A stage number outside the layout is refused.
pub fn key_sequence(language: Language, stage: u8, random: bool, weak: &[char], seed: u64) -> (r:
    Result<String, String>)
    ensures
        r is Ok <==> 1 <= stage <= stage_count(language),
        r matches Err(m) ==> m@ == "invalid key-practice stage"@,
        r matches Ok(s) ==> {
            let cycle = key_cycle(language, stage as nat, weak@);
            &&& s@.len() == key_sequence_units()
            &&& !random ==> s@ == Seq::new(key_sequence_units(), |i: int| cycle[i % cycle.len() as int])
            &&& random ==> s@ == Seq::new(
                key_sequence_units(),
                |i: int| shuffled_pass(cycle, seed, (i / cycle.len() as int) as nat).0[i % cycle.len() as int],
            )
            &&& forall|i: int| 0 <= i < s@.len() ==> cycle.contains(#[trigger] s@[i])
            &&& forall|p: int|
                0 <= p && (p + 1) * cycle.len() <= key_sequence_units() ==> #[trigger] key_pass(
                    s@,
                    p,
                    cycle.len() as int,
                ).to_multiset() == cycle.to_multiset()
        },
{
    let stage_info = match key_stage(language, stage) {
        Ok(s) => s,
        Err(m) => {
            return Err(m);
        },
    };
    let keys = stage_info.keys;
    let ghost kv = keys@;
    let mut cycle = keys.clone();
    for n in 0..weak.len()
        invariant
            kv == keys@,
            cycle@ == kv + weak_extension(kv, weak@, n as nat),
    {
        let w = weak[n];
        if has_key(&keys, w) && !has_key_before(weak, n, w) {
            cycle.push(w);
            cycle.push(w);
        }
        assert(cycle@ =~= kv + weak_extension(kv, weak@, (n + 1) as nat));
    }
    let ghost cycle0 = cycle@;
    assert(cycle0 == key_cycle(language, stage as nat, weak@));
    assert(kv.len() > 0) by {
        reveal_with_fuel(stage_keys, 2);
    }
    let len = cycle.len();
    let mut state: u64 = seed;
    let mut sequence = String::new();
    let mut count: usize = 0;
    let ghost mut passes: int = 0;
    assert(cycle0.len() > 0);
    assert(len == cycle@.len());
    assert(sequence@ =~= Seq::new(0, |i: int| cycle0[i % len as int]));
    while count < 120
        invariant
            len == cycle@.len(),
            len == cycle0.len(),
            len > 0,
            cycle@.to_multiset() == cycle0.to_multiset(),
            !random ==> cycle@ == cycle0,
            count == sequence@.len(),
            count <= 120,
            count < 120 ==> count == passes * len,
            passes >= 0,
            !random ==> sequence@ == Seq::new(count as nat, |i: int| cycle0[i % len as int]),
            forall|i: int| 0 <= i < sequence@.len() ==> cycle0.contains(#[trigger] sequence@[i]),
            passes * len <= count,
            forall|p: int|
                0 <= p < passes ==> #[trigger] key_pass(sequence@, p, len as int).to_multiset()
                    == cycle0.to_multiset(),
            count == 120 ==> passes * len == 120 || (passes + 1) * len > 120,
            random && count < 120 && passes == 0 ==> cycle@ == cycle0 && state == seed,
            random && count < 120 && passes > 0 ==> cycle@ == shuffled_pass(cycle0, seed, (passes - 1) as nat).0
                && state == shuffled_pass(cycle0, seed, (passes - 1) as nat).1,
            random ==> sequence@ == Seq::new(
                count as nat,
                |i: int| shuffled_pass(cycle0, seed, (i / len as int) as nat).0[i % len as int],
            ),
        decreases 120 - count,
    {
        if random {
            let ghost prev = cycle@;
            state = shuffle_seeded(state, usize::BITS, &mut cycle);
            proof {
                vstd::seq_lib::to_multiset_len(cycle@);
                vstd::seq_lib::to_multiset_len(cycle0);
                reveal_with_fuel(shuffled_pass, 1);
                assert(cycle@ == shuffled_pass(cycle0, seed, passes as nat).0);
                assert(state == shuffled_pass(cycle0, seed, passes as nat).1);
            }
        }
        let ghost base = count;
        let ghost start = sequence@;
        let mut k: usize = 0;
        while k < len && count < 120
            invariant
                len == cycle@.len(),
                len == cycle0.len(),
                len > 0,
                cycle@.to_multiset() == cycle0.to_multiset(),
                !random ==> cycle@ == cycle0,
                count == sequence@.len(),
                count <= 120,
                k <= len,
                count == base + k,
                base == passes * len,
                passes >= 0,
                !random ==> sequence@ == Seq::new(count as nat, |i: int| cycle0[i % len as int]),
                forall|i: int| 0 <= i < sequence@.len() ==> cycle0.contains(#[trigger] sequence@[i]),
                sequence@ == start + cycle@.take(k as int),
                start.len() == base,
                random ==> cycle@ == shuffled_pass(cycle0, seed, passes as nat).0
                    && state == shuffled_pass(cycle0, seed, passes as nat).1,
                random ==> sequence@ == Seq::new(
                    count as nat,
                    |i: int| shuffled_pass(cycle0, seed, (i / len as int) as nat).0[i % len as int],
                ),
            decreases len - k,
        {
            let key = cycle[k];
            proof {
                lemma_mod_multiples_vanish(passes, k as int, len as int);
                lemma_small_mod(k as nat, len as nat);
                assert((len * passes + k) % (len as int) == k);
                assert(passes * len == len * passes) by (nonlinear_arith);
                assert(cycle@.contains(key));
                vstd::seq_lib::to_multiset_contains(cycle@, key);
                vstd::seq_lib::to_multiset_contains(cycle0, key);
            }
            let ghost before = sequence@;
            crate::text::push_char(&mut sequence, key);
            count += 1;
            k += 1;
            proof {
                assert(sequence@ =~= start + cycle@.take(k as int));
                if !random {
                    assert(sequence@ =~= Seq::new(count as nat, |i: int| cycle0[i % len as int]));
                } else {
                    vstd::arithmetic::div_mod::lemma_fundamental_div_mod_converse(
                        (count - 1) as int,
                        len as int,
                        passes,
                        (k - 1) as int,
                    );
                    assert(sequence@ =~= Seq::new(
                        count as nat,
                        |i: int| shuffled_pass(cycle0, seed, (i / len as int) as nat).0[i % len as int],
                    ));
                }
                assert forall|i: int| 0 <= i < sequence@.len() implies cycle0.contains(
                    #[trigger] sequence@[i],
                ) by {
                    if i < before.len() {
                        assert(sequence@[i] == before[i]);
                    }
                }
            }
        }
        proof {
            assert forall|p: int| 0 <= p < passes implies #[trigger] key_pass(
                sequence@,
                p,
                len as int,
            ).to_multiset() == cycle0.to_multiset() by {
                assert(0 <= p * len && p * len + len <= passes * len) by (nonlinear_arith)
                    requires
                        0 <= p,
                        p + 1 <= passes,
                        len > 0,
                ;
                assert(key_pass(sequence@, p, len as int) =~= key_pass(start, p, len as int));
            }
            if k == len {
                assert(key_pass(sequence@, passes, len as int) =~= cycle@) by {
                    assert(cycle@.take(len as int) =~= cycle@);
                }
                passes = passes + 1;
                assert(count == passes * len) by (nonlinear_arith)
                    requires
                        count == base + len,
                        base == (passes - 1) * len,
                ;
            } else {
                assert((passes + 1) * len > 120) by (nonlinear_arith)
                    requires
                        count == base + k,
                        k < len,
                        count == 120,
                        base == passes * len,
                ;
            }
        }
    }
    proof {
        assert forall|p: int| 0 <= p && (p + 1) * cycle0.len() <= 120 implies #[trigger] key_pass(
            sequence@,
            p,
            cycle0.len() as int,
        ).to_multiset() == cycle0.to_multiset() by {
            assert(p < passes) by (nonlinear_arith)
                requires
                    (p + 1) * len <= 120,
                    passes * len == 120 || (passes + 1) * len > 120,
                    len > 0,
            ;
        }
    }
    Ok(sequence)
}

/// Where a stream of practice content is drawn from and how its items are joined.
#[derive(Clone, Debug)]
pub struct CatalogStream {
    pub language: Language,
    pub kinds: Vec<ContentKind>,
    pub difficulty: Difficulty,
    pub separator: String,
    pub next_seed: u64,
    pub adaptive: bool,
}

/// An item matches a stream: same language, one of its kinds, and its difficulty unless the
/// stream is mixed.
pub open spec fn stream_matches(
    item: ResolvedItemView,
    language: Language,
    kinds: Seq<ContentKind>,
    difficulty: Difficulty,
) -> bool {
    item.language == language && kinds.contains(item.kind) && match difficulty {
        Difficulty::Easy => item.difficulty == Some(1u8),
        Difficulty::Medium => item.difficulty == Some(2u8),
        Difficulty::Hard => item.difficulty == Some(3u8),
        Difficulty::Mixed => true,
    }
}

/// Whether an item belongs to a stream.
pub fn catalog_match(item: &ResolvedItem, stream: &CatalogStream) -> (r: bool)
    ensures
        r == stream_matches(item@, stream.language, stream.kinds@, stream.difficulty),
{
    let mut listed = false;
    for k in 0..stream.kinds.len()
        invariant
            listed == exists|m: int| 0 <= m < k && stream.kinds@[m] == item.kind,
    {
        if stream.kinds[k] == item.kind {
            listed = true;
        }
    }
    item.language == stream.language && listed && match stream.difficulty {
        Difficulty::Easy => item.difficulty == Some(1u8),
        Difficulty::Medium => item.difficulty == Some(2u8),
        Difficulty::Hard => item.difficulty == Some(3u8),
        Difficulty::Mixed => true,
    }
}

/// The views of a list of items.
pub open spec fn item_views(v: Seq<&ResolvedItem>) -> Seq<ResolvedItemView> {
    v.map_values(|x: &ResolvedItem| x@)
}

/// The catalog items a stream draws from, in catalog order.
pub open spec fn stream_pool(catalog: CatalogView, stream: CatalogStream) -> Seq<ResolvedItemView> {
    catalog.items.filter(
        |x: ResolvedItemView| stream_matches(x, stream.language, stream.kinds@, stream.difficulty),
    )
}

/// A list of items is in increasing ID order (items with the same ID in any order).
pub open spec fn sorted_by_item_id(v: Seq<ResolvedItemView>) -> bool {
    forall|i: int, j: int| 0 <= i < j < v.len() ==> !crate::text::text_lt(v[j].id, v[i].id)
}

/// The items of the catalog that a stream draws from, in increasing ID order.
#[verifier::spinoff_prover]
#[verifier::rlimit(40)]
fn matching_by_id<'a>(catalog: &'a ContentCatalog, stream: &CatalogStream) -> (r: Vec<&'a ResolvedItem>)
    ensures
        forall|v: ResolvedItemView|
            item_views(r@).contains(v) <==> stream_pool(catalog@, *stream).contains(v),
        sorted_by_item_id(item_views(r@)),
{
    let items = catalog.items();
    let ghost pred = |x: ResolvedItemView|
        stream_matches(x, stream.language, stream.kinds@, stream.difficulty);
    let mut out: Vec<&'a ResolvedItem> = Vec::new();
    for i in 0..items.len()
        invariant
            crate::content::resolved_views(items@) == catalog@.items,
            pred == (|x: ResolvedItemView|
                stream_matches(x, stream.language, stream.kinds@, stream.difficulty)),
            forall|v: ResolvedItemView|
                item_views(out@).contains(v) <==> catalog@.items.take(i as int).filter(pred).contains(v),
            sorted_by_item_id(item_views(out@)),
    {
        let item = &items[i];
        proof {
            catalog@.items.take(i as int).lemma_filter_push(catalog@.items[i as int], pred);
            assert(catalog@.items.take(i + 1) =~= catalog@.items.take(i as int).push(catalog@.items[i as int]));
            assert(item@ == catalog@.items[i as int]);
        }
        if catalog_match(item, stream) {
            let mut p: usize = 0;
            while p < out.len() && !crate::text::str_lt(item.id.as_str(), out[p].id.as_str())
                invariant
                    p <= out@.len(),
                    forall|q: int| 0 <= q < p ==> !crate::text::text_lt(item.id@, out@[q].id@),
                decreases out@.len() - p,
            {
                p += 1;
            }
            let ghost before = out@;
            out.insert(p, item);
            proof {
                before.insert_ensures(p as int, item);
                let bv = item_views(before);
                let nv = item_views(out@);
                assert(nv.len() == bv.len() + 1);
                assert forall|k: int| 0 <= k < nv.len() implies nv[k] == (if k < p {
                    bv[k]
                } else if k == p {
                    item@
                } else {
                    bv[k - 1]
                }) by {
                    if k > p {
                        assert(out@[k] == before[k - 1]);
                    }
                }
                assert forall|v: ResolvedItemView| nv.contains(v) <==> (bv.contains(v) || v == item@) by {
                    if nv.contains(v) {
                        let k = choose|k: int| 0 <= k < nv.len() && nv[k] == v;
                        if k < p {
                            assert(bv[k] == v);
                        } else if k > p {
                            assert(bv[k - 1] == v);
                        }
                    }
                    if bv.contains(v) {
                        let k = choose|k: int| 0 <= k < bv.len() && bv[k] == v;
                        if k < p {
                            assert(nv[k] == v);
                        } else {
                            assert(nv[k + 1] == v);
                        }
                    }
                    if v == item@ {
                        assert(nv[p as int] == v);
                    }
                }
                assert forall|a: int, b: int| 0 <= a < b < nv.len() implies !crate::text::text_lt(
                    nv[b].id,
                    nv[a].id,
                ) by {
                    if b < p {
                    } else if b == p {
                        assert(nv[a] == bv[a]);
                    } else if a < p {
                        assert(nv[a] == bv[a]);
                        assert(nv[b] == bv[b - 1]);
                    } else if a == p {
                        assert(nv[b] == bv[b - 1]);
                        crate::text::lemma_text_lt_total(item.id@, bv[p as int].id);
                        if crate::text::text_lt(bv[b - 1].id, item.id@) {
                            crate::text::lemma_text_lt_transitive(bv[b - 1].id, item.id@, bv[p as int].id);
                            crate::text::lemma_text_lt_total(bv[b - 1].id, bv[p as int].id);
                        }
                    } else {
                        assert(nv[a] == bv[a - 1]);
                        assert(nv[b] == bv[b - 1]);
                    }
                }
                let f_old = catalog@.items.take(i as int).filter(pred);
                let f_new = catalog@.items.take(i + 1).filter(pred);
                assert(f_new == f_old.push(item@));
                assert forall|v: ResolvedItemView| f_new.contains(v) <==> (f_old.contains(v) || v
                    == item@) by {
                    if f_new.contains(v) {
                        let k = choose|k: int| 0 <= k < f_new.len() && f_new[k] == v;
                        if k < f_old.len() {
                            assert(f_old[k] == v);
                        }
                    }
                    if f_old.contains(v) {
                        let k = choose|k: int| 0 <= k < f_old.len() && f_old[k] == v;
                        assert(f_new[k] == v);
                    }
                    if v == item@ {
                        assert(f_new[f_old.len() as int] == v);
                    }
                }
            }
        } else {
            assert(catalog@.items.take(i + 1).filter(pred) == catalog@.items.take(i as int).filter(pred));
        }
    }
    assert(catalog@.items.take(items@.len() as int) =~= catalog@.items);
    out
}

/// Some item of a list has this ID.
pub open spec fn has_id(items: Seq<ResolvedItemView>, id: Seq<char>) -> bool {
    exists|i: int| 0 <= i < items.len() && items[i].id == id
}

/// The ID to exclude, as characters.
pub open spec fn excluded_view(excluded: Option<&str>) -> Option<Seq<char>> {
    match excluded {
        Some(x) => Some(x@),
        None => None,
    }
}

/// What excluding an ID leaves of a list of items: those with another ID, unless no item has
/// another ID.
pub open spec fn without_id(items: Seq<ResolvedItemView>, excluded: Option<Seq<char>>) -> Seq<
    ResolvedItemView,
> {
    match excluded {
        Some(x) => if exists|i: int| 0 <= i < items.len() && items[i].id != x {
            items.filter(|y: ResolvedItemView| y.id != x)
        } else {
            items
        },
        None => items,
    }
}

/// One pass over a pool of items: items of the pool, no two with the same ID, and one with
/// every ID that the pool holds.
pub open spec fn is_pass(pass: Seq<ResolvedItemView>, pool: Seq<ResolvedItemView>) -> bool {
    &&& forall|i: int, j: int| 0 <= i < j < pass.len() ==> pass[i].id != pass[j].id
    &&& forall|i: int| 0 <= i < pass.len() ==> pool.contains(#[trigger] pass[i])
    &&& forall|k: int| 0 <= k < pool.len() ==> has_id(pass, #[trigger] pool[k].id)
}

/// Every item of a stream's pool matches the stream.
proof fn lemma_pool_matches(catalog: CatalogView, stream: CatalogStream, v: ResolvedItemView)
    requires
        stream_pool(catalog, stream).contains(v),
    ensures
        stream_matches(v, stream.language, stream.kinds@, stream.difficulty),
{
    let pred = |x: ResolvedItemView|
        stream_matches(x, stream.language, stream.kinds@, stream.difficulty);
    let pool = catalog.items.filter(pred);
    let k = choose|k: int| 0 <= k < pool.len() && pool[k] == v;
    catalog.items.lemma_filter_pred(pred, k);
}

/// Two lists with the same items have the same views.
proof fn lemma_same_items_same_views(a: Seq<&ResolvedItem>, b: Seq<&ResolvedItem>)
    requires
        a.to_multiset() == b.to_multiset(),
    ensures
        forall|v: ResolvedItemView| item_views(a).contains(v) <==> item_views(b).contains(v),
{
    assert forall|v: ResolvedItemView| item_views(a).contains(v) implies item_views(b).contains(v) by {
        let k = choose|k: int| 0 <= k < item_views(a).len() && item_views(a)[k] == v;
        vstd::seq_lib::to_multiset_contains(a, a[k]);
        vstd::seq_lib::to_multiset_contains(b, a[k]);
        assert(a.contains(a[k]));
        let m = choose|m: int| 0 <= m < b.len() && b[m] == a[k];
        assert(item_views(b)[m] == v);
    }
    assert forall|v: ResolvedItemView| item_views(b).contains(v) implies item_views(a).contains(v) by {
        let k = choose|k: int| 0 <= k < item_views(b).len() && item_views(b)[k] == v;
        vstd::seq_lib::to_multiset_contains(b, b[k]);
        vstd::seq_lib::to_multiset_contains(a, b[k]);
        assert(b.contains(b[k]));
        let m = choose|m: int| 0 <= m < a.len() && a[m] == b[k];
        assert(item_views(a)[m] == v);
    }
}

/// Whether some item of a list has this ID.
fn cycle_has_id(cycle: &Vec<&ResolvedItem>, id: &str) -> (r: bool)
    ensures
        r == has_id(item_views(cycle@), id@),
{
    for i in 0..cycle.len()
        invariant
            forall|k: int| 0 <= k < i ==> cycle@[k].id@ != id@,
    {
        if crate::text::str_eq(cycle[i].id.as_str(), id) {
            assert(item_views(cycle@)[i as int].id == id@);
            return true;
        }
    }
    assert forall|k: int| 0 <= k < item_views(cycle@).len() implies item_views(cycle@)[k].id != id@ by {
        assert(item_views(cycle@)[k] == cycle@[k]@);
    }
    false
}

/// Whether some item of a list has another ID than `id`.
fn has_other_id(cycle: &Vec<&ResolvedItem>, id: &str) -> (r: bool)
    ensures
        r == exists|i: int| 0 <= i < cycle@.len() && cycle@[i].id@ != id@,
{
    for i in 0..cycle.len()
        invariant
            forall|k: int| 0 <= k < i ==> cycle@[k].id@ == id@,
    {
        if !crate::text::str_eq(cycle[i].id.as_str(), id) {
            return true;
        }
    }
    false
}

/// No two items of a list share an ID.
pub open spec fn distinct_ids(v: Seq<ResolvedItemView>) -> bool {
    forall|i: int, j: int| 0 <= i < j < v.len() ==> v[i].id != v[j].id
}

/// Whether an item's ID is not `x`.
pub open spec fn id_other_than(x: Seq<char>) -> spec_fn(ResolvedItemView) -> bool {
    |y: ResolvedItemView| y.id != x
}

/// Whether an item matches a stream.
pub open spec fn matches_stream(stream: CatalogStream) -> spec_fn(ResolvedItemView) -> bool {
    |v: ResolvedItemView| stream_matches(v, stream.language, stream.kinds@, stream.difficulty)
}

/// The candidates that match a stream, in their order.
pub open spec fn matching_candidates(cands: Seq<&ResolvedItem>, stream: CatalogStream) -> Seq<
    ResolvedItemView,
> {
    item_views(cands).filter(matches_stream(stream))
}

/// A pass begins with `lead`, or, when an ID is excluded, with `lead` less the items with
/// that ID.
pub open spec fn leads_with(
    pass: Seq<ResolvedItemView>,
    lead: Seq<ResolvedItemView>,
    excluded: Option<Seq<char>>,
) -> bool {
    ||| (pass.len() >= lead.len() && pass.take(lead.len() as int) == lead)
    ||| match excluded {
        Some(x) => {
            let kept = lead.filter(id_other_than(x));
            pass.len() >= kept.len() && pass.take(kept.len() as int) == kept
        },
        None => false,
    }
}

/// After its first `lead` items, a pass holds items of the pool, each with an ID that no
/// earlier item of the pass has, and the pass has an item with every ID of the pool.
pub open spec fn pool_tail(pass: Seq<ResolvedItemView>, lead: int, pool: Seq<ResolvedItemView>) -> bool {
    &&& forall|k: int| lead <= k < pass.len() ==> pool.contains(#[trigger] pass[k])
    &&& forall|k: int| lead <= k < pass.len() ==> !has_id(pass.take(k), #[trigger] pass[k].id)
    &&& covers_ids(pass, pool)
}

/// A pass built from the candidates `lead`: the candidates first, then items of the pool
/// with IDs not yet in the pass, covering every ID of the pool; then, when an ID is
/// excluded, the items with it may have been dropped (they are, when some item has
/// another ID).
pub open spec fn pass_from(
    pass: Seq<ResolvedItemView>,
    lead: Seq<ResolvedItemView>,
    pool: Seq<ResolvedItemView>,
    excluded: Option<Seq<char>>,
) -> bool {
    exists|full: Seq<ResolvedItemView>|
        #[trigger] pool_tail(full, lead.len() as int, pool) && full.len() >= lead.len() && full.take(
            lead.len() as int,
        ) == lead && (pass == full || match excluded {
            Some(x) => pass == full.filter(id_other_than(x)),
            None => false,
        })
}

/// A pass's items in order: `lead`, then each of the first `n` of `items` in turn whose ID is
/// not in the pass yet.
pub open spec fn built_pass(lead: Seq<ResolvedItemView>, items: Seq<ResolvedItemView>, n: nat) -> Seq<
    ResolvedItemView,
>
    decreases n,
{
    if n == 0 {
        lead
    } else {
        let b = built_pass(lead, items, (n - 1) as nat);
        if has_id(b, items[n - 1].id) {
            b
        } else {
            b.push(items[n - 1])
        }
    }
}

/// A pass with the items of an excluded ID dropped, when some item has another ID.
pub open spec fn dropping_excluded(pass: Seq<ResolvedItemView>, excluded: Option<Seq<char>>) -> Seq<
    ResolvedItemView,
> {
    match excluded {
        Some(x) => if exists|i: int| 0 <= i < pass.len() && pass[i].id != x {
            pass.filter(id_other_than(x))
        } else {
            pass
        },
        None => pass,
    }
}

/// The pass that `seed` makes of the stream's items `sorted` (in ID order) after the
/// candidates `lead`: the items shuffled with the seed ([`shuffled_by`]), added in that order
/// when their ID is not in the pass yet, then the excluded ID dropped.
pub open spec fn seeded_pass(
    lead: Seq<ResolvedItemView>,
    sorted: Seq<ResolvedItemView>,
    seed: u64,
    excluded: Option<Seq<char>>,
) -> Seq<ResolvedItemView> {
    let shuffled = permuted(sorted, shuffled_by(seed, sorted.len(), usize::BITS).0);
    dropping_excluded(built_pass(lead, shuffled, shuffled.len()), excluded)
}

/// `pass` is the pass that `seed` makes after the candidates `lead`, from the pool's items
/// put in ID order ([`seeded_pass`]; items with equal IDs may stand in either order).
pub open spec fn ordered_pass(
    pass: Seq<ResolvedItemView>,
    lead: Seq<ResolvedItemView>,
    pool: Seq<ResolvedItemView>,
    seed: u64,
    excluded: Option<Seq<char>>,
) -> bool {
    exists|sorted: Seq<ResolvedItemView>|
        sorted_by_item_id(sorted) && (forall|v: ResolvedItemView|
            sorted.contains(v) <==> pool.contains(v)) && #[trigger] seeded_pass(
            lead,
            sorted,
            seed,
            excluded,
        ) == pass
}

/// The seed of pass `j` of a stream started with `seed`: one more for each pass, wrapping.
pub open spec fn pass_seed(seed: u64, j: nat) -> u64
    decreases j,
{
    if j == 0 {
        seed
    } else {
        let p = pass_seed(seed, (j - 1) as nat);
        if p == u64::MAX {
            0
        } else {
            (p + 1) as u64
        }
    }
}

/// `out` is the first `count` items of the passes joined.
pub open spec fn taken_passes(passes: Seq<Seq<ResolvedItemView>>, out: Seq<ResolvedItemView>, count: nat) -> bool {
    count <= joined_passes(passes).len() && out == joined_passes(passes).take(count as int)
}

/// The items of a list whose ID is not `id`, in order.
fn keep_other_ids<'a>(cycle: Vec<&'a ResolvedItem>, id: &str) -> (r: Vec<&'a ResolvedItem>)
    ensures
        forall|v: ResolvedItemView|
            item_views(r@).contains(v) <==> (item_views(cycle@).contains(v) && v.id != id@),
        forall|i: int| 0 <= i < r@.len() ==> r@[i].id@ != id@,
        distinct_ids(item_views(cycle@)) ==> distinct_ids(item_views(r@)),
        item_views(r@) == item_views(cycle@).filter(id_other_than(id@)),
{
    let ghost cv = item_views(cycle@);
    let mut out: Vec<&'a ResolvedItem> = Vec::new();
    for i in 0..cycle.len()
        invariant
            cv == item_views(cycle@),
            forall|v: ResolvedItemView|
                item_views(out@).contains(v) <==> (cv.take(i as int).contains(v) && v.id != id@),
            forall|k: int| 0 <= k < out@.len() ==> out@[k].id@ != id@,
            forall|k: int| 0 <= k < out@.len() ==> has_id(cv.take(i as int), #[trigger] out@[k].id@),
            distinct_ids(cv) ==> distinct_ids(item_views(out@)),
            item_views(out@) == cv.take(i as int).filter(id_other_than(id@)),
    {
        let item = cycle[i];
        let ghost before = out@;
        assert(cv[i as int] == item@);
        let ghost next = cv.take(i + 1);
        let ghost prev = cv.take(i as int);
        assert(next =~= prev.push(item@));
        proof {
            reveal(Seq::filter);
            assert(next.drop_last() =~= prev);
            assert(next.last() == item@);
        }
        if !crate::text::str_eq(item.id.as_str(), id) {
            out.push(item);
            proof {
                assert(item_views(out@) =~= item_views(before).push(item@));
                assert forall|k: int| 0 <= k < out@.len() implies has_id(
                    next,
                    #[trigger] out@[k].id@,
                ) by {
                    if k < before.len() {
                        assert(out@[k] == before[k]);
                        assert(has_id(prev, before[k].id@));
                        let m = choose|m: int| 0 <= m < i && prev[m].id == before[k].id@;
                        assert(next[m] == prev[m]);
                    } else {
                        assert(next[i as int] == item@);
                    }
                }
                if distinct_ids(cv) {
                    assert forall|a: int, b: int| 0 <= a < b < out@.len() implies item_views(out@)[a].id
                        != item_views(out@)[b].id by {
                        if b == before.len() {
                            assert(has_id(prev, before[a].id@));
                            let m = choose|m: int| 0 <= m < i && prev[m].id == before[a].id@;
                            assert(cv[m].id != cv[i as int].id);
                        } else {
                            assert(item_views(out@)[a] == item_views(before)[a]);
                            assert(item_views(out@)[b] == item_views(before)[b]);
                        }
                    }
                }
                assert forall|v: ResolvedItemView| item_views(out@).contains(v) <==> (next.contains(v) && v.id != id@) by {
                    if item_views(out@).contains(v) {
                        let k = choose|k: int| 0 <= k < item_views(out@).len() && item_views(out@)[k] == v;
                        if k < before.len() {
                            assert(item_views(before)[k] == v);
                            assert(item_views(before).contains(v));
                            assert(prev.contains(v));
                            let m = choose|m: int| 0 <= m < i && prev[m] == v;
                            assert(next[m] == v);
                        } else {
                            assert(next[i as int] == v);
                        }
                    }
                    if next.contains(v) && v.id != id@ {
                        let m = choose|m: int| 0 <= m < i + 1 && next[m] == v;
                        if m < i {
                            assert(prev[m] == v);
                            assert(prev.contains(v));
                            assert(item_views(before).contains(v));
                            let k = choose|k: int| 0 <= k < item_views(before).len() && item_views(before)[k] == v;
                            assert(item_views(out@)[k] == v);
                        } else {
                            assert(item_views(out@)[before.len() as int] == v);
                        }
                    }
                }
            }
        } else {
            proof {
                assert forall|k: int| 0 <= k < out@.len() implies has_id(
                    next,
                    #[trigger] out@[k].id@,
                ) by {
                    let m = choose|m: int| 0 <= m < i && prev[m].id == out@[k].id@;
                    assert(next[m] == prev[m]);
                }
                assert forall|v: ResolvedItemView| item_views(out@).contains(v) <==> (next.contains(v) && v.id != id@) by {
                    if item_views(out@).contains(v) {
                        let m = choose|m: int| 0 <= m < i && prev[m] == v;
                        assert(next[m] == v);
                    }
                    if next.contains(v) && v.id != id@ {
                        let m = choose|m: int| 0 <= m < i + 1 && next[m] == v;
                        if m < i {
                            assert(prev[m] == v);
                        }
                    }
                }
            }
        }
    }
    assert(cv.take(cycle@.len() as int) =~= cv);
    proof {
        assert(item_views(out@) == cv.take(cycle@.len() as int).filter(id_other_than(id@)));
    }
    out
}

/// Every ID of `pool` is the ID of some item of `items`.
pub open spec fn covers_ids(items: Seq<ResolvedItemView>, pool: Seq<ResolvedItemView>) -> bool {
    forall|k: int| 0 <= k < pool.len() ==> has_id(items, #[trigger] pool[k].id)
}

/// Items drawn from a pool, one per ID and covering every ID of the pool, are a pass over it;
/// and when no item has another ID than an excluded one, excluding it leaves the pool whole.
proof fn lemma_pass_without_exclusion(
    items: Seq<ResolvedItemView>,
    pool: Seq<ResolvedItemView>,
    excluded: Option<Seq<char>>,
)
    requires
        distinct_ids(items),
        forall|i: int| 0 <= i < items.len() ==> pool.contains(#[trigger] items[i]),
        covers_ids(items, pool),
        excluded matches Some(x) ==> forall|i: int| 0 <= i < items.len() ==> items[i].id == x,
    ensures
        is_pass(items, without_id(pool, excluded)),
{
    if excluded is Some {
        let x = excluded->0;
        assert forall|k: int| 0 <= k < pool.len() implies pool[k].id == x by {
            assert(has_id(items, pool[k].id));
            let i = choose|i: int| 0 <= i < items.len() && items[i].id == pool[k].id;
            assert(items[i].id == x);
        }
        assert(without_id(pool, excluded) == pool);
    }
}

/// Dropping the items with an excluded ID from a pass over a pool, when some item has another
/// ID, gives a pass over what the exclusion leaves of the pool.
proof fn lemma_pass_with_exclusion(
    items: Seq<ResolvedItemView>,
    kept: Seq<ResolvedItemView>,
    pool: Seq<ResolvedItemView>,
    x: Seq<char>,
)
    requires
        distinct_ids(items),
        forall|i: int| 0 <= i < items.len() ==> pool.contains(#[trigger] items[i]),
        covers_ids(items, pool),
        exists|i: int| 0 <= i < items.len() && items[i].id != x,
        forall|v: ResolvedItemView| kept.contains(v) <==> (items.contains(v) && v.id != x),
        distinct_ids(kept),
    ensures
        is_pass(kept, without_id(pool, Some(x))),
{
    let pred = |y: ResolvedItemView| y.id != x;
    let i0 = choose|i: int| 0 <= i < items.len() && items[i].id != x;
    assert(pool.contains(items[i0]));
    let k0 = choose|k: int| 0 <= k < pool.len() && pool[k] == items[i0];
    assert(pool[k0].id != x);
    let left = pool.filter(pred);
    assert(without_id(pool, Some(x)) == left);
    assert forall|i: int| 0 <= i < kept.len() implies left.contains(#[trigger] kept[i]) by {
        assert(kept.contains(kept[i]));
        assert(items.contains(kept[i]));
        let m = choose|m: int| 0 <= m < items.len() && items[m] == kept[i];
        assert(pool.contains(items[m]));
        let k = choose|k: int| 0 <= k < pool.len() && pool[k] == kept[i];
        pool.lemma_filter_contains(pred, k);
    }
    assert forall|k: int| 0 <= k < left.len() implies has_id(kept, #[trigger] left[k].id) by {
        pool.lemma_filter_pred(pred, k);
        pool.lemma_filter_contains_rev(pred, left[k]);
        let n = choose|n: int| 0 <= n < pool.len() && pool[n] == left[k];
        assert(has_id(items, pool[n].id));
        let m = choose|m: int| 0 <= m < items.len() && items[m].id == pool[n].id;
        assert(items.contains(items[m]));
        assert(kept.contains(items[m]));
        let j = choose|j: int| 0 <= j < kept.len() && kept[j] == items[m];
        assert(kept[j].id == left[k].id);
    }
}

/// One pass of a stream over its items: the adaptive candidates that match the stream first,
/// then the stream's items, sorted by ID and shuffled with the seed, whose ID is not in the
/// pass yet; then, when an ID is excluded and some item of the pass has another ID, the items
/// with the excluded ID are dropped.
#[verifier::spinoff_prover]
fn build_cycle<'a>(
    catalog: &'a ContentCatalog,
    stream: &CatalogStream,
    seed: u64,
    excluded_id: Option<&str>,
    adaptive_items: Vec<&'a ResolvedItem>,
) -> (c: Vec<&'a ResolvedItem>)
    ensures
        forall|i: int|
            0 <= i < c@.len() ==> stream_matches(
                #[trigger] c@[i]@,
                stream.language,
                stream.kinds@,
                stream.difficulty,
            ),
        stream_pool(catalog@, *stream).len() > 0 ==> c@.len() > 0,
        adaptive_items@.len() == 0 ==> is_pass(
            item_views(c@),
            without_id(stream_pool(catalog@, *stream), excluded_view(excluded_id)),
        ),
        match excluded_id {
            Some(x) => (exists|k: int|
                0 <= k < stream_pool(catalog@, *stream).len() && stream_pool(catalog@, *stream)[k].id
                    != x@) ==> forall|i: int| 0 <= i < c@.len() ==> c@[i].id@ != x@,
            None => true,
        },
        leads_with(
            item_views(c@),
            matching_candidates(adaptive_items@, *stream),
            excluded_view(excluded_id),
        ),
        pass_from(
            item_views(c@),
            matching_candidates(adaptive_items@, *stream),
            stream_pool(catalog@, *stream),
            excluded_view(excluded_id),
        ),
        ordered_pass(
            item_views(c@),
            matching_candidates(adaptive_items@, *stream),
            stream_pool(catalog@, *stream),
            seed,
            excluded_view(excluded_id),
        ),
{
    let ghost pool = stream_pool(catalog@, *stream);
    let ghost lead = matching_candidates(adaptive_items@, *stream);
    let mut ordinary = matching_by_id(catalog, stream);
    let ghost sorted_items = ordinary@;
    let _ = shuffle_seeded(seed, usize::BITS, &mut ordinary);
    let ghost sorted = item_views(sorted_items);
    proof {
        lemma_same_items_same_views(ordinary@, sorted_items);
        let order = shuffled_by(seed, sorted_items.len(), usize::BITS).0;
        assert(item_views(ordinary@) =~= permuted(sorted, order));
    }
    let mut cycle: Vec<&'a ResolvedItem> = Vec::new();
    for i in 0..adaptive_items.len()
        invariant
            forall|k: int|
                0 <= k < cycle@.len() ==> stream_matches(
                    #[trigger] cycle@[k]@,
                    stream.language,
                    stream.kinds@,
                    stream.difficulty,
                ),
            adaptive_items@.len() == 0 ==> cycle@.len() == 0,
            item_views(cycle@) == item_views(adaptive_items@.take(i as int)).filter(
                matches_stream(*stream),
            ),
    {
        let candidate = adaptive_items[i];
        let ghost before = cycle@;
        proof {
            reveal(Seq::filter);
            let next = item_views(adaptive_items@.take(i + 1));
            assert(next.drop_last() =~= item_views(adaptive_items@.take(i as int)));
            assert(next.last() == candidate@);
        }
        if catalog_match(candidate, stream) {
            cycle.push(candidate);
            proof {
                assert(item_views(cycle@) =~= item_views(before).push(candidate@));
            }
        }
    }
    proof {
        assert(adaptive_items@.take(adaptive_items@.len() as int) =~= adaptive_items@);
        assert(item_views(cycle@) == lead);
        assert(item_views(cycle@).take(lead.len() as int) =~= lead);
    }
    let ghost ov = item_views(ordinary@);
    for j in 0..ordinary.len()
        invariant
            ov == item_views(ordinary@),
            pool == stream_pool(catalog@, *stream),
            forall|v: ResolvedItemView| ov.contains(v) <==> pool.contains(v),
            forall|k: int|
                0 <= k < cycle@.len() ==> stream_matches(
                    #[trigger] cycle@[k]@,
                    stream.language,
                    stream.kinds@,
                    stream.difficulty,
                ),
            adaptive_items@.len() == 0 ==> distinct_ids(item_views(cycle@)),
            adaptive_items@.len() == 0 ==> forall|k: int|
                0 <= k < cycle@.len() ==> pool.contains(#[trigger] item_views(cycle@)[k]),
            forall|k: int| 0 <= k < j ==> has_id(item_views(cycle@), #[trigger] ov[k].id),
            lead == matching_candidates(adaptive_items@, *stream),
            item_views(cycle@).len() >= lead.len(),
            item_views(cycle@).take(lead.len() as int) == lead,
            item_views(cycle@) == built_pass(lead, ov, j as nat),
            forall|k: int|
                lead.len() <= k < cycle@.len() ==> pool.contains(#[trigger] item_views(cycle@)[k]),
            forall|k: int|
                lead.len() <= k < cycle@.len() ==> !has_id(
                    item_views(cycle@).take(k),
                    #[trigger] item_views(cycle@)[k].id,
                ),
    {
        let item = ordinary[j];
        proof {
            assert(ov[j as int] == item@);
            assert(ov.contains(item@));
            lemma_pool_matches(catalog@, *stream, item@);
        }
        let ghost before = cycle@;
        if !cycle_has_id(&cycle, item.id.as_str()) {
            cycle.push(item);
            proof {
                assert(item_views(cycle@) =~= item_views(before).push(item@));
                assert(item_views(cycle@).take(lead.len() as int) =~= item_views(before).take(lead.len() as int));
                assert(item_views(cycle@).take(before.len() as int) =~= item_views(before));
                assert forall|k: int| lead.len() <= k < cycle@.len() implies !has_id(
                    item_views(cycle@).take(k),
                    #[trigger] item_views(cycle@)[k].id,
                ) by {
                    if k < before.len() {
                        assert(item_views(cycle@).take(k) =~= item_views(before).take(k));
                        assert(item_views(cycle@)[k] == item_views(before)[k]);
                    }
                }
                assert forall|k: int| lead.len() <= k < cycle@.len() implies pool.contains(
                    #[trigger] item_views(cycle@)[k],
                ) by {
                    if k < before.len() {
                        assert(item_views(cycle@)[k] == item_views(before)[k]);
                    }
                }
                assert forall|k: int| 0 <= k < j + 1 implies has_id(
                    item_views(cycle@),
                    #[trigger] ov[k].id,
                ) by {
                    if k < j {
                        assert(has_id(item_views(before), ov[k].id));
                        let m = choose|m: int| 0 <= m < item_views(before).len() && item_views(before)[m].id == ov[k].id;
                        assert(item_views(cycle@)[m] == item_views(before)[m]);
                    } else {
                        assert(item_views(cycle@)[before.len() as int] == item@);
                    }
                }
            }
        } else {
            proof {
                assert forall|k: int| 0 <= k < j + 1 implies has_id(
                    item_views(cycle@),
                    #[trigger] ov[k].id,
                ) by {
                    if k == j {
                        assert(ov[k] == item@);
                    }
                }
            }
        }
    }
    let ghost cv = item_views(cycle@);
    proof {
        assert forall|k: int| 0 <= k < pool.len() implies has_id(cv, #[trigger] pool[k].id) by {
            assert(pool.contains(pool[k]));
            assert(ov.contains(pool[k]));
            let m = choose|m: int| 0 <= m < ov.len() && ov[m] == pool[k];
            assert(has_id(cv, ov[m].id));
        }
        assert(covers_ids(cv, pool));
        if pool.len() > 0 {
            assert(has_id(cv, pool[0].id));
        }
        assert(pool_tail(cv, lead.len() as int, pool));
        assert(pass_from(cv, lead, pool, excluded_view(excluded_id)));
    }
    proof {
        assert(ov.len() == ordinary@.len());
        assert(item_views(cycle@) == built_pass(lead, ov, ov.len()));
        assert(permuted(sorted, shuffled_by(seed, sorted.len(), usize::BITS).0) == ov);
        assert(forall|v: ResolvedItemView| sorted.contains(v) <==> pool.contains(v));
    }
    match excluded_id {
        Some(x) => {
            if has_other_id(&cycle, x) {
                proof {
                    let i0 = choose|i: int| 0 <= i < cycle@.len() && cycle@[i].id@ != x@;
                    assert(cv[i0].id != x@);
                }
                let ghost full = cycle@;
                let kept = keep_other_ids(cycle, x);
                proof {
                    let fv = item_views(full);
                    let rest = fv.skip(lead.len() as int);
                    assert(fv =~= lead + rest);
                    Seq::filter_distributes_over_add(lead, rest, id_other_than(x@));
                    let lk = lead.filter(id_other_than(x@));
                    assert(item_views(kept@) == lk + rest.filter(id_other_than(x@)));
                    assert(item_views(kept@).take(lk.len() as int) =~= lk);
                    assert(leads_with(item_views(kept@), lead, excluded_view(excluded_id)));
                    assert(item_views(kept@) == cv.filter(id_other_than(x@)));
                    assert(pass_from(item_views(kept@), lead, pool, excluded_view(excluded_id)));
                    assert(seeded_pass(lead, sorted, seed, excluded_view(excluded_id)) == item_views(kept@));
                    assert(ordered_pass(item_views(kept@), lead, pool, seed, excluded_view(excluded_id)));
                }
                proof {
                    assert forall|i: int| 0 <= i < cv.len() implies #[trigger] cv[i].id == cycle@[i].id@ by {}
                    let i0 = choose|i: int| 0 <= i < cycle@.len() && cycle@[i].id@ != x@;
                    assert(cv[i0].id != x@);
                    assert(item_views(kept@).contains(cv[i0])) by {
                        assert(cv.contains(cv[i0]));
                    }
                    let k0 = choose|k: int| 0 <= k < item_views(kept@).len() && item_views(kept@)[k] == cv[i0];
                    assert(kept@.len() > 0);
                    if adaptive_items@.len() == 0 {
                        lemma_pass_with_exclusion(cv, item_views(kept@), pool, x@);
                    }
                    assert forall|i: int| 0 <= i < kept@.len() implies stream_matches(
                        #[trigger] kept@[i]@,
                        stream.language,
                        stream.kinds@,
                        stream.difficulty,
                    ) by {
                        assert(item_views(kept@)[i] == kept@[i]@);
                        assert(item_views(kept@).contains(kept@[i]@));
                        let m = choose|m: int| 0 <= m < cv.len() && cv[m] == kept@[i]@;
                        assert(cycle@[m]@ == cv[m]);
                    }
                }
                kept
            } else {
                proof {
                    if adaptive_items@.len() == 0 {
                        lemma_pass_without_exclusion(cv, pool, excluded_view(excluded_id));
                    }
                    assert forall|k: int|
                        0 <= k < pool.len() && pool[k].id != x@ implies false by {
                        assert(has_id(cv, pool[k].id));
                        let m = choose|m: int| 0 <= m < cv.len() && cv[m].id == pool[k].id;
                        assert(cycle@[m]@ == cv[m]);
                    }
                    assert(!exists|i: int| 0 <= i < cv.len() && cv[i].id != x@) by {
                        if exists|i: int| 0 <= i < cv.len() && cv[i].id != x@ {
                            let i0 = choose|i: int| 0 <= i < cv.len() && cv[i].id != x@;
                            assert(cycle@[i0].id@ == cv[i0].id);
                        }
                    }
                    assert(seeded_pass(lead, sorted, seed, excluded_view(excluded_id)) == cv);
                    assert(ordered_pass(cv, lead, pool, seed, excluded_view(excluded_id)));
                }
                cycle
            }
        },
        None => {
            proof {
                if adaptive_items@.len() == 0 {
                    lemma_pass_without_exclusion(cv, pool, excluded_view(excluded_id));
                }
                assert(seeded_pass(lead, sorted, seed, excluded_view(excluded_id)) == cv);
                assert(ordered_pass(cv, lead, pool, seed, excluded_view(excluded_id)));
            }
            cycle
        },
    }
}

/// Passes joined one after another.
pub open spec fn joined_passes(passes: Seq<Seq<ResolvedItemView>>) -> Seq<ResolvedItemView>
    decreases passes.len(),
{
    if passes.len() == 0 {
        seq![]
    } else {
        joined_passes(passes.drop_last()) + passes.last()
    }
}

/// `out` is the first `count` items of `passes` over `pool`, one pass after another.
pub open spec fn taken_from_passes(
    passes: Seq<Seq<ResolvedItemView>>,
    pool: Seq<ResolvedItemView>,
    out: Seq<ResolvedItemView>,
    count: nat,
) -> bool {
    &&& forall|j: int| 0 <= j < passes.len() ==> is_pass(#[trigger] passes[j], pool)
    &&& count <= joined_passes(passes).len()
    &&& out == joined_passes(passes).take(count as int)
}

/// `out` is the first `count` items of some passes over `pool`, one pass after another.
pub open spec fn drawn_in_passes(out: Seq<ResolvedItemView>, pool: Seq<ResolvedItemView>, count: nat) -> bool {
    exists|passes: Seq<Seq<ResolvedItemView>>| #[trigger] taken_from_passes(passes, pool, out, count)
}

/// Pass `pass` is built ([`pass_from`]) from what the adaptive candidates given for seed `s`
/// hold that matches the stream, then the items of `pool`: it begins with those candidates
/// (less the excluded ID, when that is dropped from the pass).
pub open spec fn led_by<'a, F: Fn(u64) -> Vec<&'a ResolvedItem>>(
    f: F,
    s: u64,
    pass: Seq<ResolvedItemView>,
    stream: CatalogStream,
    pool: Seq<ResolvedItemView>,
    excluded: Option<Seq<char>>,
) -> bool {
    exists|cands: Vec<&'a ResolvedItem>|
        call_ensures(f, (s,), cands) && #[trigger] leads_with(
            pass,
            matching_candidates(cands@, stream),
            excluded,
        ) && pass_from(pass, matching_candidates(cands@, stream), pool, excluded) && ordered_pass(
            pass,
            matching_candidates(cands@, stream),
            pool,
            s,
            excluded,
        )
}

/// Chooses `count` items for a practice stream, in passes. Each pass puts first the adaptive
/// candidates for its seed that match the stream (asked for only when the stream is
/// adaptive), then the stream's items, sorted by ID and shuffled with the seed, whose ID is
/// not in the pass yet; an excluded ID is dropped from a pass that has another. The passes
/// use `seed`, `seed + 1` and so on (wrapping). The result is refused when a pass comes out
/// empty, which can only happen when no catalog item matches the stream.
pub fn select_catalog_items<'a, F: Fn(u64) -> Vec<&'a ResolvedItem>>(
    catalog: &'a ContentCatalog,
    stream: &CatalogStream,
    count: usize,
    seed: u64,
    excluded_id: Option<&str>,
    adaptive_candidates: F,
) -> (r: Result<Vec<&'a ResolvedItem>, String>)
    requires
        forall|s: u64| call_requires(adaptive_candidates, (s,)),
    ensures
        (count == 0 || stream_pool(catalog@, *stream).len() > 0) ==> r is Ok,
        (!stream.adaptive && count > 0 && stream_pool(catalog@, *stream).len() == 0) ==> r is Err,
        match r {
            Ok(v) => {
                &&& v@.len() == count
                &&& forall|i: int|
                    0 <= i < v@.len() ==> stream_matches(
                        #[trigger] v@[i]@,
                        stream.language,
                        stream.kinds@,
                        stream.difficulty,
                    )
                &&& match excluded_id {
                    Some(x) => (exists|k: int|
                        0 <= k < stream_pool(catalog@, *stream).len() && stream_pool(
                            catalog@,
                            *stream,
                        )[k].id != x@) ==> forall|i: int| 0 <= i < v@.len() ==> v@[i].id@ != x@,
                    None => true,
                }
                &&& !stream.adaptive ==> drawn_in_passes(
                    item_views(v@),
                    without_id(stream_pool(catalog@, *stream), excluded_view(excluded_id)),
                    count as nat,
                )
                &&& !stream.adaptive ==> exists|passes: Seq<Seq<ResolvedItemView>>|
                    #[trigger] taken_passes(passes, item_views(v@), count as nat) && forall|j: int|
                        0 <= j < passes.len() ==> #[trigger] ordered_pass(
                            passes[j],
                            Seq::empty(),
                            stream_pool(catalog@, *stream),
                            pass_seed(seed, j as nat),
                            excluded_view(excluded_id),
                        )
                &&& stream.adaptive ==> exists|passes: Seq<Seq<ResolvedItemView>>|
                    #[trigger] taken_passes(passes, item_views(v@), count as nat) && forall|j: int|
                        0 <= j < passes.len() ==> #[trigger] led_by(
                            adaptive_candidates,
                            pass_seed(seed, j as nat),
                            passes[j],
                            *stream,
                            stream_pool(catalog@, *stream),
                            excluded_view(excluded_id),
                        )
            },
            Err(m) => m@ == "no matching practice content"@ && count > 0 && stream_pool(
                catalog@,
                *stream,
            ).len() == 0,
        },
{
    let ghost pool = stream_pool(catalog@, *stream);
    let ghost left = without_id(pool, excluded_view(excluded_id));
    let ghost excluding = match excluded_id {
        Some(x) => exists|k: int| 0 <= k < pool.len() && pool[k].id != x@,
        None => false,
    };
    let mut selected: Vec<&'a ResolvedItem> = Vec::new();
    let mut cycle_seed = seed;
    let ghost mut passes: Seq<Seq<ResolvedItemView>> = seq![];
    while selected.len() < count
        invariant
            pool == stream_pool(catalog@, *stream),
            left == without_id(pool, excluded_view(excluded_id)),
            excluding == match excluded_id {
                Some(x) => exists|k: int| 0 <= k < pool.len() && pool[k].id != x@,
                None => false,
            },
            forall|s: u64| call_requires(adaptive_candidates, (s,)),
            selected@.len() <= count,
            forall|i: int|
                0 <= i < selected@.len() ==> stream_matches(
                    #[trigger] selected@[i]@,
                    stream.language,
                    stream.kinds@,
                    stream.difficulty,
                ),
            excluding ==> forall|i: int|
                0 <= i < selected@.len() ==> selected@[i].id@ != excluded_view(excluded_id)->0,
            !stream.adaptive ==> forall|j: int| 0 <= j < passes.len() ==> is_pass(#[trigger] passes[j], left),
            selected@.len() <= joined_passes(passes).len(),
            item_views(selected@) == joined_passes(passes).take(selected@.len() as int),
            selected@.len() < count ==> selected@.len() == joined_passes(passes).len(),
            cycle_seed == pass_seed(seed, passes.len()),
            !stream.adaptive ==> forall|j: int|
                0 <= j < passes.len() ==> #[trigger] ordered_pass(
                    passes[j],
                    Seq::empty(),
                    pool,
                    pass_seed(seed, j as nat),
                    excluded_view(excluded_id),
                ),
            stream.adaptive ==> forall|j: int|
                0 <= j < passes.len() ==> #[trigger] led_by(
                    adaptive_candidates,
                    pass_seed(seed, j as nat),
                    passes[j],
                    *stream,
                    pool,
                    excluded_view(excluded_id),
                ),
            !stream.adaptive && pool.len() == 0 ==> selected@.len() == 0,
        decreases count - selected@.len(),
    {
        let adaptive_items = if stream.adaptive {
            adaptive_candidates(cycle_seed)
        } else {
            Vec::new()
        };
        let ghost cands = adaptive_items;
        let cycle = build_cycle(catalog, stream, cycle_seed, excluded_id, adaptive_items);
        if cycle.len() == 0 {
            return Err("no matching practice content".to_owned());
        }
        let remaining = count - selected.len();
        let ghost start = selected@;
        let mut k: usize = 0;
        while k < cycle.len() && k < remaining
            invariant
                k <= cycle@.len(),
                k <= remaining,
                remaining == count - start.len(),
                selected@ == start + cycle@.take(k as int),
            decreases cycle@.len() - k,
        {
            selected.push(cycle[k]);
            k += 1;
            assert(selected@ =~= start + cycle@.take(k as int));
        }
        proof {
            let cv = item_views(cycle@);
            let joined_before = joined_passes(passes);
            let new_passes = passes.push(cv);
            assert(new_passes.drop_last() =~= passes);
            assert(joined_passes(new_passes) == joined_before + cv);
            assert(item_views(selected@) =~= item_views(start) + cv.take(k as int));
            assert forall|i: int| 0 <= i < selected@.len() implies stream_matches(
                #[trigger] selected@[i]@,
                stream.language,
                stream.kinds@,
                stream.difficulty,
            ) by {
                if i >= start.len() {
                    assert(selected@[i] == cycle@[i - start.len()]);
                }
            }
            if excluding {
                assert forall|i: int| 0 <= i < selected@.len() implies selected@[i].id@
                    != excluded_view(excluded_id)->0 by {
                    if i >= start.len() {
                        assert(selected@[i] == cycle@[i - start.len()]);
                    }
                }
            }
            assert(joined_passes(new_passes).take(selected@.len() as int) =~= item_views(
                selected@,
            ));
            if !stream.adaptive {
                reveal(Seq::filter);
                assert(matching_candidates(cands@, *stream) =~= Seq::<ResolvedItemView>::empty());
                assert(ordered_pass(cv, Seq::empty(), pool, cycle_seed, excluded_view(excluded_id)));
                assert forall|j: int| 0 <= j < new_passes.len() implies #[trigger] ordered_pass(
                    new_passes[j],
                    Seq::empty(),
                    pool,
                    pass_seed(seed, j as nat),
                    excluded_view(excluded_id),
                ) by {
                    if j < passes.len() {
                        assert(new_passes[j] == passes[j]);
                    }
                }
            }
            if stream.adaptive {
                assert(leads_with(cv, matching_candidates(cands@, *stream), excluded_view(excluded_id)));
                assert(pass_from(cv, matching_candidates(cands@, *stream), pool, excluded_view(excluded_id)));
                assert(led_by(adaptive_candidates, cycle_seed, cv, *stream, pool, excluded_view(excluded_id)));
                assert forall|j: int| 0 <= j < new_passes.len() implies #[trigger] led_by(
                    adaptive_candidates,
                    pass_seed(seed, j as nat),
                    new_passes[j],
                    *stream,
                    pool,
                    excluded_view(excluded_id),
                ) by {
                    if j < passes.len() {
                        assert(new_passes[j] == passes[j]);
                    }
                }
            }
            if !stream.adaptive && pool.len() == 0 {
                assert(left == pool);
                assert(left.contains(cv[0]));
            }
            passes = new_passes;
        }
        cycle_seed = if cycle_seed == u64::MAX {
            0
        } else {
            cycle_seed + 1
        };
    }
    proof {
        if !stream.adaptive {
            assert(taken_from_passes(passes, left, item_views(selected@), count as nat));
        }
        assert(taken_passes(passes, item_views(selected@), count as nat));
    }
    Ok(selected)
}

/// The positions (in graphemes) where a paragraph starts after one or more line feeds.
pub open spec fn paragraph_starts(g: Seq<Seq<char>>, n: nat) -> Seq<usize>
    decreases n,
{
    if n <= 1 {
        seq![]
    } else {
        paragraph_starts(g, (n - 1) as nat) + if g[n - 1] != "\n"@ && g[n - 2] == "\n"@ {
            seq![(n - 1) as usize]
        } else {
            seq![]
        }
    }
}

/// The paragraph boundaries of a text, in graphemes: where each paragraph after the first
/// starts, then the end of the text.
pub open spec fn paragraph_ends_spec(text: Seq<char>) -> Seq<usize> {
    let g = crate::text::graphemes(text);
    paragraph_starts(g, g.len()).push(g.len() as usize)
}

/// Paragraph starts lie strictly inside the text, in increasing order.
proof fn lemma_paragraph_starts_inside(g: Seq<Seq<char>>, n: nat)
    requires
        n <= usize::MAX,
    ensures
        forall|i: int|
            0 <= i < paragraph_starts(g, n).len() ==> 1 <= #[trigger] paragraph_starts(g, n)[i]
                < n,
        forall|i: int, j: int|
            0 <= i < j < paragraph_starts(g, n).len() ==> paragraph_starts(g, n)[i]
                < paragraph_starts(g, n)[j],
    decreases n,
{
    if n > 1 {
        lemma_paragraph_starts_inside(g, (n - 1) as nat);
        let before = paragraph_starts(g, (n - 1) as nat);
        let after = paragraph_starts(g, n);
        if g[n - 1] != "\n"@ && g[n - 2] == "\n"@ {
            assert(after == before.push((n - 1) as usize));
            assert forall|i: int| 0 <= i < after.len() implies 1 <= #[trigger] after[i] < n by {
                if i < before.len() {
                    assert(after[i] == before[i]);
                }
            }
            assert forall|i: int, j: int| 0 <= i < j < after.len() implies after[i] < after[j] by {
                assert(after[i] == before[i]);
                if j < before.len() {
                    assert(after[j] == before[j]);
                }
            }
        } else {
            assert(after =~= before);
        }
    }
}

/// The paragraph boundaries of a text that is not empty split it into non-empty items, as
/// the practice engine requires of item ends: increasing, the first above zero and the last
/// at the text's grapheme count.
pub proof fn lemma_paragraph_ends_are_item_ends(text: Seq<char>)
    requires
        0 < crate::text::graphemes(text).len() <= usize::MAX,
    ensures
        crate::practice::item_ends_ok(
            paragraph_ends_spec(text),
            crate::text::graphemes(text).len(),
        ),
{
    let g = crate::text::graphemes(text);
    lemma_paragraph_starts_inside(g, g.len());
    let starts = paragraph_starts(g, g.len());
    let ends = paragraph_ends_spec(text);
    assert(ends == starts.push(g.len() as usize));
    assert forall|i: int, j: int| 0 <= i < j < ends.len() implies ends[i] < ends[j] by {
        if j == starts.len() {
            assert(ends[i] == starts[i]);
        } else {
            assert(ends[i] == starts[i]);
            assert(ends[j] == starts[j]);
        }
    }
    if starts.len() > 0 {
        assert(ends[0] == starts[0]);
    }
}

/// The paragraph boundaries of a text; see [`paragraph_ends_spec`].
pub fn paragraph_ends(target: &str) -> (r: Vec<usize>)
    ensures
        r@ == paragraph_ends_spec(target@),
{
    let clusters = crate::text::split_graphemes(target);
    let ghost g = crate::text::graphemes(target@);
    assert(crate::text::string_views(clusters@) == g);
    let mut ends: Vec<usize> = Vec::new();
    let mut newline_run = false;
    let mut count: usize = 0;
    while count < clusters.len()
        invariant
            crate::text::string_views(clusters@) == g,
            count <= clusters@.len(),
            ends@ == paragraph_starts(g, count as nat),
            newline_run == (count > 0 && g[count - 1] == "\n"@),
        decreases clusters@.len() - count,
    {
        assert(g[count as int] == clusters@[count as int]@);
        let is_newline = crate::text::str_eq(clusters[count].as_str(), "\n");
        if !is_newline && newline_run {
            ends.push(count);
        }
        assert(ends@ =~= paragraph_starts(g, (count + 1) as nat)) by {
            if count >= 1 {
                assert(g[count - 1] == clusters@[count - 1]@);
            }
        }
        count += 1;
        newline_run = is_newline;
    }
    ends.push(count);
    ends
}

/// The grapheme count of the first `n` items and the separators between them.
pub open spec fn items_graphemes(texts: Seq<Seq<char>>, separator: Seq<char>, n: nat) -> int
    decreases n,
{
    if n == 0 {
        0
    } else {
        items_graphemes(texts, separator, (n - 1) as nat) + (if n >= 2 {
            crate::text::graphemes(separator).len() as int
        } else {
            0
        }) + crate::text::graphemes(texts[n - 1]).len()
    }
}

/// The target built from the first `n` items: their texts joined by the separator.
pub open spec fn joined_texts(texts: Seq<Seq<char>>, separator: Seq<char>, n: nat) -> Seq<char>
    decreases n,
{
    if n == 0 {
        seq![]
    } else if n == 1 {
        texts[0]
    } else {
        joined_texts(texts, separator, (n - 1) as nat) + separator + texts[n - 1]
    }
}

/// The views of the texts of a list of items.
pub open spec fn item_texts(items: Seq<&ResolvedItem>) -> Seq<Seq<char>> {
    items.map_values(|r: &ResolvedItem| r.text@)
}

/// Where item `i` of `n` ends in a target built from them: the graphemes of the items up to
/// it and of the separators between them, plus the separator that follows it unless it is
/// the last.
pub open spec fn item_end(texts: Seq<Seq<char>>, separator: Seq<char>, n: nat, i: nat) -> int {
    items_graphemes(texts, separator, i + 1) + (if i + 1 < n {
        crate::text::graphemes(separator).len() as int
    } else {
        0
    })
}

/// What a practice target built from `items` holds: their texts joined by the separator,
/// where each item ends, and the items' IDs.
pub open spec fn builds_target(
    items: Seq<&ResolvedItem>,
    separator: Seq<char>,
    r: (String, Vec<usize>, Vec<String>),
) -> bool {
    &&& r.0@ == joined_texts(item_texts(items), separator, items.len())
    &&& r.1@.len() == items.len()
    &&& forall|i: int|
        0 <= i < items.len() ==> r.1@[i] == item_end(
            item_texts(items),
            separator,
            items.len(),
            i as nat,
        )
    &&& crate::text::string_views(r.2@) == items.map_values(|x: &ResolvedItem| x.id@)
}

/// Builds a practice target from items: their texts joined by the separator, where each item
/// ends (counted in graphemes of the texts and separators, the separator after an item
/// counting with it), and the items' IDs.
pub fn catalog_target(items: &[&ResolvedItem], separator: &str) -> (r: (String, Vec<usize>, Vec<
    String,
>))
    requires
        items_graphemes(item_texts(items@), separator@, items@.len()) <= usize::MAX,
    ensures
        builds_target(items@, separator@, r),
{
    let ghost texts = item_texts(items@);
    let separator_clusters = crate::text::split_graphemes(separator);
    let separator_len = separator_clusters.len();
    assert(crate::text::string_views(separator_clusters@).len() == separator_clusters@.len());
    let mut target = String::new();
    let mut item_ends: Vec<usize> = Vec::new();
    let mut content_ids: Vec<String> = Vec::new();
    let mut graphemes: usize = 0;
    proof {
        lemma_items_graphemes_monotone(texts, separator@, 0, items@.len());
    }
    let count = items.len();
    let mut index: usize = 0;
    while index < count
        invariant
            count == items@.len(),
            index <= count,
            texts == item_texts(items@),
            separator_len == crate::text::graphemes(separator@).len(),
            target@ == joined_texts(texts, separator@, index as nat) + (if 0 < index < count {
                separator@
            } else {
                seq![]
            }),
            graphemes == items_graphemes(texts, separator@, index as nat) + (if 0 < index < count {
                separator_len as int
            } else {
                0
            }),
            items_graphemes(texts, separator@, items@.len()) <= usize::MAX,
            item_ends@.len() == index,
            forall|i: int|
                0 <= i < index ==> item_ends@[i] == item_end(texts, separator@, count as nat, i as nat),
            crate::text::string_views(content_ids@) == items@.take(index as int).map_values(
                |x: &ResolvedItem| x.id@,
            ),
        decreases count - index,
    {
        let item = items[index];
        assert(texts[index as int] == item.text@);
        proof {
            lemma_items_graphemes_monotone(texts, separator@, (index + 1) as nat, items@.len());
            if index + 2 <= count {
                lemma_items_graphemes_monotone(texts, separator@, (index + 2) as nat, items@.len());
            }
        }
        crate::text::push_str(&mut target, item.text.as_str());
        let clusters = crate::text::split_graphemes(item.text.as_str());
        assert(crate::text::string_views(clusters@).len() == clusters@.len());
        graphemes += clusters.len();
        if index + 1 != count {
            crate::text::push_str(&mut target, separator);
            graphemes += separator_len;
        }
        item_ends.push(graphemes);
        let ghost ids_before = content_ids@;
        content_ids.push(item.id.clone());
        assert(crate::text::string_views(content_ids@) =~= crate::text::string_views(ids_before).push(item.id@));
        assert(items@.take(index + 1) =~= items@.take(index as int).push(items@[index as int]));
        assert(target@ =~= joined_texts(texts, separator@, (index + 1) as nat) + (if 0 < index + 1 < count {
            separator@
        } else {
            seq![]
        }));
        assert(crate::text::string_views(content_ids@) =~= items@.take(index + 1).map_values(
            |x: &ResolvedItem| x.id@,
        ));
        index += 1;
    }
    assert(items@.take(items@.len() as int) =~= items@);
    assert(target@ =~= joined_texts(texts, separator@, count as nat));
    (target, item_ends, content_ids)
}

/// Builds a practice target from items as `catalog_target` does, when the grapheme count of
/// the whole target fits in a `usize`; `None` when it does not.
pub fn catalog_target_checked(items: &[&ResolvedItem], separator: &str) -> (r: Option<
    (String, Vec<usize>, Vec<String>),
>)
    ensures
        r is Some <==> items_graphemes(item_texts(items@), separator@, items@.len()) <= usize::MAX,
        r matches Some(t) ==> builds_target(items@, separator@, t),
{
    let ghost texts = item_texts(items@);
    let separator_clusters = crate::text::split_graphemes(separator);
    let separator_len = separator_clusters.len();
    assert(crate::text::string_views(separator_clusters@).len() == separator_clusters@.len());
    let mut total: usize = 0;
    let mut index: usize = 0;
    while index < items.len()
        invariant
            index <= items@.len(),
            texts == item_texts(items@),
            separator_len == crate::text::graphemes(separator@).len(),
            total == items_graphemes(texts, separator@, index as nat),
        decreases items@.len() - index,
    {
        assert(texts[index as int] == items@[index as int].text@);
        let clusters = crate::text::split_graphemes(items[index].text.as_str());
        assert(crate::text::string_views(clusters@).len() == clusters@.len());
        let step = if index > 0 {
            clusters.len().checked_add(separator_len)
        } else {
            Some(clusters.len())
        };
        let next = match step {
            Some(n) => total.checked_add(n),
            None => None,
        };
        match next {
            Some(n) => {
                total = n;
            },
            None => {
                proof {
                    lemma_items_graphemes_monotone(texts, separator@, (index + 1) as nat, items@.len());
                }
                return None;
            },
        }
        index += 1;
    }
    Some(catalog_target(items, separator))
}

/// Grapheme counts grow with the number of items.
pub proof fn lemma_items_graphemes_monotone(texts: Seq<Seq<char>>, separator: Seq<char>, a: nat, b: nat)
    requires
        a <= b,
    ensures
        0 <= items_graphemes(texts, separator, a) <= items_graphemes(texts, separator, b),
    decreases b,
{
    if b > a {
        lemma_items_graphemes_monotone(texts, separator, a, (b - 1) as nat);
    } else if a > 0 {
        lemma_items_graphemes_monotone(texts, separator, 0, (a - 1) as nat);
    }
}

/// Custom text made ready for long practice: what the long-text screen shows about it, the
/// text with its line endings made `\n`, and its paragraph ends.
#[derive(Clone, Debug, PartialEq, Eq)]
pub struct CustomPractice {
    pub metadata: LongMetadata,
    pub target: String,
    pub item_ends: Vec<usize>,
}

/// Why custom text cannot be practised, if it cannot: its name must be visible (not blank,
/// no control characters), it must fit in `MAX_CONTENT_BYTES`, and once `\r\n` is made `\n`
/// it must not be blank nor hold a control character other than `\n`.
pub open spec fn custom_text_refusal(name: Seq<char>, text: Seq<char>) -> Option<Seq<char>> {
    let t = crate::cli::crlf_to_lf(text);
    if crate::text::is_blank(name) || crate::text::has_control(name) {
        Some("custom text name must be visible"@)
    } else if crate::text::utf8_len(text) > crate::content::MAX_CONTENT_BYTES {
        Some("custom text exceeds the 8 MiB limit"@)
    } else if crate::text::is_blank(t) || exists|i: int|
        0 <= i < t.len() && t[i] != '\n' && crate::text::spec_is_control(#[trigger] t[i]) {
        Some("custom text is empty or contains a disallowed control character"@)
    } else {
        None
    }
}

/// Checks custom text and prepares it for long practice under its name, with its runs of
/// blank lines collapsed into one: the author says
/// where it came from, and it is marked as user-provided and not redistributed.
pub fn prepare_custom_text(source: CustomTextSource, name: &str, text: &str) -> (r: Result<
    CustomPractice,
    String,
>)
    ensures
        match r {
            Ok(p) => custom_text_refusal(name@, text@) is None && p.target@
                == crate::cli::collapse_blank_lines(crate::cli::crlf_to_lf(text@)) && p.item_ends@ == paragraph_ends_spec(p.target@) && p.metadata.title@ == name@
                && p.metadata.author@ == match source {
                CustomTextSource::File => "Local file"@,
                CustomTextSource::Stdin => "Standard input"@,
            } && p.metadata.source@ == "User-provided text"@ && p.metadata.license@
                == "Not redistributed"@ && p.metadata.difficulty is None && p.metadata.tags@.len()
                == 0 && p.metadata.custom_source == Some(source),
            Err(m) => custom_text_refusal(name@, text@) == Some(m@),
        },
{
    if crate::text::is_blank_str(name) || crate::text::contains_control(name) {
        return Err("custom text name must be visible".to_owned());
    }
    if text.len() > crate::content::MAX_CONTENT_BYTES {
        return Err("custom text exceeds the 8 MiB limit".to_owned());
    }
    let target = crate::cli::replace_crlf(text);
    if crate::text::is_blank_str(target.as_str()) || crate::text::contains_control_except_newline(
        target.as_str(),
    ) {
        return Err("custom text is empty or contains a disallowed control character".to_owned());
    }
    let target = crate::cli::collapse_blank_runs(target.as_str());
    let author = match source {
        CustomTextSource::File => "Local file".to_owned(),
        CustomTextSource::Stdin => "Standard input".to_owned(),
    };
    let metadata = LongMetadata {
        title: name.to_owned(),
        author,
        source: "User-provided text".to_owned(),
        license: "Not redistributed".to_owned(),
        difficulty: None,
        tags: Vec::new(),
        custom_source: Some(source),
    };
    let item_ends = paragraph_ends(target.as_str());
    Ok(CustomPractice { metadata, target, item_ends })
}

/// Every key stage drills all the keys of the stages before it, in the same order, first.
pub proof fn lemma_stages_extend(language: Language, a: nat, b: nat)
    requires
        1 <= a <= b,
    ensures
        stage_keys(language, a).len() <= stage_keys(language, b).len(),
        stage_keys(language, b).subrange(0, stage_keys(language, a).len() as int) == stage_keys(
            language,
            a,
        ),
    decreases b,
{
    if a < b {
        lemma_stages_extend(language, a, (b - 1) as nat);
        let prev = stage_keys(language, (b - 1) as nat);
        let whole = stage_keys(language, b);
        let n = stage_keys(language, a).len() as int;
        assert(whole == prev + new_keys(language, b as int));
        assert(whole.subrange(0, n) =~= prev.subrange(0, n));
    } else {
        assert(stage_keys(language, b).subrange(0, stage_keys(language, a).len() as int)
            =~= stage_keys(language, a));
    }
}

} // verus!

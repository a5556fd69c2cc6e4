//! The typing engine: what is typed against a practice target, cell by cell, with its counts
//! of cells, key units and errors, its pauses and its time limit. Times are nanoseconds on
//! the caller's monotonic clock. Each target cluster counts its key units (the keys it takes
//! to type it, see [`crate::typing`]).
use crate::model::{Language, PracticeKind};
use crate::practice::{
    item_ends_ok, layout_spec, line_ends_spec, logical_line_ends, practice_lines, validate_item_ends, InputOutcome,
};
use crate::stats::{tallies, tally_entry, KeyCount};
use crate::typing::{key_units, key_units_spec};
use crate::text::{graphemes, nfc, normalize_nfc, push_str, split_graphemes, str_eq, string_views, utf8_len};
use vstd::prelude::*;

verus! {

/// One typed cell: what was entered, whether it matched the target cluster, and whether its
/// key units were counted (a blank line that Enter crosses counts none).
#[derive(Clone, Debug)]
pub struct Cell {
    pub entered: String,
    pub correct: bool,
    pub counted: bool,
}

/// A practice in progress.
pub struct PracticeEngine {
    language: Language,
    kind: PracticeKind,
    target: Vec<String>,
    units: Vec<Vec<char>>,
    lines: Vec<u32>,
    active_line: usize,
    cells: Vec<Cell>,
    started_at: Option<u64>,
    finalized_at: Option<u64>,
    paused_at: Option<u64>,
    paused_total: u64,
    limit: Option<u64>,
    attempted_units: u64,
    correct_attempt_units: u64,
    correct_cells: u64,
    correct_units: u64,
    errors: u64,
    backspaces: u64,
    intended: Vec<KeyCount>,
    intended_log: Ghost<Seq<KeyCount>>,
}

/// The state of a practice: the target's clusters and their key units, the logical line
/// ends and the line being typed, the typed cells, the clock marks, and the counts.
#[verifier::ext_equal]
pub ghost struct EngineView {
    pub language: Language,
    pub kind: PracticeKind,
    pub target: Seq<Seq<char>>,
    pub units: Seq<Seq<char>>,
    pub lines: Seq<u32>,
    pub active_line: nat,
    pub cells: Seq<(Seq<char>, bool, bool)>,
    pub started_at: Option<u64>,
    pub finalized_at: Option<u64>,
    pub paused_at: Option<u64>,
    pub paused_total: u64,
    pub limit: Option<u64>,
    pub attempted_units: u64,
    pub correct_attempt_units: u64,
    pub correct_cells: u64,
    pub correct_units: u64,
    pub errors: u64,
    pub backspaces: u64,
    /// One entry per key unit of every cell typed (backspaced or not): the key, and whether
    /// the cell was right.
    pub intended_log: Seq<KeyCount>,
}

/// The views of the typed cells.
pub open spec fn cell_views(cells: Seq<Cell>) -> Seq<(Seq<char>, bool, bool)> {
    cells.map_values(|c: Cell| (c.entered@, c.correct, c.counted))
}

/// The views of lists of characters.
pub open spec fn unit_views(units: Seq<Vec<char>>) -> Seq<Seq<char>> {
    units.map_values(|u: Vec<char>| u@)
}

impl View for PracticeEngine {
    type V = EngineView;

    closed spec fn view(&self) -> EngineView {
        EngineView {
            language: self.language,
            kind: self.kind,
            target: string_views(self.target@),
            units: unit_views(self.units@),
            lines: self.lines@,
            active_line: self.active_line as nat,
            cells: cell_views(self.cells@),
            started_at: self.started_at,
            finalized_at: self.finalized_at,
            paused_at: self.paused_at,
            paused_total: self.paused_total,
            limit: self.limit,
            attempted_units: self.attempted_units,
            correct_attempt_units: self.correct_attempt_units,
            correct_cells: self.correct_cells,
            correct_units: self.correct_units,
            errors: self.errors,
            backspaces: self.backspaces,
            intended_log: self.intended_log@,
        }
    }
}

/// A count that stops at `u64::MAX`.
pub open spec fn sat(x: int) -> u64 {
    if x > u64::MAX {
        u64::MAX
    } else if x < 0 {
        0
    } else {
        x as u64
    }
}

/// `a - b`, or zero when `b` is larger.
pub open spec fn sat_sub(a: u64, b: u64) -> u64 {
    if a >= b {
        (a - b) as u64
    } else {
        0
    }
}

/// The key units of the target cluster at `i`, none past the end.
pub open spec fn units_at(e: EngineView, i: int) -> Seq<char> {
    if 0 <= i < e.units.len() {
        e.units[i]
    } else {
        Seq::empty()
    }
}

/// The log entry of a key unit of a cell, counted right or wrong.
pub open spec fn unit_entry(u: char, correct: bool) -> KeyCount {
    KeyCount {
        key: u,
        correct: if correct {
            1
        } else {
            0
        },
        errors: if correct {
            0
        } else {
            1
        },
    }
}

/// The log entries of the key units of a cell: one per unit, counted right or wrong.
pub open spec fn unit_entries(units: Seq<char>, correct: bool) -> Seq<KeyCount> {
    Seq::new(units.len(), |i: int| unit_entry(units[i], correct))
}

/// The state after a cell is typed at the cursor: the clock starts if it had not, the key
/// units of the target cluster count as attempted, and as correct when the cell is, a
/// wrong cell counts as an error, and each key unit is logged as meant, pressed right or not.
pub open spec fn recorded(e: EngineView, entered: Seq<char>, correct: bool, now: u64) -> EngineView {
    let n = units_at(e, e.cells.len() as int).len();
    EngineView {
        started_at: if e.started_at is Some {
            e.started_at
        } else {
            Some(now)
        },
        attempted_units: sat(e.attempted_units + n),
        correct_attempt_units: if correct {
            sat(e.correct_attempt_units + n)
        } else {
            e.correct_attempt_units
        },
        correct_cells: if correct {
            sat(e.correct_cells + 1)
        } else {
            e.correct_cells
        },
        correct_units: if correct {
            sat(e.correct_units + n)
        } else {
            e.correct_units
        },
        errors: if correct {
            e.errors
        } else {
            sat(e.errors + 1)
        },
        cells: e.cells.push((entered, correct, true)),
        intended_log: e.intended_log + unit_entries(units_at(e, e.cells.len() as int), correct),
        ..e
    }
}

/// The line typed once `n` cells are in, from line `active` on: every line whose end the
/// cursor has reached is passed.
pub open spec fn advanced_line(lines: Seq<u32>, active: nat, n: nat) -> nat
    decreases lines.len() - active,
{
    if active < lines.len() && n >= lines[active as int] {
        advanced_line(lines, active + 1, n)
    } else {
        active
    }
}

/// The state with the active line moved past every line the cursor has reached.
pub open spec fn advanced(e: EngineView) -> EngineView {
    EngineView { active_line: advanced_line(e.lines, e.active_line, e.cells.len()), ..e }
}

/// The target is typed: every cluster has a cell and, in key practice, every cell is right.
pub open spec fn complete(e: EngineView) -> bool {
    &&& e.cells.len() == e.target.len()
    &&& (e.kind == PracticeKind::Key ==> forall|i: int|
        0 <= i < e.cells.len() ==> (#[trigger] e.cells[i]).1)
}

/// The time spent typing, in nanoseconds, at `now`: from the first cell to now (or to the
/// end, once finished), less the pauses; once finished, at most the time limit.
pub open spec fn active_nanos(e: EngineView, now: u64) -> u64 {
    match e.started_at {
        None => 0,
        Some(start) => {
            let end = match e.finalized_at {
                Some(f) => f,
                None => now,
            };
            let pause = match e.paused_at {
                Some(p) => sat_sub(end, p),
                None => 0,
            };
            let active = sat_sub(sat_sub(sat_sub(end, start), e.paused_total), pause);
            match (e.finalized_at, e.limit) {
                (Some(_), Some(limit)) => if active < limit {
                    active
                } else {
                    limit
                },
                _ => active,
            }
        },
    }
}

/// The time limit is reached at `now`.
pub open spec fn limit_reached(e: EngineView, now: u64) -> bool {
    match e.limit {
        Some(limit) => active_nanos(e, now) >= limit,
        None => false,
    }
}

/// The practice is over at `now`: finalized, typed to the end, or out of time.
pub open spec fn finished(e: EngineView, now: u64) -> bool {
    e.finalized_at is Some || complete(e) || limit_reached(e, now)
}

/// The state after typing the clusters `g` one by one against the target, and whether the
/// target was completed: each cluster is right exactly when it equals the target cluster at
/// the cursor; typing stops at the end of the target or once it is complete.
pub open spec fn fed(e: EngineView, g: Seq<Seq<char>>, now: u64) -> (EngineView, bool)
    decreases g.len(),
{
    if g.len() == 0 || e.cells.len() >= e.target.len() {
        (e, false)
    } else {
        let e1 = advanced(recorded(e, g[0], g[0] == e.target[e.cells.len() as int], now));
        if complete(e1) {
            (e1, true)
        } else {
            fed(e1, g.skip(1), now)
        }
    }
}

/// What typing `text` at `now` does: nothing while paused or once the practice is over;
/// otherwise its NFC clusters are typed ([`fed`]), and the practice is finished when they
/// complete the target.
pub open spec fn input_spec(e: EngineView, text: Seq<char>, now: u64) -> (EngineView, InputOutcome) {
    if e.paused_at is Some {
        (e, InputOutcome::IgnoredWhilePaused)
    } else if finished(e, now) {
        (e, InputOutcome::Finished)
    } else {
        let (e1, done) = fed(e, graphemes(nfc(text)), now);
        (
            e1,
            if done {
                InputOutcome::Finished
            } else {
                InputOutcome::Accepted
            },
        )
    }
}

/// The cursor stands on a line feed of the target.
pub open spec fn at_line_feed(e: EngineView) -> bool {
    e.cells.len() < e.target.len() && e.target[e.cells.len() as int] == seq!['\n']
}

/// The state after Enter crosses a blank line: its line feed is a right cell whose key units
/// are not counted (the clock starts if it had not).
pub open spec fn crossed(e: EngineView, now: u64) -> EngineView {
    EngineView {
        started_at: if e.started_at is Some {
            e.started_at
        } else {
            Some(now)
        },
        correct_cells: sat(e.correct_cells + 1),
        cells: e.cells.push((seq!['\n'], true, false)),
        ..e
    }
}

/// The state after Enter crosses every blank line at the cursor, moving past each one's line.
pub open spec fn across_blank_lines(e: EngineView, now: u64) -> EngineView
    decreases e.target.len() - e.cells.len(),
{
    if at_line_feed(e) {
        across_blank_lines(advanced(crossed(e, now)), now)
    } else {
        e
    }
}

/// The state after the line is filled up to `end`: the line feed that ends a line counts as
/// the right Enter, any other cell left is an empty wrong cell.
pub open spec fn padded(e: EngineView, end: nat, now: u64) -> EngineView
    decreases end - e.cells.len(),
{
    if e.cells.len() < end {
        let lf = at_line_feed(e);
        padded(
            recorded(
                e,
                if lf {
                    seq!['\n']
                } else {
                    Seq::empty()
                },
                lf,
                now,
            ),
            end,
            now,
        )
    } else {
        e
    }
}

/// The state after Enter ends the current line, before any blank line is crossed: on a line
/// feed it types it, right; otherwise the rest of the line is filled ([`padded`]). `None`
/// when no line is left.
pub open spec fn line_entered(e: EngineView, now: u64) -> Option<EngineView> {
    if at_line_feed(e) {
        Some(advanced(recorded(e, seq!['\n'], true, now)))
    } else if e.active_line >= e.lines.len() {
        None
    } else {
        Some(advanced(padded(e, e.lines[e.active_line as int] as nat, now)))
    }
}

/// What Enter does at `now`. In key practice it types a line feed. Otherwise, unless paused
/// or over, it ends the current line ([`line_entered`]) and then crosses the whole run of
/// blank lines that follows ([`across_blank_lines`]).
pub open spec fn submit_spec(e: EngineView, now: u64) -> (EngineView, InputOutcome) {
    if e.kind == PracticeKind::Key {
        input_spec(e, seq!['\n'], now)
    } else if e.paused_at is Some {
        (e, InputOutcome::IgnoredWhilePaused)
    } else if finished(e, now) {
        (e, InputOutcome::Finished)
    } else {
        match line_entered(e, now) {
            None => (e, InputOutcome::Finished),
            Some(e1) => {
                let e2 = across_blank_lines(e1, now);
                (
                    e2,
                    if complete(e2) {
                        InputOutcome::Finished
                    } else {
                        InputOutcome::Accepted
                    },
                )
            },
        }
    }
}

/// What Backspace does: nothing once finalized, paused or complete. At the start of a line
/// other than the first (outside key practice) it goes back to the line before; otherwise it
/// removes the last cell, taking back its counts when it was right. Either way it counts a
/// backspace; it returns whether it did anything.
pub open spec fn backspace_spec(e: EngineView) -> (EngineView, bool) {
    if e.finalized_at is Some || e.paused_at is Some || complete(e) {
        (e, false)
    } else if e.kind != PracticeKind::Key && e.active_line > 0 && e.active_line < e.lines.len()
        && e.cells.len() == e.lines[e.active_line - 1] {
        (
            EngineView {
                active_line: (e.active_line - 1) as nat,
                backspaces: sat(e.backspaces + 1),
                ..e
            },
            true,
        )
    } else if e.cells.len() == 0 {
        (e, false)
    } else {
        let n = if e.cells.last().2 {
            units_at(e, e.cells.len() - 1).len()
        } else {
            0
        };
        let right = e.cells.last().1;
        (
            EngineView {
                cells: e.cells.drop_last(),
                correct_cells: if right {
                    sat_sub(e.correct_cells, 1)
                } else {
                    e.correct_cells
                },
                correct_units: if right {
                    sat_sub(e.correct_units, n as u64)
                } else {
                    e.correct_units
                },
                backspaces: sat(e.backspaces + 1),
                ..e
            },
            true,
        )
    }
}

/// What pausing or resuming does at `now`: nothing once finalized or in a test; resuming
/// adds the pause to the paused time (once typing has started).
pub open spec fn pause_spec(e: EngineView, now: u64) -> (EngineView, bool) {
    if e.finalized_at is Some || e.kind == PracticeKind::Test {
        (e, false)
    } else {
        match e.paused_at {
            Some(p) => (
                EngineView {
                    paused_at: None,
                    paused_total: if e.started_at is Some {
                        sat(e.paused_total + sat_sub(now, p))
                    } else {
                        e.paused_total
                    },
                    ..e
                },
                true,
            ),
            None => (EngineView { paused_at: Some(now), ..e }, true),
        }
    }
}

/// Why a practice cannot start on `target` with items ending at `item_ends`, if it cannot:
/// the layout refuses it ([`layout_spec`] of the NFC form).
pub open spec fn start_refusal(kind: PracticeKind, target: Seq<char>, item_ends: Seq<usize>) -> Option<
    Seq<char>,
> {
    match layout_spec(kind, nfc(target), item_ends) {
        Err(m) => Some(m),
        Ok(_) => None,
    }
}

/// The key units of each cluster, in a language.
pub open spec fn cluster_units(language: Language, clusters: Seq<Seq<char>>) -> Seq<Seq<char>> {
    clusters.map_values(|g: Seq<char>| key_units_spec(language, g))
}

/// A fresh practice on the NFC form of `target`: the key units of each of its clusters,
/// nothing typed, no clock mark, all counts zero, on the first line.
pub open spec fn fresh_engine(
    e: EngineView,
    language: Language,
    kind: PracticeKind,
    target: Seq<char>,
    item_ends: Seq<usize>,
    limit: Option<u64>,
) -> bool {
    &&& e.language == language
    &&& e.kind == kind
    &&& e.target == graphemes(nfc(target))
    &&& layout_spec(kind, nfc(target), item_ends) == Ok::<Seq<u32>, Seq<char>>(e.lines)
    &&& e.units == cluster_units(language, graphemes(nfc(target)))
    &&& e.active_line == 0
    &&& e.cells.len() == 0
    &&& e.started_at is None && e.finalized_at is None && e.paused_at is None
    &&& e.paused_total == 0
    &&& e.limit == limit
    &&& e.attempted_units == 0 && e.correct_attempt_units == 0 && e.correct_cells == 0
    &&& e.correct_units == 0 && e.errors == 0 && e.backspaces == 0
    &&& e.intended_log.len() == 0
}

/// The bytes of the UTF-8 encoding of a target, cluster by cluster.
pub open spec fn bytes_of(clusters: Seq<Seq<char>>) -> int
    decreases clusters.len(),
{
    if clusters.len() == 0 {
        0
    } else {
        bytes_of(clusters.drop_last()) + utf8_len(clusters.last())
    }
}

proof fn lemma_bytes_of_nonnegative(clusters: Seq<Seq<char>>)
    ensures
        bytes_of(clusters) >= 0,
    decreases clusters.len(),
{
    if clusters.len() > 0 {
        lemma_bytes_of_nonnegative(clusters.drop_last());
    }
}

/// `x + by`, or `usize::MAX` when that does not fit.
pub open spec fn shifted(x: usize, by: nat) -> usize {
    if x + by > usize::MAX {
        usize::MAX
    } else {
        (x + by) as usize
    }
}

/// Item ends moved `by` clusters on.
pub open spec fn shifted_ends(ends: Seq<usize>, by: nat) -> Seq<usize> {
    ends.map_values(|x: usize| shifted(x, by))
}

/// Line ends moved `offset` clusters on.
pub open spec fn offset_lines(lines: Seq<u32>, offset: nat) -> Seq<u32> {
    lines.map_values(|l: u32| (offset + l) as u32)
}

/// The clusters of a separator's NFC form that an extension puts before its text.
pub open spec fn separator_clusters(separator: Seq<char>, target: Seq<char>) -> nat {
    let g = graphemes(nfc(separator) + nfc(target));
    let tlen = graphemes(nfc(target)).len();
    if g.len() >= tlen {
        (g.len() - tlen) as nat
    } else {
        0
    }
}

/// The logical line ends of an extension, counted from its start: its text's items moved
/// past the separator's clusters.
pub open spec fn extension_lines(kind: PracticeKind, separator: Seq<char>, target: Seq<char>, item_ends: Seq<usize>) -> Seq<
    u32,
> {
    line_ends_spec(
        kind,
        graphemes(nfc(separator) + nfc(target)),
        shifted_ends(item_ends, separator_clusters(separator, target)),
    )
}

/// What extending a practice with `target` after `separator` (both taken in NFC form, with
/// items of the text ending at `item_ends`, counted in its clusters) gives: refused once
/// finalized, for an empty text, past 4 GiB, for item ends that do not cover the text, and
/// where a line end would not fit in 32 bits; otherwise the extension's clusters and their
/// key units follow the target's, and its logical lines follow the target's (a key practice
/// keeps one line over the whole target). Nothing else changes, the typed cells and the
/// clock included.
pub open spec fn extend_spec(e: EngineView, separator: Seq<char>, target: Seq<char>, item_ends: Seq<usize>) -> Result<
    EngineView,
    Seq<char>,
> {
    let t = nfc(target);
    let ext = nfc(separator) + t;
    let g = graphemes(ext);
    let tlen = graphemes(t).len();
    let ext_lines = extension_lines(e.kind, separator, target, item_ends);
    let offset = e.target.len();
    if e.finalized_at is Some {
        Err("cannot extend finalized practice"@)
    } else if t.len() == 0 {
        Err("practice target extension cannot be empty"@)
    } else if bytes_of(e.target) + utf8_len(ext) > u32::MAX || g.len() > u32::MAX {
        Err("practice target exceeds 4 GiB"@)
    } else if !item_ends_ok(item_ends, tlen) {
        Err("practice item boundaries must be ordered and cover the target"@)
    } else if e.kind != PracticeKind::Key && g.len() < tlen {
        Err("practice item boundary exceeds target"@)
    } else if (e.kind == PracticeKind::Key && offset + g.len() > u32::MAX) || (e.kind != PracticeKind::Key
        && exists|i: int| 0 <= i < ext_lines.len() && offset + #[trigger] ext_lines[i] > u32::MAX) {
        Err("out of range integral type conversion attempted"@)
    } else {
        Ok(
            EngineView {
                target: e.target + g,
                units: e.units + cluster_units(e.language, g),
                lines: if e.kind == PracticeKind::Key {
                    seq![(offset + g.len()) as u32]
                } else {
                    e.lines + offset_lines(ext_lines, offset)
                },
                ..e
            },
        )
    }
}

/// The clusters of the NFC form of a practice text: the cells a practice on it asks for, in
/// order.
pub fn practice_clusters(target: &str) -> (r: Vec<String>)
    ensures
        string_views(r@) == graphemes(nfc(target@)),
{
    let t = normalize_nfc(target);
    split_graphemes(t.as_str())
}

impl PracticeEngine {
    /// The tally of intended keys counts the log of key units.
    pub closed spec fn wf(&self) -> bool {
        tallies(self.intended@, self.intended_log@)
    }

    /// How often each key was meant and pressed right or wrong, in key order: the log of key
    /// units tallied.
    pub fn intended_keys(&self) -> (r: &Vec<KeyCount>)
        requires
            self.wf(),
        ensures
            tallies(r@, self@.intended_log),
    {
        &self.intended
    }

    /// Types one cell at the cursor; see [`recorded`].
    fn record_cell(&mut self, entered: String, correct: bool, now: u64)
        requires
            old(self).wf(),
        ensures
            final(self).wf(),
            final(self)@ == recorded(old(self)@, entered@, correct, now),
    {
        let n: u64 = if self.cells.len() < self.units.len() {
            self.units[self.cells.len()].len() as u64
        } else {
            0
        };
        proof {
            assert(unit_views(self.units@).len() == self.units@.len());
            if self.cells@.len() < self.units@.len() {
                assert(unit_views(self.units@)[self.cells@.len() as int] == self.units@[self.cells@.len() as int]@);
            }
            assert(cell_views(self.cells@).len() == self.cells@.len());
        }
        if self.started_at.is_none() {
            self.started_at = Some(now);
        }
        self.attempted_units = self.attempted_units.saturating_add(n);
        if correct {
            self.correct_attempt_units = self.correct_attempt_units.saturating_add(n);
            self.correct_cells = self.correct_cells.saturating_add(1);
            self.correct_units = self.correct_units.saturating_add(n);
        } else {
            self.errors = self.errors.saturating_add(1);
        }
        let idx = self.cells.len();
        if idx < self.units.len() {
            let ghost base = self.intended_log@;
            let ghost us = self.units@[idx as int]@;
            let mut tally: Vec<KeyCount> = Vec::new();
            std::mem::swap(&mut tally, &mut self.intended);
            let list = &self.units[idx];
            let mut k: usize = 0;
            proof {
                assert(unit_entries(us.take(0), correct) =~= Seq::<KeyCount>::empty());
                assert(base + unit_entries(us.take(0), correct) =~= base);
            }
            while k < list.len()
                invariant
                    list@ == us,
                    k <= us.len(),
                    tallies(tally@, base + unit_entries(us.take(k as int), correct)),
                decreases us.len() - k,
            {
                let entry = KeyCount {
                    key: list[k],
                    correct: if correct {
                        1
                    } else {
                        0
                    },
                    errors: if correct {
                        0
                    } else {
                        1
                    },
                };
                tally_entry(&mut tally, entry, Ghost(base + unit_entries(us.take(k as int), correct)));
                proof {
                    assert(entry == unit_entry(us[k as int], correct));
                    assert(us.take(k + 1)[k as int] == us[k as int]);
                    assert(unit_entries(us.take(k + 1), correct) =~= unit_entries(us.take(k as int), correct).push(entry));
                    assert(base + unit_entries(us.take(k + 1), correct) =~= (base + unit_entries(us.take(k as int), correct)).push(entry));
                }
                k = k + 1;
            }
            proof {
                assert(us.take(us.len() as int) =~= us);
            }
            std::mem::swap(&mut tally, &mut self.intended);
            self.intended_log = Ghost(base + unit_entries(us, correct));
        } else {
            proof {
                assert(unit_entries(Seq::<char>::empty(), correct) =~= Seq::<KeyCount>::empty());
                assert(self.intended_log@ + unit_entries(Seq::<char>::empty(), correct) =~= self.intended_log@);
            }
        }
        let ghost before = self.cells@;
        let ghost entered_view = entered@;
        self.cells.push(Cell { entered, correct, counted: true });
        proof {
            assert(cell_views(self.cells@) =~= cell_views(before).push((entered_view, correct, true)));
        }
    }

    /// Moves the active line past every line the cursor has reached; see [`advanced`].
    fn advance_active_line(&mut self)
        requires
            old(self).wf(),
        ensures
            final(self).wf(),
            final(self)@ == advanced(old(self)@),
    {
        let n = self.cells.len();
        proof {
            assert(cell_views(self.cells@).len() == n);
        }
        while self.active_line < self.lines.len() && n as u64 >= self.lines[self.active_line] as u64
            invariant
                n == self.cells@.len(),
                self.lines@ == old(self).lines@,
                self.cells@ == old(self).cells@,
                self.active_line <= self.lines@.len() || self.active_line == old(self).active_line,
                self.wf(),
                advanced_line(self.lines@, self.active_line as nat, n as nat) == advanced_line(
                    old(self).lines@,
                    old(self).active_line as nat,
                    n as nat,
                ),
                self@ == (EngineView { active_line: self.active_line as nat, ..old(self)@ }),
            decreases self.lines@.len() - self.active_line,
        {
            self.active_line = self.active_line + 1;
        }
    }

    /// Whether the target is typed; see [`complete`].
    pub fn target_complete(&self) -> (r: bool)
        ensures
            r == complete(self@),
    {
        proof {
            assert(cell_views(self.cells@).len() == self.cells@.len());
            assert(string_views(self.target@).len() == self.target@.len());
        }
        if self.cells.len() != self.target.len() {
            return false;
        }
        if self.kind != PracticeKind::Key {
            proof {
                assert(self@.cells.len() == self@.target.len());
                assert(complete(self@));
            }
            return true;
        }
        let mut i: usize = 0;
        while i < self.cells.len()
            invariant
                i <= self.cells@.len(),
                self.kind == PracticeKind::Key,
                forall|j: int| 0 <= j < i ==> (#[trigger] cell_views(self.cells@)[j]).1,
            decreases self.cells@.len() - i,
        {
            if !self.cells[i].correct {
                proof {
                    assert(!cell_views(self.cells@)[i as int].1);
                    assert(!self@.cells[i as int].1);
                    assert(!complete(self@));
                }
                return false;
            }
            i = i + 1;
        }
        proof {
            assert(self@.cells == cell_views(self.cells@));
            assert(self@.cells.len() == self@.target.len());
            assert forall|j: int| 0 <= j < self@.cells.len() implies (#[trigger] self@.cells[j]).1 by {
                assert(cell_views(self.cells@)[j].1);
            }
            assert(complete(self@));
        }
        true
    }

    /// The time spent typing at `now`; see [`active_nanos`].
    pub fn active_nanos(&self, now: u64) -> (r: u64)
        ensures
            r == active_nanos(self@, now),
    {
        match self.started_at {
            None => 0,
            Some(start) => {
                let end = match self.finalized_at {
                    Some(f) => f,
                    None => now,
                };
                let pause = match self.paused_at {
                    Some(p) => end.saturating_sub(p),
                    None => 0,
                };
                let active = end.saturating_sub(start).saturating_sub(self.paused_total).saturating_sub(
                    pause,
                );
                match (self.finalized_at, self.limit) {
                    (Some(_), Some(limit)) => if active < limit {
                        active
                    } else {
                        limit
                    },
                    _ => active,
                }
            },
        }
    }

    /// Whether the time limit is reached at `now`.
    pub fn time_limit_reached(&self, now: u64) -> (r: bool)
        ensures
            r == limit_reached(self@, now),
    {
        match self.limit {
            Some(limit) => self.active_nanos(now) >= limit,
            None => false,
        }
    }

    /// Whether the practice is over at `now`; see [`finished`].
    pub fn is_finished(&self, now: u64) -> (r: bool)
        ensures
            r == finished(self@, now),
    {
        self.finalized_at.is_some() || self.target_complete() || self.time_limit_reached(now)
    }
    /// Starts a practice on `target` as items ending at `item_ends` (counted in clusters of
    /// its NFC form); see [`start_refusal`] and [`fresh_engine`].
    pub fn new_for_items(
        language: Language,
        kind: PracticeKind,
        target: &str,
        item_ends: &Vec<usize>,
        limit_nanos: Option<u64>,
    ) -> (r: Result<PracticeEngine, String>)
        ensures
            match r {
                Ok(e) => e.wf() && start_refusal(kind, target@, item_ends@) is None
                    && fresh_engine(e@, language, kind, target@, item_ends@, limit_nanos),
                Err(m) => start_refusal(kind, target@, item_ends@) == Some(m@),
            },
    {
        let t = normalize_nfc(target);
        let lines = match practice_lines(kind, t.as_str(), item_ends) {
            Ok(lines) => lines,
            Err(m) => {
                return Err(m);
            },
        };
        let clusters = split_graphemes(t.as_str());
        proof {
            assert(string_views(clusters@).len() == clusters@.len());
        }
        let mut units: Vec<Vec<char>> = Vec::new();
        let ghost cv = string_views(clusters@);
        for k in 0..clusters.len()
            invariant
                cv == string_views(clusters@),
                cv.len() == clusters@.len(),
                unit_views(units@) == cluster_units(language, cv.take(k as int)),
        {
            let ghost before = units@;
            units.push(key_units(language, clusters[k].as_str()));
            proof {
                assert(cv[k as int] == clusters@[k as int]@);
                assert(unit_views(units@) =~= unit_views(before).push(key_units_spec(language, cv[k as int])));
                assert(cluster_units(language, cv.take(k + 1)) =~= cluster_units(language, cv.take(k as int)).push(
                    key_units_spec(language, cv[k as int]),
                ));
            }
        }
        proof {
            assert(cv.take(clusters@.len() as int) =~= cv);
        }
        let e = PracticeEngine {
            language,
            kind,
            target: clusters,
            units,
            lines,
            active_line: 0,
            cells: Vec::new(),
            started_at: None,
            finalized_at: None,
            paused_at: None,
            paused_total: 0,
            limit: limit_nanos,
            attempted_units: 0,
            correct_attempt_units: 0,
            correct_cells: 0,
            correct_units: 0,
            errors: 0,
            backspaces: 0,
            intended: Vec::new(),
            intended_log: Ghost(Seq::empty()),
        };
        proof {
            assert(cell_views(e.cells@) =~= Seq::<(Seq<char>, bool, bool)>::empty());
        }
        Ok(e)
    }

    /// Starts a practice on `target` as a single item; see [`PracticeEngine::new_for_items`].
    pub fn new(
        language: Language,
        kind: PracticeKind,
        target: &str,
        limit_nanos: Option<u64>,
    ) -> (r: Result<PracticeEngine, String>)
        ensures
            match r {
                Ok(e) => e.wf() && start_refusal(kind, target@, seq![graphemes(nfc(target@)).len() as usize]) is None
                    && fresh_engine(e@, language, kind, target@, seq![graphemes(nfc(target@)).len() as usize], limit_nanos),
                Err(m) => start_refusal(kind, target@, seq![graphemes(nfc(target@)).len() as usize]) == Some(m@),
            },
    {
        let clusters = practice_clusters(target);
        proof {
            assert(string_views(clusters@).len() == clusters@.len());
        }
        let ends = vec![clusters.len()];
        proof {
            assert(ends@ =~= seq![graphemes(nfc(target@)).len() as usize]);
        }
        Self::new_for_items(language, kind, target, &ends, limit_nanos)
    }

    /// Types `text` at `now`; see [`input_spec`].
    pub fn input(&mut self, text: &str, now: u64) -> (r: InputOutcome)
        requires
            old(self).wf(),
        ensures
            final(self).wf(),
            (final(self)@, r) == input_spec(old(self)@, text@, now),
    {
        if self.paused_at.is_some() {
            return InputOutcome::IgnoredWhilePaused;
        }
        if self.is_finished(now) {
            return InputOutcome::Finished;
        }
        let t = normalize_nfc(text);
        let g = split_graphemes(t.as_str());
        let ghost gv = string_views(g@);
        proof {
            assert(gv.len() == g@.len());
            assert(gv.skip(0) =~= gv);
            assert(string_views(self.target@).len() == self.target@.len());
            assert(cell_views(self.cells@).len() == self.cells@.len());
        }
        let mut i: usize = 0;
        let mut done = false;
        while i < g.len() && !done && self.cells.len() < self.target.len()
            invariant
                gv == graphemes(nfc(text@)),
                gv == string_views(g@),
                gv.len() == g@.len(),
                i <= g@.len(),
                self.wf(),
                !done ==> fed(self@, gv.skip(i as int), now) == fed(old(self)@, gv, now),
                done ==> fed(old(self)@, gv, now) == (self@, true),
            decreases g@.len() - i,
        {
            proof {
                assert(string_views(self.target@).len() == self.target@.len());
                assert(cell_views(self.cells@).len() == self.cells@.len());
                assert(gv.skip(i as int)[0] == gv[i as int]);
                assert(gv.skip(i as int).skip(1) =~= gv.skip(i + 1));
            }
            let idx = self.cells.len();
            let correct = str_eq(g[i].as_str(), self.target[idx].as_str());
            self.record_cell(g[i].clone(), correct, now);
            self.advance_active_line();
            if self.target_complete() {
                done = true;
            }
            i = i + 1;
        }
        proof {
            assert(string_views(self.target@).len() == self.target@.len());
            assert(cell_views(self.cells@).len() == self.cells@.len());
        }
        if done {
            InputOutcome::Finished
        } else {
            InputOutcome::Accepted
        }
    }

    /// Whether the cursor stands on a line feed of the target.
    fn on_line_feed(&self) -> (r: bool)
        ensures
            r == at_line_feed(self@),
    {
        proof {
            reveal_strlit("\n");
            assert("\n"@ =~= seq!['\n']);
            assert(string_views(self.target@).len() == self.target@.len());
            assert(cell_views(self.cells@).len() == self.cells@.len());
        }
        let idx = self.cells.len();
        if idx < self.target.len() {
            proof {
                assert(self@.target[idx as int] == self.target@[idx as int]@);
            }
            str_eq(self.target[idx].as_str(), "\n")
        } else {
            false
        }
    }

    /// Crosses a blank line at the cursor; see [`crossed`].
    fn cross_line_feed(&mut self, now: u64)
        requires
            old(self).wf(),
        ensures
            final(self).wf(),
            final(self)@ == crossed(old(self)@, now),
    {
        proof {
            reveal_strlit("\n");
            assert("\n"@ =~= seq!['\n']);
        }
        if self.started_at.is_none() {
            self.started_at = Some(now);
        }
        self.correct_cells = self.correct_cells.saturating_add(1);
        let ghost before = self.cells@;
        self.cells.push(Cell { entered: "\n".to_owned(), correct: true, counted: false });
        proof {
            assert(cell_views(self.cells@) =~= cell_views(before).push((seq!['\n'], true, false)));
        }
    }

    /// Enter at `now`; see [`submit_spec`].
    pub fn submit_line(&mut self, now: u64) -> (r: InputOutcome)
        requires
            old(self).wf(),
        ensures
            final(self).wf(),
            (final(self)@, r) == submit_spec(old(self)@, now),
    {
        proof {
            reveal_strlit("\n");
            assert("\n"@ =~= seq!['\n']);
        }
        if self.kind == PracticeKind::Key {
            return self.input("\n", now);
        }
        if self.paused_at.is_some() {
            return InputOutcome::IgnoredWhilePaused;
        }
        if self.is_finished(now) {
            return InputOutcome::Finished;
        }
        if self.on_line_feed() {
            self.record_cell("\n".to_owned(), true, now);
            self.advance_active_line();
        } else {
            if self.active_line >= self.lines.len() {
                return InputOutcome::Finished;
            }
            let end = self.lines[self.active_line] as usize;
            let ghost start = self@;
            while self.cells.len() < end
                invariant
                    padded(self@, end as nat, now) == padded(start, end as nat, now),
                    self@.lines == start.lines,
                    self.wf(),
                decreases end - self@.cells.len(),
            {
                proof {
                    assert(cell_views(self.cells@).len() == self.cells@.len());
                    reveal_strlit("\n");
                    assert("\n"@ =~= seq!['\n']);
                }
                if self.on_line_feed() {
                    self.record_cell("\n".to_owned(), true, now);
                } else {
                    self.record_cell(String::new(), false, now);
                }
                proof {
                    assert(cell_views(self.cells@).len() == self.cells@.len());
                }
            }
            proof {
                assert(cell_views(self.cells@).len() == self.cells@.len());
                assert(self@ == padded(start, end as nat, now));
                assert(start == old(self)@);
                assert(end as nat == start.lines[start.active_line as int] as nat);
            }
            self.advance_active_line();
        }
        let ghost entered = self@;
        proof {
            assert(line_entered(old(self)@, now) == Some(entered));
        }
        while self.on_line_feed()
            invariant
                self.wf(),
                across_blank_lines(self@, now) == across_blank_lines(entered, now),
                self@.target == entered.target,
                self@.cells.len() <= self@.target.len() || !at_line_feed(self@),
            decreases self@.target.len() - self@.cells.len(),
        {
            self.cross_line_feed(now);
            self.advance_active_line();
        }
        if self.target_complete() {
            InputOutcome::Finished
        } else {
            InputOutcome::Accepted
        }
    }

    /// Backspace; see [`backspace_spec`].
    pub fn backspace(&mut self) -> (r: bool)
        requires
            old(self).wf(),
        ensures
            final(self).wf(),
            (final(self)@, r) == backspace_spec(old(self)@),
    {
        if self.finalized_at.is_some() || self.paused_at.is_some() || self.target_complete() {
            return false;
        }
        proof {
            assert(cell_views(self.cells@).len() == self.cells@.len());
            assert(unit_views(self.units@).len() == self.units@.len());
        }
        if self.kind != PracticeKind::Key && self.active_line > 0 && self.active_line
            < self.lines.len() && self.cells.len() as u64 == self.lines[self.active_line - 1] as u64 {
            self.active_line = self.active_line - 1;
            self.backspaces = self.backspaces.saturating_add(1);
            return true;
        }
        if self.cells.len() == 0 {
            return false;
        }
        let index = self.cells.len() - 1;
        let n: u64 = if index < self.units.len() {
            self.units[index].len() as u64
        } else {
            0
        };
        proof {
            if index < self.units@.len() {
                assert(unit_views(self.units@)[index as int] == self.units@[index as int]@);
            }
        }
        let ghost before = self.cells@;
        match self.cells.pop() {
            Some(cell) => {
                proof {
                    assert(cell_views(self.cells@) =~= cell_views(before).drop_last());
                    assert(cell_views(before).last() == (cell.entered@, cell.correct, cell.counted));
                }
                if cell.correct {
                    self.correct_cells = self.correct_cells.saturating_sub(1);
                    if cell.counted {
                        self.correct_units = self.correct_units.saturating_sub(n);
                    }
                }
                self.backspaces = self.backspaces.saturating_add(1);
                true
            },
            None => false,
        }
    }

    /// Pauses or resumes at `now`; see [`pause_spec`].
    pub fn toggle_pause(&mut self, now: u64) -> (r: bool)
        requires
            old(self).wf(),
        ensures
            final(self).wf(),
            (final(self)@, r) == pause_spec(old(self)@, now),
    {
        if self.finalized_at.is_some() || self.kind == PracticeKind::Test {
            return false;
        }
        match self.paused_at {
            Some(p) => {
                self.paused_at = None;
                if self.started_at.is_some() {
                    self.paused_total = self.paused_total.saturating_add(now.saturating_sub(p));
                }
            },
            None => {
                self.paused_at = Some(now);
            },
        }
        true
    }

    /// Ends the practice at `now`, unless it already ended.
    pub fn finalize(&mut self, now: u64)
        requires
            old(self).wf(),
        ensures
            final(self).wf(),
            final(self)@ == (EngineView {
                finalized_at: if old(self)@.finalized_at is Some {
                    old(self)@.finalized_at
                } else {
                    Some(now)
                },
                ..old(self)@
            }),
    {
        if self.finalized_at.is_none() {
            self.finalized_at = Some(now);
        }
    }

    /// The language of the practice.
    pub fn language(&self) -> (r: Language)
        ensures
            r == self@.language,
    {
        self.language
    }

    /// The clusters of the target, in order.
    pub fn target_clusters(&self) -> (r: &Vec<String>)
        ensures
            string_views(r@) == self@.target,
    {
        &self.target
    }

    /// The logical line ends, counted in clusters.
    pub fn line_ends(&self) -> (r: &Vec<u32>)
        ensures
            r@ == self@.lines,
    {
        &self.lines
    }

    /// The bytes of the target, stopping at `u64::MAX`.
    fn target_byte_len(&self) -> (r: u64)
        ensures
            r == sat(bytes_of(self@.target)),
    {
        let ghost tv = string_views(self.target@);
        let mut total: u64 = 0;
        let mut k: usize = 0;
        while k < self.target.len()
            invariant
                tv == string_views(self.target@),
                tv.len() == self.target@.len(),
                k <= self.target@.len(),
                total == sat(bytes_of(tv.take(k as int))),
            decreases self.target@.len() - k,
        {
            let n = self.target[k].as_str().len();
            proof {
                assert(tv[k as int] == self.target@[k as int]@);
                assert(tv.take(k + 1).drop_last() =~= tv.take(k as int));
                assert(tv.take(k + 1).last() == tv[k as int]);
                assert(n == utf8_len(tv[k as int]));
                assert(bytes_of(tv.take(k + 1)) == bytes_of(tv.take(k as int)) + n);
                lemma_bytes_of_nonnegative(tv.take(k as int));
            }
            if n as u64 > u64::MAX - total {
                total = u64::MAX;
            } else {
                total = total + n as u64;
            }
            k = k + 1;
        }
        proof {
            assert(tv.take(self.target@.len() as int) =~= tv);
        }
        total
    }

    /// Extends the practice with `target` after `separator`; see [`extend_spec`].
    #[verifier::loop_isolation(false)]
    pub fn extend_target(&mut self, separator: &str, target: &str, item_ends: &Vec<usize>) -> (r: Result<(), String>)
        requires
            old(self).wf(),
        ensures
            final(self).wf(),
            match r {
                Ok(()) => extend_spec(old(self)@, separator@, target@, item_ends@) == Ok::<EngineView, Seq<char>>(final(self)@),
                Err(m) => extend_spec(old(self)@, separator@, target@, item_ends@) == Err::<EngineView, Seq<char>>(m@)
                    && final(self)@ == old(self)@,
            },
    {
        if self.finalized_at.is_some() {
            return Err("cannot extend finalized practice".to_owned());
        }
        let t = normalize_nfc(target);
        if t.as_str().is_empty() {
            return Err("practice target extension cannot be empty".to_owned());
        }
        let mut ext = normalize_nfc(separator);
        push_str(&mut ext, t.as_str());
        let g = split_graphemes(ext.as_str());
        let tg = split_graphemes(t.as_str());
        proof {
            assert(string_views(g@).len() == g@.len());
            assert(string_views(tg@).len() == tg@.len());
        }
        let ghost gv = string_views(g@);
        let tlen = tg.len();
        let glen = g.len();
        let sep_len: usize = if glen >= tlen {
            glen - tlen
        } else {
            0
        };
        let bytes = self.target_byte_len();
        let ext_bytes = ext.as_str().len();
        proof {
            lemma_bytes_of_nonnegative(self@.target);
            assert(ext_bytes == utf8_len(ext@));
        }
        if bytes > 4294967295 || ext_bytes as u64 > 4294967295 - bytes || glen > 4294967295 {
            return Err("practice target exceeds 4 GiB".to_owned());
        }
        match validate_item_ends(item_ends.as_slice(), tlen) {
            Ok(()) => {},
            Err(m) => {
                return Err(m);
            },
        }
        let is_key = match self.kind {
            PracticeKind::Key => true,
            _ => false,
        };
        if !is_key && glen < tlen {
            return Err("practice item boundary exceeds target".to_owned());
        }
        let ghost spec_ends = shifted_ends(item_ends@, sep_len as nat);
        let mut ends: Vec<usize> = Vec::new();
        let mut i: usize = 0;
        while i < item_ends.len()
            invariant
                i <= item_ends@.len(),
                ends@ == spec_ends.take(i as int),
                spec_ends == shifted_ends(item_ends@, sep_len as nat),
            decreases item_ends@.len() - i,
        {
            let x = item_ends[i];
            let y: usize = if x <= usize::MAX - sep_len {
                x + sep_len
            } else {
                usize::MAX
            };
            ends.push(y);
            proof {
                assert(ends@ =~= spec_ends.take(i + 1));
            }
            i = i + 1;
        }
        proof {
            assert(spec_ends.take(item_ends@.len() as int) =~= spec_ends);
        }
        let offset = self.target.len();
        proof {
            assert(string_views(self.target@).len() == self.target@.len());
        }
        let mut shifted_lines: Vec<u32> = Vec::new();
        if is_key {
            if offset > 4294967295 || glen > 4294967295 - offset {
                return Err("out of range integral type conversion attempted".to_owned());
            }
        } else {
            proof {
                assert forall|k: int| 0 <= k < spec_ends.len() implies spec_ends[k] == item_ends@[k] + sep_len by {
                    assert(item_ends@[k] <= item_ends@[item_ends@.len() - 1]);
                }
                assert(item_ends_ok(ends@, g@.len()));
            }
            let ext_lines = logical_line_ends(self.kind, &g, &ends);
            let mut j: usize = 0;
            while j < ext_lines.len()
                invariant
                    j <= ext_lines@.len(),
                    forall|q: int| 0 <= q < j ==> offset + #[trigger] ext_lines@[q] <= u32::MAX,
                    shifted_lines@ == offset_lines(ext_lines@.take(j as int), offset as nat),
                decreases ext_lines@.len() - j,
            {
                let l = ext_lines[j];
                if offset > 4294967295 || l as usize > 4294967295 - offset {
                    proof {
                        let ghost el = extension_lines(self@.kind, separator@, target@, item_ends@);
                        assert(sep_len == separator_clusters(separator@, target@));
                        assert(ext_lines@ == el);
                        assert(offset + el[j as int] > u32::MAX);
                        assert(exists|i: int| 0 <= i < el.len() && offset + #[trigger] el[i] > u32::MAX);
                        assert(extend_spec(self@, separator@, target@, item_ends@) == Err::<EngineView, Seq<char>>(
                            "out of range integral type conversion attempted"@,
                        ));
                    }
                    return Err("out of range integral type conversion attempted".to_owned());
                }
                shifted_lines.push((offset + l as usize) as u32);
                proof {
                    assert(shifted_lines@ =~= offset_lines(ext_lines@.take(j + 1), offset as nat));
                }
                j = j + 1;
            }
            proof {
                assert(ext_lines@.take(ext_lines@.len() as int) =~= ext_lines@);
            }
        }
        let mut new_clusters: Vec<String> = Vec::new();
        let mut new_units: Vec<Vec<char>> = Vec::new();
        let mut k: usize = 0;
        while k < g.len()
            invariant
                k <= g@.len(),
                gv == string_views(g@),
                gv.len() == g@.len(),
                string_views(new_clusters@) == gv.take(k as int),
                unit_views(new_units@) == cluster_units(self.language, gv.take(k as int)),
            decreases g@.len() - k,
        {
            let ghost before = new_units@;
            let c = g[k].clone();
            let u = key_units(self.language, g[k].as_str());
            new_clusters.push(c);
            new_units.push(u);
            proof {
                assert(gv[k as int] == g@[k as int]@);
                assert(string_views(new_clusters@) =~= gv.take(k + 1));
                assert(unit_views(new_units@) =~= unit_views(before).push(key_units_spec(self.language, gv[k as int])));
                assert(cluster_units(self.language, gv.take(k + 1)) =~= cluster_units(self.language, gv.take(k as int)).push(
                    key_units_spec(self.language, gv[k as int]),
                ));
            }
            k = k + 1;
        }
        proof {
            assert(gv.take(g@.len() as int) =~= gv);
            assert(string_views(self.target@ + new_clusters@) =~= string_views(self.target@) + gv);
            assert(unit_views(self.units@ + new_units@) =~= unit_views(self.units@) + cluster_units(self.language, gv));
        }
        self.target.append(&mut new_clusters);
        self.units.append(&mut new_units);
        if is_key {
            let mut one: Vec<u32> = Vec::new();
            one.push((offset + glen) as u32);
            self.lines = one;
        } else {
            self.lines.append(&mut shifted_lines);
        }
        Ok(())
    }

    /// The practice mode.
    pub fn kind(&self) -> (r: PracticeKind)
        ensures
            r == self@.kind,
    {
        self.kind
    }

    /// Whether the practice is paused.
    pub fn is_paused(&self) -> (r: bool)
        ensures
            r == self@.paused_at is Some,
    {
        self.paused_at.is_some()
    }

    /// The number of typed cells: where the cursor stands.
    pub fn cursor(&self) -> (r: usize)
        ensures
            r == self@.cells.len(),
    {
        proof {
            assert(cell_views(self.cells@).len() == self.cells@.len());
        }
        self.cells.len()
    }

    /// The number of clusters of the target.
    pub fn target_len(&self) -> (r: usize)
        ensures
            r == self@.target.len(),
    {
        proof {
            assert(string_views(self.target@).len() == self.target@.len());
        }
        self.target.len()
    }

    /// The index of the line being typed.
    pub fn current_line_index(&self) -> (r: usize)
        ensures
            r == self@.active_line,
    {
        self.active_line
    }

    /// The key units attempted so far.
    pub fn attempted_units(&self) -> (r: u64)
        ensures
            r == self@.attempted_units,
    {
        self.attempted_units
    }

    /// The key units of right cells attempted so far, backspaces aside.
    pub fn correct_attempt_units(&self) -> (r: u64)
        ensures
            r == self@.correct_attempt_units,
    {
        self.correct_attempt_units
    }

    /// The right cells that stand.
    pub fn correct_cells(&self) -> (r: u64)
        ensures
            r == self@.correct_cells,
    {
        self.correct_cells
    }

    /// The key units of the right cells that stand.
    pub fn correct_units(&self) -> (r: u64)
        ensures
            r == self@.correct_units,
    {
        self.correct_units
    }

    /// The wrong cells typed.
    pub fn errors(&self) -> (r: u64)
        ensures
            r == self@.errors,
    {
        self.errors
    }

    /// The backspaces made.
    pub fn backspaces(&self) -> (r: u64)
        ensures
            r == self@.backspaces,
    {
        self.backspaces
    }

    /// Whether the typed cell at `index` is right, if there is one.
    pub fn cell_correct(&self, index: usize) -> (r: Option<bool>)
        ensures
            r == (if index < self@.cells.len() {
                Some(self@.cells[index as int].1)
            } else {
                None::<bool>
            }),
    {
        proof {
            assert(cell_views(self.cells@).len() == self.cells@.len());
        }
        if index < self.cells.len() {
            Some(self.cells[index].correct)
        } else {
            None
        }
    }

}

/// The key units of the target cluster at `i`, counted: none past the target's end.
pub open spec fn cluster_unit_count(e: EngineView, i: int) -> nat {
    if 0 <= i < e.units.len() {
        e.units[i].len()
    } else {
        0
    }
}

/// When backspace removes a typed cell, it removes the last one and takes back exactly what
/// that cell counted: a right cell gives back one right cell and, when its key units were
/// counted, the key units of the target cluster at its position (stopping at zero); a wrong
/// cell gives back nothing. Attempts, errors and the key log stay, and one more backspace is
/// counted.
pub proof fn lemma_backspace_takes_back_the_last_cell(e: EngineView)
    ensures
        ({
            let (f, done) = backspace_spec(e);
            let k = e.cells.len() - 1;
            done && f.cells.len() < e.cells.len() ==> {
                &&& f.cells == e.cells.take(k)
                &&& f.correct_units == if e.cells[k].1 && e.cells[k].2 {
                    sat_sub(e.correct_units, cluster_unit_count(e, k) as u64)
                } else {
                    e.correct_units
                }
                &&& f.correct_cells == if e.cells[k].1 {
                    sat_sub(e.correct_cells, 1)
                } else {
                    e.correct_cells
                }
                &&& f.attempted_units == e.attempted_units
                &&& f.errors == e.errors
                &&& f.intended_log == e.intended_log
                &&& f.backspaces == sat(e.backspaces + 1)
            }
        }),
{
    let (f, done) = backspace_spec(e);
    if done && f.cells.len() < e.cells.len() {
        assert(e.cells.drop_last() =~= e.cells.take(e.cells.len() - 1));
    }
}

/// Typing a cell and erasing it with backspace gives back the typed cells, right cells and
/// right key units from before (when no count stopped at its maximum).
pub proof fn lemma_backspace_undoes_a_typed_cell(e: EngineView, entered: Seq<char>, correct: bool, now: u64)
    requires
        e.correct_units + cluster_unit_count(e, e.cells.len() as int) <= u64::MAX,
        e.correct_cells < u64::MAX,
    ensures
        ({
            let t = recorded(e, entered, correct, now);
            let (f, done) = backspace_spec(t);
            done && f.cells.len() < t.cells.len() ==> {
                &&& f.cells == e.cells
                &&& f.correct_units == e.correct_units
                &&& f.correct_cells == e.correct_cells
            }
        }),
{
    let t = recorded(e, entered, correct, now);
    let (f, done) = backspace_spec(t);
    lemma_backspace_takes_back_the_last_cell(t);
    if done && f.cells.len() < t.cells.len() {
        assert(t.cells.take(e.cells.len() as int) =~= e.cells);
        assert(t.units == e.units);
    }
}

/// Typing a cell at the cursor attempts the key units of the target cluster there; a right
/// cell adds them to the right key units and adds one right cell, a wrong cell adds one error
/// and nothing right (when no count is at its maximum). The cell is appended and its key
/// units are logged, right or wrong.
pub proof fn lemma_typed_cell_counts(e: EngineView, entered: Seq<char>, correct: bool, now: u64)
    requires
        e.attempted_units + cluster_unit_count(e, e.cells.len() as int) <= u64::MAX,
        e.correct_units + cluster_unit_count(e, e.cells.len() as int) <= u64::MAX,
        e.correct_cells < u64::MAX,
        e.errors < u64::MAX,
    ensures
        ({
            let t = recorded(e, entered, correct, now);
            let n = cluster_unit_count(e, e.cells.len() as int);
            &&& t.cells == e.cells.push((entered, correct, true))
            &&& t.attempted_units == e.attempted_units + n
            &&& t.correct_units == e.correct_units + if correct { n } else { 0 }
            &&& t.correct_cells == e.correct_cells + if correct { 1int } else { 0 }
            &&& t.errors == e.errors + if correct { 0int } else { 1 }
            &&& t.intended_log.len() == e.intended_log.len() + n
        }),
{
}

} // verus!

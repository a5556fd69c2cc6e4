//! Statistics over saved sessions: the date ranges they cover, the history list, the
//! practice streak and the per-key tallies.
//!
//! Dates are day numbers: consecutive days are consecutive integers (such as the Julian day
//! numbers of the `time` crate).
use crate::model::{Language, PracticeKind};
use crate::text::{lemma_text_lt_total, lemma_text_lt_transitive, str_lt, text_lt};
use vstd::prelude::*;
use vstd::seq_lib::seq_to_set_is_finite;
use vstd::set_lib::{lemma_int_range, lemma_len_subset, set_int_range};

verus! {

/// How far back the statistics look.
#[derive(Clone, Copy, Debug, PartialEq, Eq, Structural)]
pub enum Range {
    Days7,
    Days30,
    Days90,
    All,
}

/// How many days before today a range reaches back, or none for the whole history.
pub open spec fn range_days(range: Range) -> Option<int> {
    match range {
        Range::Days7 => Some(6),
        Range::Days30 => Some(29),
        Range::Days90 => Some(89),
        Range::All => None,
    }
}

/// A day falls in the range ending today: from the given number of days before today
/// through today, or any day for the whole history.
pub open spec fn in_range(range: Range, date: int, today: int) -> bool {
    match range_days(range) {
        Some(days) => date <= today && date >= today - days,
        None => true,
    }
}

impl Range {
    /// Whether a day falls in the range ending today; see [`in_range`].
    pub fn includes(self, date: i32, today: i32) -> (r: bool)
        ensures
            r == in_range(self, date as int, today as int),
    {
        let days: i64 = match self {
            Range::Days7 => 6,
            Range::Days30 => 29,
            Range::Days90 => 89,
            Range::All => {
                return true;
            },
        };
        date <= today && date as i64 >= today as i64 - days
    }
}

/// A list of days holds a day.
pub open spec fn holds_day(days: Seq<i32>, day: int) -> bool {
    exists|k: int| 0 <= k < days.len() && days[k] == day
}

/// A practice day, not after today, is among the dates.
pub open spec fn practised(dates: Seq<i32>, today: i32, day: int) -> bool {
    day <= today && holds_day(dates, day)
}

/// The day a streak is counted back from: today when it was practised, else yesterday when it
/// was, else none.
pub open spec fn streak_start(dates: Seq<i32>, today: i32) -> Option<int> {
    if practised(dates, today, today as int) {
        Some(today as int)
    } else if practised(dates, today, today - 1) {
        Some(today - 1)
    } else {
        None
    }
}

/// The `n` days counted back from `start` were all practised.
pub open spec fn practised_run(dates: Seq<i32>, today: i32, start: int, n: nat) -> bool {
    forall|k: int| 0 <= k < n ==> #[trigger] practised(dates, today, start - k)
}

/// A day is in a list with one more day exactly when it is that day or in the list.
proof fn lemma_holds_push(days: Seq<i32>, extra: i32, d: int)
    ensures
        holds_day(days.push(extra), d) <==> (holds_day(days, d) || d == extra),
{
    if holds_day(days, d) {
        let k = choose|k: int| 0 <= k < days.len() && days[k] == d;
        assert(days.push(extra)[k] == d);
    }
    if d == extra {
        assert(days.push(extra)[days.len() as int] == d);
    }
    if holds_day(days.push(extra), d) {
        let k = choose|k: int| 0 <= k < days.push(extra).len() && days.push(extra)[k] == d;
        if k < days.len() {
            assert(days[k] == d);
        }
    }
}

/// A run of consecutive days that a list holds is no longer than the list.
proof fn lemma_run_fits(days: Seq<i32>, lo: int, hi: int)
    requires
        lo <= hi,
        forall|d: int| lo <= d < hi ==> #[trigger] holds_day(days, d),
    ensures
        hi - lo <= days.len(),
{
    let ints = days.map_values(|x: i32| x as int);
    ints.lemma_cardinality_of_set();
    seq_to_set_is_finite(ints);
    lemma_int_range(lo, hi);
    assert forall|d: int| set_int_range(lo, hi).contains(d) implies ints.to_set().contains(d) by {
        assert(holds_day(days, d));
        let k = choose|k: int| 0 <= k < days.len() && days[k] == d;
        assert(ints[k] == d);
    }
    lemma_len_subset(set_int_range(lo, hi), ints.to_set());
}

/// Whether a sequence holds a day.
fn has_day(days: &Vec<i32>, day: i32) -> (r: bool)
    ensures
        r == holds_day(days@, day as int),
{
    let mut found = false;
    for i in 0..days.len()
        invariant
            found == exists|k: int| 0 <= k < i && days@[k] == day,
    {
        if days[i] == day {
            found = true;
        }
    }
    found
}

/// The number of consecutive practised days that end today, or that end yesterday when today
/// has not been practised yet; days after today do not count.
pub fn streak(dates: &Vec<i32>, today: i32) -> (r: usize)
    ensures
        match streak_start(dates@, today) {
            None => r == 0,
            Some(start) => practised_run(dates@, today, start, r as nat) && !practised(
                dates@,
                today,
                start - r,
            ),
        },
{
    let mut days: Vec<i32> = Vec::new();
    let mut lowest: i32 = today;
    for i in 0..dates.len()
        invariant
            forall|d: int|
                #[trigger] holds_day(days@, d) <==> (d <= today && holds_day(
                    dates@.take(i as int),
                    d,
                )),
            forall|k: int| 0 <= k < days@.len() ==> lowest <= #[trigger] days@[k],
    {
        let ghost before = days@;
        proof {
            assert(dates@.take(i + 1) =~= dates@.take(i as int).push(dates@[i as int]));
        }
        if dates[i] <= today {
            if dates[i] < lowest {
                lowest = dates[i];
            }
            days.push(dates[i]);
            proof {
                assert forall|d: int|
                    #[trigger] holds_day(days@, d) <==> (d <= today && holds_day(
                        dates@.take(i + 1),
                        d,
                    )) by {
                    lemma_holds_push(before, dates@[i as int], d);
                    lemma_holds_push(dates@.take(i as int), dates@[i as int], d);
                }
            }
        } else {
            proof {
                assert forall|d: int|
                    #[trigger] holds_day(days@, d) <==> (d <= today && holds_day(
                        dates@.take(i + 1),
                        d,
                    )) by {
                    lemma_holds_push(dates@.take(i as int), dates@[i as int], d);
                }
            }
        }
    }
    proof {
        assert(dates@.take(dates@.len() as int) =~= dates@);
    }
    let mut day: i32 = if has_day(&days, today) {
        today
    } else if today > i32::MIN && has_day(&days, today - 1) {
        today - 1
    } else {
        return 0;
    };
    let ghost start = day as int;
    let mut count: usize = 0;
    while has_day(&days, day)
        invariant
            forall|d: int| #[trigger] holds_day(days@, d) <==> practised(dates@, today, d),
            forall|k: int| 0 <= k < days@.len() ==> lowest <= #[trigger] days@[k],
            streak_start(dates@, today) == Some(start),
            day == start - count,
            count <= start - lowest + 1,
            practised_run(dates@, today, start, count as nat),
        decreases day - lowest + 1,
    {
        proof {
            assert(holds_day(days@, day as int));
            let k = choose|k: int| 0 <= k < days@.len() && days@[k] == day;
            assert(lowest <= days@[k]);
            assert forall|j: int| 0 <= j < count + 1 implies #[trigger] practised(
                dates@,
                today,
                start - j,
            ) by {
                if j == count {
                    assert(practised(dates@, today, day as int));
                }
            }
            assert forall|d: int| day <= d < start + 1 implies #[trigger] holds_day(days@, d) by {
                assert(practised(dates@, today, start - (start - d)));
            }
            lemma_run_fits(days@, day as int, start + 1);
        }
        let total = days.len();
        proof {
            assert(count + 1 <= total);
        }
        count = count + 1;
        if day == i32::MIN {
            return count;
        }
        day = day - 1;
    }
    count
}

/// How often the typist meant to press a key and pressed it, and how often they pressed
/// something else.
#[derive(Clone, Copy, Debug, PartialEq, Eq, Structural)]
pub struct KeyCount {
    pub key: char,
    pub correct: u64,
    pub errors: u64,
}

/// A saved session, less its speeds and accuracy (floating-point values kept beside it by
/// the caller): its schema version and ID, when it started (Unix milliseconds), the day it
/// was practised on, its language, mode, content and difficulty, its active time, its typing
/// counts and its per-key counts.
#[derive(Clone, Debug, PartialEq, Eq)]
pub struct SessionEntry {
    pub schema_version: u16,
    pub id: String,
    pub started_at_unix_ms: i128,
    pub local_date: i32,
    pub language: Language,
    pub mode: PracticeKind,
    pub content_id: String,
    pub difficulty: Option<u8>,
    pub duration_ms: u64,
    pub correct_units: u64,
    pub attempted_units: u64,
    pub errors: u64,
    pub backspaces: u64,
    pub intended_keys: Vec<KeyCount>,
}

/// Why a session cannot be saved or loaded, if it cannot: the first of an unsupported schema
/// version, an ID that is empty or holds other than ASCII letters, digits, `-` and `_`, a
/// blank content ID, a difficulty outside 1 to 3, no attempted unit, and more correct units
/// than attempted ones.
pub open spec fn session_refusal(s: SessionEntry) -> Option<Seq<char>> {
    if s.schema_version != 1 {
        Some("unsupported session schema version "@ + crate::cli::decimal(s.schema_version as nat))
    } else if s.id@.len() == 0 || exists|i: int|
        0 <= i < s.id@.len() && !crate::cli::portable_char(#[trigger] s.id@[i]) {
        Some("session ID is not filesystem-safe"@)
    } else if crate::text::is_blank(s.content_id@) {
        Some("content ID must not be empty"@)
    } else if s.difficulty matches Some(d) && !(1 <= d <= 3) {
        Some("difficulty must be between 1 and 3"@)
    } else if s.attempted_units == 0 {
        Some("cannot save an empty session"@)
    } else if s.correct_units > s.attempted_units {
        Some("correct units cannot exceed attempted units"@)
    } else {
        None
    }
}

impl SessionEntry {
    /// Checks a session before it is saved or once it is loaded; see [`session_refusal`]. The
    /// speeds and the accuracy are checked after these, by the caller that holds them.
    pub fn validate(&self) -> (r: Result<(), String>)
        ensures
            match r {
                Ok(()) => session_refusal(*self) is None,
                Err(m) => session_refusal(*self) == Some(m@),
            },
    {
        if self.schema_version != 1 {
            let mut message = "unsupported session schema version ".to_owned();
            crate::cli::push_decimal(&mut message, self.schema_version as u64);
            return Err(message);
        }
        let id = crate::text::chars_of(self.id.as_str());
        let mut safe = id.len() > 0;
        for i in 0..id.len()
            invariant
                id@ == self.id@,
                safe == (id@.len() > 0 && forall|k: int|
                    0 <= k < i ==> crate::cli::portable_char(#[trigger] id@[k])),
        {
            let c = id[i];
            if !(('a' <= c && c <= 'z') || ('A' <= c && c <= 'Z') || ('0' <= c && c <= '9') || c
                == '-' || c == '_') {
                safe = false;
            }
        }
        if !safe {
            return Err("session ID is not filesystem-safe".to_owned());
        }
        if crate::text::is_blank_str(self.content_id.as_str()) {
            return Err("content ID must not be empty".to_owned());
        }
        match self.difficulty {
            Some(d) => {
                if d < 1 || d > 3 {
                    return Err("difficulty must be between 1 and 3".to_owned());
                }
            },
            None => {},
        }
        if self.attempted_units == 0 {
            return Err("cannot save an empty session".to_owned());
        }
        if self.correct_units > self.attempted_units {
            return Err("correct units cannot exceed attempted units".to_owned());
        }
        Ok(())
    }
}

/// A session is listed in the history for a range ending today, a language (or all) and a
/// mode (or all).
pub open spec fn in_history(
    s: SessionEntry,
    range: Range,
    today: i32,
    language: Option<Language>,
    mode: Option<PracticeKind>,
) -> bool {
    &&& in_range(range, s.local_date as int, today as int)
    &&& (language matches Some(l) ==> s.language == l)
    &&& (mode matches Some(m) ==> s.mode == m)
}

/// Session `a` is listed before session `b`: it started later, or at the same time with a
/// greater ID.
pub open spec fn listed_before(a: SessionEntry, b: SessionEntry) -> bool {
    a.started_at_unix_ms > b.started_at_unix_ms || (a.started_at_unix_ms == b.started_at_unix_ms
        && text_lt(b.id@, a.id@))
}

/// The positions are in history order: none is listed before one that precedes it.
pub open spec fn history_ordered(sessions: Seq<SessionEntry>, order: Seq<usize>) -> bool {
    forall|i: int, j: int|
        0 <= i < j < order.len() ==> !listed_before(
            sessions[order[j] as int],
            sessions[order[i] as int],
        )
}

/// Listing before is a strict order.
proof fn lemma_listed_before_order(a: SessionEntry, b: SessionEntry, c: SessionEntry)
    ensures
        !(listed_before(a, b) && listed_before(b, a)),
        listed_before(a, b) && listed_before(b, c) ==> listed_before(a, c),
{
    lemma_text_lt_total(a.id@, b.id@);
    if listed_before(a, b) && listed_before(b, c) && a.started_at_unix_ms == c.started_at_unix_ms {
        lemma_text_lt_transitive(c.id@, b.id@, a.id@);
    }
}

/// Whether session `a` is listed before session `b`.
fn is_listed_before(a: &SessionEntry, b: &SessionEntry) -> (r: bool)
    ensures
        r == listed_before(*a, *b),
{
    a.started_at_unix_ms > b.started_at_unix_ms || (a.started_at_unix_ms == b.started_at_unix_ms
        && str_lt(b.id.as_str(), a.id.as_str()))
}

/// `order` lists the positions of the sessions in the history for a range ending today, a
/// language (or all) and a mode (or all): each such session once, the latest started first,
/// and among those that started together the greatest ID first.
pub open spec fn history_order(
    sessions: Seq<SessionEntry>,
    order: Seq<usize>,
    range: Range,
    today: i32,
    language: Option<Language>,
    mode: Option<PracticeKind>,
) -> bool {
    &&& order.no_duplicates()
    &&& forall|i: int|
        0 <= i < order.len() ==> order[i] < sessions.len() && in_history(
            sessions[order[i] as int],
            range,
            today,
            language,
            mode,
        )
    &&& forall|k: int|
        0 <= k < sessions.len() && in_history(sessions[k], range, today, language, mode)
            ==> order.contains(k as usize)
    &&& history_ordered(sessions, order)
}

/// The sessions in the history for a range ending today, a language (or all) and a mode (or
/// all), in the order of [`history_order`].
pub fn history<'a>(
    sessions: &'a [SessionEntry],
    range: Range,
    today: i32,
    language: Option<Language>,
    mode: Option<PracticeKind>,
) -> (r: Vec<&'a SessionEntry>)
    ensures
        exists|order: Seq<usize>|
            #[trigger] history_order(sessions@, order, range, today, language, mode) && r@.len()
                == order.len() && forall|i: int| 0 <= i < order.len() ==> *r@[i] == sessions@[order[i] as int],
{
    let order = history_positions(sessions, range, today, language, mode);
    let mut r: Vec<&'a SessionEntry> = Vec::new();
    for j in 0..order.len()
        invariant
            history_order(sessions@, order@, range, today, language, mode),
            r@.len() == j,
            forall|i: int| 0 <= i < j ==> *r@[i] == sessions@[order@[i] as int],
    {
        r.push(&sessions[order[j]]);
    }
    r
}

/// The positions of the sessions in the history, in the order of [`history_order`].
pub fn history_positions(
    sessions: &[SessionEntry],
    range: Range,
    today: i32,
    language: Option<Language>,
    mode: Option<PracticeKind>,
) -> (r: Vec<usize>)
    ensures
        history_order(sessions@, r@, range, today, language, mode),
{
    let mut order: Vec<usize> = Vec::new();
    for k in 0..sessions.len()
        invariant
            order@.no_duplicates(),
            forall|i: int|
                0 <= i < order@.len() ==> order@[i] < k && in_history(
                    sessions@[order@[i] as int],
                    range,
                    today,
                    language,
                    mode,
                ),
            forall|m: int|
                0 <= m < k && in_history(sessions@[m], range, today, language, mode)
                    ==> order@.contains(m as usize),
            history_ordered(sessions@, order@),
    {
        let session = &sessions[k];
        let language_ok = match language {
            Some(l) => session.language == l,
            None => true,
        };
        let mode_ok = match mode {
            Some(m) => session.mode == m,
            None => true,
        };
        if range.includes(session.local_date, today) && language_ok && mode_ok {
            let mut p: usize = 0;
            while p < order.len() && !is_listed_before(session, &sessions[order[p]])
                invariant
                    p <= order@.len(),
                    k < sessions@.len(),
                    *session == sessions@[k as int],
                    forall|i: int| 0 <= i < order@.len() ==> order@[i] < k,
                    forall|q: int|
                        0 <= q < p ==> !listed_before(sessions@[k as int], sessions@[order@[q] as int]),
                decreases order@.len() - p,
            {
                p += 1;
            }
            let ghost before = order@;
            order.insert(p, k);
            proof {
                before.insert_ensures(p as int, k);
                let new = sessions@[k as int];
                assert forall|i: int, j: int| 0 <= i < j < order@.len() implies !listed_before(
                    sessions@[order@[j] as int],
                    sessions@[order@[i] as int],
                ) by {
                    if j < p {
                    } else if j == p {
                    } else if i < p {
                        assert(order@[j] == before[j - 1]);
                    } else if i == p {
                        let x = sessions@[before[j - 1] as int];
                        let y = sessions@[before[p as int] as int];
                        assert(order@[j] == before[j - 1]);
                        assert(listed_before(new, y));
                        lemma_listed_before_order(x, new, y);
                        if j - 1 > p {
                            assert(!listed_before(x, y));
                        }
                    } else {
                        assert(order@[j] == before[j - 1]);
                        assert(order@[i] == before[i - 1]);
                    }
                }
                assert forall|a: int, b: int| 0 <= a < b < order@.len() implies order@[a]
                    != order@[b] by {
                    if b == p {
                    } else if a == p {
                        assert(order@[b] == before[b - 1]);
                    } else if a < p && b < p {
                    } else if a < p {
                        assert(order@[b] == before[b - 1]);
                    } else {
                        assert(order@[b] == before[b - 1]);
                        assert(order@[a] == before[a - 1]);
                    }
                }
                assert forall|m: int|
                    0 <= m < k + 1 && in_history(sessions@[m], range, today, language, mode)
                        implies order@.contains(m as usize) by {
                    if m == k {
                        assert(order@[p as int] == k);
                    } else {
                        assert(before.contains(m as usize));
                        let t = choose|t: int| 0 <= t < before.len() && before[t] == m as usize;
                        if t < p {
                            assert(order@[t] == m as usize);
                        } else {
                            assert(order@[t + 1] == m as usize);
                        }
                    }
                }
                assert forall|i: int| 0 <= i < order@.len() implies order@[i] < k + 1
                    && in_history(sessions@[order@[i] as int], range, today, language, mode) by {
                    if i < p {
                    } else if i > p {
                        assert(order@[i] == before[i - 1]);
                    }
                }
            }
        }
    }
    order
}

/// The sum of one of the counts of a key over a list of counts: the correct presses, or with
/// `errors` the wrong ones.
pub open spec fn key_sum(entries: Seq<KeyCount>, key: char, errors: bool) -> int
    decreases entries.len(),
{
    if entries.len() == 0 {
        0
    } else {
        let e = entries.last();
        key_sum(entries.drop_last(), key, errors) + if e.key == key {
            if errors {
                e.errors as int
            } else {
                e.correct as int
            }
        } else {
            0
        }
    }
}

/// A count that stops at the largest `u64`.
pub open spec fn saturated(x: int) -> int {
    if x > u64::MAX {
        u64::MAX as int
    } else {
        x
    }
}

/// A list of counts has an entry for a key.
pub open spec fn lists_key(counts: Seq<KeyCount>, key: char) -> bool {
    exists|i: int| 0 <= i < counts.len() && counts[i].key == key
}

/// `counts` tallies `entries`: one entry for each key that occurs in them, in increasing
/// key order, with the correct and the wrong presses of the key summed (stopping at the
/// largest `u64`).
pub open spec fn tallies(counts: Seq<KeyCount>, entries: Seq<KeyCount>) -> bool {
    &&& forall|i: int, j: int| 0 <= i < j < counts.len() ==> counts[i].key < counts[j].key
    &&& forall|i: int| 0 <= i < counts.len() ==> lists_key(entries, #[trigger] counts[i].key)
    &&& forall|t: int| 0 <= t < entries.len() ==> lists_key(counts, #[trigger] entries[t].key)
    &&& forall|i: int|
        0 <= i < counts.len() ==> #[trigger] counts[i].correct == saturated(
            key_sum(entries, counts[i].key, false),
        ) && counts[i].errors == saturated(key_sum(entries, counts[i].key, true))
}

/// The per-key counts of the first `n` sessions that are in a language, one after another.
pub open spec fn language_entries(sessions: Seq<SessionEntry>, language: Language, n: nat) -> Seq<
    KeyCount,
>
    decreases n,
{
    if n == 0 {
        seq![]
    } else {
        language_entries(sessions, language, (n - 1) as nat) + if sessions[n - 1].language
            == language {
            sessions[n - 1].intended_keys@
        } else {
            seq![]
        }
    }
}

/// A key that no entry has sums to nothing.
proof fn lemma_absent_key_sums_to_zero(entries: Seq<KeyCount>, key: char)
    requires
        !lists_key(entries, key),
    ensures
        key_sum(entries, key, false) == 0,
        key_sum(entries, key, true) == 0,
    decreases entries.len(),
{
    if entries.len() > 0 {
        assert(entries.last() == entries[entries.len() - 1]);
        assert(!lists_key(entries.drop_last(), key)) by {
            if lists_key(entries.drop_last(), key) {
                let i = choose|i: int| 0 <= i < entries.drop_last().len() && entries.drop_last()[i].key == key;
                assert(entries[i].key == key);
            }
        }
        lemma_absent_key_sums_to_zero(entries.drop_last(), key);
    }
}

/// Summing over one more entry adds its count when it is for the key.
proof fn lemma_key_sum_push(entries: Seq<KeyCount>, entry: KeyCount, key: char)
    ensures
        key_sum(entries.push(entry), key, false) == key_sum(entries, key, false) + if entry.key
            == key {
            entry.correct as int
        } else {
            0
        },
        key_sum(entries.push(entry), key, true) == key_sum(entries, key, true) + if entry.key
            == key {
            entry.errors as int
        } else {
            0
        },
{
    assert(entries.push(entry).drop_last() =~= entries);
}

/// Adding an entry for a key the tally has at position `p` adds its counts there.
proof fn lemma_tally_update(
    before: Seq<KeyCount>,
    entries: Seq<KeyCount>,
    entry: KeyCount,
    p: int,
    updated: KeyCount,
)
    requires
        tallies(before, entries),
        0 <= p < before.len(),
        before[p].key == entry.key,
        updated.key == entry.key,
        updated.correct == saturated(before[p].correct + entry.correct),
        updated.errors == saturated(before[p].errors + entry.errors),
    ensures
        tallies(before.update(p, updated), entries.push(entry)),
{
    let pushed = entries.push(entry);
    let after = before.update(p, updated);
    assert(pushed.last() == entry);
    assert forall|i: int| 0 <= i < after.len() implies lists_key(pushed, #[trigger] after[i].key) by {
        assert(lists_key(entries, before[i].key));
        let t = choose|t: int| 0 <= t < entries.len() && entries[t].key == before[i].key;
        assert(pushed[t] == entries[t]);
    }
    assert forall|t: int| 0 <= t < pushed.len() implies lists_key(after, #[trigger] pushed[t].key) by {
        if pushed[t].key == entry.key {
            assert(after[p].key == entry.key);
        } else {
            assert(pushed[t] == entries[t]);
            assert(lists_key(before, entries[t].key));
            let i = choose|i: int| 0 <= i < before.len() && before[i].key == pushed[t].key;
            assert(after[i].key == pushed[t].key);
        }
    }
    assert forall|i: int| 0 <= i < after.len() implies #[trigger] after[i].correct == saturated(
        key_sum(pushed, after[i].key, false),
    ) && after[i].errors == saturated(key_sum(pushed, after[i].key, true)) by {
        lemma_key_sum_push(entries, entry, after[i].key);
        if i != p {
            assert(after[i] == before[i]);
            assert(before[i].key != before[p].key);
        }
    }
}

/// Adding an entry for a key the tally lacks puts it at its place in key order, `p`.
#[verifier::spinoff_prover]
#[verifier::rlimit(30)]
proof fn lemma_tally_insert(before: Seq<KeyCount>, entries: Seq<KeyCount>, entry: KeyCount, p: int)
    requires
        tallies(before, entries),
        0 <= p <= before.len(),
        forall|q: int| 0 <= q < p ==> before[q].key < entry.key,
        p < before.len() ==> before[p].key > entry.key,
    ensures
        tallies(before.insert(p, entry), entries.push(entry)),
{
    let pushed = entries.push(entry);
    let after = before.insert(p, entry);
    before.insert_ensures(p, entry);
    assert(pushed.last() == entry);
    assert forall|t: int| 0 <= t < entries.len() implies entries[t].key != entry.key by {
        assert(lists_key(before, entries[t].key));
        let i = choose|i: int| 0 <= i < before.len() && before[i].key == entries[t].key;
        if i > p {
            assert(before[p].key < before[i].key);
        }
    }
    lemma_absent_key_sums_to_zero(entries, entry.key);
    assert forall|i: int| 0 <= i < after.len() implies lists_key(pushed, #[trigger] after[i].key) by {
        if i == p {
            assert(pushed[entries.len() as int] == entry);
        } else {
            let b = if i < p {
                i
            } else {
                i - 1
            };
            assert(after[i] == before[b]);
            assert(lists_key(entries, before[b].key));
            let t = choose|t: int| 0 <= t < entries.len() && entries[t].key == before[b].key;
            assert(pushed[t] == entries[t]);
        }
    }
    assert forall|t: int| 0 <= t < pushed.len() implies lists_key(after, #[trigger] pushed[t].key) by {
        if pushed[t].key == entry.key {
            assert(after[p].key == entry.key);
        } else {
            assert(pushed[t] == entries[t]);
            assert(lists_key(before, entries[t].key));
            let i = choose|i: int| 0 <= i < before.len() && before[i].key == pushed[t].key;
            if i < p {
                assert(after[i].key == pushed[t].key);
            } else {
                assert(after[i + 1].key == pushed[t].key);
            }
        }
    }
    assert forall|i: int, j: int| 0 <= i < j < after.len() implies after[i].key < after[j].key by {
        if j == p {
        } else if i == p {
            assert(after[j] == before[j - 1]);
            if j - 1 > p {
                assert(before[p].key < before[j - 1].key);
            }
        } else if j < p {
        } else if i < p {
            assert(after[j] == before[j - 1]);
        } else {
            assert(after[j] == before[j - 1]);
            assert(after[i] == before[i - 1]);
        }
    }
    assert forall|i: int| 0 <= i < after.len() implies #[trigger] after[i].correct == saturated(
        key_sum(pushed, after[i].key, false),
    ) && after[i].errors == saturated(key_sum(pushed, after[i].key, true)) by {
        lemma_key_sum_push(entries, entry, after[i].key);
        if i == p {
            assert(after[i] == entry);
            assert(key_sum(pushed, entry.key, false) == entry.correct);
            assert(key_sum(pushed, entry.key, true) == entry.errors);
        } else {
            let b = if i < p {
                i
            } else {
                i - 1
            };
            assert(after[i] == before[b]);
            assert(lists_key(entries, before[b].key));
            let t = choose|t: int| 0 <= t < entries.len() && entries[t].key == before[b].key;
            assert(entries[t].key != entry.key);
            assert(before[b].correct == saturated(key_sum(entries, before[b].key, false)));
            assert(before[b].errors == saturated(key_sum(entries, before[b].key, true)));
        }
    }
    assert(tallies(after, pushed));
}

/// Adds one entry to a tally of counts kept in key order.
pub(crate) fn tally_entry(counts: &mut Vec<KeyCount>, entry: KeyCount, Ghost(entries): Ghost<Seq<KeyCount>>)
    requires
        tallies(old(counts)@, entries),
    ensures
        tallies(final(counts)@, entries.push(entry)),
{
    let mut p: usize = 0;
    while p < counts.len() && counts[p].key < entry.key
        invariant
            p <= counts@.len(),
            forall|q: int| 0 <= q < p ==> counts@[q].key < entry.key,
        decreases counts@.len() - p,
    {
        p += 1;
    }
    let ghost before = counts@;
    if p < counts.len() && counts[p].key == entry.key {
        let old_count = counts[p];
        let updated = KeyCount {
            key: entry.key,
            correct: old_count.correct.saturating_add(entry.correct),
            errors: old_count.errors.saturating_add(entry.errors),
        };
        counts.set(p, updated);
        proof {
            lemma_tally_update(before, entries, entry, p as int, updated);
        }
    } else {
        counts.insert(p, entry);
        proof {
            lemma_tally_insert(before, entries, entry, p as int);
        }
    }
}

/// The per-key counts of the sessions in a language, summed over the sessions: one entry
/// for each key, in increasing key order, each count stopping at the largest `u64`.
pub fn intended_key_counts(sessions: &[SessionEntry], language: Language) -> (r: Vec<KeyCount>)
    ensures
        tallies(r@, language_entries(sessions@, language, sessions@.len())),
{
    let mut counts: Vec<KeyCount> = Vec::new();
    for s in 0..sessions.len()
        invariant
            tallies(counts@, language_entries(sessions@, language, s as nat)),
    {
        let session = &sessions[s];
        let ghost done = language_entries(sessions@, language, s as nat);
        if session.language == language {
            let keys = &session.intended_keys;
            for j in 0..keys.len()
                invariant
                    keys == sessions@[s as int].intended_keys,
                    tallies(counts@, done + keys@.take(j as int)),
            {
                tally_entry(&mut counts, keys[j], Ghost(done + keys@.take(j as int)));
                assert(done + keys@.take(j + 1) =~= (done + keys@.take(j as int)).push(keys@[j as int]));
            }
            assert(keys@.take(keys@.len() as int) =~= keys@);
        } else {
            assert(language_entries(sessions@, language, (s + 1) as nat) =~= done);
        }
    }
    counts
}

/// Some key was attempted at least `min_attempts` times (and at least once).
pub open spec fn attempted_enough(counts: Seq<KeyCount>, min_attempts: u64) -> bool {
    exists|i: int|
        0 <= i < counts.len() && #[trigger] counts[i].correct + counts[i].errors > 0
            && counts[i].correct + counts[i].errors >= min_attempts
}

/// Whether some key was attempted at least `min_attempts` times (and at least once).
pub fn has_key_attempts(counts: &[KeyCount], min_attempts: u64) -> (r: bool)
    ensures
        r == attempted_enough(counts@, min_attempts),
{
    for i in 0..counts.len()
        invariant
            forall|j: int|
                0 <= j < i ==> !(#[trigger] counts@[j].correct + counts@[j].errors > 0
                    && counts@[j].correct + counts@[j].errors >= min_attempts),
    {
        let attempts = counts[i].correct as u128 + counts[i].errors as u128;
        if attempts > 0 && attempts >= min_attempts as u128 {
            return true;
        }
    }
    false
}

/// A key counts as weak: it was missed at least once and attempted at least `min_attempts`
/// times.
pub open spec fn weak_candidate(k: KeyCount, min_attempts: u64) -> bool {
    k.errors != 0 && k.correct + k.errors >= min_attempts
}

/// Key `a` was typed right less often than key `b`, in proportion: `a.correct / attempts`
/// below `b.correct / attempts`, compared by cross-multiplication (which, with attempts the
/// sum of right and wrong presses, reduces to right presses of one times misses of the other).
pub open spec fn less_accurate(a: KeyCount, b: KeyCount) -> bool {
    (a.correct as int) * (b.errors as int) < (b.correct as int) * (a.errors as int)
}

/// The cross-multiplied accuracies compare as [`less_accurate`] says.
pub proof fn lemma_less_accurate_cross_multiplied(a: KeyCount, b: KeyCount)
    ensures
        less_accurate(a, b) <==> (a.correct as int) * (b.correct + b.errors) < (b.correct as int) * (
        a.correct + a.errors),
{
    assert((a.correct as int) * (b.correct + b.errors) == (a.correct as int) * (b.correct as int) + (
    a.correct as int) * (b.errors as int)) by (nonlinear_arith);
    assert((b.correct as int) * (a.correct + a.errors) == (b.correct as int) * (a.correct as int) + (
    b.correct as int) * (a.errors as int)) by (nonlinear_arith);
    assert((a.correct as int) * (b.correct as int) == (b.correct as int) * (a.correct as int)) by (nonlinear_arith);
}

/// The order of weak keys: less accurate first, then by key.
pub open spec fn weaker(a: KeyCount, b: KeyCount) -> bool {
    less_accurate(a, b) || (!less_accurate(b, a) && a.key < b.key)
}

/// `r` holds the weak keys of `counts` (see [`weak_candidate`]), each once, weakest first
/// ([`weaker`]).
pub open spec fn weak_keys_of(r: Seq<KeyCount>, counts: Seq<KeyCount>, min_attempts: u64) -> bool {
    &&& forall|i: int, j: int| 0 <= i < j < r.len() ==> weaker(r[i], r[j])
    &&& forall|k: KeyCount| r.contains(k) <==> (counts.contains(k) && weak_candidate(k, min_attempts))
}

/// The keys of a tally are strictly increasing.
pub open spec fn keys_ascending(counts: Seq<KeyCount>) -> bool {
    forall|i: int, j: int| 0 <= i < j < counts.len() ==> counts[i].key < counts[j].key
}

proof fn lemma_products(a: int, b: int, c: int, d: int, e: int, f: int)
    requires
        b > 0,
        d > 0,
        f > 0,
        a >= 0,
        c >= 0,
        e >= 0,
    ensures
        a * d < c * b && c * f < e * d ==> a * f < e * b,
        a * d < c * b && c * f == e * d ==> a * f < e * b,
        a * d == c * b && c * f < e * d ==> a * f < e * b,
        a * d == c * b && c * f == e * d ==> a * f == e * b,
{
    assert(a * d < c * b && c * f < e * d ==> a * f < e * b) by (nonlinear_arith)
        requires
            b > 0,
            d > 0,
            f > 0,
            a >= 0,
            c >= 0,
            e >= 0,
    ;
    assert(a * d < c * b && c * f == e * d ==> a * f < e * b) by (nonlinear_arith)
        requires
            b > 0,
            d > 0,
            f > 0,
            a >= 0,
            c >= 0,
            e >= 0,
    ;
    assert(a * d == c * b && c * f < e * d ==> a * f < e * b) by (nonlinear_arith)
        requires
            b > 0,
            d > 0,
            f > 0,
            a >= 0,
            c >= 0,
            e >= 0,
    ;
    assert(a * d == c * b && c * f == e * d ==> a * f == e * b) by (nonlinear_arith)
        requires
            b > 0,
            d > 0,
            f > 0,
            a >= 0,
            c >= 0,
            e >= 0,
    ;
}

/// The order of weak keys is transitive among keys that were missed.
pub proof fn lemma_weaker_transitive(a: KeyCount, b: KeyCount, c: KeyCount)
    requires
        a.errors > 0,
        b.errors > 0,
        c.errors > 0,
        weaker(a, b),
        weaker(b, c),
    ensures
        weaker(a, c),
{
    lemma_products(
        a.correct as int,
        a.errors as int,
        b.correct as int,
        b.errors as int,
        c.correct as int,
        c.errors as int,
    );
    lemma_products(
        c.correct as int,
        c.errors as int,
        b.correct as int,
        b.errors as int,
        a.correct as int,
        a.errors as int,
    );
    lemma_products(
        b.correct as int,
        b.errors as int,
        a.correct as int,
        a.errors as int,
        c.correct as int,
        c.errors as int,
    );
    lemma_products(
        b.correct as int,
        b.errors as int,
        c.correct as int,
        c.errors as int,
        a.correct as int,
        a.errors as int,
    );
    lemma_products(
        a.correct as int,
        a.errors as int,
        c.correct as int,
        c.errors as int,
        b.correct as int,
        b.errors as int,
    );
    lemma_products(
        c.correct as int,
        c.errors as int,
        a.correct as int,
        a.errors as int,
        b.correct as int,
        b.errors as int,
    );
}

/// Whether key `a` comes before key `b` among weak keys; see [`weaker`].
fn is_weaker(a: &KeyCount, b: &KeyCount) -> (r: bool)
    ensures
        r == weaker(*a, *b),
{
    proof {
        let (ac, ae, bc, be) = (a.correct as int, a.errors as int, b.correct as int, b.errors as int);
        assert(ac * be <= 0xffff_ffff_ffff_ffff * 0xffff_ffff_ffff_ffff) by (nonlinear_arith)
            requires
                0 <= ac <= 0xffff_ffff_ffff_ffff,
                0 <= be <= 0xffff_ffff_ffff_ffff,
        ;
        assert(bc * ae <= 0xffff_ffff_ffff_ffff * 0xffff_ffff_ffff_ffff) by (nonlinear_arith)
            requires
                0 <= bc <= 0xffff_ffff_ffff_ffff,
                0 <= ae <= 0xffff_ffff_ffff_ffff,
        ;
    }
    let ab = (a.correct as u128) * (b.errors as u128);
    let ba = (b.correct as u128) * (a.errors as u128);
    ab < ba || (ab == ba && a.key < b.key)
}

/// The keys of a tally (keys in increasing order) that were missed at least once and
/// attempted at least `min_attempts` times, the least accurate first and then by key; see
/// [`weak_keys_of`]. Accuracy itself, a decimal, is the caller's.
pub fn weak_keys(counts: &[KeyCount], min_attempts: u64) -> (r: Vec<KeyCount>)
    requires
        keys_ascending(counts@),
    ensures
        weak_keys_of(r@, counts@, min_attempts),
{
    let mut out: Vec<KeyCount> = Vec::new();
    proof {
        assert(counts@.take(0) =~= Seq::<KeyCount>::empty());
    }
    let mut i: usize = 0;
    while i < counts.len()
        invariant
            i <= counts@.len(),
            keys_ascending(counts@),
            forall|a: int, b: int| 0 <= a < b < out@.len() ==> weaker(out@[a], out@[b]),
            forall|k: KeyCount|
                #![trigger out@.contains(k)]
                #![trigger counts@.take(i as int).contains(k)]
                out@.contains(k) <==> (counts@.take(i as int).contains(k) && weak_candidate(k, min_attempts)),
        decreases counts@.len() - i,
    {
        let x = counts[i];
        let ghost next = counts@.take(i + 1);
        let ghost prev = counts@.take(i as int);
        proof {
            assert(next =~= prev.push(x));
        }
        let attempts = x.correct as u128 + x.errors as u128;
        if x.errors != 0 && attempts >= min_attempts as u128 {
            let ghost before = out@;
            proof {
                assert forall|q: int| 0 <= q < before.len() implies #[trigger] prev.contains(before[q]) by {
                    assert(before.contains(before[q]));
                }
            }
            let mut p: usize = 0;
            while p < out.len() && !is_weaker(&x, &out[p])
                invariant
                    out@ == before,
                    forall|q: int| 0 <= q < before.len() ==> #[trigger] prev.contains(before[q]),
                    p <= out@.len(),
                    forall|q: int| 0 <= q < p ==> !weaker(x, #[trigger] out@[q]),
                decreases out@.len() - p,
            {
                p += 1;
            }
            out.insert(p, x);
            proof {
                // every earlier entry is an earlier count: its key is smaller than x's
                assert forall|q: int| 0 <= q < before.len() implies #[trigger] before[q].key < x.key && before[q].errors > 0 by {
                    assert(before.contains(before[q]));
                    assert(prev.contains(before[q]));
                    let j = choose|j: int| 0 <= j < prev.len() && prev[j] == before[q];
                    assert(prev[j] == counts@[j]);
                    assert(counts@[j].key < counts@[i as int].key);
                }
                assert(out@.len() == before.len() + 1);
                assert forall|k: int| 0 <= k < out@.len() implies out@[k] == (if k < p {
                    before[k]
                } else if k == p {
                    x
                } else {
                    before[k - 1]
                }) by {}
                assert forall|q: int| 0 <= q < p implies weaker(before[q], x) by {
                    assert(!weaker(x, before[q]));
                    assert(before[q].key < x.key);
                }
                assert forall|a: int, b: int| 0 <= a < b < out@.len() implies weaker(out@[a], out@[b]) by {
                    if b < p {
                        assert(out@[a] == before[a] && out@[b] == before[b]);
                    } else if b == p {
                        assert(out@[a] == before[a]);
                    } else if a < p {
                        assert(out@[a] == before[a] && out@[b] == before[b - 1]);
                        assert(before[b - 1].key < x.key);
                        assert(before[p as int].key < x.key);
                        assert(before[a].key < x.key);
                        assert(weaker(before[a], x));
                        assert(weaker(x, before[p as int]));
                        if b - 1 > p {
                            assert(weaker(before[p as int], before[b - 1]));
                            lemma_weaker_transitive(x, before[p as int], before[b - 1]);
                        }
                        lemma_weaker_transitive(before[a], x, before[b - 1]);
                    } else if a == p {
                        assert(out@[b] == before[b - 1]);
                        assert(before[b - 1].key < x.key);
                        assert(before[p as int].key < x.key);
                        assert(weaker(x, before[p as int]));
                        if b - 1 > p {
                            assert(weaker(before[p as int], before[b - 1]));
                            lemma_weaker_transitive(x, before[p as int], before[b - 1]);
                        }
                    } else {
                        assert(out@[a] == before[a - 1] && out@[b] == before[b - 1]);
                    }
                }
                assert forall|k: KeyCount| out@.contains(k) <==> (next.contains(k) && weak_candidate(k, min_attempts)) by {
                    if out@.contains(k) {
                        let m = choose|m: int| 0 <= m < out@.len() && out@[m] == k;
                        if m != p {
                            let n = if m < p { m } else { m - 1 };
                            assert(before[n] == k);
                            assert(prev.contains(before[n]));
                            let j = choose|j: int| 0 <= j < prev.len() && prev[j] == k;
                            assert(next[j] == k);
                        } else {
                            assert(next[i as int] == x);
                        }
                    }
                    if next.contains(k) && weak_candidate(k, min_attempts) {
                        let j = choose|j: int| 0 <= j < i + 1 && next[j] == k;
                        if j < i {
                            assert(prev[j] == k);
                            assert(before.contains(k));
                            let m = choose|m: int| 0 <= m < before.len() && before[m] == k;
                            if m < p {
                                assert(out@[m] == k);
                            } else {
                                assert(out@[m + 1] == k);
                            }
                        } else {
                            assert(out@[p as int] == k);
                        }
                    }
                }
            }
        } else {
            proof {
                assert forall|k: KeyCount| out@.contains(k) <==> (next.contains(k) && weak_candidate(k, min_attempts)) by {
                    if next.contains(k) && weak_candidate(k, min_attempts) {
                        let j = choose|j: int| 0 <= j < i + 1 && next[j] == k;
                        if j < i {
                            assert(prev[j] == k);
                        }
                    }
                    if out@.contains(k) {
                        assert(counts@.take(i as int).contains(k));
                        let j = choose|j: int| 0 <= j < i && prev[j] == k;
                        assert(next[j] == k);
                    }
                }
            }
        }
        i = i + 1;
    }
    proof {
        assert(counts@.take(counts@.len() as int) =~= counts@);
    }
    out
}

/// The active time, in milliseconds, of the first `n` sessions that were practised on a day.
pub open spec fn day_duration(sessions: Seq<SessionEntry>, date: i32, n: nat) -> int
    decreases n,
{
    if n == 0 {
        0
    } else {
        day_duration(sessions, date, (n - 1) as nat) + if sessions[n - 1].local_date == date {
            sessions[n - 1].duration_ms as int
        } else {
            0
        }
    }
}

/// Whether the daily practice goal is met on a day: the active time of the sessions already
/// practised that day, and of a new session, reaches the goal's minutes. The times add up to
/// at most the largest `u64`.
pub fn daily_goal_met(sessions: &[SessionEntry], date: i32, duration_ms: u64, daily_minutes: u32) -> (r:
    bool)
    ensures
        r == (saturated(saturated(day_duration(sessions@, date, sessions@.len())) + duration_ms)
            >= daily_minutes as int * 60_000),
{
    let mut prior: u64 = 0;
    for i in 0..sessions.len()
        invariant
            prior == saturated(day_duration(sessions@, date, i as nat)),
    {
        proof {
            lemma_day_duration_nonnegative(sessions@, date, i as nat);
        }
        if sessions[i].local_date == date {
            prior = prior.saturating_add(sessions[i].duration_ms);
        }
    }
    let total = prior.saturating_add(duration_ms);
    let target = daily_minutes as u64 * 60_000;
    total >= target
}

/// Active times never sum below zero.
proof fn lemma_day_duration_nonnegative(sessions: Seq<SessionEntry>, date: i32, n: nat)
    ensures
        day_duration(sessions, date, n) >= 0,
    decreases n,
{
    if n > 0 {
        lemma_day_duration_nonnegative(sessions, date, (n - 1) as nat);
    }
}

} // verus!

//! Finishing a practice: whether it can be finished, the record it leaves (its content ID
//! and difficulty), the comparable session before it, the daily goal, long-text progress,
//! and the result screen it shows. Speeds and accuracy are decimals and stay with the caller.
use crate::app::navigation::{nav_wf, showing_result, Navigation};
use crate::app::{practice_id, Screen};
use crate::content::{selects, ContentKind, ResolvedItemView};
use crate::model::{Difficulty, Language, PracticeKind};
use crate::practice::engine::{active_nanos, EngineView, PracticeEngine};
use crate::stats::{daily_goal_met, day_duration, saturated, tallies, KeyCount, SessionEntry};
use crate::text::{lemma_text_lt_irreflexive, lemma_text_lt_total, lemma_text_lt_transitive, str_lt, text_lt};
use vstd::prelude::*;

verus! {

/// What is known of a practice when it finishes.
pub struct PracticeSummary {
    pub language: Language,
    pub kind: PracticeKind,
    /// The difficulty chosen for word practice (read for word practice only).
    pub words_difficulty: Difficulty,
    /// The difficulty of the long text, if it has one (read for long practice only).
    pub long_difficulty: Option<u8>,
    /// The content practised, in order.
    pub content_ids: Vec<String>,
    pub attempted_units: u64,
    /// The key units of the right cells, the wrong cells and the backspaces.
    pub correct_units: u64,
    pub errors: u64,
    pub backspaces: u64,
    /// How often each key was meant and pressed right or wrong.
    pub intended_keys: Vec<KeyCount>,
    /// The active time, in milliseconds.
    pub active_ms: u64,
    /// The clusters typed, and those of the whole target.
    pub completed: usize,
    pub total: usize,
}

/// `p` is what the practice `e` knows of itself at `now` (nanoseconds): its language and
/// mode, its counts and intended keys, its active time in whole milliseconds, and how far it
/// got; the difficulties and content come from the practice's options.
pub open spec fn summarizes(
    p: PracticeSummary,
    e: EngineView,
    words_difficulty: Difficulty,
    long_difficulty: Option<u8>,
    content_ids: Seq<String>,
    now: u64,
) -> bool {
    &&& p.language == e.language
    &&& p.kind == e.kind
    &&& p.words_difficulty == words_difficulty
    &&& p.long_difficulty == long_difficulty
    &&& p.content_ids@ == content_ids
    &&& p.attempted_units == e.attempted_units
    &&& p.correct_units == e.correct_units
    &&& p.errors == e.errors
    &&& p.backspaces == e.backspaces
    &&& tallies(p.intended_keys@, e.intended_log)
    &&& p.active_ms == active_nanos(e, now) / 1_000_000
    &&& p.completed == e.cells.len()
    &&& p.total == e.target.len()
}

impl PracticeSummary {
    /// What a practice engine knows of its practice at `now` (nanoseconds): its language and
    /// mode, its counts and intended keys, its active time in whole milliseconds, and how far
    /// it got; the rest comes from the practice's options.
    pub fn from_engine(
        engine: &PracticeEngine,
        words_difficulty: Difficulty,
        long_difficulty: Option<u8>,
        content_ids: Vec<String>,
        now: u64,
    ) -> (r: PracticeSummary)
        requires
            engine.wf(),
        ensures
            summarizes(r, engine@, words_difficulty, long_difficulty, content_ids@, now),
    {
        let mut intended: Vec<KeyCount> = Vec::new();
        let keys = engine.intended_keys();
        let mut k: usize = 0;
        while k < keys.len()
            invariant
                k <= keys@.len(),
                intended@ == keys@.take(k as int),
            decreases keys@.len() - k,
        {
            intended.push(keys[k]);
            proof {
                assert(intended@ =~= keys@.take(k + 1));
            }
            k = k + 1;
        }
        proof {
            assert(keys@.take(keys@.len() as int) =~= keys@);
        }
        PracticeSummary {
            language: engine.language(),
            kind: engine.kind(),
            words_difficulty,
            long_difficulty,
            content_ids,
            attempted_units: engine.attempted_units(),
            correct_units: engine.correct_units(),
            errors: engine.errors(),
            backspaces: engine.backspaces(),
            intended_keys: intended,
            active_ms: engine.active_nanos(now) / 1_000_000,
            completed: engine.cursor(),
            total: engine.target_len(),
        }
    }
}

/// What finishing a practice gives.
pub struct FinishOutcome {
    /// The content the session is recorded under.
    pub content_id: String,
    /// The session's difficulty, 1 to 3, if it has one.
    pub difficulty: Option<u8>,
    /// The position among the sessions of the latest comparable one, if any.
    pub previous: Option<usize>,
    /// The day's practice, this session included, reaches the daily goal.
    pub daily_minutes_met: bool,
    /// For long practice: clusters typed, clusters in all, and the percentage typed.
    pub long_progress: Option<(usize, usize, usize)>,
    /// The result gets a grade: only a test is graded.
    pub graded: bool,
}

/// Why a practice cannot be finished, if it cannot: there is none, or nothing was attempted.
pub open spec fn finish_refusal(p: Option<&PracticeSummary>) -> Option<Seq<char>> {
    match p {
        None => Some("no active practice"@),
        Some(p) => if p.attempted_units == 0 {
            Some("cannot finish practice without an attempt"@)
        } else {
            None
        },
    }
}

/// The content a session is recorded under: the first content practised, or else the
/// practice mode's own identifier.
pub open spec fn recorded_content(p: PracticeSummary) -> Seq<char> {
    if p.content_ids@.len() > 0 {
        p.content_ids@[0]@
    } else {
        match p.kind {
            PracticeKind::Quick => "quick"@,
            PracticeKind::Key => "key"@,
            PracticeKind::Words => "words"@,
            PracticeKind::Sentence => "sentence"@,
            PracticeKind::Long => "long"@,
            PracticeKind::Test => "test"@,
        }
    }
}

/// A session's difficulty: for word practice Easy, Medium and Hard are 1, 2 and 3 and Mixed
/// has none; long practice takes the text's; other practice has none.
pub open spec fn session_difficulty(p: PracticeSummary) -> Option<u8> {
    match p.kind {
        PracticeKind::Words => match p.words_difficulty {
            Difficulty::Easy => Some(1u8),
            Difficulty::Medium => Some(2u8),
            Difficulty::Hard => Some(3u8),
            Difficulty::Mixed => None,
        },
        PracticeKind::Long => p.long_difficulty,
        _ => None,
    }
}

/// A session is comparable with the practice: same language and mode, and speeds that are
/// finite numbers (`finite`, which the caller reads off the session's decimals).
pub open spec fn comparable(s: SessionEntry, finite: bool, language: Language, kind: PracticeKind) -> bool {
    s.language == language && s.mode == kind && finite
}

/// Session `a` comes strictly before session `b`: it started earlier, or at the same moment
/// with a smaller ID.
pub open spec fn earlier(a: SessionEntry, b: SessionEntry) -> bool {
    a.started_at_unix_ms < b.started_at_unix_ms || (a.started_at_unix_ms
        == b.started_at_unix_ms && text_lt(a.id@, b.id@))
}

/// The latest comparable session is at `i`: every comparable session before it is not later
/// than it, and every comparable session after it is earlier (of equals, the last counts).
pub open spec fn latest_at(
    sessions: Seq<SessionEntry>,
    finite: Seq<bool>,
    language: Language,
    kind: PracticeKind,
    i: int,
) -> bool {
    &&& 0 <= i < sessions.len()
    &&& comparable(sessions[i], finite[i], language, kind)
    &&& forall|j: int|
        0 <= j < i && comparable(#[trigger] sessions[j], finite[j], language, kind) ==> !earlier(
            sessions[i],
            sessions[j],
        )
    &&& forall|j: int|
        i < j < sessions.len() && comparable(#[trigger] sessions[j], finite[j], language, kind)
            ==> earlier(sessions[j], sessions[i])
}

/// The progress of a long practice: clusters typed, in all, and typed per hundred.
pub open spec fn long_progress_spec(p: PracticeSummary) -> Option<(usize, usize, usize)> {
    if p.kind == PracticeKind::Long {
        let scaled = if p.completed * 100 > usize::MAX {
            usize::MAX as int
        } else {
            p.completed * 100
        };
        Some((p.completed, p.total, (scaled / p.total as int) as usize))
    } else {
        None
    }
}

/// What finishing the practice `p` on the local day `local_date` gives: the content and
/// difficulty it is recorded under, the latest comparable session among `sessions`, whether
/// the day's practice reaches `daily_minutes`, the long-text progress, and whether it is
/// graded.
pub open spec fn finished_with(
    p: PracticeSummary,
    o: FinishOutcome,
    local_date: i32,
    sessions: Seq<SessionEntry>,
    finite_speeds: Seq<bool>,
    daily_minutes: u32,
) -> bool {
    &&& o.content_id@ == recorded_content(p)
    &&& o.difficulty == session_difficulty(p)
    &&& match o.previous {
        Some(i) => latest_at(sessions, finite_speeds, p.language, p.kind, i as int),
        None => forall|j: int|
            0 <= j < sessions.len() ==> !comparable(#[trigger] sessions[j], finite_speeds[j], p.language, p.kind),
    }
    &&& o.daily_minutes_met == (saturated(saturated(day_duration(sessions, local_date, sessions.len())) + p.active_ms)
        >= daily_minutes as int * 60_000)
    &&& o.long_progress == long_progress_spec(p)
    &&& o.graded == (p.kind == PracticeKind::Test)
}

/// `s` is the record that the practice `p`, finished with `o`, leaves under the ID `id`,
/// started at `started_at_unix_ms` on the local day `local_date`: its language and mode, the
/// content and difficulty of `o`, and the practice's own time and counts.
pub open spec fn records(
    s: SessionEntry,
    p: PracticeSummary,
    o: FinishOutcome,
    id: Seq<char>,
    started_at_unix_ms: i128,
    local_date: i32,
) -> bool {
    &&& s.schema_version == 1
    &&& s.id@ == id
    &&& s.started_at_unix_ms == started_at_unix_ms
    &&& s.local_date == local_date
    &&& s.language == p.language
    &&& s.mode == p.kind
    &&& s.content_id@ == o.content_id@
    &&& s.difficulty == o.difficulty
    &&& s.duration_ms == p.active_ms
    &&& s.correct_units == p.correct_units
    &&& s.attempted_units == p.attempted_units
    &&& s.errors == p.errors
    &&& s.backspaces == p.backspaces
    &&& s.intended_keys@ == p.intended_keys@
}

proof fn lemma_earlier_transitive(a: SessionEntry, b: SessionEntry, c: SessionEntry)
    requires
        earlier(a, b),
        earlier(b, c),
    ensures
        earlier(a, c),
{
    if a.started_at_unix_ms == b.started_at_unix_ms && b.started_at_unix_ms == c.started_at_unix_ms {
        lemma_text_lt_transitive(a.id@, b.id@, c.id@);
    }
}

/// The position of the latest comparable session; see [`latest_at`].
fn latest_comparable(sessions: &[SessionEntry], finite: &[bool], language: Language, kind: PracticeKind) -> (r: Option<usize>)
    requires
        finite@.len() == sessions@.len(),
    ensures
        match r {
            Some(i) => latest_at(sessions@, finite@, language, kind, i as int),
            None => forall|j: int| 0 <= j < sessions@.len() ==> !comparable(#[trigger] sessions@[j], finite@[j], language, kind),
        },
{
    let mut best: Option<usize> = None;
    let mut i: usize = 0;
    while i < sessions.len()
        invariant
            i <= sessions@.len(),
            finite@.len() == sessions@.len(),
            match best {
                Some(b) => b < i && comparable(sessions@[b as int], finite@[b as int], language, kind)
                    && (forall|j: int| 0 <= j < b && comparable(#[trigger] sessions@[j], finite@[j], language, kind) ==> !earlier(sessions@[b as int], sessions@[j]))
                    && (forall|j: int| b < j < i && comparable(#[trigger] sessions@[j], finite@[j], language, kind) ==> earlier(sessions@[j], sessions@[b as int])),
                None => forall|j: int| 0 <= j < i ==> !comparable(#[trigger] sessions@[j], finite@[j], language, kind),
            },
        decreases sessions@.len() - i,
    {
        let s = &sessions[i];
        if s.language == language && s.mode == kind && finite[i] {
            match best {
                None => {
                    best = Some(i);
                },
                Some(b) => {
                    let t = &sessions[b];
                    let later_or_same = s.started_at_unix_ms > t.started_at_unix_ms || (s.started_at_unix_ms
                        == t.started_at_unix_ms && !str_lt(s.id.as_str(), t.id.as_str()));
                    if later_or_same {
                        proof {
                            lemma_text_lt_total(s.id@, t.id@);
                            lemma_text_lt_irreflexive(s.id@);
                            assert(!earlier(sessions@[i as int], sessions@[b as int]));
                            assert forall|j: int| 0 <= j < i && comparable(#[trigger] sessions@[j], finite@[j], language, kind)
                                implies !earlier(sessions@[i as int], sessions@[j]) by {
                                if earlier(sessions@[i as int], sessions@[j]) {
                                    if j < b {
                                        // sessions[b] is not earlier than sessions[j]
                                        lemma_text_lt_total(sessions@[j].id@, sessions@[b as int].id@);
                                        if earlier(sessions@[b as int], sessions@[i as int]) {
                                            lemma_earlier_transitive(sessions@[b as int], sessions@[i as int], sessions@[j]);
                                        } else {
                                            lemma_text_lt_total(sessions@[i as int].id@, sessions@[j].id@);
                                            lemma_text_lt_total(sessions@[b as int].id@, sessions@[j].id@);
                                        }
                                    } else if j == b {
                                    } else {
                                        lemma_earlier_transitive(sessions@[i as int], sessions@[j], sessions@[b as int]);
                                    }
                                }
                            }
                        }
                        best = Some(i);
                    } else {
                        proof {
                            lemma_text_lt_total(s.id@, t.id@);
                            assert(earlier(sessions@[i as int], sessions@[b as int]));
                        }
                    }
                },
            }
        }
        i = i + 1;
    }
    best
}

/// Finishes a practice on the local day `local_date`: refused when there is no practice or
/// nothing was attempted ([`finish_refusal`]); otherwise the session's content and
/// difficulty, the latest comparable session among `sessions` (`finite_speeds` tells, for
/// each, whether its decimal speeds are finite), whether the day's practice
/// reaches `daily_minutes`, the long-text progress, and the result screen on show.
pub fn finish_step(
    practice: Option<&PracticeSummary>,
    local_date: i32,
    sessions: &[SessionEntry],
    finite_speeds: &[bool],
    daily_minutes: u32,
    nav: &mut Navigation,
) -> (r: Result<FinishOutcome, String>)
    requires
        nav_wf(old(nav)@),
        finite_speeds@.len() == sessions@.len(),
        practice is Some && practice.unwrap().kind == PracticeKind::Long && practice.unwrap().attempted_units > 0
            ==> practice.unwrap().total > 0,
    ensures
        match r {
            Err(m) => finish_refusal(practice) == Some(m@) && final(nav)@ == old(nav)@,
            Ok(o) => {
                &&& finish_refusal(practice) is None
                &&& finished_with(*practice.unwrap(), o, local_date, sessions@, finite_speeds@, daily_minutes)
                &&& nav_wf(final(nav)@)
                &&& final(nav)@ == showing_result(old(nav)@)
            },
        },
{
    let p = match practice {
        None => {
            return Err("no active practice".to_owned());
        },
        Some(p) => p,
    };
    if p.attempted_units == 0 {
        return Err("cannot finish practice without an attempt".to_owned());
    }
    let content_id = if p.content_ids.len() > 0 {
        p.content_ids[0].clone()
    } else {
        practice_id(p.kind).to_owned()
    };
    let difficulty = match p.kind {
        PracticeKind::Words => match p.words_difficulty {
            Difficulty::Easy => Some(1u8),
            Difficulty::Medium => Some(2u8),
            Difficulty::Hard => Some(3u8),
            Difficulty::Mixed => None,
        },
        PracticeKind::Long => p.long_difficulty,
        _ => None,
    };
    let previous = latest_comparable(sessions, finite_speeds, p.language, p.kind);
    let daily_minutes_met = daily_goal_met(sessions, local_date, p.active_ms, daily_minutes);
    let long_progress = if p.kind == PracticeKind::Long {
        let scaled: usize = if p.completed <= usize::MAX / 100 {
            p.completed * 100
        } else {
            usize::MAX
        };
        Some((p.completed, p.total, scaled / p.total))
    } else {
        None
    };
    nav.show_result();
    let graded = p.kind == PracticeKind::Test;
    Ok(FinishOutcome { content_id, difficulty, previous, daily_minutes_met, long_progress, graded })
}

/// The record a finished practice leaves: its ID and start, the local day, its language and
/// mode, the content and difficulty that finishing gave, and the practice's own time and
/// counts.
pub fn session_entry(
    p: &PracticeSummary,
    o: &FinishOutcome,
    id: String,
    started_at_unix_ms: i128,
    local_date: i32,
) -> (r: SessionEntry)
    ensures
        records(r, *p, *o, id@, started_at_unix_ms, local_date),
{
    let mut intended: Vec<KeyCount> = Vec::new();
    let mut k: usize = 0;
    while k < p.intended_keys.len()
        invariant
            k <= p.intended_keys@.len(),
            intended@ == p.intended_keys@.take(k as int),
        decreases p.intended_keys@.len() - k,
    {
        intended.push(p.intended_keys[k]);
        proof {
            assert(intended@ =~= p.intended_keys@.take(k + 1));
        }
        k = k + 1;
    }
    proof {
        assert(p.intended_keys@.take(p.intended_keys@.len() as int) =~= p.intended_keys@);
    }
    SessionEntry {
        schema_version: 1,
        id,
        started_at_unix_ms,
        local_date,
        language: p.language,
        mode: p.kind,
        content_id: o.content_id.clone(),
        difficulty: o.difficulty,
        duration_ms: p.active_ms,
        correct_units: p.correct_units,
        attempted_units: p.attempted_units,
        errors: p.errors,
        backspaces: p.backspaces,
        intended_keys: intended,
    }
}

/// Finishes the practice `engine` at `now` (nanoseconds) on the local day `local_date`:
/// refused when there is no practice or nothing was attempted; otherwise what the practice
/// knows of itself ([`summarizes`]), what finishing it gives ([`finished_with`]), and the
/// record it leaves under `id` ([`records`]), whose counts are the practice's own. The result
/// screen is then on show.
pub fn finish_practice(
    engine: Option<&PracticeEngine>,
    words_difficulty: Difficulty,
    long_difficulty: Option<u8>,
    content_ids: Vec<String>,
    now: u64,
    id: String,
    started_at_unix_ms: i128,
    local_date: i32,
    sessions: &[SessionEntry],
    finite_speeds: &[bool],
    daily_minutes: u32,
    nav: &mut Navigation,
) -> (r: Result<(PracticeSummary, FinishOutcome, SessionEntry), String>)
    requires
        nav_wf(old(nav)@),
        finite_speeds@.len() == sessions@.len(),
        engine matches Some(e) ==> e.wf(),
        engine matches Some(e) ==> (e@.kind == PracticeKind::Long && e@.attempted_units > 0 ==> e@.target.len() > 0),
    ensures
        match r {
            Err(m) => {
                &&& m@ == (match engine {
                    None => "no active practice"@,
                    Some(_) => "cannot finish practice without an attempt"@,
                })
                &&& (engine matches Some(e) ==> e@.attempted_units == 0)
                &&& final(nav)@ == old(nav)@
            },
            Ok((p, o, s)) => {
                &&& engine matches Some(e) && summarizes(p, e@, words_difficulty, long_difficulty, content_ids@, now)
                &&& p.attempted_units > 0
                &&& finished_with(p, o, local_date, sessions@, finite_speeds@, daily_minutes)
                &&& records(s, p, o, id@, started_at_unix_ms, local_date)
                &&& nav_wf(final(nav)@)
                &&& final(nav)@ == showing_result(old(nav)@)
            },
        },
{
    let e = match engine {
        None => {
            return Err("no active practice".to_owned());
        },
        Some(e) => e,
    };
    let p = PracticeSummary::from_engine(e, words_difficulty, long_difficulty, content_ids, now);
    match finish_step(Some(&p), local_date, sessions, finite_speeds, daily_minutes, nav) {
        Err(m) => Err(m),
        Ok(o) => {
            let s = session_entry(&p, &o, id, started_at_unix_ms, local_date);
            Ok((p, o, s))
        },
    }
}

/// Keeps a finished session in the session list when saving it succeeded, and not
/// otherwise.
pub fn keep_saved_session(sessions: &mut Vec<SessionEntry>, session: SessionEntry, saved: bool)
    ensures
        final(sessions)@ == if saved {
            old(sessions)@.push(session)
        } else {
            old(sessions)@
        },
{
    if saved {
        sessions.push(session);
    }
}

/// The difficulty recorded for a word practice is the content level its chosen difficulty
/// selects: a word item is picked for Easy, Medium or Hard exactly when its difficulty is the
/// one the session records (so the three record different levels, 1 to 3), and Mixed, which
/// picks every word, records none.
pub proof fn lemma_word_session_difficulty_is_the_selected_level(
    p: PracticeSummary,
    x: ResolvedItemView,
    language: Language,
)
    requires
        p.kind == PracticeKind::Words,
    ensures
        p.words_difficulty != Difficulty::Mixed ==> (selects(x, language, ContentKind::Word, p.words_difficulty) <==> (
        x.language == language && x.kind == ContentKind::Word && session_difficulty(p) == Some(x.difficulty.unwrap())
            && x.difficulty is Some)),
        p.words_difficulty != Difficulty::Mixed ==> (session_difficulty(p) matches Some(d) && 1 <= d <= 3),
        p.words_difficulty == Difficulty::Mixed ==> session_difficulty(p) is None,
{
}

/// Word practices at different chosen difficulties (other than Mixed) record different
/// difficulties.
pub proof fn lemma_word_session_difficulties_differ(p: PracticeSummary, q: PracticeSummary)
    requires
        p.kind == PracticeKind::Words,
        q.kind == PracticeKind::Words,
        p.words_difficulty != Difficulty::Mixed,
        q.words_difficulty != Difficulty::Mixed,
        p.words_difficulty != q.words_difficulty,
    ensures
        session_difficulty(p) != session_difficulty(q),
{
}

} // verus!

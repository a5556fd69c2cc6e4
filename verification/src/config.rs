//! The settings: the preferences, their checks, and the game records they keep (Word Rain's
//! best scores, and each boss's clear rank and best scores, with the rules by which bosses and
//! tiers unlock).
use crate::game::{
    BOSS_COUNT, BossKind, GameDifficulty, boss_at, boss_rank, difficulty_rank,
};
use crate::model::Language;
use vstd::prelude::*;

verus! {

/// One boss's record: the highest tier cleared (0 for none, 1 for Easy up to 4 for Hell),
/// the best score per language and tier below Hell, and the best Hell score per language.
#[derive(Clone, Copy, Debug, PartialEq, Eq)]
pub struct BossProgress {
    pub clear_rank: u8,
    pub high_scores: [[u64; 3]; 2],
    pub hell_high_scores: [u64; 2],
}

/// The position of a language in the score tables: Korean first, then English.
pub open spec fn slot_of(language: Language) -> nat {
    match language {
        Language::Ko => 0,
        Language::En => 1,
    }
}

/// The position of a language in the score tables.
pub fn language_slot(language: Language) -> (r: usize)
    ensures
        r == slot_of(language),
{
    match language {
        Language::Ko => 0,
        Language::En => 1,
    }
}

/// A record with nothing cleared and every score zero.
pub open spec fn fresh(p: BossProgress) -> bool {
    &&& p.clear_rank == 0
    &&& forall|i: int, j: int| 0 <= i < 2 && 0 <= j < 3 ==> #[trigger] p.high_scores[i][j] == 0
    &&& forall|i: int| 0 <= i < 2 ==> #[trigger] p.hell_high_scores[i] == 0
}

impl Default for BossProgress {
    fn default() -> (r: Self)
        ensures
            fresh(r),
    {
        BossProgress { clear_rank: 0, high_scores: [[0, 0, 0], [0, 0, 0]], hell_high_scores: [0, 0] }
    }
}

/// The best score a record holds for a language and tier.
pub open spec fn score_in(p: BossProgress, language: Language, d: GameDifficulty) -> u64 {
    if d == GameDifficulty::Hell {
        p.hell_high_scores[slot_of(language) as int]
    } else {
        p.high_scores[slot_of(language) as int][difficulty_rank(d) as int]
    }
}

/// The games' records, as the settings keep them.
#[derive(Clone, Debug, PartialEq, Eq)]
pub struct GameRecords {
    /// Word Rain's best score per language and tier below Hell.
    pub word_rain_high_scores: [[u64; 3]; 2],
    /// Word Rain's best Hell score per language.
    pub word_rain_hell_high_scores: [u64; 2],
    /// Each boss's record, by the boss's position; a missing record counts as fresh.
    pub boss_battle_progress: Vec<BossProgress>,
}

/// The clear rank of the boss at a position: 0 when it has no record.
pub open spec fn rank_at(progress: Seq<BossProgress>, index: int) -> u8 {
    if 0 <= index < progress.len() {
        progress[index].clear_rank
    } else {
        0
    }
}

/// Whether a boss can be fought: the first always, each other once the one before it has
/// been cleared on some tier.
pub open spec fn unlocked(progress: Seq<BossProgress>, boss: BossKind) -> bool {
    boss_rank(boss) == 0 || rank_at(progress, boss_rank(boss) - 1) >= 1
}

/// Whether a tier of a boss can be chosen: the boss is unlocked and every tier below it has
/// been cleared (the tier's position is at most the clear rank).
pub open spec fn tier_unlocked(progress: Seq<BossProgress>, boss: BossKind, d: GameDifficulty) -> bool {
    unlocked(progress, boss) && difficulty_rank(d) <= rank_at(progress, boss_rank(boss) as int)
}

/// The best score for a boss, language and tier: 0 when the boss has no record.
pub open spec fn best_score(
    progress: Seq<BossProgress>,
    boss: BossKind,
    language: Language,
    d: GameDifficulty,
) -> u64 {
    if boss_rank(boss) < progress.len() {
        score_in(progress[boss_rank(boss) as int], language, d)
    } else {
        0
    }
}

/// How recording a clear of `boss` on tier `d` with `score` takes the records `before` to
/// `after`: missing records up to the boss are added fresh, the boss's rank rises to the
/// tier's rank if it was lower, its best score for the language and tier rises to the score
/// if it was lower, and nothing else changes.
pub open spec fn clear_recorded(
    before: Seq<BossProgress>,
    after: Seq<BossProgress>,
    boss: BossKind,
    language: Language,
    d: GameDifficulty,
    score: u64,
) -> bool {
    &&& after.len() == if before.len() > boss_rank(boss) {
        before.len()
    } else {
        boss_rank(boss) + 1
    }
    &&& forall|i: int|
        0 <= i < after.len() && i != boss_rank(boss) ==> if i < before.len() {
            #[trigger] after[i] == before[i]
        } else {
            fresh(after[i])
        }
    &&& rank_at(after, boss_rank(boss) as int) == if rank_at(before, boss_rank(boss) as int)
        > difficulty_rank(d) + 1 {
        rank_at(before, boss_rank(boss) as int) as int
    } else {
        difficulty_rank(d) + 1int
    }
    &&& forall|l: Language, t: GameDifficulty|
        #![trigger best_score(after, boss, l, t)]
        best_score(after, boss, l, t) == if l == language && t == d && score > best_score(
            before,
            boss,
            l,
            t,
        ) {
            score
        } else {
            best_score(before, boss, l, t)
        }
}

/// The boss at a position in the unlock order.
pub open spec fn boss_of(n: nat) -> BossKind {
    if n == 0 {
        BossKind::IronWarden
    } else if n == 1 {
        BossKind::ThornQueen
    } else {
        BossKind::NullArchon
    }
}

/// The tier above a tier below Hell.
pub open spec fn next_tier(d: GameDifficulty) -> GameDifficulty {
    match d {
        GameDifficulty::Easy => GameDifficulty::Medium,
        GameDifficulty::Medium => GameDifficulty::Hard,
        _ => GameDifficulty::Hell,
    }
}

/// Recording a clear never lowers any boss's clear rank or any best score, and never locks a
/// boss or a tier that was open.
pub proof fn lemma_clear_never_regresses(
    before: Seq<BossProgress>,
    after: Seq<BossProgress>,
    boss: BossKind,
    language: Language,
    d: GameDifficulty,
    score: u64,
    other: BossKind,
    l: Language,
    t: GameDifficulty,
)
    requires
        clear_recorded(before, after, boss, language, d, score),
    ensures
        rank_at(after, boss_rank(other) as int) >= rank_at(before, boss_rank(other) as int),
        best_score(after, other, l, t) >= best_score(before, other, l, t),
        unlocked(before, other) ==> unlocked(after, other),
        tier_unlocked(before, other, t) ==> tier_unlocked(after, other, t),
{
    assert forall|n: int| 0 <= n < 3 implies rank_at(after, n) >= rank_at(before, n) by {
        if n != boss_rank(boss) && n < after.len() {
            if n < before.len() {
                assert(after[n] == before[n]);
            } else {
                assert(fresh(after[n]));
            }
        }
    }
    if other != boss {
        let n = boss_rank(other) as int;
        if n < before.len() {
            assert(after[n] == before[n]);
        }
    } else {
        assert(best_score(after, boss, l, t) == best_score(after, other, l, t));
    }
}

/// A clear of a boss on a tier keeps its score as a best for that language and tier, ranks
/// the boss at least that tier, opens the next boss, and, when the boss was open, opens the
/// next tier of the boss.
pub proof fn lemma_clear_unlocks(
    before: Seq<BossProgress>,
    after: Seq<BossProgress>,
    boss: BossKind,
    language: Language,
    d: GameDifficulty,
    score: u64,
)
    requires
        clear_recorded(before, after, boss, language, d, score),
    ensures
        best_score(after, boss, language, d) >= score,
        rank_at(after, boss_rank(boss) as int) >= difficulty_rank(d) + 1,
        boss_rank(boss) < 2 ==> unlocked(after, boss_of(boss_rank(boss) + 1)),
        unlocked(before, boss) && d != GameDifficulty::Hell ==> tier_unlocked(
            after,
            boss,
            next_tier(d),
        ),
{
    assert(best_score(after, boss, language, d) == best_score(after, boss, language, d));
    lemma_clear_never_regresses(before, after, boss, language, d, score, boss, language, d);
}

/// A tier of a boss is open only when the boss is, and the Easy tier of an open boss always
/// is.
pub proof fn lemma_tiers_need_the_boss(progress: Seq<BossProgress>, boss: BossKind, d: GameDifficulty)
    ensures
        tier_unlocked(progress, boss, d) ==> unlocked(progress, boss),
        unlocked(progress, boss) ==> tier_unlocked(progress, boss, GameDifficulty::Easy),
{
}

impl GameRecords {
    /// Records with a fresh record for every boss and every score zero.
    pub fn new() -> (r: Self)
        ensures
            r.boss_battle_progress@.len() == BOSS_COUNT,
            forall|i: int| 0 <= i < BOSS_COUNT ==> fresh(#[trigger] r.boss_battle_progress@[i]),
            forall|i: int, j: int|
                0 <= i < 2 && 0 <= j < 3 ==> #[trigger] r.word_rain_high_scores[i][j] == 0,
            forall|i: int| 0 <= i < 2 ==> #[trigger] r.word_rain_hell_high_scores[i] == 0,
    {
        let mut progress: Vec<BossProgress> = Vec::new();
        for i in 0..BOSS_COUNT
            invariant
                progress@.len() == i,
                forall|k: int| 0 <= k < i ==> fresh(#[trigger] progress@[k]),
        {
            progress.push(BossProgress::default());
        }
        GameRecords {
            word_rain_high_scores: [[0, 0, 0], [0, 0, 0]],
            word_rain_hell_high_scores: [0, 0],
            boss_battle_progress: progress,
        }
    }

    /// The highest tier cleared against a boss: 0 for none, 1 for Easy up to 4 for Hell.
    pub fn boss_clear_rank(&self, boss: BossKind) -> (r: u8)
        ensures
            r == rank_at(self.boss_battle_progress@, boss_rank(boss) as int),
    {
        let index = boss.index();
        if index < self.boss_battle_progress.len() {
            self.boss_battle_progress[index].clear_rank
        } else {
            0
        }
    }

    /// Whether a boss can be fought.
    pub fn boss_is_unlocked(&self, boss: BossKind) -> (r: bool)
        ensures
            r == unlocked(self.boss_battle_progress@, boss),
    {
        let index = boss.index();
        index == 0 || self.boss_clear_rank(boss_at(index - 1)) >= 1
    }

    /// Whether a tier of a boss can be chosen.
    pub fn boss_difficulty_is_unlocked(&self, boss: BossKind, difficulty: GameDifficulty) -> (r:
        bool)
        ensures
            r == tier_unlocked(self.boss_battle_progress@, boss, difficulty),
    {
        self.boss_is_unlocked(boss) && difficulty.index() <= self.boss_clear_rank(boss) as usize
    }

    /// The best score for a boss, language and tier.
    pub fn boss_high_score(&self, boss: BossKind, language: Language, difficulty: GameDifficulty)
        -> (r: u64)
        ensures
            r == best_score(self.boss_battle_progress@, boss, language, difficulty),
    {
        let index = boss.index();
        if index < self.boss_battle_progress.len() {
            let progress = &self.boss_battle_progress[index];
            let slot = language_slot(language);
            if difficulty == GameDifficulty::Hell {
                progress.hell_high_scores[slot]
            } else {
                progress.high_scores[slot][difficulty.index()]
            }
        } else {
            0
        }
    }

    /// Records a clear of a boss on a tier with a score. Missing records up to the boss are
    /// added fresh; the boss's rank rises to the tier's rank if it was lower, and its best
    /// score for the language and tier to the score if it was lower. Nothing else changes.
    pub fn record_boss_clear(
        &mut self,
        boss: BossKind,
        language: Language,
        difficulty: GameDifficulty,
        score: u64,
    )
        ensures
            final(self).word_rain_high_scores == old(self).word_rain_high_scores,
            final(self).word_rain_hell_high_scores == old(self).word_rain_hell_high_scores,
            clear_recorded(
                old(self).boss_battle_progress@,
                final(self).boss_battle_progress@,
                boss,
                language,
                difficulty,
                score,
            ),
    {
        let index = boss.index();
        while self.boss_battle_progress.len() <= index
            invariant
                index == boss_rank(boss),
                self.word_rain_high_scores == old(self).word_rain_high_scores,
                self.word_rain_hell_high_scores == old(self).word_rain_hell_high_scores,
                old(self).boss_battle_progress@.len() <= self.boss_battle_progress@.len(),
                self.boss_battle_progress@.len() <= if old(self).boss_battle_progress@.len()
                    > index {
                    old(self).boss_battle_progress@.len()
                } else {
                    (index + 1) as nat
                },
                forall|i: int|
                    0 <= i < old(self).boss_battle_progress@.len() ==> #[trigger] self.boss_battle_progress@[i]
                        == old(self).boss_battle_progress@[i],
                forall|i: int|
                    old(self).boss_battle_progress@.len() <= i < self.boss_battle_progress@.len()
                        ==> fresh(#[trigger] self.boss_battle_progress@[i]),
            decreases index + 1 - self.boss_battle_progress.len(),
        {
            self.boss_battle_progress.push(BossProgress::default());
        }
        let ghost padded = self.boss_battle_progress@;
        let old_entry = self.boss_battle_progress[index];
        let rank = (difficulty.index() + 1) as u8;
        let clear_rank = if old_entry.clear_rank > rank {
            old_entry.clear_rank
        } else {
            rank
        };
        let slot = language_slot(language);
        let mut high_scores = old_entry.high_scores;
        let mut hell_high_scores = old_entry.hell_high_scores;
        if difficulty == GameDifficulty::Hell {
            let best = hell_high_scores[slot];
            if score > best {
                hell_high_scores = if slot == 0 {
                    [score, hell_high_scores[1]]
                } else {
                    [hell_high_scores[0], score]
                };
            }
        } else {
            let column = difficulty.index();
            let row = high_scores[slot];
            if score > row[column] {
                let new_row = if column == 0 {
                    [score, row[1], row[2]]
                } else if column == 1 {
                    [row[0], score, row[2]]
                } else {
                    [row[0], row[1], score]
                };
                high_scores = if slot == 0 {
                    [new_row, high_scores[1]]
                } else {
                    [high_scores[0], new_row]
                };
            }
        }
        let entry = BossProgress { clear_rank, high_scores, hell_high_scores };
        proof {
            let before = old(self).boss_battle_progress@;
            if index < before.len() {
                assert(padded[index as int] == before[index as int]);
            } else {
                assert(fresh(padded[index as int]));
            }
            assert(rank_at(before, index as int) == old_entry.clear_rank);
            assert forall|l: Language, d: GameDifficulty|
                best_score(before, boss, l, d) == score_in(old_entry, l, d) by {
                if index >= before.len() {
                    assert(fresh(old_entry));
                    let i = slot_of(l) as int;
                    if d == GameDifficulty::Hell {
                        assert(old_entry.hell_high_scores[i] == 0);
                    } else {
                        assert(old_entry.high_scores[i][difficulty_rank(d) as int] == 0);
                    }
                }
            }
            assert forall|l: Language, d: GameDifficulty|
                score_in(entry, l, d) == if l == language && d == difficulty && score > score_in(
                    old_entry,
                    l,
                    d,
                ) {
                    score
                } else {
                    score_in(old_entry, l, d)
                } by {
                if d == GameDifficulty::Hell {
                    assert(entry.hell_high_scores[0] == if difficulty == GameDifficulty::Hell
                        && slot == 0 && score > old_entry.hell_high_scores[0] {
                        score
                    } else {
                        old_entry.hell_high_scores[0]
                    });
                    assert(entry.hell_high_scores[1] == if difficulty == GameDifficulty::Hell
                        && slot == 1 && score > old_entry.hell_high_scores[1] {
                        score
                    } else {
                        old_entry.hell_high_scores[1]
                    });
                } else {
                    let i = slot_of(l) as int;
                    let j = difficulty_rank(d) as int;
                    assert(entry.high_scores[i][j] == if difficulty != GameDifficulty::Hell && i
                        == slot && j == difficulty_rank(difficulty) && score
                        > old_entry.high_scores[i][j] {
                        score
                    } else {
                        old_entry.high_scores[i][j]
                    });
                }
            }
        }
        self.boss_battle_progress.set(index, entry);
    }

    /// Word Rain's best score for a language and tier.
    pub fn word_rain_high_score(&self, language: Language, difficulty: GameDifficulty) -> (r: u64)
        ensures
            r == if difficulty == GameDifficulty::Hell {
                self.word_rain_hell_high_scores[slot_of(language) as int]
            } else {
                self.word_rain_high_scores[slot_of(language) as int][difficulty_rank(
                    difficulty,
                ) as int]
            },
    {
        let slot = language_slot(language);
        if difficulty == GameDifficulty::Hell {
            self.word_rain_hell_high_scores[slot]
        } else {
            self.word_rain_high_scores[slot][difficulty.index()]
        }
    }

    /// Sets Word Rain's best score for a language and tier; every other score stays.
    pub fn set_word_rain_high_score(
        &mut self,
        language: Language,
        difficulty: GameDifficulty,
        score: u64,
    )
        ensures
            final(self).boss_battle_progress == old(self).boss_battle_progress,
            forall|i: int|
                0 <= i < 2 ==> #[trigger] final(self).word_rain_hell_high_scores[i] == if difficulty
                    == GameDifficulty::Hell && i == slot_of(language) {
                    score
                } else {
                    old(self).word_rain_hell_high_scores[i]
                },
            forall|i: int, j: int|
                0 <= i < 2 && 0 <= j < 3 ==> #[trigger] final(self).word_rain_high_scores[i][j]
                    == if difficulty != GameDifficulty::Hell && i == slot_of(language) && j
                    == difficulty_rank(difficulty) {
                    score
                } else {
                    old(self).word_rain_high_scores[i][j]
                },
    {
        let slot = language_slot(language);
        if difficulty == GameDifficulty::Hell {
            let h = self.word_rain_hell_high_scores;
            self.word_rain_hell_high_scores = if slot == 0 {
                [score, h[1]]
            } else {
                [h[0], score]
            };
        } else {
            let column = difficulty.index();
            let t = self.word_rain_high_scores;
            let row = t[slot];
            let new_row = if column == 0 {
                [score, row[1], row[2]]
            } else if column == 1 {
                [row[0], score, row[2]]
            } else {
                [row[0], row[1], score]
            };
            self.word_rain_high_scores = if slot == 0 {
                [new_row, t[1]]
            } else {
                [t[0], new_row]
            };
        }
    }

    /// Checks that every boss record's clear rank is between 0 and 4.
    pub fn validate_boss_progress(&self) -> (r: Result<(), String>)
        ensures
            match r {
                Ok(()) => forall|i: int|
                    0 <= i < self.boss_battle_progress@.len()
                        ==> #[trigger] self.boss_battle_progress@[i].clear_rank <= 4,
                Err(m) => (exists|i: int|
                    0 <= i < self.boss_battle_progress@.len()
                        && #[trigger] self.boss_battle_progress@[i].clear_rank > 4) && m@
                    == "boss clear rank must be between 0 and 4"@,
            },
    {
        for i in 0..self.boss_battle_progress.len()
            invariant
                forall|k: int|
                    0 <= k < i ==> #[trigger] self.boss_battle_progress@[k].clear_rank <= 4,
        {
            if self.boss_battle_progress[i].clear_rank > 4 {
                return Err("boss clear rank must be between 0 and 4".to_owned());
            }
        }
        Ok(())
    }
}

/// The tiers below Hell that a boss has open, from Easy up.
pub open spec fn open_tiers(progress: Seq<BossProgress>, boss: BossKind) -> Seq<GameDifficulty> {
    (if tier_unlocked(progress, boss, GameDifficulty::Easy) {
        seq![GameDifficulty::Easy]
    } else {
        seq![]
    }) + (if tier_unlocked(progress, boss, GameDifficulty::Medium) {
        seq![GameDifficulty::Medium]
    } else {
        seq![]
    }) + (if tier_unlocked(progress, boss, GameDifficulty::Hard) {
        seq![GameDifficulty::Hard]
    } else {
        seq![]
    })
}

/// The position of a tier among a few tiers, or the first position when it is not there.
pub open spec fn tier_position(values: Seq<GameDifficulty>, d: GameDifficulty) -> int {
    if values.len() > 0 && values[0] == d {
        0
    } else if values.len() > 1 && values[1] == d {
        1
    } else if values.len() > 2 && values[2] == d {
        2
    } else {
        0
    }
}

/// The tier that moving from `d` by `delta` selects among a boss's open tiers below Hell,
/// wrapping around; Easy when none is open.
pub open spec fn cycled_tier(
    progress: Seq<BossProgress>,
    boss: BossKind,
    d: GameDifficulty,
    delta: int,
) -> GameDifficulty {
    let values = open_tiers(progress, boss);
    let n = values.len() as int;
    let pos = tier_position(values, d);
    if n == 0 {
        GameDifficulty::Easy
    } else if delta < 0 {
        values[(pos + n - 1) % n]
    } else {
        values[(pos + 1) % n]
    }
}

/// The tier kept when a boss is chosen: the chosen tier if it is open, else the highest open
/// tier below Hell, else Easy.
pub open spec fn clamped_tier(progress: Seq<BossProgress>, boss: BossKind, d: GameDifficulty) -> GameDifficulty {
    if tier_unlocked(progress, boss, d) {
        d
    } else if tier_unlocked(progress, boss, GameDifficulty::Hard) {
        GameDifficulty::Hard
    } else if tier_unlocked(progress, boss, GameDifficulty::Medium) {
        GameDifficulty::Medium
    } else {
        GameDifficulty::Easy
    }
}

impl GameRecords {
    /// Moves the chosen tier of a boss to the next (`delta >= 0`) or previous open tier below
    /// Hell, skipping locked ones and wrapping around.
    pub fn cycle_boss_difficulty(&self, boss: BossKind, difficulty: GameDifficulty, delta: isize) -> (r:
        GameDifficulty)
        ensures
            r == cycled_tier(self.boss_battle_progress@, boss, difficulty, delta as int),
    {
        let ghost p = self.boss_battle_progress@;
        let mut values: Vec<GameDifficulty> = Vec::new();
        if self.boss_difficulty_is_unlocked(boss, GameDifficulty::Easy) {
            values.push(GameDifficulty::Easy);
        }
        if self.boss_difficulty_is_unlocked(boss, GameDifficulty::Medium) {
            values.push(GameDifficulty::Medium);
        }
        if self.boss_difficulty_is_unlocked(boss, GameDifficulty::Hard) {
            values.push(GameDifficulty::Hard);
        }
        proof {
            assert(values@ =~= open_tiers(p, boss));
        }
        if values.len() == 0 {
            return GameDifficulty::Easy;
        }
        let index: usize = if values[0] == difficulty {
            0
        } else if values.len() > 1 && values[1] == difficulty {
            1
        } else if values.len() > 2 && values[2] == difficulty {
            2
        } else {
            0
        };
        let next = crate::app::cycle_index(index, values.len(), delta);
        values[next]
    }

    /// Keeps a boss's chosen tier if it is open; otherwise the highest open tier below Hell,
    /// or Easy.
    pub fn clamp_boss_difficulty(&self, boss: BossKind, difficulty: GameDifficulty) -> (r:
        GameDifficulty)
        ensures
            r == clamped_tier(self.boss_battle_progress@, boss, difficulty),
    {
        if self.boss_difficulty_is_unlocked(boss, difficulty) {
            difficulty
        } else if self.boss_difficulty_is_unlocked(boss, GameDifficulty::Hard) {
            GameDifficulty::Hard
        } else if self.boss_difficulty_is_unlocked(boss, GameDifficulty::Medium) {
            GameDifficulty::Medium
        } else {
            GameDifficulty::Easy
        }
    }
}

impl Default for GameRecords {
    fn default() -> (r: Self)
        ensures
            r.boss_battle_progress@.len() == BOSS_COUNT,
            forall|i: int| 0 <= i < BOSS_COUNT ==> fresh(#[trigger] r.boss_battle_progress@[i]),
    {
        GameRecords::new()
    }
}

/// The settings. The target accuracy, a floating-point percentage, is kept beside them by
/// the caller.
#[derive(Clone, Debug, PartialEq, Eq)]
pub struct Settings {
    pub schema_version: u16,
    pub language: Language,
    pub ui_language: Language,
    pub theme: String,
    pub show_keyboard: bool,
    pub show_finger_guide: bool,
    pub show_live_speed: bool,
    pub show_accuracy: bool,
    pub target_kpm: u32,
    pub target_wpm: u32,
    pub daily_minutes: u32,
    pub adaptive: bool,
    pub check_updates: bool,
    pub skipped_update_version: String,
    pub records: GameRecords,
}

impl Default for Settings {
    /// English practice and interface, the default theme, every aid shown, targets of 450
    /// keys and 80 words per minute, 15 minutes a day, adaptive practice and update checks on,
    /// and fresh game records.
    fn default() -> (r: Self)
        ensures
            r.schema_version == 1,
            r.language == Language::En,
            r.ui_language == Language::En,
            r.theme@ == "default"@,
            r.show_keyboard && r.show_finger_guide && r.show_live_speed && r.show_accuracy,
            r.target_kpm == 450,
            r.target_wpm == 80,
            r.daily_minutes == 15,
            r.adaptive && r.check_updates,
            r.skipped_update_version@.len() == 0,
            r.records.boss_battle_progress@.len() == BOSS_COUNT,
            forall|i: int| 0 <= i < BOSS_COUNT ==> fresh(#[trigger] r.records.boss_battle_progress@[i]),
            forall|i: int, j: int|
                0 <= i < 2 && 0 <= j < 3 ==> #[trigger] r.records.word_rain_high_scores[i][j] == 0,
            forall|i: int| 0 <= i < 2 ==> #[trigger] r.records.word_rain_hell_high_scores[i] == 0,
    {
        Settings {
            schema_version: 1,
            language: Language::En,
            ui_language: Language::En,
            theme: "default".to_owned(),
            show_keyboard: true,
            show_finger_guide: true,
            show_live_speed: true,
            show_accuracy: true,
            target_kpm: 450,
            target_wpm: 80,
            daily_minutes: 15,
            adaptive: true,
            check_updates: true,
            skipped_update_version: String::new(),
            records: GameRecords::new(),
        }
    }
}

/// Why settings are refused, if they are: the first of an unsupported schema version, a
/// blank theme, a speed target outside 1 to 5000, an accuracy target outside 1 to 100 (as
/// the caller found it), a daily goal outside 1 to 1440 minutes, and a boss clear rank above
/// 4.
pub open spec fn settings_refusal(s: Settings, accuracy_in_range: bool) -> Option<Seq<char>> {
    if s.schema_version != 1 {
        Some("unsupported config schema version "@ + crate::cli::decimal(s.schema_version as nat))
    } else if crate::text::is_blank(s.theme@) {
        Some("theme must not be empty"@)
    } else if !(1 <= s.target_kpm <= 5000) {
        Some("target_kpm must be between 1 and 5000"@)
    } else if !(1 <= s.target_wpm <= 5000) {
        Some("target_wpm must be between 1 and 5000"@)
    } else if !accuracy_in_range {
        Some("target_accuracy must be between 1 and 100"@)
    } else if !(1 <= s.daily_minutes <= 1440) {
        Some("daily_minutes must be between 1 and 1440"@)
    } else if exists|i: int|
        0 <= i < s.records.boss_battle_progress@.len()
            && #[trigger] s.records.boss_battle_progress@[i].clear_rank > 4 {
        Some("boss clear rank must be between 0 and 4"@)
    } else {
        None
    }
}

impl Settings {
    /// Checks the settings; `accuracy_in_range` says whether the target accuracy is finite
    /// and between 1 and 100. See [`settings_refusal`].
    pub fn validate(&self, accuracy_in_range: bool) -> (r: Result<(), String>)
        ensures
            match r {
                Ok(()) => settings_refusal(*self, accuracy_in_range) is None,
                Err(m) => settings_refusal(*self, accuracy_in_range) == Some(m@),
            },
    {
        if self.schema_version != 1 {
            let mut message = "unsupported config schema version ".to_owned();
            crate::cli::push_decimal(&mut message, self.schema_version as u64);
            return Err(message);
        }
        if crate::text::is_blank_str(self.theme.as_str()) {
            return Err("theme must not be empty".to_owned());
        }
        if self.target_kpm < 1 || self.target_kpm > 5000 {
            return Err("target_kpm must be between 1 and 5000".to_owned());
        }
        if self.target_wpm < 1 || self.target_wpm > 5000 {
            return Err("target_wpm must be between 1 and 5000".to_owned());
        }
        if !accuracy_in_range {
            return Err("target_accuracy must be between 1 and 100".to_owned());
        }
        if self.daily_minutes < 1 || self.daily_minutes > 1440 {
            return Err("daily_minutes must be between 1 and 1440".to_owned());
        }
        self.records.validate_boss_progress()
    }
}

} // verus!

//! The game modes' shared vocabulary: difficulty tiers, the games, the bosses and their
//! health.
use crate::content::{selects, ContentCatalog, ContentKind, ResolvedItem, ResolvedItemView};
use crate::model::{Difficulty, Language};
use crate::text::{display_width, nfc, normalize_nfc, str_width};
use vstd::prelude::*;

verus! {

/// The difficulty tiers of the games.
#[derive(Clone, Copy, Debug, PartialEq, Eq, Structural)]
pub enum GameDifficulty {
    Easy,
    Medium,
    Hard,
    Hell,
}

/// The position of a tier among Easy, Medium, Hard and Hell.
pub open spec fn difficulty_rank(d: GameDifficulty) -> nat {
    match d {
        GameDifficulty::Easy => 0,
        GameDifficulty::Medium => 1,
        GameDifficulty::Hard => 2,
        GameDifficulty::Hell => 3,
    }
}

impl GameDifficulty {
    /// The position of the tier, from 0 for Easy to 3 for Hell.
    pub fn index(self) -> (r: usize)
        ensures
            r == difficulty_rank(self),
    {
        match self {
            GameDifficulty::Easy => 0,
            GameDifficulty::Medium => 1,
            GameDifficulty::Hard => 2,
            GameDifficulty::Hell => 3,
        }
    }

    /// The content difficulty that a tier draws its words from; Hell uses the hard words.
    pub fn content_difficulty(self) -> (r: Difficulty)
        ensures
            r == match self {
                GameDifficulty::Easy => Difficulty::Easy,
                GameDifficulty::Medium => Difficulty::Medium,
                _ => Difficulty::Hard,
            },
    {
        match self {
            GameDifficulty::Easy => Difficulty::Easy,
            GameDifficulty::Medium => Difficulty::Medium,
            GameDifficulty::Hard | GameDifficulty::Hell => Difficulty::Hard,
        }
    }
}

/// The games.
#[derive(Clone, Copy, Debug, PartialEq, Eq, Structural)]
pub enum GameKind {
    WordRain,
    BossBattle,
}

/// The bosses, in the order in which they unlock.
#[derive(Clone, Copy, Debug, PartialEq, Eq, Structural)]
pub enum BossKind {
    IronWarden,
    ThornQueen,
    NullArchon,
}

/// The position of a boss in the order in which they unlock.
pub open spec fn boss_rank(b: BossKind) -> nat {
    match b {
        BossKind::IronWarden => 0,
        BossKind::ThornQueen => 1,
        BossKind::NullArchon => 2,
    }
}

/// The number of bosses.
pub const BOSS_COUNT: usize = 3;

impl BossKind {
    /// The position of the boss, from 0 for the Iron Warden to 2 for the Null Archon.
    pub fn index(self) -> (r: usize)
        ensures
            r == boss_rank(self),
    {
        match self {
            BossKind::IronWarden => 0,
            BossKind::ThornQueen => 1,
            BossKind::NullArchon => 2,
        }
    }
}

/// The boss at a position, from 0 for the Iron Warden to 2 for the Null Archon.
pub fn boss_at(index: usize) -> (r: BossKind)
    requires
        index < BOSS_COUNT,
    ensures
        boss_rank(r) == index,
{
    match index {
        0 => BossKind::IronWarden,
        1 => BossKind::ThornQueen,
        _ => BossKind::NullArchon,
    }
}

/// A boss's starting health for a language and tier. The Null Archon's differs by language.
pub open spec fn boss_health(boss: BossKind, language: Language, d: GameDifficulty) -> u64 {
    match boss {
        BossKind::IronWarden => match d {
            GameDifficulty::Easy => 280,
            GameDifficulty::Medium => 480,
            GameDifficulty::Hard => 720,
            GameDifficulty::Hell => 975,
        },
        BossKind::ThornQueen => match d {
            GameDifficulty::Easy => 180,
            GameDifficulty::Medium => 320,
            GameDifficulty::Hard => 500,
            GameDifficulty::Hell => 653,
        },
        BossKind::NullArchon => match language {
            Language::Ko => match d {
                GameDifficulty::Easy => 310,
                GameDifficulty::Medium => 500,
                GameDifficulty::Hard => 850,
                GameDifficulty::Hell => 1_090,
            },
            Language::En => match d {
                GameDifficulty::Easy => 303,
                GameDifficulty::Medium => 500,
                GameDifficulty::Hard => 895,
                GameDifficulty::Hell => 1_220,
            },
        },
    }
}

/// The Null Archon's starting health for a language and tier.
pub fn archon_health(language: Language, difficulty: GameDifficulty) -> (r: u64)
    ensures
        r == boss_health(BossKind::NullArchon, language, difficulty),
{
    let ko: [u64; 4] = [310, 500, 850, 1_090];
    let en: [u64; 4] = [303, 500, 895, 1_220];
    let slot = difficulty.index();
    match language {
        Language::Ko => ko[slot],
        Language::En => en[slot],
    }
}

/// A boss's starting health for a language and tier.
pub fn max_health(boss: BossKind, language: Language, difficulty: GameDifficulty) -> (r: u64)
    ensures
        r == boss_health(boss, language, difficulty),
{
    let warden: [u64; 4] = [280, 480, 720, 975];
    let queen: [u64; 4] = [180, 320, 500, 653];
    let slot = difficulty.index();
    match boss {
        BossKind::IronWarden => warden[slot],
        BossKind::ThornQueen => queen[slot],
        BossKind::NullArchon => archon_health(language, difficulty),
    }
}

/// A word that a game can show: the NFC form of a text, when its display width is 1 to 24
/// columns.
pub open spec fn playable(text: Seq<char>) -> Option<Seq<char>> {
    let word = nfc(text);
    if 1 <= display_width(word) && display_width(word) <= 24 {
        Some(word)
    } else {
        None
    }
}

/// The NFC form of a text, if a game can show it (1 to 24 columns wide).
pub fn playable_word(text: &str) -> (r: Option<String>)
    ensures
        match r {
            Some(w) => playable(text@) == Some(w@),
            None => playable(text@) is None,
        },
{
    let word = normalize_nfc(text);
    let width = str_width(word.as_str());
    if 1 <= width && width <= 24 {
        Some(word)
    } else {
        None
    }
}

/// The content difficulty that a tier draws its words from.
pub open spec fn tier_content(d: GameDifficulty) -> Difficulty {
    match d {
        GameDifficulty::Easy => Difficulty::Easy,
        GameDifficulty::Medium => Difficulty::Medium,
        _ => Difficulty::Hard,
    }
}

/// The distinct playable words of the first `n` items, in order: each item's word (see
/// [`playable`]) unless it cannot be played or an earlier item gave the same word.
pub open spec fn playable_words(items: Seq<ResolvedItemView>, n: nat) -> Seq<Seq<char>>
    decreases n,
{
    if n == 0 {
        seq![]
    } else {
        let before = playable_words(items, (n - 1) as nat);
        match playable(items[n - 1].text) {
            Some(w) => if before.contains(w) {
                before
            } else {
                before.push(w)
            },
            None => before,
        }
    }
}

/// A game's word list never holds the same word twice.
pub proof fn lemma_game_words_distinct(items: Seq<ResolvedItemView>, n: nat)
    requires
        n <= items.len(),
    ensures
        playable_words(items, n).no_duplicates(),
    decreases n,
{
    if n > 0 {
        lemma_game_words_distinct(items, (n - 1) as nat);
        let before = playable_words(items, (n - 1) as nat);
        let after = playable_words(items, n);
        if let Some(w) = playable(items[n - 1].text) {
            if !before.contains(w) {
                assert forall|i: int, j: int| 0 <= i < after.len() && 0 <= j < after.len() && i
                    != j implies after[i] != after[j] by {
                    if i < before.len() && j < before.len() {
                    } else if i == before.len() {
                        assert(after[j] == before[j]);
                    } else {
                        assert(after[i] == before[i]);
                    }
                }
            }
        }
    }
}

/// Whether a list of words holds a word.
fn has_word(words: &Vec<String>, word: &str) -> (r: bool)
    ensures
        r == crate::text::string_views(words@).contains(word@),
{
    let ghost views = crate::text::string_views(words@);
    for i in 0..words.len()
        invariant
            views == crate::text::string_views(words@),
            forall|k: int| 0 <= k < i ==> views[k] != word@,
    {
        if crate::text::str_eq(words[i].as_str(), word) {
            assert(views[i as int] == word@);
            return true;
        }
    }
    false
}

/// The words a game draws from: the distinct playable forms of the catalog's words in a
/// language at the tier's content difficulty, in catalog order.
pub fn game_words(catalog: &ContentCatalog, language: Language, difficulty: GameDifficulty) -> (r:
    Vec<String>)
    ensures
        ({
            let items = catalog@.items.filter(
                |x: ResolvedItemView| selects(x, language, ContentKind::Word, tier_content(difficulty)),
            );
            crate::text::string_views(r@) == playable_words(items, items.len())
        }),
{
    let items = catalog.select(language, ContentKind::Word, difficulty.content_difficulty());
    let ghost views = items@.map_values(|x: &ResolvedItem| x@);
    let mut words: Vec<String> = Vec::new();
    for i in 0..items.len()
        invariant
            views == items@.map_values(|x: &ResolvedItem| x@),
            crate::text::string_views(words@) == playable_words(views, i as nat),
    {
        assert(views[i as int] == items@[i as int]@);
        match playable_word(items[i].text.as_str()) {
            Some(word) => {
                if !has_word(&words, word.as_str()) {
                    let ghost before = words@;
                    words.push(word);
                    assert(crate::text::string_views(words@) =~= crate::text::string_views(before).push(
                        words@.last()@,
                    ));
                }
            },
            None => {},
        }
    }
    words
}

} // verus!

//! The small vocabulary shared by every part of the library.
use vstd::prelude::*;

verus! {

/// The language of a practice session, a content pack or the interface.
#[derive(Clone, Copy, Debug, PartialEq, Eq, Hash, Structural)]
pub enum Language {
    Ko,
    En,
}

impl Default for Language {
    fn default() -> (r: Self)
        ensures
            r == Language::En,
    {
        Language::En
    }
}

/// How hard the practice content should be.
#[derive(Clone, Copy, Debug, PartialEq, Eq, Structural)]
pub enum Difficulty {
    Easy,
    Medium,
    Hard,
    Mixed,
}

impl Default for Difficulty {
    fn default() -> (r: Self)
        ensures
            r == Difficulty::Mixed,
    {
        Difficulty::Mixed
    }
}

/// The practice modes.
#[derive(Clone, Copy, Debug, PartialEq, Eq, Hash, Structural)]
pub enum PracticeKind {
    Quick,
    Key,
    Words,
    Sentence,
    Long,
    Test,
}

/// The unit in which typing speed is shown.
#[derive(Clone, Copy, Debug, PartialEq, Eq, Structural)]
pub enum SpeedUnit {
    Kpm,
    Cpm,
    Wpm,
}

} // verus!

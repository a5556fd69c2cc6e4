//! Where the application keeps its files.
use std::path::PathBuf;
use vstd::prelude::*;

verus! {

/// `std::path::PathBuf`, carried through the library as an opaque value.
#[verifier::external_type_specification]
#[verifier::external_body]
pub struct ExPathBuf(std::path::PathBuf);

/// `Clone::clone` of `PathBuf`. Claimed: the copy is the same path.
pub assume_specification[ <std::path::PathBuf as std::clone::Clone>::clone ](p: &PathBuf) -> (r:
    PathBuf)
    ensures
        r == *p,
;

/// The path that `PathBuf::join` builds from a base path and a relative part.
pub uninterp spec fn path_join(base: PathBuf, part: Seq<char>) -> PathBuf;

/// Calls `Path::join`. Claimed: the result is a function of the base path and the part alone.
#[verifier::external_body]
pub(crate) fn join(base: &PathBuf, part: &str) -> (r: PathBuf)
    ensures
        r == path_join(*base, part@),
{
    base.join(part)
}

/// The locations of the configuration, the sessions, the user content, the themes and the
/// update cache.
#[derive(Clone, Debug, PartialEq, Eq)]
pub struct AppPaths {
    pub config: PathBuf,
    pub sessions: PathBuf,
    pub content: PathBuf,
    pub themes: PathBuf,
    pub update_cache: PathBuf,
}

impl AppPaths {
    /// The layout under one root directory (the `TYPERLUDE_HOME` override).
    pub fn from_override(root: PathBuf) -> (r: Self)
        ensures
            r.config == path_join(root, "config.toml"@),
            r.sessions == path_join(root, "sessions"@),
            r.content == path_join(root, "content"@),
            r.themes == path_join(root, "themes"@),
            r.update_cache == path_join(root, "cache/update.json"@),
    {
        AppPaths {
            config: join(&root, "config.toml"),
            sessions: join(&root, "sessions"),
            content: join(&root, "content"),
            themes: join(&root, "themes"),
            update_cache: join(&root, "cache/update.json"),
        }
    }
}

/// A file that could not be loaded, and why.
#[derive(Clone, Debug, PartialEq, Eq)]
pub struct LoadWarning {
    pub path: PathBuf,
    pub message: String,
}

/// The values that loaded and the warnings about those that did not.
#[derive(Clone, Debug, PartialEq, Eq)]
pub struct LoadResult<T> {
    pub values: Vec<T>,
    pub warnings: Vec<LoadWarning>,
}

} // verus!

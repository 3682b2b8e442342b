//! File system paths, which the library only carries and joins.
use vstd::prelude::*;

use std::path::{Path, PathBuf};

verus! {

#[verifier::external_type_specification]
#[verifier::external_body]
pub struct ExPath(Path);

#[verifier::external_type_specification]
#[verifier::external_body]
pub struct ExPathBuf(PathBuf);

/// The path that `std::path::Path::join` makes of `base` and `dest`: `dest`
/// adjoined to `base`, or `dest` alone when it is absolute, by the platform's
/// rules for separators.
pub uninterp spec fn joined_path(base: &Path, dest: Seq<char>) -> PathBuf;

/// `std::path::Path::join`: `dest` adjoined to `base_dir`. Claimed: the
/// result is a function of the two arguments alone, named `joined_path`; how
/// the two are adjoined is left to that name.
#[verifier::external_body]
pub(crate) fn join_path(base_dir: &Path, dest: &str) -> (res: PathBuf)
    ensures
        res == joined_path(base_dir, dest@),
{
    base_dir.join(dest)
}

/// The text that `std::path::Path::display` shows of `path`: its parts as
/// UTF-8, with what is not valid UTF-8 replaced.
pub uninterp spec fn displayed_path(path: &PathBuf) -> Seq<char>;

/// `std::path::Path::display`, as a `String`. Claimed: the text is a
/// function of the path alone, named `displayed_path`.
#[verifier::external_body]
pub(crate) fn display_path(path: &PathBuf) -> (res: String)
    ensures
        res@ == displayed_path(path),
{
    path.display().to_string()
}

} // verus!

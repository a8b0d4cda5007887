//! The calls into std's `Path` that the output plan makes: joining, the
//! parent, the ancestors, and the text of a path. What each gives is
//! named, not stated.

use std::path::PathBuf;
use vstd::prelude::*;

verus! {

/// What `Path::join` gives for a base and a relative path.
pub uninterp spec fn path_joined(base: PathBuf, rel: Seq<char>) -> PathBuf;

/// What `Path::parent` gives for a path.
pub uninterp spec fn parent_of(path: PathBuf) -> Option<PathBuf>;

/// What `Path::ancestors` yields for a path, the path itself first.
pub uninterp spec fn ancestors_of(path: PathBuf) -> Seq<PathBuf>;

/// What `Path::to_string_lossy` gives for a path.
pub uninterp spec fn lossy_text(path: PathBuf) -> Seq<char>;

/// `base` joined with `rel` (std's `Path::join`); the result is named, not
/// stated.
#[verifier::external_body]
pub fn join(base: &PathBuf, rel: &str) -> (r: PathBuf)
    ensures
        r == path_joined(*base, rel@),
{
    base.join(rel)
}

/// The parent of `path` (std's `Path::parent`); the result is named, not
/// stated.
#[verifier::external_body]
pub fn parent(path: &PathBuf) -> (r: Option<PathBuf>)
    ensures
        r == parent_of(*path),
{
    path.parent().map(|p| p.to_path_buf())
}

/// The ancestors of `path`, itself first (std's `Path::ancestors`); the
/// result is named, not stated.
#[verifier::external_body]
pub fn ancestors(path: &PathBuf) -> (r: Vec<PathBuf>)
    ensures
        r@ == ancestors_of(*path),
{
    path.ancestors().map(|p| p.to_path_buf()).collect()
}

/// The text of `path`, invalid Unicode replaced (std's
/// `Path::to_string_lossy`); the result is named, not stated.
#[verifier::external_body]
pub fn text(path: &PathBuf) -> (r: String)
    ensures
        r@ == lossy_text(*path),
{
    path.to_string_lossy().into_owned()
}

} // verus!

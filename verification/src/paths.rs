use vstd::prelude::*;
use std::path::{Path, PathBuf};

verus! {

/// A text that may be absent, by its characters.
pub open spec fn opt_chars(s: Option<&str>) -> Option<Seq<char>> {
    match s {
        Some(t) => Some(t@),
        None => None,
    }
}

/// What `std::path::Path::file_name` gives for the path with this text: its
/// final component, or nothing when the path ends in a root, `..`, or is empty.
pub uninterp spec fn path_file_name(path: Seq<char>) -> Option<Seq<char>>;

/// What `std::path::Path::parent` gives for the path with this text: the path
/// without its final component, or nothing when the path ends in a root or is
/// empty.
pub uninterp spec fn path_parent(path: Seq<char>) -> Option<Seq<char>>;

/// What `std::path::Path::join` gives for a base path and a further component.
pub uninterp spec fn path_joined(base: Seq<char>, name: Seq<char>) -> Seq<char>;

/// What the path with this text is made of, written back as text: its
/// components one after the other, the form by which `std::path::Path`
/// compares and hashes paths (repeated separators, a trailing separator and
/// inner `.` components drop out).
pub uninterp spec fn path_normal(path: Seq<char>) -> Seq<char>;

/// Calls `std::path::Path::components` on the path with the text `path` and
/// collects the components into a path again. The contract names the result.
#[verifier::external_body]
pub(crate) fn normalize(path: &str) -> (r: String)
    ensures
        r@ == path_normal(path@),
{
    Path::new(path).components().collect::<PathBuf>().to_string_lossy().into_owned()
}

/// Calls `std::path::Path::file_name` on the path with the text `path`. The
/// contract names the result; the component is a piece of a `str`, so it is
/// always valid text.
#[verifier::external_body]
pub(crate) fn file_name(path: &str) -> (r: Option<&str>)
    ensures
        opt_chars(r) == path_file_name(path@),
{
    match Path::new(path).file_name() {
        Some(n) => n.to_str(),
        None => None,
    }
}

/// Calls `std::path::Path::parent` on the path with the text `path`. The
/// contract names the result, and states what the documentation gives of it:
/// the parent is the path with its final component taken off, so it is
/// strictly shorter.
#[verifier::external_body]
pub(crate) fn parent(path: &str) -> (r: Option<&str>)
    ensures
        opt_chars(r) == path_parent(path@),
        r matches Some(p) ==> p@.len() < path@.len(),
{
    match Path::new(path).parent() {
        Some(p) => p.to_str(),
        None => None,
    }
}

/// Calls `std::path::Path::join` on the path `base` and the component `name`.
/// The contract names the result, and states what the documentation of
/// `PathBuf::push` gives of its length: `name` replaces `base` when it is
/// absolute, and is otherwise appended after at most one separator.
#[verifier::external_body]
pub(crate) fn join(base: &str, name: &str) -> (r: String)
    ensures
        r@ == path_joined(base@, name@),
        r@.len() <= base@.len() + name@.len() + 1,
{
    Path::new(base).join(name).to_string_lossy().into_owned()
}

}

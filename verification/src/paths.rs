//! File-system paths as strings, with the path arithmetic of `std::path`.
use vstd::prelude::*;

verus! {

/// A path of one normal component: not empty, not `.` or `..`, and without
/// `/`, `\\` or `:` (so no separator or prefix on any platform).
pub open spec fn is_plain_name(p: Seq<char>) -> bool {
    &&& p.len() > 0
    &&& p != seq!['.']
    &&& p != seq!['.', '.']
    &&& forall|i: int| 0 <= i < p.len() ==> #[trigger] p[i] != '/' && p[i] != '\\' && p[i] != ':'
}

/// What `Path::file_name` gives for the path `p`: its last normal component,
/// or `None` when the path ends in `..`, is a root, or is empty.
pub uninterp spec fn file_name_of(p: Seq<char>) -> Option<Seq<char>>;

/// The last component of `path` (std's `Path::file_name`). The result is
/// `file_name_of` of the path; a path of one normal component is its own
/// file name (as std documents for `"foo.txt"`); for other paths, which
/// component that is, is not stated here.
#[verifier::external_body]
pub(crate) fn path_file_name(path: &str) -> (r: Option<String>)
    ensures
        match r {
            Some(n) => file_name_of(path@) == Some(n@),
            None => file_name_of(path@) is None,
        },
        is_plain_name(path@) ==> r is Some && r.unwrap()@ == path@,
{
    std::path::Path::new(path).file_name().map(|n| n.to_string_lossy().into_owned())
}


/// What `Path::parent` gives for the path `p`: the path without its last
/// component, or `None` for a root or the empty path.
pub uninterp spec fn parent_of(p: Seq<char>) -> Option<Seq<char>>;

/// The parent of `path` (std's `Path::parent`). The result is `parent_of`
/// of the path; a path of one normal component has the empty path as its
/// parent (as std documents for `"foo"`); for other paths, what the parent
/// is, is not stated here.
#[verifier::external_body]
pub(crate) fn path_parent(path: &str) -> (r: Option<String>)
    ensures
        match r {
            Some(q) => parent_of(path@) == Some(q@),
            None => parent_of(path@) is None,
        },
        is_plain_name(path@) ==> r is Some && r.unwrap()@.len() == 0,
{
    std::path::Path::new(path).parent().map(|q| q.to_string_lossy().into_owned())
}

/// What `Path::join` gives for `base` and `name`.
pub uninterp spec fn joined(base: Seq<char>, name: Seq<char>) -> Seq<char>;

/// `name` appended to `base` as a further component (std's `Path::join`).
/// The result is `joined` of the two; joining one normal component to the
/// empty path gives that component (no separator is needed after an empty
/// path); how the separator is placed otherwise, which differs between
/// platforms, is not stated here.
#[verifier::external_body]
pub(crate) fn path_join(base: &str, name: &str) -> (r: String)
    ensures
        r@ == joined(base@, name@),
        base@.len() == 0 && is_plain_name(name@) ==> r@ == name@,
{
    std::path::Path::new(base).join(name).to_string_lossy().into_owned()
}

/// Whether `Path`'s `==` holds between `a` and `b` (paths are compared by
/// their components).
pub uninterp spec fn same_path(a: Seq<char>, b: Seq<char>) -> bool;

/// `==` on the paths `a` and `b` (std's `PartialEq` for `Path`). The result
/// is `same_path` of the two; which paths compare equal is not stated here.
#[verifier::external_body]
pub(crate) fn paths_equal(a: &str, b: &str) -> (r: bool)
    ensures
        r == same_path(a@, b@),
{
    std::path::Path::new(a) == std::path::Path::new(b)
}

} // verus!

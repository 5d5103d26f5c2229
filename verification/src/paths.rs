//! The parts of a path that the library reads: its parent, its final
//! component and that component's extension, as `std::path::Path` gives them.
use vstd::prelude::*;

verus! {

/// What `Path::parent` returns for a path, as text.
pub uninterp spec fn parent_of(p: Seq<char>) -> Option<Seq<char>>;

/// What `Path::file_name` returns for a path, as text.
pub uninterp spec fn file_name_of(p: Seq<char>) -> Option<Seq<char>>;

/// What `Path::extension` returns for a path, as text.
pub uninterp spec fn extension_of(p: Seq<char>) -> Option<Seq<char>>;

/// What `Path::components` yields for a path, each component as text.
pub uninterp spec fn components_of(p: Seq<char>) -> Seq<Seq<char>>;

/// The texts of a list of strings.
pub open spec fn texts(v: Seq<String>) -> Seq<Seq<char>> {
    v.map_values(|s: String| s@)
}

/// Calls `Path::components` and turns each component into its text; the
/// result is named by `components_of`. `std::path::Path` compares paths
/// by these components, so `d/` and `d` are one path: parsing drops
/// repeated separators, a trailing separator and inner `.` components.
/// Components of a text path are text, so they convert unchanged, and
/// each kind of component has its own text (`/`, `.`, `..` or a name).
#[verifier::external_body]
pub(crate) fn path_components(p: &str) -> (r: Vec<String>)
    ensures
        texts(r@) == components_of(p@),
{
    std::path::Path::new(p).components().map(|c| c.as_os_str().to_string_lossy().into_owned()).collect()
}

/// Calls `Path::parent`. Its result is named by `parent_of`. The one fact
/// stated of it: a parent is "the path without its final component" (its
/// source takes the last component off `components()` and returns what
/// remains), so where there is one, the path has a component and the
/// parent's components are the path's without the last. A parent of a
/// text path is a prefix cut at a separator, so it converts back to text
/// unchanged.
#[verifier::external_body]
pub(crate) fn path_parent(p: &str) -> (r: Option<String>)
    ensures
        r matches Some(q) ==> parent_of(p@) == Some(q@) && components_of(p@).len() > 0
            && components_of(q@) == components_of(p@).drop_last(),
        r is None ==> parent_of(p@) is None,
{
    match std::path::Path::new(p).parent() {
        Some(q) => Some(q.to_string_lossy().into_owned()),
        None => None,
    }
}

/// Calls `Path::file_name`; the result is named by `file_name_of`. A final
/// component of a text path is itself text, so it converts unchanged.
#[verifier::external_body]
pub(crate) fn path_file_name(p: &str) -> (r: Option<String>)
    ensures
        r matches Some(q) ==> file_name_of(p@) == Some(q@),
        r is None ==> file_name_of(p@) is None,
{
    match std::path::Path::new(p).file_name() {
        Some(q) => Some(q.to_string_lossy().into_owned()),
        None => None,
    }
}

/// Calls `Path::extension`; the result is named by `extension_of`.
#[verifier::external_body]
pub(crate) fn path_extension(p: &str) -> (r: Option<String>)
    ensures
        r matches Some(q) ==> extension_of(p@) == Some(q@),
        r is None ==> extension_of(p@) is None,
{
    match std::path::Path::new(p).extension() {
        Some(q) => Some(q.to_string_lossy().into_owned()),
        None => None,
    }
}

/// The name under which an entry is shown: its final component, or the
/// whole path where it has none.
pub open spec fn display_name(p: Seq<char>) -> Seq<char> {
    match file_name_of(p) {
        Some(n) => n,
        None => p,
    }
}

/// The name under which an entry is shown.
pub fn entry_name(p: &str) -> (r: String)
    ensures
        r@ == display_name(p@),
{
    match path_file_name(p) {
        Some(n) => n,
        None => p.to_owned(),
    }
}

} // verus!

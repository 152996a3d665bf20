//! File-system paths, handled by `std::path` as text.
//!
//! How a path is joined or split depends on the platform's separators and
//! prefixes. The wrappers state what holds on Unix and on Windows alike, for
//! inputs that both read the same way: names without separators, drive
//! colons or `?`, and paths that use `/` alone.
use vstd::prelude::*;

use std::path::Path;

verus! {

/// A name that Unix and Windows both read as one relative component: no
/// `/`, `\`, `:` (a drive prefix) or `?` (a verbatim prefix).
pub open spec fn plain_name(name: Seq<char>) -> bool {
    forall|i: int|
        0 <= i < name.len() ==> name[i] != '/' && name[i] != '\\' && name[i] != ':' && name[i]
            != '?'
}

/// A relative path that Unix and Windows both read without a root or a
/// prefix: it does not start with `/` or `\`, and has no `:` (a drive
/// prefix) or `?` (a verbatim prefix). Its inner separators are kept.
pub open spec fn relative_name(name: Seq<char>) -> bool {
    &&& name.len() > 0 ==> name[0] != '/' && name[0] != '\\'
    &&& forall|i: int| 0 <= i < name.len() ==> name[i] != ':' && name[i] != '?'
}

/// A base path without `?`, so never a Windows verbatim path (whose joins
/// are normalised).
pub open spec fn plain_base(base: Seq<char>) -> bool {
    forall|i: int| 0 <= i < base.len() ==> base[i] != '?'
}

/// `r` is `name` adjoined to `base`: directly, or after a `/` or `\`
/// separator.
pub open spec fn is_adjoined(base: Seq<char>, name: Seq<char>, r: Seq<char>) -> bool {
    ||| r == base + name
    ||| r == base + seq!['/'] + name
    ||| r == base + seq!['\\'] + name
}

/// A path that separates its components with single `/` alone and has no
/// `\`, `:` or `?`, so that Unix and Windows split it alike.
pub open spec fn plain_path(path: Seq<char>) -> bool {
    &&& forall|i: int|
        0 <= i < path.len() ==> path[i] != '\\' && path[i] != ':' && path[i] != '?'
    &&& forall|i: int| 0 <= i < path.len() - 1 ==> !(path[i] == '/' && #[trigger] path[i + 1] == '/')
}

/// The last `/` of `path` stands at `k`, with a parent before it that does
/// not end in a `.` component and a final name after it that is not `.`.
pub open spec fn parent_split(path: Seq<char>, k: int) -> bool {
    &&& 0 < k < path.len() - 1
    &&& path[k] == '/'
    &&& forall|j: int| k < j < path.len() ==> path[j] != '/'
    &&& !(path.len() == k + 2 && path[k + 1] == '.')
    &&& path[k - 1] != '/'
    &&& !(path[k - 1] == '.' && (k == 1 || path[k - 2] == '/'))
}

/// One relative component and nothing else: not empty, no separator or
/// prefix character, and neither `.` nor `..`.
pub open spec fn single_name(path: Seq<char>) -> bool {
    &&& path.len() > 0
    &&& plain_name(path)
    &&& !(path.len() == 1 && path[0] == '.')
    &&& !(path.len() == 2 && path[0] == '.' && path[1] == '.')
}

/// A Windows path separator.
pub open spec fn win_sep(c: char) -> bool {
    c == '/' || c == '\\'
}

/// An absolute Windows path on a drive: an upper-case drive letter, `:`, a
/// separator, then components separated by single separators (`\` or
/// `/`), none of them `.`, without `:` or `?` and without a trailing
/// separator (unless the path is the drive's root). Windows splits it at
/// its separators; Unix reads it as a relative path.
pub open spec fn win_path(path: Seq<char>) -> bool {
    &&& path.len() >= 3
    &&& 'A' <= path[0] <= 'Z'
    &&& path[1] == ':'
    &&& win_sep(path[2])
    &&& forall|i: int| 3 <= i < path.len() ==> #[trigger] path[i] != ':' && path[i] != '?'
    &&& forall|i: int| 3 <= i < path.len() ==> !(win_sep(path[i - 1]) && win_sep(#[trigger] path[i]))
    &&& forall|i: int|
        3 <= i < path.len() ==> !(win_sep(path[i - 1]) && #[trigger] path[i] == '.' && (i + 1
            == path.len() || win_sep(path[i + 1])))
    &&& path.len() > 3 ==> !win_sep(path.last())
}

/// A Windows drive path written with `\` alone, so that Unix reads it as
/// one relative component.
pub open spec fn win_backslash_path(path: Seq<char>) -> bool {
    &&& win_path(path)
    &&& forall|i: int| 0 <= i < path.len() ==> #[trigger] path[i] != '/'
}

/// The last separator of a Windows drive path stands at `k`.
pub open spec fn win_split(path: Seq<char>, k: int) -> bool {
    &&& 2 <= k < path.len() - 1
    &&& win_sep(path[k])
    &&& forall|j: int| k < j < path.len() ==> !win_sep(#[trigger] path[j])
}

/// The parent that Windows gives a drive path whose last separator stands
/// at `k`: the text before it, or the drive's root.
pub open spec fn win_parent(path: Seq<char>, k: int) -> Seq<char> {
    if k == 2 {
        path.take(3)
    } else {
        path.take(k)
    }
}

/// A plain base stays plain when a relative name is adjoined to it.
pub proof fn lemma_adjoined_plain(base: Seq<char>, name: Seq<char>, r: Seq<char>)
    requires
        plain_base(base),
        relative_name(name),
        is_adjoined(base, name, r),
    ensures
        plain_base(r),
{
    assert forall|i: int| 0 <= i < r.len() implies r[i] != '?' by {
        if i < base.len() {
            assert(r[i] == base[i]);
        } else if r == base + name {
            assert(r[i] == name[i - base.len()]);
        } else if i == base.len() {
        } else {
            assert(r[i] == name[i - base.len() - 1]);
        }
    }
}

/// `std::path::Path::join`, shown with `Path::display`. The documentation
/// says that a relative path is adjoined to `base` (one that has a root or
/// a prefix replaces it) and that a Windows verbatim base is normalised. So
/// for a base without `?` and a relative name without root or prefix (see
/// `relative_name`), the text is `base`, perhaps a separator, then `name`. Which separator, and when
/// none, the platform decides; of other inputs nothing is stated.
#[verifier::external_body]
pub fn path_join(base: &str, name: &str) -> (r: String)
    ensures
        plain_base(base@) && relative_name(name@) ==> is_adjoined(base@, name@, r@),
{
    Path::new(base).join(name).display().to_string()
}

/// `std::path::Path::parent`, shown with `Path::display`: `path` without
/// its final component. The documentation says it is none for the empty
/// path and the empty path for a relative path of one component. For a
/// plain `/`-separated path whose last `/` stands at `k` (see
/// `parent_split`), the parent is the text before `k`. For a Windows drive
/// path written with `\` (see `win_backslash_path`) Windows gives the text
/// before its last separator, or the drive's root, and none for the root
/// itself; Unix reads such a path as one relative component and gives the
/// empty path; the result is one of the two. Of other inputs nothing is
/// stated.
#[verifier::external_body]
pub fn path_parent(path: &str) -> (r: Option<String>)
    ensures
        path@.len() == 0 ==> r is None,
        single_name(path@) ==> r is Some && r.unwrap()@.len() == 0,
        forall|k: int|
            plain_path(path@) && #[trigger] parent_split(path@, k) ==> r is Some && r.unwrap()@
                == path@.take(k),
        forall|k: int|
            win_backslash_path(path@) && #[trigger] win_split(path@, k) ==> r is Some && (r.unwrap()@
                == win_parent(path@, k) || r.unwrap()@.len() == 0),
        win_backslash_path(path@) && path@.len() == 3 ==> r is None || r.unwrap()@.len() == 0,
{
    match Path::new(path).parent() {
        Some(p) => Some(p.display().to_string()),
        None => None,
    }
}

} // verus!

//! The installed Codex, its versioned Chinese copy and what the patch
//! reports back.
use vstd::prelude::*;
use vstd::string::{StrSliceExecFns, StringSliceAdditionalSpecFns};
use vstd::utf8::encode_utf8;

use crate::digest::{sha256, sha256_digest};
use crate::error::{error_with, install_error, EngineError};
use crate::paths::{
    is_adjoined, lemma_adjoined_plain, parent_split, path_join, path_parent, plain_base, plain_name,
    plain_path, single_name, win_backslash_path, win_parent, win_path, win_sep, win_split,
};
use crate::text::{
    ascii_lower, ascii_lowercase, chars_of, encode_hex, hex_digit, hex_text, lower, push_char, str_eq,
};

verus! {

/// Version of the marker written into a Chinese copy; a copy with another
/// version is not reused.
pub const PATCH_SCHEMA_VERSION: u32 = 2;

/// A detected Windows Codex installation.
#[derive(Debug)]
pub struct InstalledWindowsCodex {
    pub path: String,
    pub version: String,
    pub arch: Option<String>,
    /// `msix` for a registered package, `portable` otherwise.
    pub source: String,
    pub package_family_name: Option<String>,
    pub installed_at: Option<u64>,
}

/// What patching reports back to the manager.
#[derive(Debug)]
pub struct ChinesePatchReport {
    /// `patched` or `already-patched`.
    pub status: String,
    pub message: String,
    pub app_asar_path: String,
    pub backup_path: Option<String>,
    pub restart_required: bool,
}

/// The record written into a Chinese copy: which application it was copied
/// from, at which version.
#[derive(Debug)]
pub struct PatchedCopyMarker {
    pub patch_schema: u32,
    pub source_app: String,
    pub source_version: String,
}

/// The text of an optional string.
pub open spec fn opt_text(t: Option<String>) -> Option<Seq<char>> {
    match t {
        Some(s) => Some(s@),
        None => None,
    }
}

fn clone_opt(t: &Option<String>) -> (r: Option<String>)
    ensures
        opt_text(r) == opt_text(*t),
{
    match t {
        Some(s) => Some(s.clone()),
        None => None,
    }
}

pub open spec fn slash_to_backslash(c: char) -> char {
    if c == '/' {
        '\\'
    } else {
        c
    }
}

/// `text` without its trailing backslashes.
pub open spec fn trim_end_backslashes(text: Seq<char>) -> Seq<char>
    decreases text.len(),
{
    if text.len() > 0 && text.last() == '\\' {
        trim_end_backslashes(text.drop_last())
    } else {
        text
    }
}

/// The key by which two spellings of a Windows path are compared: forward
/// slashes as backslashes, without trailing backslashes, ASCII lower case.
pub open spec fn path_key(path: Seq<char>) -> Seq<char> {
    ascii_lowercase(trim_end_backslashes(path.map_values(|c: char| slash_to_backslash(c))))
}

/// The comparison key of a path (see `path_key`).
pub fn normalized_path_key(path: &str) -> (r: String)
    ensures
        r@ == path_key(path@),
{
    let chars = chars_of(path);
    let ghost mapped = path@.map_values(|c: char| slash_to_backslash(c));
    let mut end: usize = chars.len();
    proof {
        assert(mapped.take(end as int) =~= mapped);
    }
    while end > 0 && (chars[end - 1] == '/' || chars[end - 1] == '\\')
        invariant
            0 <= end <= chars@.len(),
            chars@ == path@,
            mapped == path@.map_values(|c: char| slash_to_backslash(c)),
            trim_end_backslashes(mapped) == trim_end_backslashes(mapped.take(end as int)),
        decreases end,
    {
        proof {
            assert(mapped.take(end as int).drop_last() =~= mapped.take(end - 1));
        }
        end = end - 1;
    }
    proof {
        if end > 0 {
            assert(mapped.take(end as int).last() == mapped[end - 1]);
        }
    }
    let mut out = String::new();
    let mut i: usize = 0;
    proof {
        assert(out@ =~= Seq::<char>::empty());
    }
    while i < end
        invariant
            0 <= i <= end <= chars@.len(),
            chars@ == path@,
            mapped == path@.map_values(|c: char| slash_to_backslash(c)),
            out@ == ascii_lowercase(mapped.take(i as int)),
        decreases end - i,
    {
        let c = if chars[i] == '/' {
            '\\'
        } else {
            chars[i]
        };
        push_char(&mut out, lower(c));
        proof {
            assert(mapped.take(i + 1) =~= mapped.take(i as int).push(mapped[i as int]));
            assert(ascii_lowercase(mapped.take(i + 1)) =~= ascii_lowercase(mapped.take(i as int)).push(
                ascii_lower(mapped[i as int]),
            ));
        }
        i = i + 1;
    }
    out
}

/// The character kept in a version component: ASCII letters and digits,
/// `.`, `-` and `_` as they are, anything else as `_`.
pub open spec fn safe_char(c: char) -> char {
    if ('a' <= c <= 'z') || ('A' <= c <= 'Z') || ('0' <= c <= '9') || c == '.' || c == '-' || c
        == '_' {
        c
    } else {
        '_'
    }
}

/// A version as a directory-name component; `unknown` for an empty version.
pub open spec fn spec_safe_version(version: Seq<char>) -> Seq<char> {
    if version.len() == 0 {
        "unknown"@
    } else {
        version.map_values(|c: char| safe_char(c))
    }
}

/// A version as a directory-name component (see `spec_safe_version`).
pub fn safe_version_component(version: &str) -> (r: String)
    ensures
        r@ == spec_safe_version(version@),
{
    let chars = chars_of(version);
    if chars.len() == 0 {
        return String::from_str("unknown");
    }
    let mut out = String::new();
    let mut i: usize = 0;
    proof {
        assert(out@ =~= version@.take(0).map_values(|c: char| safe_char(c)));
    }
    while i < chars.len()
        invariant
            0 <= i <= chars@.len(),
            chars@ == version@,
            out@ == version@.take(i as int).map_values(|c: char| safe_char(c)),
        decreases chars.len() - i,
    {
        let c = chars[i];
        let keep = (c >= 'a' && c <= 'z') || (c >= 'A' && c <= 'Z') || (c >= '0' && c <= '9') || c
            == '.' || c == '-' || c == '_';
        push_char(
            &mut out,
            if keep {
                c
            } else {
                '_'
            },
        );
        proof {
            assert(version@.take(i + 1).map_values(|c: char| safe_char(c)) =~= version@.take(
                i as int,
            ).map_values(|c: char| safe_char(c)).push(safe_char(version@[i as int])));
        }
        i = i + 1;
    }
    proof {
        assert(version@.take(i as int) =~= version@);
    }
    out
}

/// The digest that names the Chinese copy of an application at a version.
pub open spec fn copy_digest(source_app: Seq<char>, version: Seq<char>) -> Seq<u8> {
    sha256_digest(encode_utf8(path_key(source_app)) + seq![0u8] + encode_utf8(version))
}

/// The directory name of the Chinese copy of an application at a version:
/// the safe version, a dash, and the first sixteen hexadecimal digits of
/// the SHA-256 of the application's path key, a zero byte and the version.
pub open spec fn spec_copy_name(source_app: Seq<char>, version: Seq<char>) -> Seq<char> {
    spec_safe_version(version) + "-"@ + hex_text(copy_digest(source_app, version)).take(16)
}

/// The directory name of the Chinese copy (see `spec_copy_name`).
pub fn patched_copy_name(source_app: &str, version: &str) -> (r: String)
    ensures
        r@ == spec_copy_name(source_app@, version@),
        plain_name(r@),
{
    let key = normalized_path_key(source_app);
    let mut data: Vec<u8> = Vec::new();
    data.extend_from_slice(key.as_str().as_bytes());
    data.push(0u8);
    data.extend_from_slice(version.as_bytes());
    let digest = sha256(data.as_slice());
    let hex = encode_hex(digest.as_slice());
    let mut name = safe_version_component(version);
    name.append("-");
    name.append(hex.as_str().substring_char(0, 16));
    proof {
        assert(data@ =~= encode_utf8(path_key(source_app@)) + seq![0u8] + encode_utf8(version@));
        lemma_copy_name_plain(source_app@, version@);
    }
    name
}

/// The hexadecimal text of a digest is a plain name.
proof fn lemma_hex_text_plain(bytes: Seq<u8>)
    ensures
        plain_name(hex_text(bytes)),
    decreases bytes.len(),
{
    if bytes.len() > 0 {
        lemma_hex_text_plain(bytes.drop_last());
        let head = hex_text(bytes.drop_last());
        let hi = bytes.last() as int / 16;
        let lo = bytes.last() as int % 16;
        let t = hex_text(bytes);
        assert(t == head + seq![hex_digit(hi), hex_digit(lo)]);
        assert forall|i: int| 0 <= i < t.len() implies t[i] != '/' && t[i] != '\\' && t[i] != ':'
            && t[i] != '?' by {
            if i < head.len() {
                assert(t[i] == head[i]);
            } else {
                let d = if i == head.len() { hi } else { lo };
                assert(t[i] == hex_digit(d));
                assert(0 <= d < 16);
                if d < 10 {
                    assert(('0' as int) <= 48 + d <= ('9' as int));
                } else {
                    assert(('a' as int) <= 87 + d <= ('f' as int));
                }
            }
        }
    }
}

/// The directory name of a Chinese copy is a plain name.
proof fn lemma_copy_name_plain(source_app: Seq<char>, version: Seq<char>)
    requires
        hex_text(copy_digest(source_app, version)).len() >= 16,
    ensures
        plain_name(spec_copy_name(source_app, version)),
{
    reveal_strlit("unknown");
    reveal_strlit("-");
    let safe = spec_safe_version(version);
    let hex = hex_text(copy_digest(source_app, version)).take(16);
    lemma_hex_text_plain(copy_digest(source_app, version));
    let name = spec_copy_name(source_app, version);
    assert(name == safe + "-"@ + hex);
    assert forall|i: int| 0 <= i < name.len() implies name[i] != '/' && name[i] != '\\' && name[i]
        != ':' && name[i] != '?' by {
        if i < safe.len() {
            assert(name[i] == safe[i]);
            if version.len() > 0 {
                assert(safe[i] == safe_char(version[i]));
            } else {
                assert(safe == "unknown"@);
            }
        } else if i == safe.len() {
        } else {
            let j = i - safe.len() - 1;
            assert(name[i] == hex[j]);
            assert(hex[j] == hex_text(copy_digest(source_app, version))[j]);
        }
    }
}

/// `r` is the directory of the Chinese copies below `data_dir`: its
/// `chinese-patch` directory, then `apps` (see `is_adjoined`).
pub open spec fn is_apps_root(data_dir: Seq<char>, r: Seq<char>) -> bool {
    exists|p: Seq<char>| #[trigger]
        is_adjoined(data_dir, "chinese-patch"@, p) && is_adjoined(p, "apps"@, r)
}

/// `r` is the directory named `name` in the apps root below `data_dir`.
pub open spec fn is_copy_root(data_dir: Seq<char>, name: Seq<char>, r: Seq<char>) -> bool {
    exists|a: Seq<char>| #[trigger] is_apps_root(data_dir, a) && is_adjoined(a, name, r)
}

/// Where the Chinese copies live below the manager's data directory: its
/// `chinese-patch/apps`, for a data directory without `?` (see
/// `crate::paths::path_join` for what holds of other directories).
pub fn patched_apps_root(manager_data_dir: &str) -> (r: String)
    ensures
        plain_base(manager_data_dir@) ==> is_apps_root(manager_data_dir@, r@) && plain_base(r@),
{
    let patch_root = path_join(manager_data_dir, "chinese-patch");
    let r = path_join(patch_root.as_str(), "apps");
    proof {
        reveal_strlit("chinese-patch");
        reveal_strlit("apps");
        if plain_base(manager_data_dir@) {
            lemma_adjoined_plain(manager_data_dir@, "chinese-patch"@, patch_root@);
            lemma_adjoined_plain(patch_root@, "apps"@, r@);
            assert(is_adjoined(manager_data_dir@, "chinese-patch"@, patch_root@) && is_adjoined(
                patch_root@,
                "apps"@,
                r@,
            ));
        }
    }
    r
}

/// The directory of the Chinese copy of an installation whose application
/// lives at `source_app`: the copy name (see `patched_copy_name`) below
/// `patched_apps_root`.
pub fn patched_copy_root(installed: &InstalledWindowsCodex, manager_data_dir: &str, source_app: &str) -> (r: String)
    ensures
        plain_base(manager_data_dir@) ==> is_copy_root(
            manager_data_dir@,
            spec_copy_name(source_app@, installed.version@),
            r@,
        ) && plain_base(r@),
{
    let name = patched_copy_name(source_app, installed.version.as_str());
    let apps_root = patched_apps_root(manager_data_dir);
    let r = path_join(apps_root.as_str(), name.as_str());
    proof {
        if plain_base(manager_data_dir@) {
            lemma_adjoined_plain(apps_root@, name@, r@);
            assert(is_apps_root(manager_data_dir@, apps_root@) && is_adjoined(apps_root@, name@, r@));
        }
    }
    r
}

/// Where the marker of a Chinese copy is written: its
/// `.codex-manager-zh-cn.json`, for a copy directory without `?`.
pub fn marker_path(copy_root: &str) -> (r: String)
    ensures
        plain_base(copy_root@) ==> is_adjoined(copy_root@, ".codex-manager-zh-cn.json"@, r@),
{
    proof {
        reveal_strlit(".codex-manager-zh-cn.json");
    }
    path_join(copy_root, ".codex-manager-zh-cn.json")
}

/// `root` is the application directory of `app_asar`, the parent of its
/// parent, where both parents are known on every platform (see
/// `crate::paths::path_parent`).
pub open spec fn app_root_of(app_asar: Seq<char>, root: Seq<char>) -> bool {
    &&& plain_path(app_asar)
    &&& exists|k: int| #[trigger]
        parent_split(app_asar, k) && {
            ||| exists|k2: int| #[trigger]
                parent_split(app_asar.take(k), k2) && root == app_asar.take(k2)
            ||| single_name(app_asar.take(k)) && root.len() == 0
        }
}

/// `root` is the application directory that Windows gives a drive path
/// `app_asar` written with `\\` (see `crate::paths::win_backslash_path`):
/// the parent of its parent.
pub open spec fn win_app_root_of(app_asar: Seq<char>, root: Seq<char>) -> bool {
    &&& win_backslash_path(app_asar)
    &&& exists|k: int, k2: int| #![trigger win_split(app_asar, k), win_split(app_asar.take(k), k2)]
        win_split(app_asar, k) && k > 2 && win_split(app_asar.take(k), k2) && root == win_parent(
            app_asar.take(k),
            k2,
        )
}

/// A Windows drive path cut before a separator other than the root's is a
/// Windows drive path again.
proof fn lemma_win_path_take(path: Seq<char>, k: int)
    requires
        win_backslash_path(path),
        win_split(path, k),
        k > 2,
    ensures
        win_backslash_path(path.take(k)),
{
    let t = path.take(k);
    assert forall|i: int| 3 <= i < t.len() implies !(win_sep(t[i - 1]) && win_sep(#[trigger] t[i])) by {
        assert(t[i - 1] == path[i - 1] && t[i] == path[i]);
    }
    assert forall|i: int|
        3 <= i < t.len() implies !(win_sep(t[i - 1]) && #[trigger] t[i] == '.' && (i + 1 == t.len()
            || win_sep(t[i + 1]))) by {
        assert(t[i - 1] == path[i - 1] && t[i] == path[i]);
        if i + 1 < t.len() {
            assert(t[i + 1] == path[i + 1]);
        } else {
            assert(path[i + 1] == path[k]);
        }
    }
    assert(t.last() == path[k - 1]);
    assert(!win_sep(path[k - 1]));
}

/// A plain path stays plain when cut short.
proof fn lemma_plain_path_take(path: Seq<char>, k: int)
    requires
        plain_path(path),
        0 <= k <= path.len(),
    ensures
        plain_path(path.take(k)),
{
    let t = path.take(k);
    assert forall|i: int| 0 <= i < t.len() - 1 implies !(t[i] == '/' && #[trigger] t[i + 1] == '/') by {
        assert(t[i] == path[i] && t[i + 1] == path[i + 1]);
    }
}

/// The application directory of an installation's `resources/app.asar`:
/// the parent of its parent. It is refused where a parent is missing, as
/// for the empty path or a bare file name.
pub fn source_app_root(app_asar: &str) -> (r: Result<String, EngineError>)
    ensures
        r matches Err(e) ==> e.spec_message() == "resources/app.asar has no application root"@,
        app_asar@.len() == 0 || single_name(app_asar@) ==> r is Err,
        forall|root: Seq<char>| #[trigger]
            app_root_of(app_asar@, root) ==> (r matches Ok(p) && p@ == root),
        forall|root: Seq<char>| #[trigger]
            win_app_root_of(app_asar@, root) ==> r is Err || r->Ok_0@ == root || r->Ok_0@.len()
                == 0,
{
    let resources = match path_parent(app_asar) {
        Some(p) => p,
        None => {
            return Err(install_error("resources/app.asar has no application root"));
        },
    };
    let r = match path_parent(resources.as_str()) {
        Some(p) => Ok(p),
        None => Err(install_error("resources/app.asar has no application root")),
    };
    proof {
        assert forall|root: Seq<char>| #[trigger]
            win_app_root_of(app_asar@, root) implies r is Err || r->Ok_0@ == root || r->Ok_0@.len()
                == 0 by {
            let (k, k2) = choose|k: int, k2: int| #![trigger win_split(app_asar@, k), win_split(app_asar@.take(k), k2)]
                win_split(app_asar@, k) && k > 2 && win_split(app_asar@.take(k), k2) && root
                    == win_parent(app_asar@.take(k), k2);
            if resources@.len() > 0 {
                assert(resources@ == win_parent(app_asar@, k));
                lemma_win_path_take(app_asar@, k);
                assert(win_split(resources@, k2));
            }
        }
        assert forall|root: Seq<char>| #[trigger]
            app_root_of(app_asar@, root) implies (r matches Ok(p) && p@ == root) by {
            let k = choose|k: int| #[trigger]
                parent_split(app_asar@, k) && {
                    ||| exists|k2: int| #[trigger]
                        parent_split(app_asar@.take(k), k2) && root == app_asar@.take(k2)
                    ||| single_name(app_asar@.take(k)) && root.len() == 0
                };
            assert(resources@ == app_asar@.take(k));
            lemma_plain_path_take(app_asar@, k);
            if exists|k2: int| #[trigger]
                parent_split(app_asar@.take(k), k2) && root == app_asar@.take(k2) {
                let k2 = choose|k2: int| #[trigger]
                    parent_split(app_asar@.take(k), k2) && root == app_asar@.take(k2);
                assert(app_asar@.take(k).take(k2) =~= app_asar@.take(k2));
            }
        }
    }
    r
}

/// The marker was written for this version of the application at `source_app`.
pub open spec fn spec_marker_matches(
    marker: PatchedCopyMarker,
    version: Seq<char>,
    source_app: Seq<char>,
) -> bool {
    &&& marker.patch_schema == PATCH_SCHEMA_VERSION
    &&& marker.source_version@ == version
    &&& path_key(marker.source_app@) == path_key(source_app)
}

/// Whether a copy's marker, if it could be read, was written for this
/// installation's version of the application at `source_app`.
pub fn marker_matches(
    marker: &Option<PatchedCopyMarker>,
    installed: &InstalledWindowsCodex,
    source_app: &str,
) -> (r: bool)
    ensures
        r == (match marker {
            Some(m) => spec_marker_matches(*m, installed.version@, source_app@),
            None => false,
        }),
{
    match marker {
        Some(m) => {
            if m.patch_schema != PATCH_SCHEMA_VERSION {
                return false;
            }
            if !str_eq(m.source_version.as_str(), installed.version.as_str()) {
                return false;
            }
            let a = normalized_path_key(m.source_app.as_str());
            let b = normalized_path_key(source_app);
            str_eq(a.as_str(), b.as_str())
        },
        None => false,
    }
}

/// The marker for a copy of this installation's application at `source_app`.
pub fn new_marker(installed: &InstalledWindowsCodex, source_app: &str) -> (m: PatchedCopyMarker)
    ensures
        spec_marker_matches(m, installed.version@, source_app@),
        m.source_app@ == source_app@,
{
    PatchedCopyMarker {
        patch_schema: PATCH_SCHEMA_VERSION,
        source_app: String::from_str(source_app),
        source_version: installed.version.clone(),
    }
}

/// `path` is the `app` directory of the Chinese copy named `name` below
/// `data_dir`.
pub open spec fn is_copy_app(data_dir: Seq<char>, name: Seq<char>, path: Seq<char>) -> bool {
    exists|c: Seq<char>| #[trigger] is_copy_root(data_dir, name, c) && is_adjoined(c, "app"@, path)
}

/// `copy` is the Chinese copy of the application at `app`: the probe's
/// marker was written for it, and `copy` is launched from the `app`
/// directory of its copy below a data directory without `?`.
pub open spec fn copy_of_app(
    installed: &InstalledWindowsCodex,
    data_dir: Seq<char>,
    probe: &CopyProbe,
    app: Seq<char>,
    copy: InstalledWindowsCodex,
) -> bool {
    &&& probe.marker matches Some(m) && spec_marker_matches(m, installed.version@, app)
    &&& plain_base(data_dir) ==> is_copy_app(data_dir, spec_copy_name(app, installed.version@), copy.path@)
}

/// What was found on disk about an installation's Chinese copy: the
/// installation's own `resources/app.asar`, the copy's marker when it could
/// be read, and whether the copy's application holds an `app.asar` and an
/// executable.
#[derive(Debug)]
pub struct CopyProbe {
    pub source_asar: Option<String>,
    pub marker: Option<PatchedCopyMarker>,
    pub copy_has_asar: bool,
    pub copy_has_exe: bool,
}

/// The Chinese copy of a registered MSIX installation, launched as a
/// portable installation from the `app` directory of its copy: none for
/// other installations, or when the copy is missing, stale or incomplete.
/// The copy keeps the installation's version, architecture, package
/// identity and install time.
pub fn patched_chinese_install(
    installed: &InstalledWindowsCodex,
    manager_data_dir: &str,
    probe: &CopyProbe,
) -> (r: Option<InstalledWindowsCodex>)
    ensures
        installed.source@ != "msix"@ ==> r is None,
        probe.source_asar is None || probe.marker is None || !probe.copy_has_asar
            || !probe.copy_has_exe ==> r is None,
        r matches Some(c) ==> {
            &&& installed.source@ == "msix"@
            &&& probe.marker matches Some(m) && m.patch_schema == PATCH_SCHEMA_VERSION
                && m.source_version@ == installed.version@
            &&& c.version@ == installed.version@
            &&& opt_text(c.arch) == opt_text(installed.arch)
            &&& c.source@ == "portable"@
            &&& opt_text(c.package_family_name) == opt_text(installed.package_family_name)
            &&& c.installed_at == installed.installed_at
        },
        forall|root: Seq<char>|
            #![trigger app_root_of(probe.source_asar.unwrap()@, root)]
            installed.source@ == "msix"@ && probe.source_asar is Some && app_root_of(
                probe.source_asar.unwrap()@,
                root,
            ) && probe.copy_has_asar && probe.copy_has_exe ==> {
                &&& r is Some <==> (probe.marker matches Some(m) && spec_marker_matches(
                    m,
                    installed.version@,
                    root,
                ))
                &&& r is Some && plain_base(manager_data_dir@) ==> is_copy_app(
                    manager_data_dir@,
                    spec_copy_name(root, installed.version@),
                    r.unwrap().path@,
                )
            },
        forall|root: Seq<char>|
            #![trigger win_app_root_of(probe.source_asar.unwrap()@, root)]
            probe.source_asar is Some && win_app_root_of(probe.source_asar.unwrap()@, root)
                && r is Some ==> copy_of_app(installed, manager_data_dir@, probe, root, r.unwrap())
                || copy_of_app(installed, manager_data_dir@, probe, Seq::empty(), r.unwrap()),
{
    if !str_eq(installed.source.as_str(), "msix") {
        return None;
    }
    let source_asar = match &probe.source_asar {
        Some(a) => a,
        None => {
            return None;
        },
    };
    let source_app = match source_app_root(source_asar.as_str()) {
        Ok(app) => app,
        Err(_) => {
            return None;
        },
    };
    if !marker_matches(&probe.marker, installed, source_app.as_str()) {
        return None;
    }
    if !probe.copy_has_asar || !probe.copy_has_exe {
        return None;
    }
    let copy_root = patched_copy_root(installed, manager_data_dir, source_app.as_str());
    let app_root = path_join(copy_root.as_str(), "app");
    proof {
        reveal_strlit("app");
        if plain_base(manager_data_dir@) {
            assert(is_copy_root(
                manager_data_dir@,
                spec_copy_name(source_app@, installed.version@),
                copy_root@,
            ) && is_adjoined(copy_root@, "app"@, app_root@));
        }
    }
    let copy = InstalledWindowsCodex {
        path: app_root,
        version: installed.version.clone(),
        arch: clone_opt(&installed.arch),
        source: String::from_str("portable"),
        package_family_name: clone_opt(&installed.package_family_name),
        installed_at: installed.installed_at,
    };
    proof {
        assert(copy_of_app(installed, manager_data_dir@, probe, source_app@, copy));
        assert forall|root: Seq<char>|
            #![trigger win_app_root_of(probe.source_asar.unwrap()@, root)]
            win_app_root_of(probe.source_asar.unwrap()@, root) implies copy_of_app(
                installed,
                manager_data_dir@,
                probe,
                root,
                copy,
            ) || copy_of_app(installed, manager_data_dir@, probe, Seq::empty(), copy) by {
            assert(win_app_root_of(source_asar@, root));
            if source_app@.len() == 0 {
                assert(source_app@ =~= Seq::<char>::empty());
            }
        }
    }
    Some(copy)
}

/// Checks that a prepared copy can be moved into place: the prepared
/// directory exists and the destination does not; returns the
/// destination's parent (see `crate::paths::path_parent` for where it is
/// known on every platform), which must then be an existing directory.
pub fn check_activation(work_root: &str, copy_root: &str, work_is_dir: bool, copy_exists: bool) -> (r: Result<
    String,
    EngineError,
>)
    ensures
        !work_is_dir ==> (r matches Err(e) && e.spec_message()
            == "activate Chinese application copy: source directory is missing: "@ + work_root@),
        work_is_dir && copy_exists ==> (r matches Err(e) && e.spec_message()
            == "activate Chinese application copy: destination already exists: "@ + copy_root@),
        work_is_dir && !copy_exists && r is Err ==> (r matches Err(e) && e.spec_message()
            == "activate Chinese application copy: destination has no parent: "@ + copy_root@),
        work_is_dir && !copy_exists && copy_root@.len() == 0 ==> r is Err,
        work_is_dir && !copy_exists && single_name(copy_root@) ==> (r matches Ok(p) && p@.len()
            == 0),
        forall|k: int|
            work_is_dir && !copy_exists && plain_path(copy_root@) && #[trigger] parent_split(
                copy_root@,
                k,
            ) ==> (r matches Ok(p) && p@ == copy_root@.take(k)),
        forall|k: int|
            work_is_dir && !copy_exists && win_backslash_path(copy_root@) && #[trigger] win_split(
                copy_root@,
                k,
            ) ==> r is Ok && (r->Ok_0@ == win_parent(copy_root@, k) || r->Ok_0@.len() == 0),
{
    if !work_is_dir {
        return Err(error_with("activate Chinese application copy: source directory is missing: ", work_root));
    }
    if copy_exists {
        return Err(error_with("activate Chinese application copy: destination already exists: ", copy_root));
    }
    match path_parent(copy_root) {
        Some(p) => Ok(p),
        None => Err(error_with("activate Chinese application copy: destination has no parent: ", copy_root)),
    }
}

/// Checks that the destination's parent is an existing directory.
pub fn check_activation_parent(parent: &str, parent_is_dir: bool) -> (r: Result<(), EngineError>)
    ensures
        r is Ok <==> parent_is_dir,
        r matches Err(e) ==> e.spec_message()
            == "activate Chinese application copy: destination parent is missing: "@ + parent@,
{
    if !parent_is_dir {
        return Err(error_with("activate Chinese application copy: destination parent is missing: ", parent));
    }
    Ok(())
}

/// A report whose patch left nothing to do or wrote new content.
fn report(status: &str, message: &str, app_asar_path: String, backup_path: Option<String>) -> (r: ChinesePatchReport)
    ensures
        r.status@ == status@,
        r.message@ == message@,
        r.app_asar_path@ == app_asar_path@,
        opt_text(r.backup_path) == opt_text(backup_path),
        r.restart_required,
{
    ChinesePatchReport {
        status: String::from_str(status),
        message: String::from_str(message),
        app_asar_path,
        backup_path,
        restart_required: true,
    }
}

/// The report for an installation whose archive is already patched.
pub fn already_patched_report(app_asar_path: String) -> (r: ChinesePatchReport)
    ensures
        r.status@ == "already-patched"@,
        r.message@ == "Windows 中文化已经启用。"@,
        r.app_asar_path@ == app_asar_path@,
        r.backup_path is None,
        r.restart_required,
{
    report("already-patched", "Windows 中文化已经启用。", app_asar_path, None)
}

/// The report for an installation patched in place, with its backup.
pub fn patched_report(app_asar_path: String, backup_path: String) -> (r: ChinesePatchReport)
    ensures
        r.status@ == "patched"@,
        r.message@ == "Windows 中文化已写入，重新启动 ChatGPT 后生效。"@,
        r.app_asar_path@ == app_asar_path@,
        opt_text(r.backup_path) == Some(backup_path@),
        r.restart_required,
{
    report("patched", "Windows 中文化已写入，重新启动 ChatGPT 后生效。", app_asar_path, Some(backup_path))
}

/// The report for a registered installation whose Chinese copy is already in place.
pub fn copy_already_patched_report(app_asar_path: String) -> (r: ChinesePatchReport)
    ensures
        r.status@ == "already-patched"@,
        r.message@ == "Windows 中文副本已经启用。"@,
        r.app_asar_path@ == app_asar_path@,
        r.backup_path is None,
        r.restart_required,
{
    report("already-patched", "Windows 中文副本已经启用。", app_asar_path, None)
}

/// The report for a registered installation whose Chinese copy was created.
pub fn copy_patched_report(app_asar_path: String) -> (r: ChinesePatchReport)
    ensures
        r.status@ == "patched"@,
        r.message@ == "Windows 中文副本已创建并启用。"@,
        r.app_asar_path@ == app_asar_path@,
        r.backup_path is None,
        r.restart_required,
{
    report("patched", "Windows 中文副本已创建并启用。", app_asar_path, None)
}

proof fn lemma_trim_end_backslashes_rest(text: Seq<char>)
    ensures
        forall|j: int|
            trim_end_backslashes(text).len() <= j < text.len() ==> #[trigger] text[j] == '\\',
    decreases text.len(),
{
    if text.len() > 0 && text.last() == '\\' {
        lemma_trim_end_backslashes_rest(text.drop_last());
        lemma_trim_end_backslashes_shape(text.drop_last());
        assert forall|j: int|
            trim_end_backslashes(text).len() <= j < text.len() implies #[trigger] text[j] == '\\' by {
            if j < text.len() - 1 {
                assert(text[j] == text.drop_last()[j]);
            }
        }
    }
}

proof fn lemma_lowercase_trim_commute(text: Seq<char>)
    ensures
        ascii_lowercase(trim_end_backslashes(text)) == trim_end_backslashes(ascii_lowercase(text)),
    decreases text.len(),
{
    let low = ascii_lowercase(text);
    if text.len() > 0 {
        assert(low.last() == ascii_lower(text.last()));
        assert(low.drop_last() =~= ascii_lowercase(text.drop_last()));
        if text.last() == '\\' {
            lemma_lowercase_trim_commute(text.drop_last());
        } else {
            assert(low.last() != '\\');
        }
    } else {
        assert(low =~= Seq::<char>::empty());
    }
}

/// The key of a path spells it with `\` separators, in ASCII lower case,
/// without trailing separators: it is the path's text up to its trailing
/// separators, each character lower-cased and each `/` written as `\`.
/// So two paths that differ only in ASCII case and in writing `/` or `\`
/// get the same key.
pub proof fn lemma_path_key_spelling(path: Seq<char>, other: Seq<char>)
    ensures
        ({
            let key = path_key(path);
            &&& key.len() <= path.len()
            &&& forall|i: int|
                0 <= i < key.len() ==> #[trigger] key[i] == ascii_lower(
                    if path[i] == '/' {
                        '\\'
                    } else {
                        path[i]
                    },
                ) && key[i] != '/' && !('A' <= key[i] <= 'Z')
            &&& key.len() > 0 ==> key.last() != '\\'
            &&& forall|j: int| key.len() <= j < path.len() ==> #[trigger] path[j] == '/' || path[j] == '\\'
        }),
        other.len() == path.len() && (forall|i: int|
            0 <= i < path.len() ==> ascii_lower(slash_to_backslash(#[trigger] other[i]))
                == ascii_lower(slash_to_backslash(path[i]))) ==> path_key(other) == path_key(path),
{
    let mapped = path.map_values(|c: char| slash_to_backslash(c));
    let trimmed = trim_end_backslashes(mapped);
    lemma_trim_end_backslashes_shape(mapped);
    lemma_trim_end_backslashes_rest(mapped);
    let key = path_key(path);
    assert forall|i: int| 0 <= i < key.len() implies #[trigger] key[i] == ascii_lower(
        if path[i] == '/' {
            '\\'
        } else {
            path[i]
        },
    ) && key[i] != '/' && !('A' <= key[i] <= 'Z') by {
        assert(trimmed[i] == mapped[i]);
    }
    if key.len() > 0 {
        assert(key.last() == ascii_lower(trimmed.last()));
    }
    assert forall|j: int| key.len() <= j < path.len() implies #[trigger] path[j] == '/' || path[j]
        == '\\' by {
        assert(mapped[j] == slash_to_backslash(path[j]));
    }
    if other.len() == path.len() && (forall|i: int|
        0 <= i < path.len() ==> ascii_lower(slash_to_backslash(#[trigger] other[i])) == ascii_lower(
            slash_to_backslash(path[i]),
        )) {
        let omapped = other.map_values(|c: char| slash_to_backslash(c));
        assert(ascii_lowercase(omapped) =~= ascii_lowercase(mapped)) by {
            assert forall|i: int| 0 <= i < mapped.len() implies ascii_lowercase(omapped)[i]
                == ascii_lowercase(mapped)[i] by {
                assert(omapped[i] == slash_to_backslash(other[i]));
                assert(mapped[i] == slash_to_backslash(path[i]));
            }
        }
        lemma_lowercase_trim_commute(mapped);
        lemma_lowercase_trim_commute(omapped);
    }
}

/// A version's directory-name component keeps every ASCII letter, digit,
/// `.`, `-` and `_` of the version in place and writes every other
/// character as `_`, character for character; an empty version becomes
/// `unknown`.
pub proof fn lemma_safe_version_spelling(version: Seq<char>)
    ensures
        version.len() == 0 ==> spec_safe_version(version) == "unknown"@,
        version.len() > 0 ==> spec_safe_version(version).len() == version.len(),
        version.len() > 0 ==> forall|i: int|
            0 <= i < version.len() ==> #[trigger] spec_safe_version(version)[i] == if ('a'
                <= version[i] <= 'z') || ('A' <= version[i] <= 'Z') || ('0' <= version[i] <= '9')
                || version[i] == '.' || version[i] == '-' || version[i] == '_' {
                version[i]
            } else {
                '_'
            },
{
}

/// Normalizing a key again leaves it as it is.
pub proof fn lemma_path_key_idempotent(path: Seq<char>)
    ensures
        path_key(path_key(path)) == path_key(path),
{
    let mapped = path.map_values(|c: char| slash_to_backslash(c));
    let trimmed = trim_end_backslashes(mapped);
    let key = ascii_lowercase(trimmed);
    lemma_trim_end_backslashes_shape(mapped);
    let again = key.map_values(|c: char| slash_to_backslash(c));
    assert forall|i: int| 0 <= i < key.len() implies key[i] != '/' by {
        assert(trimmed[i] == mapped[i]);
    }
    assert(again =~= key);
    lemma_no_trailing_backslash(trimmed, key);
    assert(trim_end_backslashes(key) == key);
    assert forall|i: int| 0 <= i < key.len() implies ascii_lower(#[trigger] key[i]) == key[i] by {
    }
    assert(ascii_lowercase(key) =~= key);
}

proof fn lemma_trim_end_backslashes_shape(text: Seq<char>)
    ensures
        trim_end_backslashes(text).len() <= text.len(),
        trim_end_backslashes(text) == text.take(trim_end_backslashes(text).len() as int),
        trim_end_backslashes(text).len() > 0 ==> trim_end_backslashes(text).last() != '\\',
    decreases text.len(),
{
    if text.len() > 0 && text.last() == '\\' {
        lemma_trim_end_backslashes_shape(text.drop_last());
        let t = trim_end_backslashes(text.drop_last());
        assert(text.drop_last().take(t.len() as int) =~= text.take(t.len() as int));
    } else {
        assert(text.take(text.len() as int) =~= text);
    }
}

proof fn lemma_no_trailing_backslash(trimmed: Seq<char>, key: Seq<char>)
    requires
        trimmed.len() > 0 ==> trimmed.last() != '\\',
        key == ascii_lowercase(trimmed),
    ensures
        trim_end_backslashes(key) == key,
{
    if key.len() > 0 {
        assert(key.last() == ascii_lower(trimmed.last()));
    }
}

} // verus!

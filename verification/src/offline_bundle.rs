//! The offline resources bundled with the manager: where they live, which
//! Windows files they must hold, and the checks on the macOS package.
use vstd::prelude::*;
use vstd::string::StrSliceExecFns;

use crate::error::AppError;
use crate::paths::{
    is_adjoined, lemma_adjoined_plain, path_join, plain_base, relative_name, win_path,
};
use vstd::utf8::encode_utf8;
use crate::text::{decimal_string, decimal_text};

verus! {

/// The bundled offline resources: their root directory, once it is set.
/// It is set at most once.
#[derive(Debug)]
pub struct OfflineBundle {
    root: Option<String>,
}

impl OfflineBundle {
    /// The root directory, when it has been set.
    pub closed spec fn spec_root(&self) -> Option<Seq<char>> {
        match self.root {
            Some(r) => Some(r@),
            None => None,
        }
    }

    /// Resources whose root is not set yet.
    pub fn new() -> (b: Self)
        ensures
            b.spec_root() is None,
    {
        OfflineBundle { root: None }
    }

    /// Sets the root directory `root`; `root_is_dir` tells whether it is an
    /// existing directory (see `spec_initialize`).
    pub fn initialize(&mut self, root: String, root_is_dir: bool) -> (r: Result<(), AppError>)
        ensures
            (final(self).spec_root(), unit_outcome(r)) == spec_initialize(
                old(self).spec_root(),
                root@,
                root_is_dir,
            ),
    {
        if !root_is_dir {
            return Err(message_with("内置离线资源目录不存在：", root.as_str()));
        }
        if self.root.is_some() {
            return Err(message_with("内置离线资源目录已初始化：", root.as_str()));
        }
        self.root = Some(root);
        Ok(())
    }

    /// Whether the root directory has been set.
    pub fn is_initialized(&self) -> (r: bool)
        ensures
            r == self.spec_root() is Some,
    {
        self.root.is_some()
    }

    /// The root directory; refused before it is set.
    pub fn root(&self) -> (r: Result<String, AppError>)
        ensures
            match self.spec_root() {
                Some(root) => r matches Ok(s) && s@ == root,
                None => r matches Err(e) && e.spec_message() == "内置离线资源尚未初始化"@,
            },
    {
        match &self.root {
            Some(r) => Ok(r.clone()),
            None => Err(AppError::Internal(String::from_str("内置离线资源尚未初始化"))),
        }
    }
}

/// An application error whose explanation is `prefix` followed by `detail`.
pub fn message_with(prefix: &str, detail: &str) -> (e: AppError)
    ensures
        e.spec_message() == prefix@ + detail@,
{
    let mut m = String::from_str(prefix);
    m.append(detail);
    AppError::Internal(m)
}

/// The explanation of a failure, or success.
pub open spec fn unit_outcome(r: Result<(), AppError>) -> Result<(), Seq<char>> {
    match r {
        Ok(()) => Ok(()),
        Err(e) => Err(e.spec_message()),
    }
}

/// Setting the root `root` of resources whose root is `current`: refused,
/// with `current` kept, when `root` is not an existing directory or a root
/// is set already (the explanation names `root`); otherwise `root` is set.
pub open spec fn spec_initialize(current: Option<Seq<char>>, root: Seq<char>, root_is_dir: bool) -> (
    Option<Seq<char>>,
    Result<(), Seq<char>>,
) {
    if !root_is_dir {
        (current, Err("内置离线资源目录不存在："@ + root))
    } else if current is Some {
        (current, Err("内置离线资源目录已初始化："@ + root))
    } else {
        (Some(root), Ok(()))
    }
}

/// The root is set at most once: after a successful setting, the root is
/// the one that was set, and any later setting is refused and keeps it.
pub proof fn lemma_initialize_once(
    current: Option<Seq<char>>,
    first: Seq<char>,
    first_is_dir: bool,
    second: Seq<char>,
    second_is_dir: bool,
)
    requires
        spec_initialize(current, first, first_is_dir).1 is Ok,
    ensures
        spec_initialize(current, first, first_is_dir).0 == Some(first),
        ({
            let after = spec_initialize(current, first, first_is_dir).0;
            &&& spec_initialize(after, second, second_is_dir).1 is Err
            &&& spec_initialize(after, second, second_is_dir).0 == Some(first)
        }),
{
}

/// `windows` is the `windows` directory below `root`, and `required` lists
/// its manifest, checksums and Windows x64 package, in that order (each
/// joined as `crate::paths::path_join` does).
pub open spec fn is_windows_layout(
    root: Seq<char>,
    windows: Seq<char>,
    required: Seq<Seq<char>>,
) -> bool {
    &&& is_adjoined(root, "windows"@, windows)
    &&& required.len() == 3
    &&& is_adjoined(windows, "latest/manifest"@, required[0])
    &&& is_adjoined(windows, "latest/checksums"@, required[1])
    &&& is_adjoined(windows, "latest/win-x64"@, required[2])
}

/// The offline Windows resources: their directory and the files that must
/// be present in it, in the order they are checked. For a root without `?`
/// they are its `windows` directory and that directory's
/// `latest/manifest`, `latest/checksums` and `latest/win-x64`.
pub fn windows_paths(bundle: &OfflineBundle) -> (r: Result<(String, Vec<String>), AppError>)
    ensures
        bundle.spec_root() is None <==> r is Err,
        r matches Err(e) ==> e.spec_message() == "内置离线资源尚未初始化"@,
        r matches Ok(p) ==> p.1@.len() == 3,
        r matches Ok(p) ==> (plain_base(bundle.spec_root()->0) ==> is_windows_layout(
            bundle.spec_root()->0,
            p.0@,
            p.1@.map_values(|s: String| s@),
        )),
{
    let root = bundle.root()?;
    let windows = path_join(root.as_str(), "windows");
    proof {
        reveal_strlit("windows");
        reveal_strlit("latest/manifest");
        reveal_strlit("latest/checksums");
        reveal_strlit("latest/win-x64");
        if plain_base(root@) {
            lemma_adjoined_plain(root@, "windows"@, windows@);
        }
    }
    let mut required: Vec<String> = Vec::new();
    required.push(path_join(windows.as_str(), "latest/manifest"));
    required.push(path_join(windows.as_str(), "latest/checksums"));
    required.push(path_join(windows.as_str(), "latest/win-x64"));
    proof {
        let req = required@.map_values(|s: String| s@);
        assert(req[0] == required@[0]@ && req[1] == required@[1]@ && req[2] == required@[2]@);
    }
    Ok((windows, required))
}

/// `text` without its trailing slashes.
pub open spec fn trim_end_slashes(text: Seq<char>) -> Seq<char>
    decreases text.len(),
{
    if text.len() > 0 && text.last() == '/' {
        trim_end_slashes(text.drop_last())
    } else {
        text
    }
}

/// Trimming trailing slashes keeps the text up to its trailing slashes and
/// removes only slashes: the result starts the text, does not end with `/`,
/// and everything after it is `/`.
pub proof fn lemma_trim_end_slashes_shape(text: Seq<char>)
    ensures
        trim_end_slashes(text).len() <= text.len(),
        trim_end_slashes(text) == text.take(trim_end_slashes(text).len() as int),
        trim_end_slashes(text).len() > 0 ==> trim_end_slashes(text).last() != '/',
        forall|j: int| trim_end_slashes(text).len() <= j < text.len() ==> #[trigger] text[j] == '/',
    decreases text.len(),
{
    if text.len() > 0 && text.last() == '/' {
        let head = text.drop_last();
        lemma_trim_end_slashes_shape(head);
        let t = trim_end_slashes(head);
        assert(head.take(t.len() as int) =~= text.take(t.len() as int));
        assert forall|j: int| t.len() <= j < text.len() implies #[trigger] text[j] == '/' by {
            if j < text.len() - 1 {
                assert(text[j] == head[j]);
            }
        }
    } else {
        assert(text.take(text.len() as int) =~= text);
    }
}

/// `str::trim_end_matches('/')`: `text` without its trailing slashes.
pub fn trim_trailing_slashes(text: &str) -> (r: String)
    ensures
        r@ == trim_end_slashes(text@),
{
    let chars = crate::text::chars_of(text);
    let mut end: usize = chars.len();
    proof {
        assert(chars@.take(end as int) =~= chars@);
    }
    while end > 0 && chars[end - 1] == '/'
        invariant
            0 <= end <= chars@.len(),
            chars@ == text@,
            trim_end_slashes(text@) == trim_end_slashes(chars@.take(end as int)),
        decreases end,
    {
        proof {
            assert(chars@.take(end as int).drop_last() =~= chars@.take(end - 1));
        }
        end = end - 1;
    }
    proof {
        assert(chars@.take(end as int) =~= text@.subrange(0, end as int));
    }
    String::from_str(text.substring_char(0, end))
}

/// The base address of the offline Windows mirror: an error naming the
/// first required file that is missing; otherwise the directory's `file:`
/// URL without trailing slashes, refused when there is none.
pub open spec fn spec_windows_endpoints(
    windows: Seq<char>,
    required: Seq<Seq<char>>,
    present: Seq<bool>,
    dir_url: Option<Seq<char>>,
) -> Result<Seq<char>, Seq<char>>
    decreases required.len(),
{
    if required.len() > 0 && present.len() > 0 {
        if !present[0] {
            Err("Windows 内置离线资源不完整："@ + required[0])
        } else {
            spec_windows_endpoints(windows, required.drop_first(), present.drop_first(), dir_url)
        }
    } else {
        match dir_url {
            Some(u) => Ok(trim_end_slashes(u)),
            None => Err("无法生成离线目录 URL："@ + windows),
        }
    }
}

/// The text of an optional string.
pub open spec fn text_view(t: Option<String>) -> Option<Seq<char>> {
    match t {
        Some(s) => Some(s@),
        None => None,
    }
}

/// Decides the base address of the offline Windows mirror from the files
/// found present and the directory's `file:` URL (see `spec_windows_endpoints`).
pub fn windows_endpoints_from(
    windows: &str,
    required: &Vec<String>,
    present: &Vec<bool>,
    dir_url: Option<String>,
) -> (r: Result<String, AppError>)
    ensures
        match spec_windows_endpoints(
            windows@,
            required@.map_values(|s: String| s@),
            present@,
            text_view(dir_url),
        ) {
            Ok(base) => r matches Ok(s) && s@ == base,
            Err(m) => r matches Err(e) && e.spec_message() == m,
        },
{
    let ghost rv = required@.map_values(|s: String| s@);
    let ghost dv = text_view(dir_url);
    let mut i: usize = 0;
    proof {
        assert(rv.skip(0) =~= rv);
        assert(present@.skip(0) =~= present@);
    }
    while i < required.len() && i < present.len()
        invariant
            0 <= i <= required@.len(),
            i <= present@.len(),
            rv == required@.map_values(|s: String| s@),
            dv == text_view(dir_url),
            spec_windows_endpoints(windows@, rv, present@, dv) == spec_windows_endpoints(
                windows@,
                rv.skip(i as int),
                present@.skip(i as int),
                dv,
            ),
        decreases required.len() - i,
    {
        proof {
            assert(rv.skip(i as int)[0] == required@[i as int]@);
            assert(present@.skip(i as int)[0] == present@[i as int]);
            assert(rv.skip(i as int).drop_first() =~= rv.skip(i + 1));
            assert(present@.skip(i as int).drop_first() =~= present@.skip(i + 1));
        }
        if !present[i] {
            return Err(message_with("Windows 内置离线资源不完整：", required[i].as_str()));
        }
        i = i + 1;
    }
    proof {
        assert(rv.skip(i as int).len() == 0 || present@.skip(i as int).len() == 0);
    }
    match dir_url {
        Some(u) => Ok(trim_trailing_slashes(u.as_str())),
        None => Err(message_with("无法生成离线目录 URL：", windows)),
    }
}

/// A byte that a `file:` URL's path writes as `%` and two upper-case
/// hexadecimal digits: a control, a non-ASCII byte, the space, or one of
/// `"`, `#`, `%`, `/`, `<`, `>`, `?`, `\`, a backquote, `{` and `}`.
pub open spec fn escaped_byte(b: u8) -> bool {
    b < 0x20 || b >= 0x7f || b == 0x20 || b == 0x22 || b == 0x23 || b == 0x25 || b == 0x2f || b
        == 0x3c || b == 0x3e || b == 0x3f || b == 0x5c || b == 0x60 || b == 0x7b || b == 0x7d
}

/// The upper-case hexadecimal digit `d`.
pub open spec fn upper_hex(d: int) -> char {
    if d < 10 {
        (48 + d) as char
    } else {
        (55 + d) as char
    }
}

/// Bytes as a URL path writes them (see `escaped_byte`).
pub open spec fn escape_bytes(bytes: Seq<u8>) -> Seq<char>
    decreases bytes.len(),
{
    if bytes.len() == 0 {
        Seq::empty()
    } else {
        let b = bytes[0];
        (if escaped_byte(b) {
            seq!['%', upper_hex(b as int / 16), upper_hex(b as int % 16)]
        } else {
            seq![b as char]
        }) + escape_bytes(bytes.drop_first())
    }
}

/// The text of a path in a `file:` URL: each separator (`/`, and `\` where
/// it separates too) as `/`, every other character's UTF-8 bytes escaped.
pub open spec fn url_path_text(path: Seq<char>, backslash_separates: bool) -> Seq<char>
    decreases path.len(),
{
    if path.len() == 0 {
        Seq::empty()
    } else {
        (if path[0] == '/' || (backslash_separates && path[0] == '\\') {
            seq!['/']
        } else {
            escape_bytes(encode_utf8(seq![path[0]]))
        }) + url_path_text(path.drop_first(), backslash_separates)
    }
}

/// An absolute Unix path written plainly: it starts with `/`, separates its
/// components with single `/`, has no `.` component and no trailing `/`
/// (unless it is `/`). Its components are then exactly its text between
/// slashes.
pub open spec fn abs_unix_path(path: Seq<char>) -> bool {
    &&& path.len() > 0
    &&& path[0] == '/'
    &&& forall|i: int| 1 <= i < path.len() ==> !(path[i - 1] == '/' && #[trigger] path[i] == '/')
    &&& forall|i: int|
        1 <= i < path.len() ==> !(path[i - 1] == '/' && #[trigger] path[i] == '.' && (i + 1
            == path.len() || path[i + 1] == '/'))
    &&& path.len() > 1 ==> path.last() != '/'
}

/// The `file:` URL that the url crate writes for a path whose form tells
/// on which platform it is absolute: `file://` and the escaped path for an
/// absolute Unix path; `file:///`, the drive, and the escaped rest with `/`
/// separators for a Windows drive path (see `crate::paths::win_path`).
pub open spec fn file_url_of(path: Seq<char>) -> Option<Seq<char>> {
    if abs_unix_path(path) {
        Some("file://"@ + url_path_text(path, false))
    } else if win_path(path) {
        Some("file:///"@ + path.take(2) + url_path_text(path.skip(2), true))
    } else {
        None
    }
}

/// `url` with a slash added unless it already ends with one.
pub open spec fn with_trailing_slash(url: Seq<char>) -> Seq<char> {
    if url.len() > 0 && url.last() == '/' {
        url
    } else {
        url + "/"@
    }
}

/// `url::Url::from_directory_path` shown as text: the `file:` URL of a
/// directory, which ends with a slash; `None` for a path that is not
/// absolute on the platform. The url crate writes the path's `file:` URL
/// (see `file_url_of`), each component's UTF-8 bytes escaped as its
/// percent-encoding sets say, then adds a slash unless the URL ends with
/// one. A Unix path of that form is not absolute on Windows, nor a drive
/// path on Unix; there the result is `None`. Of other paths only the
/// trailing slash is stated.
#[verifier::external_body]
fn directory_file_url(path: &str) -> (r: Option<String>)
    ensures
        r matches Some(u) ==> u@.len() > 0 && u@.last() == '/',
        file_url_of(path@) is Some && r is Some ==> r.unwrap()@ == with_trailing_slash(
            file_url_of(path@)->0,
        ),
{
    url::Url::from_directory_path(path).ok().map(|u| u.to_string())
}

/// The explanation of a failure, or the text produced.
pub open spec fn text_outcome(r: Result<String, AppError>) -> Result<Seq<char>, Seq<char>> {
    match r {
        Ok(s) => Ok(s@),
        Err(e) => Err(e.spec_message()),
    }
}

/// The base address of the offline Windows mirror, handed to the mirror
/// endpoints: `present` tells, for each of the three files of
/// `windows_paths`, whether it is a file. Refused before the root is set;
/// otherwise decided by `windows_endpoints_from` on the three paths and on
/// the URL that the url crate gives for the directory, which ends with a
/// slash when there is one and, for a directory whose form tells the
/// platform, is its `file:` URL with a trailing slash (see
/// `directory_file_url`).
pub fn windows_endpoints(bundle: &OfflineBundle, present: &Vec<bool>) -> (r: Result<
    String,
    AppError,
>)
    requires
        present@.len() == 3,
    ensures
        bundle.spec_root() is None ==> (r matches Err(e) && e.spec_message()
            == "内置离线资源尚未初始化"@),
        bundle.spec_root() is Some ==> exists|windows: Seq<char>, required: Seq<Seq<char>>, url: Option<Seq<char>>|
            required.len() == 3 && (plain_base(bundle.spec_root()->0) ==> is_windows_layout(
                bundle.spec_root()->0,
                windows,
                required,
            )) && (url matches Some(u) ==> u.len() > 0 && u.last() == '/') && (file_url_of(
                windows,
            ) is Some && url is Some ==> url.unwrap() == with_trailing_slash(
                file_url_of(windows)->0,
            )) && text_outcome(r)
                == spec_windows_endpoints(windows, required, present@, url),
        r matches Ok(s) ==> s@ == trim_end_slashes(s@),
{
    let (windows, required) = windows_paths(bundle)?;
    let dir_url = directory_file_url(windows.as_str());
    let ghost url = text_view(dir_url);
    let r = windows_endpoints_from(windows.as_str(), &required, present, dir_url);
    proof {
        let req = required@.map_values(|s: String| s@);
        assert(req.len() == 3);
        assert(text_outcome(r) == spec_windows_endpoints(windows@, req, present@, url));
        lemma_trim_idempotent(windows@, req, present@, url);
    }
    r
}

proof fn lemma_trim_end_slashes_twice(text: Seq<char>)
    ensures
        trim_end_slashes(trim_end_slashes(text)) == trim_end_slashes(text),
    decreases text.len(),
{
    if text.len() > 0 && text.last() == '/' {
        lemma_trim_end_slashes_twice(text.drop_last());
    }
}

proof fn lemma_trim_idempotent(
    windows: Seq<char>,
    required: Seq<Seq<char>>,
    present: Seq<bool>,
    dir_url: Option<Seq<char>>,
)
    ensures
        spec_windows_endpoints(windows, required, present, dir_url) matches Ok(base) ==> base
            == trim_end_slashes(base),
    decreases required.len(),
{
    if required.len() > 0 && present.len() > 0 {
        lemma_trim_idempotent(windows, required.drop_first(), present.drop_first(), dir_url);
    } else if let Some(u) = dir_url {
        lemma_trim_end_slashes_twice(u);
    }
}

/// The macOS architecture names of the offline package, by the names the
/// manager may be asked for.
pub open spec fn spec_macos_architecture(architecture: Seq<char>) -> Option<Seq<char>> {
    if architecture == "aarch64"@ || architecture == "arm64"@ {
        Some("arm64"@)
    } else if architecture == "x86_64"@ || architecture == "x64"@ {
        Some("x86_64"@)
    } else {
        None
    }
}

/// The offline package's name for a macOS architecture (see `spec_macos_architecture`).
pub fn normalize_macos_architecture(architecture: &str) -> (r: Option<&'static str>)
    ensures
        match spec_macos_architecture(architecture@) {
            Some(name) => r matches Some(s) && s@ == name,
            None => r is None,
        },
{
    if crate::text::str_eq(architecture, "aarch64") || crate::text::str_eq(architecture, "arm64") {
        Some("arm64")
    } else if crate::text::str_eq(architecture, "x86_64") || crate::text::str_eq(architecture, "x64") {
        Some("x86_64")
    } else {
        None
    }
}

/// What the offline macOS package's metadata says of it.
#[derive(Debug)]
pub struct MacOfflineMetadata {
    pub architecture: String,
    pub build: u64,
    pub short_version: String,
    pub minimum_system_version: Option<String>,
    pub pub_date: Option<String>,
    pub package_file: String,
    pub content_length: u64,
    pub ed_signature: String,
}

/// `char::is_whitespace`: the character has the Unicode White_Space property.
pub open spec fn is_unicode_whitespace(c: char) -> bool {
    let v = c as u32;
    (0x9 <= v <= 0xd) || v == 0x20 || v == 0x85 || v == 0xa0 || v == 0x1680 || (0x2000 <= v
        <= 0x200a) || v == 0x2028 || v == 0x2029 || v == 0x202f || v == 0x205f || v == 0x3000
}

fn is_whitespace(c: char) -> (r: bool)
    ensures
        r == is_unicode_whitespace(c),
{
    let v = c as u32;
    (0x9 <= v && v <= 0xd) || v == 0x20 || v == 0x85 || v == 0xa0 || v == 0x1680 || (0x2000 <= v
        && v <= 0x200a) || v == 0x2028 || v == 0x2029 || v == 0x202f || v == 0x205f || v == 0x3000
}

/// The text is empty once trimmed: every character is whitespace.
pub open spec fn blank(text: Seq<char>) -> bool {
    forall|i: int| 0 <= i < text.len() ==> is_unicode_whitespace(#[trigger] text[i])
}

/// `text.trim().is_empty()`.
pub fn is_blank(text: &str) -> (r: bool)
    ensures
        r == blank(text@),
{
    let chars = crate::text::chars_of(text);
    let mut i: usize = 0;
    while i < chars.len()
        invariant
            0 <= i <= chars@.len(),
            chars@ == text@,
            forall|j: int| 0 <= j < i ==> is_unicode_whitespace(#[trigger] chars@[j]),
        decreases chars.len() - i,
    {
        if !is_whitespace(chars[i]) {
            return false;
        }
        i = i + 1;
    }
    true
}

/// Why the offline macOS package cannot serve `architecture`: an
/// architecture the package does not know, a package for another
/// architecture, or a package without a signature or a length; otherwise
/// the package's name for the architecture.
pub open spec fn spec_mac_package_arch(
    architecture: Seq<char>,
    package_arch: Seq<char>,
    ed_signature: Seq<char>,
    content_length: u64,
) -> Result<Seq<char>, Seq<char>> {
    match spec_macos_architecture(architecture) {
        None => Err("不支持的 macOS 离线架构："@ + architecture),
        Some(expected) => if package_arch != expected {
            Err("macOS 内置离线包架构不匹配：需要 "@ + expected + "，实际 "@ + package_arch)
        } else if blank(ed_signature) || content_length == 0 {
            Err("macOS 内置离线包缺少签名或长度"@)
        } else {
            Ok(expected)
        },
    }
}

/// Checks the offline macOS package's metadata against the architecture
/// asked for (see `spec_mac_package_arch`).
pub fn validate_mac_metadata(metadata: &MacOfflineMetadata, architecture: &str) -> (r: Result<
    &'static str,
    AppError,
>)
    ensures
        match spec_mac_package_arch(
            architecture@,
            metadata.architecture@,
            metadata.ed_signature@,
            metadata.content_length,
        ) {
            Ok(name) => r matches Ok(s) && s@ == name,
            Err(m) => r matches Err(e) && e.spec_message() == m,
        },
{
    let expected = match normalize_macos_architecture(architecture) {
        Some(a) => a,
        None => {
            return Err(message_with("不支持的 macOS 离线架构：", architecture));
        },
    };
    if !crate::text::str_eq(metadata.architecture.as_str(), expected) {
        let mut m = String::from_str("macOS 内置离线包架构不匹配：需要 ");
        m.append(expected);
        m.append("，实际 ");
        m.append(metadata.architecture.as_str());
        return Err(AppError::Internal(m));
    }
    if is_blank(metadata.ed_signature.as_str()) || metadata.content_length == 0 {
        return Err(AppError::Internal(String::from_str("macOS 内置离线包缺少签名或长度")));
    }
    Ok(expected)
}

/// Checks that the package file has the length that its metadata gives.
pub fn check_mac_package_length(actual: u64, expected: u64) -> (r: Result<(), AppError>)
    ensures
        r is Ok <==> actual == expected,
        r matches Err(e) ==> e.spec_message() == "macOS 内置离线包长度不匹配："@ + decimal_text(
            actual as nat,
        ) + " != "@ + decimal_text(expected as nat),
{
    if actual != expected {
        let mut m = String::from_str("macOS 内置离线包长度不匹配：");
        m.append(decimal_string(actual).as_str());
        m.append(" != ");
        m.append(decimal_string(expected).as_str());
        return Err(AppError::Internal(m));
    }
    Ok(())
}

/// Where the offline macOS update feed says it comes from.
pub fn mac_offline_source(architecture: &str) -> (r: String)
    ensures
        r@ == "offline://embedded/macos/"@ + architecture@,
{
    let mut s = String::from_str("offline://embedded/macos/");
    s.append(architecture);
    s
}

/// The offline macOS update: the single full package that the feed offers.
#[derive(Debug)]
pub struct MacOfflineUpdate {
    pub build: u64,
    pub short_version: String,
    pub minimum_system_version: Option<String>,
    pub pub_date: Option<String>,
    pub url: String,
    pub length: u64,
    pub ed_signature: Option<String>,
}

/// The offline macOS resources: their directory and its metadata file. For
/// a root without `?` they are its `macos` directory and that directory's
/// `metadata.json`.
pub fn mac_paths(bundle: &OfflineBundle) -> (r: Result<(String, String), AppError>)
    ensures
        bundle.spec_root() is None <==> r is Err,
        r matches Err(e) ==> e.spec_message() == "内置离线资源尚未初始化"@,
        r matches Ok(p) ==> (plain_base(bundle.spec_root()->0) ==> is_adjoined(
            bundle.spec_root()->0,
            "macos"@,
            p.0@,
        ) && is_adjoined(p.0@, "metadata.json"@, p.1@)),
{
    let root = bundle.root()?;
    let macos = path_join(root.as_str(), "macos");
    proof {
        reveal_strlit("macos");
        reveal_strlit("metadata.json");
        if plain_base(root@) {
            lemma_adjoined_plain(root@, "macos"@, macos@);
        }
    }
    let metadata_path = path_join(macos.as_str(), "metadata.json");
    Ok((macos, metadata_path))
}

/// Where the package that the metadata names lies: `package_file` joined
/// to the `macos` directory (see `crate::paths::path_join`).
pub fn mac_package_path(macos: &str, package_file: &str) -> (r: String)
    ensures
        plain_base(macos@) && relative_name(package_file@) ==> is_adjoined(
            macos@,
            package_file@,
            r@,
        ),
{
    path_join(macos, package_file)
}

/// `url::Url::from_file_path` shown as text: the `file:` URL of an absolute
/// path; `None` for a path that is not absolute on the platform. The url
/// crate writes the path's `file:` URL (see `file_url_of`), each
/// component's UTF-8 bytes escaped as its percent-encoding sets say. A
/// Unix path of that form is not absolute on Windows, nor a drive path on
/// Unix; there the result is `None`. Of other paths only the `file://`
/// start is stated.
#[verifier::external_body]
fn package_file_url(path: &str) -> (r: Option<String>)
    ensures
        r matches Some(u) ==> "file://"@.is_prefix_of(u@),
        file_url_of(path@) is Some && r is Some ==> r.unwrap()@ == file_url_of(path@)->0,
{
    url::Url::from_file_path(path).ok().map(|u| u.to_string())
}

/// The update, built from the metadata once the package has been checked:
/// the update copies the metadata's versions, dates, length and signature,
/// and takes `url` as the package's address.
pub open spec fn update_matches(
    up: MacOfflineUpdate,
    metadata: MacOfflineMetadata,
    url: Seq<char>,
) -> bool {
    &&& up.build == metadata.build
    &&& up.short_version@ == metadata.short_version@
    &&& text_view(up.minimum_system_version) == text_view(metadata.minimum_system_version)
    &&& text_view(up.pub_date) == text_view(metadata.pub_date)
    &&& up.url@ == url
    &&& up.length == metadata.content_length
    &&& text_view(up.ed_signature) == Some(metadata.ed_signature@)
}

/// The feed's source and the update when the metadata serves `architecture`
/// (see `spec_mac_package_arch`), the package at `package_path` has the
/// length that the metadata gives, and the package has a `file:` URL.
pub open spec fn mac_update_ok(
    r: Result<(String, MacOfflineUpdate), AppError>,
    metadata: MacOfflineMetadata,
    architecture: Seq<char>,
    actual_length: u64,
    package_path: Seq<char>,
    package_url: Option<Seq<char>>,
) -> bool {
    match spec_mac_package_arch(
        architecture,
        metadata.architecture@,
        metadata.ed_signature@,
        metadata.content_length,
    ) {
        Err(m) => r matches Err(e) && e.spec_message() == m,
        Ok(name) => if actual_length != metadata.content_length {
            r matches Err(e) && e.spec_message() == "macOS 内置离线包长度不匹配："@ + decimal_text(
                actual_length as nat,
            ) + " != "@ + decimal_text(metadata.content_length as nat)
        } else {
            match package_url {
                None => r matches Err(e) && e.spec_message() == "无法生成离线文件 URL："@
                    + package_path,
                Some(u) => r matches Ok(out) && out.0@ == "offline://embedded/macos/"@ + name
                    && update_matches(out.1, metadata, u),
            }
        },
    }
}

/// Builds the offline macOS feed entry from the package's metadata, the
/// architecture asked for, the package's length on disk, its path and its
/// `file:` URL (see `mac_update_ok`).
pub fn mac_update(
    metadata: MacOfflineMetadata,
    architecture: &str,
    actual_length: u64,
    package_path: &str,
    package_url: Option<String>,
) -> (r: Result<(String, MacOfflineUpdate), AppError>)
    ensures
        mac_update_ok(
            r,
            metadata,
            architecture@,
            actual_length,
            package_path@,
            text_view(package_url),
        ),
{
    let expected = validate_mac_metadata(&metadata, architecture)?;
    check_mac_package_length(actual_length, metadata.content_length)?;
    let url = match package_url {
        Some(u) => u,
        None => {
            return Err(message_with("无法生成离线文件 URL：", package_path));
        },
    };
    let source = mac_offline_source(expected);
    let update = MacOfflineUpdate {
        build: metadata.build,
        short_version: metadata.short_version,
        minimum_system_version: metadata.minimum_system_version,
        pub_date: metadata.pub_date,
        url,
        length: metadata.content_length,
        ed_signature: Some(metadata.ed_signature),
    };
    Ok((source, update))
}

/// The offline macOS feed entry for the package at `package_path`, whose
/// length on disk is `actual_length`: decided by `mac_update` on the URL
/// that the url crate gives for the path, which is a `file://` URL when
/// there is one, namely the path's `file:` URL for a path whose form tells
/// the platform (see `package_file_url`).
pub fn mac_appcast_entry(
    metadata: MacOfflineMetadata,
    architecture: &str,
    actual_length: u64,
    package_path: &str,
) -> (r: Result<(String, MacOfflineUpdate), AppError>)
    ensures
        exists|url: Option<Seq<char>>|
            (url matches Some(u) ==> "file://"@.is_prefix_of(u)) && (file_url_of(package_path@) is Some
                && url is Some ==> url.unwrap() == file_url_of(package_path@)->0) && mac_update_ok(
                r,
                metadata,
                architecture@,
                actual_length,
                package_path@,
                url,
            ),
{
    let package_url = package_file_url(package_path);
    let ghost url = text_view(package_url);
    let r = mac_update(metadata, architecture, actual_length, package_path, package_url);
    proof {
        assert((url matches Some(u) ==> "file://"@.is_prefix_of(u)) && (file_url_of(package_path@)
            is Some && url is Some ==> url.unwrap() == file_url_of(package_path@)->0)
            && mac_update_ok(
            r,
            metadata,
            architecture@,
            actual_length,
            package_path@,
            url,
        ));
    }
    r
}

} // verus!

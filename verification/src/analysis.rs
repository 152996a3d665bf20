//! Reading an archive's header and deciding which bundles the Chinese
//! patch rewrites, and how.
use vstd::prelude::*;
use vstd::utf8::valid_utf8;

use crate::asar::{header_json_bytes, spec_header_json};
use crate::error::{error_with, error_with_count, explains, install_error, EngineError, Refusal};
use crate::header::{collect_packed_files, spec_members_files, views, PackedFile, PackedFileView};
use crate::i18n_patch::{
    patch_renderer_i18n, renderer_i18n_bundle_candidate, renderer_i18n_patch_is_valid,
    spec_patch_renderer_i18n, spec_renderer_i18n_bundle_candidate,
    spec_renderer_i18n_patch_is_valid,
};
use crate::json::{
    json_parse, jv, lemma_get_view, parse_json, spec_get, spec_get_v, Json, JsonV,
};
use crate::locale_patch::{
    locale_plain, locale_round_trips, native_locale_is_valid, patch_native_locale, spec_embedded_object,
    spec_locale_has_all,
    spec_patch_native_locale, NATIVE_LOCALE_PATH,
};
use crate::matchers::utf8_text;
use crate::menu_patch::{
    menu_patch_is_valid, patch_main_menu, spec_menu_patch_is_valid, spec_patch_main_menu,
};
use crate::rewrite::{patch_views, spec_file_tree, FilePatch, FilePatchView};
use crate::text::{decimal_text, ends_with, starts_with, str_ends_with, str_eq, str_starts_with};

verus! {

/// Largest JavaScript entry that is read from the archive to be inspected.
pub const MAX_CANDIDATE_JS_BYTES: u64 = 134217728;

/// Whether an archive still needs the Chinese patch.
#[derive(PartialEq, Eq, Structural, Clone, Copy, Debug)]
pub enum PatchState {
    NeedsPatch,
    AlreadyPatched,
}

/// An archive's header, as read from its header pickle.
#[derive(Debug)]
pub struct AsarArchive {
    pub header: Json,
    pub header_json: Vec<u8>,
    pub data_offset: u64,
}

/// The header document has a file tree.
pub open spec fn has_file_tree(header: JsonV) -> bool {
    spec_get_v(header, "files"@) matches Some(JsonV::Object(_))
}

/// The header JSON framed by a header pickle and the document it holds;
/// refused for an inconsistent pickle, JSON that does not parse, or a
/// document without a file tree.
pub open spec fn spec_read_header(pickle: Seq<u8>) -> Result<(Seq<u8>, JsonV), Refusal> {
    match spec_header_json(pickle) {
        None => Err(Refusal::Exactly("invalid app.asar header pickle"@)),
        Some(json) => match json_parse(json) {
            None => Err(Refusal::Starting("parse app.asar header JSON: "@)),
            Some(header) => if has_file_tree(header) {
                Ok((json, header))
            } else {
                Err(Refusal::Exactly("app.asar header has no file tree"@))
            },
        },
    }
}

/// Reads the header of an archive from its header pickle of `header_size`
/// bytes (see `spec_read_header`); the payload starts after the 8-byte
/// prefix and the pickle.
pub fn archive_from_pickle(pickle: &[u8], header_size: u32) -> (r: Result<AsarArchive, EngineError>)
    requires
        pickle@.len() == header_size,
        header_size >= 8,
    ensures
        match spec_read_header(pickle@) {
            Ok((json, header)) => r matches Ok(a) && a.header_json@ == json && jv(a.header)
                == header && a.data_offset == 8 + header_size,
            Err(why) => r matches Err(e) && explains(why, e.spec_message()),
        },
{
    let json = header_json_bytes(pickle)?;
    let header = match parse_json(json.as_slice()) {
        Ok(h) => h,
        Err(e) => {
            return Err(error_with("parse app.asar header JSON: ", e.as_str()));
        },
    };
    proof {
        lemma_get_view(header, "files"@);
    }
    let has_tree = match header.get("files") {
        Some(files) => files.as_object().is_some(),
        None => false,
    };
    if !has_tree {
        return Err(install_error("app.asar header has no file tree"));
    }
    Ok(AsarArchive { header, header_json: json, data_offset: 8 + header_size as u64 })
}

/// The packed files of an archive, in header order (see `spec_members_files`).
pub fn archive_files(archive: &AsarArchive) -> (r: Result<Vec<PackedFile>, EngineError>)
    ensures
        match spec_file_tree(archive.header) {
            None => r matches Err(e) && e.spec_message() == "app.asar header has no file tree"@,
            Some(tree) => match spec_members_files(tree, ""@) {
                Ok(files) => r matches Ok(v) && views(v@) == files,
                Err(m) => r matches Err(e) && e.spec_message() == m,
            },
        },
{
    let tree = match archive.header.get("files") {
        Some(files) => match files.as_object() {
            Some(tree) => tree,
            None => {
                return Err(install_error("app.asar header has no file tree"));
            },
        },
        None => {
            return Err(install_error("app.asar header has no file tree"));
        },
    };
    let root = String::new();
    proof {
        reveal_strlit("");
        assert(root@ =~= ""@);
    }
    collect_packed_files(tree, &root)
}

/// A main-process bundle: `.vite/build/main-*.js`.
pub open spec fn is_main_bundle(path: Seq<char>) -> bool {
    starts_with(path, ".vite/build/main-"@) && ends_with(path, ".js"@)
}

/// A renderer script small enough to be inspected: `webview/assets/*.js`.
pub open spec fn is_renderer_candidate(f: PackedFileView) -> bool {
    starts_with(f.path, "webview/assets/"@) && ends_with(f.path, ".js"@) && f.size
        <= MAX_CANDIDATE_JS_BYTES
}

/// Position of the first file at `path`.
pub open spec fn first_at(files: Seq<PackedFileView>, path: Seq<char>) -> Option<int>
    decreases files.len(),
{
    if files.len() == 0 {
        None
    } else if files[0].path == path {
        Some(0)
    } else {
        match first_at(files.drop_first(), path) {
            Some(i) => Some(i + 1),
            None => None,
        }
    }
}

pub proof fn lemma_first_at(files: Seq<PackedFileView>, path: Seq<char>, i: int)
    requires
        0 <= i <= files.len(),
        forall|j: int| 0 <= j < i ==> files[j].path != path,
    ensures
        i < files.len() && files[i].path == path ==> first_at(files, path) == Some(i),
        i == files.len() ==> first_at(files, path) is None,
    decreases i,
{
    if i > 0 {
        let rest = files.drop_first();
        assert forall|j: int| 0 <= j < i - 1 implies rest[j].path != path by {
            assert(rest[j] == files[j + 1]);
        }
        lemma_first_at(rest, path, i - 1);
        if i < files.len() {
            assert(rest[i - 1] == files[i]);
        }
    }
}

/// The bundles the patch works on: the single main-process bundle, the
/// first zh-CN native locale, and the renderer scripts to inspect; refused
/// unless there is exactly one main-process bundle and a native locale.
pub open spec fn spec_select_targets(files: Seq<PackedFileView>) -> Result<
    (PackedFileView, PackedFileView, Seq<PackedFileView>),
    Refusal,
> {
    let mains = files.filter(|f: PackedFileView| is_main_bundle(f.path));
    if mains.len() != 1 {
        Err(
            Refusal::Exactly(
                "当前 Codex 应包含 1 个主进程 bundle，实际找到 "@ + decimal_text(mains.len())
                    + " 个；已停止修改"@,
            ),
        )
    } else {
        match first_at(files, NATIVE_LOCALE_PATH@) {
            None => Err(Refusal::Exactly("当前 Codex 未内置 native-menu-locales/zh-CN.json"@)),
            Some(i) => Ok((mains[0], files[i], files.filter(|f: PackedFileView| is_renderer_candidate(f)))),
        }
    }
}

/// The bundles that the patch works on.
#[derive(Debug)]
pub struct PatchTargets {
    pub main: PackedFile,
    pub locale: PackedFile,
    pub renderer_candidates: Vec<PackedFile>,
}

proof fn lemma_filter_step(s: Seq<PackedFileView>, i: int, pred: spec_fn(PackedFileView) -> bool)
    requires
        0 <= i < s.len(),
    ensures
        s.take(i + 1).filter(pred) == if pred(s[i]) {
            s.take(i).filter(pred).push(s[i])
        } else {
            s.take(i).filter(pred)
        },
{
    reveal(Seq::filter);
    assert(s.take(i + 1).drop_last() =~= s.take(i));
    assert(s.take(i + 1).last() == s[i]);
}

/// Picks the bundles that the patch works on (see `spec_select_targets`).
pub fn select_patch_targets(files: &Vec<PackedFile>) -> (r: Result<PatchTargets, EngineError>)
    ensures
        match spec_select_targets(views(files@)) {
            Ok((main, locale, candidates)) => r matches Ok(t) && t.main@ == main && t.locale@
                == locale && views(t.renderer_candidates@) == candidates,
            Err(why) => r matches Err(e) && explains(why, e.spec_message()),
        },
{
    let ghost fv = views(files@);
    let ghost main_pred = |f: PackedFileView| is_main_bundle(f.path);
    let ghost renderer_pred = |f: PackedFileView| is_renderer_candidate(f);
    let mut mains: Vec<PackedFile> = Vec::new();
    let mut renderers: Vec<PackedFile> = Vec::new();
    let mut locale: Option<PackedFile> = None;
    let mut i: usize = 0;
    proof {
        assert(fv.take(0) =~= Seq::<PackedFileView>::empty());
        reveal(Seq::filter);
        assert(fv.take(0).filter(main_pred) =~= Seq::<PackedFileView>::empty());
        assert(fv.take(0).filter(renderer_pred) =~= Seq::<PackedFileView>::empty());
        assert(views(mains@) =~= Seq::<PackedFileView>::empty());
        assert(views(renderers@) =~= Seq::<PackedFileView>::empty());
    }
    while i < files.len()
        invariant
            0 <= i <= files@.len(),
            fv == views(files@),
            fv.len() == files@.len(),
            views(mains@) == fv.take(i as int).filter(main_pred),
            views(renderers@) == fv.take(i as int).filter(renderer_pred),
            main_pred == (|f: PackedFileView| is_main_bundle(f.path)),
            renderer_pred == (|f: PackedFileView| is_renderer_candidate(f)),
            match locale {
                Some(l) => first_at(fv, NATIVE_LOCALE_PATH@) matches Some(k) && k < i && fv[k]
                    == l@,
                None => forall|j: int| 0 <= j < i ==> fv[j].path != NATIVE_LOCALE_PATH@,
            },
        decreases files.len() - i,
    {
        let f = &files[i];
        proof {
            lemma_filter_step(fv, i as int, main_pred);
            lemma_filter_step(fv, i as int, renderer_pred);
            assert(fv[i as int] == f@);
        }
        let is_main = str_starts_with(f.path.as_str(), ".vite/build/main-") && str_ends_with(
            f.path.as_str(),
            ".js",
        );
        if is_main {
            let ghost before = mains@;
            mains.push(f.clone());
            proof {
                assert(views(mains@) =~= views(before).push(f@));
            }
        }
        let is_renderer = str_starts_with(f.path.as_str(), "webview/assets/") && str_ends_with(
            f.path.as_str(),
            ".js",
        ) && f.size <= MAX_CANDIDATE_JS_BYTES;
        if is_renderer {
            let ghost before = renderers@;
            renderers.push(f.clone());
            proof {
                assert(views(renderers@) =~= views(before).push(f@));
            }
        }
        if locale.is_none() && str_eq(f.path.as_str(), NATIVE_LOCALE_PATH) {
            proof {
                lemma_first_at(fv, NATIVE_LOCALE_PATH@, i as int);
            }
            locale = Some(f.clone());
        }
        i = i + 1;
    }
    proof {
        assert(fv.take(i as int) =~= fv);
    }
    if mains.len() != 1 {
        return Err(error_with_count(
            "当前 Codex 应包含 1 个主进程 bundle，实际找到 ",
            mains.len(),
            " 个；已停止修改",
        ));
    }
    let locale = match locale {
        Some(l) => l,
        None => {
            proof {
                lemma_first_at(fv, NATIVE_LOCALE_PATH@, fv.len() as int);
            }
            return Err(install_error("当前 Codex 未内置 native-menu-locales/zh-CN.json"));
        },
    };
    let main = mains[0].clone();
    Ok(PatchTargets { main, locale, renderer_candidates: renderers })
}

fn error_with_path(prefix: &str, path: &String) -> (e: EngineError)
    ensures
        e.spec_message() == prefix@ + path@,
{
    error_with(prefix, path.as_str())
}

/// Where a packed file starts in the archive, when it is small enough to be
/// inspected and its absolute offset fits.
pub open spec fn spec_packed_file_start(data_offset: u64, entry: PackedFileView) -> Result<u64, Refusal> {
    if entry.size > MAX_CANDIDATE_JS_BYTES {
        Err(Refusal::Exactly("ASAR JavaScript entry is unexpectedly large: "@ + entry.path))
    } else if data_offset + entry.offset > u64::MAX {
        Err(Refusal::Exactly("ASAR file offset overflow"@))
    } else {
        Ok((data_offset + entry.offset) as u64)
    }
}

/// The absolute offset of a packed file that is about to be read (see
/// `spec_packed_file_start`).
pub fn packed_file_start(data_offset: u64, entry: &PackedFile) -> (r: Result<u64, EngineError>)
    ensures
        match spec_packed_file_start(data_offset, entry@) {
            Ok(start) => r == Ok::<u64, EngineError>(start),
            Err(why) => r matches Err(e) && explains(why, e.spec_message()),
        },
{
    if entry.size > MAX_CANDIDATE_JS_BYTES {
        return Err(error_with_path("ASAR JavaScript entry is unexpectedly large: ", &entry.path));
    }
    if entry.offset > u64::MAX - data_offset {
        return Err(install_error("ASAR file offset overflow"));
    }
    Ok(data_offset + entry.offset)
}

/// Checks that a packed file starting at `start` lies inside an archive of
/// `archive_size` bytes.
pub fn check_packed_file_end(start: u64, entry: &PackedFile, archive_size: u64) -> (r: Result<
    (),
    EngineError,
>)
    ensures
        r is Ok <==> start + entry.size <= archive_size,
        r matches Err(e) ==> e.spec_message() == "ASAR entry extends beyond archive: "@ + entry.path@,
{
    if entry.size > u64::MAX - start || start + entry.size > archive_size {
        return Err(error_with_path("ASAR entry extends beyond archive: ", &entry.path));
    }
    Ok(())
}

/// A renderer script with its content.
pub open spec fn candidate_views(c: Seq<(PackedFile, Vec<u8>)>) -> Seq<(PackedFileView, Seq<u8>)> {
    c.map_values(|p: (PackedFile, Vec<u8>)| (p.0@, p.1@))
}

/// The script is UTF-8 text that sets up the renderer's interface language.
pub open spec fn is_i18n_bundle(c: (PackedFileView, Seq<u8>)) -> bool {
    valid_utf8(c.1) && spec_renderer_i18n_bundle_candidate(c.1)
}

/// The single renderer script that sets up the interface language; refused
/// unless there is exactly one.
pub open spec fn spec_choose_renderer(candidates: Seq<(PackedFileView, Seq<u8>)>) -> Result<
    (PackedFileView, Seq<u8>),
    Refusal,
> {
    let found = candidates.filter(|c: (PackedFileView, Seq<u8>)| is_i18n_bundle(c));
    if found.len() != 1 {
        Err(
            Refusal::Exactly(
                "当前 Codex 应包含 1 个 Webview 中文初始化 bundle，实际找到 "@ + decimal_text(
                    found.len(),
                ) + " 个；已停止修改"@,
            ),
        )
    } else {
        Ok(found[0])
    }
}

proof fn lemma_candidate_filter_step(
    s: Seq<(PackedFileView, Seq<u8>)>,
    i: int,
    pred: spec_fn((PackedFileView, Seq<u8>)) -> bool,
)
    requires
        0 <= i < s.len(),
    ensures
        s.take(i + 1).filter(pred) == if pred(s[i]) {
            s.take(i).filter(pred).push(s[i])
        } else {
            s.take(i).filter(pred)
        },
{
    reveal(Seq::filter);
    assert(s.take(i + 1).drop_last() =~= s.take(i));
    assert(s.take(i + 1).last() == s[i]);
}

/// Picks the renderer script that sets up the interface language among the
/// inspected scripts and their contents (see `spec_choose_renderer`).
pub fn choose_renderer(candidates: Vec<(PackedFile, Vec<u8>)>) -> (r: Result<
    (PackedFile, Vec<u8>),
    EngineError,
>)
    ensures
        match spec_choose_renderer(candidate_views(candidates@)) {
            Ok(c) => r matches Ok(v) && v.0@ == c.0 && v.1@ == c.1,
            Err(why) => r matches Err(e) && explains(why, e.spec_message()),
        },
{
    let ghost cv = candidate_views(candidates@);
    let ghost pred = |c: (PackedFileView, Seq<u8>)| is_i18n_bundle(c);
    let ghost mut kept: Seq<(PackedFileView, Seq<u8>)> = Seq::empty();
    let mut count: usize = 0;
    let mut chosen: usize = 0;
    let mut i: usize = 0;
    proof {
        reveal(Seq::filter);
        assert(cv.take(0) =~= Seq::<(PackedFileView, Seq<u8>)>::empty());
    }
    while i < candidates.len()
        invariant
            0 <= i <= candidates@.len(),
            cv == candidate_views(candidates@),
            cv.len() == candidates@.len(),
            pred == (|c: (PackedFileView, Seq<u8>)| is_i18n_bundle(c)),
            kept == cv.take(i as int).filter(pred),
            count == kept.len(),
            count > 0 ==> chosen < i && kept.last() == cv[chosen as int],
        decreases candidates.len() - i,
    {
        proof {
            lemma_candidate_filter_step(cv, i as int, pred);
            assert(cv[i as int] == (candidates@[i as int].0@, candidates@[i as int].1@));
        }
        let bytes = candidates[i].1.as_slice();
        let is_bundle = match utf8_text(bytes) {
            Ok(_) => renderer_i18n_bundle_candidate(bytes),
            Err(_) => false,
        };
        if is_bundle {
            proof {
                kept = kept.push(cv[i as int]);
            }
            count = count + 1;
            chosen = i;
        }
        i = i + 1;
    }
    proof {
        assert(cv.take(i as int) =~= cv);
    }
    if count != 1 {
        return Err(error_with_count(
            "当前 Codex 应包含 1 个 Webview 中文初始化 bundle，实际找到 ",
            count,
            " 个；已停止修改",
        ));
    }
    let mut candidates = candidates;
    let picked = candidates.swap_remove(chosen);
    Ok(picked)
}

/// The content that patching gives, when it succeeds.
pub open spec fn patched_content(outcome: Result<Seq<u8>, Refusal>) -> Seq<u8> {
    match outcome {
        Ok(b) => b,
        Err(_) => Seq::empty(),
    }
}

/// The outcome of analysing an archive: whether it still needs the patch,
/// and the new content of each bundle that the patch changes.
#[derive(Debug)]
pub struct PatchAnalysis {
    pub state: PatchState,
    pub patches: Vec<FilePatch>,
}

/// A patch of `target` when its content changes.
pub open spec fn changed(target: PackedFileView, before: Seq<u8>, after: Seq<u8>) -> Seq<
    FilePatchView,
> {
    if after == before {
        Seq::empty()
    } else {
        seq![FilePatchView { target, bytes: after }]
    }
}

/// The patch's path is `key` (`exact`) or begins with `key`.
pub open spec fn patch_matches(p: FilePatchView, key: Seq<char>, exact: bool) -> bool {
    if exact {
        p.target.path == key
    } else {
        starts_with(p.target.path, key)
    }
}

/// Position of the first patch whose path matches.
pub open spec fn first_patch(ps: Seq<FilePatchView>, key: Seq<char>, exact: bool) -> Option<int>
    decreases ps.len(),
{
    if ps.len() == 0 {
        None
    } else if patch_matches(ps[0], key, exact) {
        Some(0)
    } else {
        match first_patch(ps.drop_first(), key, exact) {
            Some(i) => Some(i + 1),
            None => None,
        }
    }
}

proof fn lemma_first_patch(ps: Seq<FilePatchView>, key: Seq<char>, exact: bool, i: int)
    requires
        0 <= i <= ps.len(),
        forall|j: int| 0 <= j < i ==> !patch_matches(#[trigger] ps[j], key, exact),
    ensures
        i < ps.len() && patch_matches(ps[i], key, exact) ==> first_patch(ps, key, exact) == Some(i),
        i == ps.len() ==> first_patch(ps, key, exact) is None,
    decreases i,
{
    if i > 0 {
        let rest = ps.drop_first();
        assert forall|j: int| 0 <= j < i - 1 implies !patch_matches(#[trigger] rest[j], key, exact) by {
            assert(rest[j] == ps[j + 1]);
        }
        lemma_first_patch(rest, key, exact, i - 1);
        if i < ps.len() {
            assert(rest[i - 1] == ps[i]);
        }
    }
}

/// The content that is checked for a bundle: that of the first matching
/// patch, or the unpatched content when no patch matches.
pub open spec fn checked_bytes(ps: Seq<FilePatchView>, key: Seq<char>, exact: bool, unpatched: Seq<
    u8,
>) -> Seq<u8> {
    match first_patch(ps, key, exact) {
        Some(i) => ps[i].bytes,
        None => unpatched,
    }
}

/// Position of the first patch whose path matches (see `first_patch`).
fn find_patch(patches: &Vec<FilePatch>, key: &str, exact: bool) -> (r: Option<usize>)
    ensures
        r matches Some(i) ==> first_patch(patch_views(patches@), key@, exact) == Some(i as int)
            && i < patches@.len(),
        r is None ==> first_patch(patch_views(patches@), key@, exact) is None,
{
    let ghost pv = patch_views(patches@);
    let mut i: usize = 0;
    while i < patches.len()
        invariant
            0 <= i <= patches@.len(),
            pv == patch_views(patches@),
            pv.len() == patches@.len(),
            forall|j: int| 0 <= j < i ==> !patch_matches(#[trigger] pv[j], key@, exact),
        decreases patches.len() - i,
    {
        let path = patches[i].target.path.as_str();
        let hit = if exact {
            str_eq(path, key)
        } else {
            str_starts_with(path, key)
        };
        proof {
            assert(pv[i as int] == patches@[i as int]@);
        }
        if hit {
            proof {
                lemma_first_patch(pv, key@, exact, i as int);
            }
            return Some(i);
        }
        i = i + 1;
    }
    proof {
        lemma_first_patch(pv, key@, exact, i as int);
    }
    None
}

/// The locale document holds every native-string addition.
pub open spec fn spec_locale_valid(doc: JsonV, additions_json: Seq<u8>) -> bool {
    match doc {
        JsonV::Object(members) => match spec_embedded_object(
            additions_json,
            "native locale additions"@,
        ) {
            Ok(adds) => spec_locale_has_all(members, adds),
            Err(_) => false,
        },
        _ => false,
    }
}

/// The patches that bring the three bundles to their patched content, in
/// the order main, locale, renderer, each only when its content changes;
/// refused when a bundle cannot be patched or the patched bundles do not
/// all check out.
pub open spec fn spec_plan_patch(
    main: PackedFileView,
    main_bytes: Seq<u8>,
    locale: PackedFileView,
    locale_bytes: Seq<u8>,
    renderer: PackedFileView,
    renderer_bytes: Seq<u8>,
    translations_json: Seq<u8>,
    additions_json: Seq<u8>,
) -> Result<Seq<FilePatchView>, Refusal> {
    match spec_patch_main_menu(main_bytes, translations_json) {
        Err(why) => Err(why),
        Ok(pm) => match spec_patch_native_locale(locale_bytes, additions_json) {
            Err(why) => Err(why),
            Ok(pl) => match spec_patch_renderer_i18n(renderer_bytes) {
                Err(why) => Err(why),
                Ok(pr) => {
                    let patches = changed(main, main_bytes, pm) + changed(locale, locale_bytes, pl)
                        + changed(renderer, renderer_bytes, pr);
                    let mb = checked_bytes(patches, ".vite/build/main-"@, false, main_bytes);
                    let lb = checked_bytes(patches, NATIVE_LOCALE_PATH@, true, locale_bytes);
                    let rb = checked_bytes(patches, renderer.path, true, renderer_bytes);
                    match json_parse(lb) {
                        None => Err(Refusal::Starting("verify patched native zh-CN locale: "@)),
                        Some(doc) => if valid_utf8(mb) && spec_menu_patch_is_valid(mb)
                            && spec_locale_valid(doc, additions_json) && valid_utf8(rb)
                            && spec_renderer_i18n_patch_is_valid(rb) {
                            Ok(patches)
                        } else {
                            Err(Refusal::Exactly("Windows 中文菜单补丁内容校验失败"@))
                        },
                    }
                },
            },
        },
    }
}

/// The state of an archive whose analysis found these patches.
pub open spec fn state_of(patches: Seq<FilePatchView>) -> PatchState {
    if patches.len() == 0 {
        PatchState::AlreadyPatched
    } else {
        PatchState::NeedsPatch
    }
}

/// `r` is the analysis that `expected` describes.
pub open spec fn analysis_outcome(
    expected: Result<Seq<FilePatchView>, Refusal>,
    r: Result<PatchAnalysis, EngineError>,
) -> bool {
    match expected {
        Ok(ps) => r matches Ok(a) && patch_views(a.patches@) == ps && a.state == state_of(ps),
        Err(why) => r matches Err(e) && explains(why, e.spec_message()),
    }
}

fn push_if_changed(patches: &mut Vec<FilePatch>, target: PackedFile, before: &[u8], after: Vec<u8>)
    ensures
        patch_views(final(patches)@) == patch_views(old(patches)@) + changed(target@, before@, after@),
{
    let ghost prev = patches@;
    if !crate::bytes::bytes_equal(after.as_slice(), before) {
        let ghost p = FilePatch { target, patched_bytes: after }@;
        patches.push(FilePatch { target, patched_bytes: after });
        proof {
            assert(patch_views(patches@) =~= patch_views(prev) + seq![p]);
        }
    } else {
        proof {
            assert(patch_views(patches@) =~= patch_views(prev) + Seq::<FilePatchView>::empty());
        }
    }
}

/// Patches the three bundles and checks the result (see `spec_plan_patch`);
/// `translations_json` and `additions_json` are the embedded menu
/// translations and native-string additions.
pub fn plan_patch(
    main: PackedFile,
    main_bytes: &[u8],
    locale: PackedFile,
    locale_bytes: &[u8],
    renderer: PackedFile,
    renderer_bytes: &[u8],
    translations_json: &[u8],
    additions_json: &[u8],
) -> (r: Result<PatchAnalysis, EngineError>)
    ensures
        analysis_outcome(
            spec_plan_patch(
                main@,
                main_bytes@,
                locale@,
                locale_bytes@,
                renderer@,
                renderer_bytes@,
                translations_json@,
                additions_json@,
            ),
            r,
        ),
        r is Ok ==> (locale_plain(locale_bytes@, additions_json@) ==> spec_plan_patch(
            main@,
            patched_content(spec_patch_main_menu(main_bytes@, translations_json@)),
            locale@,
            patched_content(spec_patch_native_locale(locale_bytes@, additions_json@)),
            renderer@,
            patched_content(spec_patch_renderer_i18n(renderer_bytes@)),
            translations_json@,
            additions_json@,
        ) == Ok::<Seq<FilePatchView>, Refusal>(Seq::empty())),
{
    let patched_main = patch_main_menu(main_bytes, translations_json)?;
    let patched_locale = patch_native_locale(locale_bytes, additions_json)?;
    let patched_renderer = patch_renderer_i18n(renderer_bytes)?;
    let renderer_path = renderer.path.clone();
    let ghost pm = patched_main@;
    let ghost pl = patched_locale@;
    let ghost pr = patched_renderer@;
    let ghost targets = (main@, locale@, renderer@);
    let mut patches: Vec<FilePatch> = Vec::new();
    proof {
        assert(patch_views(patches@) =~= Seq::<FilePatchView>::empty());
    }
    push_if_changed(&mut patches, main, main_bytes, patched_main);
    push_if_changed(&mut patches, locale, locale_bytes, patched_locale);
    push_if_changed(&mut patches, renderer, renderer_bytes, patched_renderer);
    let ghost pv = patch_views(patches@);
    let mb: &[u8] = match find_patch(&patches, ".vite/build/main-", false) {
        Some(i) => patches[i].patched_bytes.as_slice(),
        None => main_bytes,
    };
    let main_valid = match utf8_text(mb) {
        Ok(_) => menu_patch_is_valid(mb),
        Err(_) => false,
    };
    let lb: &[u8] = match find_patch(&patches, NATIVE_LOCALE_PATH, true) {
        Some(i) => patches[i].patched_bytes.as_slice(),
        None => locale_bytes,
    };
    let doc = match parse_json(lb) {
        Ok(d) => d,
        Err(e) => {
            return Err(error_with("verify patched native zh-CN locale: ", e.as_str()));
        },
    };
    let locale_valid = match &doc {
        Json::Object(members) => match native_locale_is_valid(members, additions_json) {
            Ok(b) => b,
            Err(_) => false,
        },
        _ => false,
    };
    let rb: &[u8] = match find_patch(&patches, renderer_path.as_str(), true) {
        Some(i) => patches[i].patched_bytes.as_slice(),
        None => renderer_bytes,
    };
    let renderer_valid = match utf8_text(rb) {
        Ok(_) => renderer_i18n_patch_is_valid(rb),
        Err(_) => false,
    };
    if !main_valid || !locale_valid || !renderer_valid {
        return Err(install_error("Windows 中文菜单补丁内容校验失败"));
    }
    proof {
        if locale_plain(locale_bytes@, additions_json@) {
            assert(locale_round_trips(locale_bytes@, additions_json@));
            let again = changed(targets.0, pm, pm) + changed(targets.1, pl, pl) + changed(
                targets.2,
                pr,
                pr,
            );
            assert(again =~= Seq::<FilePatchView>::empty());
            assert(first_patch(again, ".vite/build/main-"@, false) is None);
            assert(first_patch(again, NATIVE_LOCALE_PATH@, true) is None);
            assert(first_patch(again, targets.2.path, true) is None);
        }
    }
    let state = if patches.len() == 0 {
        PatchState::AlreadyPatched
    } else {
        PatchState::NeedsPatch
    };
    Ok(PatchAnalysis { state, patches })
}

} // verus!

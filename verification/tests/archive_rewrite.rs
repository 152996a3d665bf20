use codex_patch::analysis::{
    archive_files, archive_from_pickle, check_packed_file_end, choose_renderer, packed_file_start,
    plan_patch, select_patch_targets, AsarArchive, PatchAnalysis, PatchState,
};
use codex_patch::asar::{
    align_four, encode_archive_prefix, header_json_bytes, header_pickle, parse_archive_prefix,
    read_u32,
};
use codex_patch::header::{integrity_value, PackedFile, DEFAULT_INTEGRITY_BLOCK_SIZE};
use codex_patch::json::{json_u64, print_json, Json};
use codex_patch::rewrite::{plan_patched_asar, FilePatch, PayloadStep};

const ORIGINAL_MAIN: &[u8] = b"const It={items:[]};l.Menu.setApplicationMenu(It);";
const ORIGINAL_RENDERER: &[u8] =
    b"o=a?.get(`enable_i18n`,!1);let s=o,c=a?.get(`locale_source`,`IDE`);";
const CACHED_RENDERER: &[u8] = b"let o;t[0]===a?o=t[1]:(o=a?.get(`enable_i18n`,!1),t[0]=a,t[1]=o);let s=o,c=a?.get(`locale_source`,`IDE`),l=localeOverride;";
const TRANSLATIONS: &[u8] = "{\"File\":\"文件\"}".as_bytes();
const ADDITIONS: &[u8] = "{\"menu.quit\":\"退出\"}".as_bytes();

fn member(name: &str, value: Json) -> (String, Json) {
    (name.to_string(), value)
}

fn file_entry(offset: u64, bytes: &[u8]) -> Json {
    Json::Object(vec![
        member("integrity", integrity_value(bytes, DEFAULT_INTEGRITY_BLOCK_SIZE)),
        member("offset", Json::Str(offset.to_string())),
        member("size", json_u64(bytes.len() as u64)),
    ])
}

fn directory(files: Vec<(String, Json)>) -> Json {
    Json::Object(vec![member("files", Json::Object(files))])
}

/// An archive laid out as package.json, main bundle, locale, renderer
/// scripts and a trailing script; returns the archive and the tail.
fn build_archive(
    main: &[u8],
    locale: &[u8],
    renderer_name: &str,
    renderer: &[u8],
    extra: &[(&str, &[u8])],
) -> (Vec<u8>, Vec<u8>) {
    let package = br#"{"name":"openai-codex-electron","version":"1.2.3"}"#;
    let tail = b"tail-content".to_vec();
    let main_offset = package.len() as u64;
    let locale_offset = main_offset + main.len() as u64;
    let mut next = locale_offset + locale.len() as u64;
    let mut assets = vec![member(renderer_name, file_entry(next, renderer))];
    next += renderer.len() as u64;
    for (name, bytes) in extra {
        assets.push(member(name, file_entry(next, bytes)));
        next += bytes.len() as u64;
    }
    assets.push(member("tail.js", file_entry(next, &tail)));
    let root = Json::Object(vec![member(
        "files",
        Json::Object(vec![
            member(".vite", directory(vec![member("build", directory(vec![member("main-test.js", file_entry(main_offset, main))]))])),
            member("native-menu-locales", directory(vec![member("zh-CN.json", file_entry(locale_offset, locale))])),
            member("package.json", file_entry(0, package)),
            member("webview", directory(vec![member("assets", directory(assets))])),
        ]),
    )]);
    let json = print_json(&root);
    let pickle = header_pickle(&json).unwrap();
    let mut archive = encode_archive_prefix(pickle.len() as u32);
    archive.extend_from_slice(&pickle);
    archive.extend_from_slice(package);
    archive.extend_from_slice(main);
    archive.extend_from_slice(locale);
    archive.extend_from_slice(renderer);
    for (_, bytes) in extra {
        archive.extend_from_slice(bytes);
    }
    archive.extend_from_slice(&tail);
    (archive, tail)
}

fn read_archive(bytes: &[u8]) -> AsarArchive {
    let header_size = parse_archive_prefix(&bytes[..8], bytes.len() as u64).unwrap();
    archive_from_pickle(&bytes[8..8 + header_size as usize], header_size).unwrap()
}

fn entry_bytes(bytes: &[u8], archive: &AsarArchive, entry: &PackedFile) -> Vec<u8> {
    let start = packed_file_start(archive.data_offset, entry).unwrap();
    check_packed_file_end(start, entry, bytes.len() as u64).unwrap();
    bytes[start as usize..(start + entry.size) as usize].to_vec()
}

fn analyze(bytes: &[u8]) -> Result<PatchAnalysis, String> {
    let archive = read_archive(bytes);
    let files = archive_files(&archive).map_err(|e| e.message())?;
    let targets = select_patch_targets(&files).map_err(|e| e.message())?;
    let mut candidates = Vec::new();
    for entry in &targets.renderer_candidates {
        candidates.push((entry.clone(), entry_bytes(bytes, &archive, entry)));
    }
    let (renderer, renderer_bytes) = choose_renderer(candidates).map_err(|e| e.message())?;
    let main_bytes = entry_bytes(bytes, &archive, &targets.main);
    let locale_bytes = entry_bytes(bytes, &archive, &targets.locale);
    plan_patch(
        targets.main,
        &main_bytes,
        targets.locale,
        &locale_bytes,
        renderer,
        &renderer_bytes,
        TRANSLATIONS,
        ADDITIONS,
    )
    .map_err(|e| e.message())
}

fn write_patched(bytes: &[u8], analysis: &PatchAnalysis) -> Vec<u8> {
    let archive = read_archive(bytes);
    let plan = plan_patched_asar(archive.header, archive.data_offset, &analysis.patches).unwrap();
    let mut out = plan.head.clone();
    let mut pos = 0usize;
    for step in &plan.steps {
        match step {
            PayloadStep::Seek(to) => pos = *to as usize,
            PayloadStep::Copy(n) => {
                out.extend_from_slice(&bytes[pos..pos + *n as usize]);
                pos += *n as usize;
            }
            PayloadStep::Insert(i) => out.extend_from_slice(&analysis.patches[*i].patched_bytes),
            PayloadStep::CopyRest => out.extend_from_slice(&bytes[pos..]),
        }
    }
    out
}

fn extract(bytes: &[u8], path: &str) -> Vec<u8> {
    let archive = read_archive(bytes);
    let files = archive_files(&archive).unwrap();
    let entry = files.into_iter().find(|f| f.path == path).unwrap();
    entry_bytes(bytes, &archive, &entry)
}

#[test]
fn rewritten_archive_keeps_entries_after_enlarged_files() {
    let (source, tail) = build_archive(ORIGINAL_MAIN, b"{}", "app-main-test.js", ORIGINAL_RENDERER, &[]);
    let analysis = analyze(&source).unwrap();
    assert_eq!(analysis.state, PatchState::NeedsPatch);
    assert_eq!(analysis.patches.len(), 3);
    let patched = write_patched(&source, &analysis);
    assert_eq!(analyze(&patched).unwrap().state, PatchState::AlreadyPatched);
    assert_eq!(extract(&patched, "webview/assets/tail.js"), tail);
    assert_eq!(
        extract(&patched, "package.json"),
        br#"{"name":"openai-codex-electron","version":"1.2.3"}"#.to_vec()
    );
    assert_eq!(extract(&patched, "native-menu-locales/zh-CN.json"), "{\"menu.quit\":\"退出\"}".as_bytes().to_vec());
}

#[test]
fn renderer_setup_is_found_in_another_bundle() {
    let app_main: &[u8] = b"import{start}from'./app-initial-test.js';start();";
    let settings: &[u8] = b"const settings=['enable_i18n','locale_source'];";
    let (source, _) = build_archive(
        ORIGINAL_MAIN,
        b"{}",
        "app-initial-test.js",
        CACHED_RENDERER,
        &[("app-main-test.js", app_main), ("general-settings-test.js", settings)],
    );
    let analysis = analyze(&source).unwrap();
    let renderer = analysis
        .patches
        .iter()
        .find(|p| p.target.path.starts_with("webview/"))
        .unwrap();
    assert_eq!(renderer.target.path, "webview/assets/app-initial-test.js");
    let patched = write_patched(&source, &analysis);
    assert_eq!(analyze(&patched).unwrap().state, PatchState::AlreadyPatched);
    assert_eq!(extract(&patched, "webview/assets/app-main-test.js"), app_main);
    assert_eq!(extract(&patched, "webview/assets/general-settings-test.js"), settings);
}

#[test]
fn analysis_refuses_ambiguous_bundles() {
    let (missing, _) = build_archive(b"const It={items:[]};", b"{}", "r.js", ORIGINAL_RENDERER, &[]);
    assert!(analyze(&missing).unwrap_err().contains("实际找到 0"));
    let (two, _) = build_archive(
        ORIGINAL_MAIN,
        b"{}",
        "r.js",
        ORIGINAL_RENDERER,
        &[("copy.js", ORIGINAL_RENDERER)],
    );
    assert_eq!(
        analyze(&two).unwrap_err(),
        "当前 Codex 应包含 1 个 Webview 中文初始化 bundle，实际找到 2 个；已停止修改"
    );
}

#[test]
fn header_framing_round_trips_and_refuses_corruption() {
    let pickle = header_pickle(b"{\"files\":{}}").unwrap();
    assert_eq!(pickle.len(), 4 + 4 + 12);
    assert_eq!(read_u32(&pickle[..4]).unwrap(), 16);
    assert_eq!(read_u32(&pickle[4..8]).unwrap(), 12);
    assert_eq!(header_json_bytes(&pickle).unwrap(), b"{\"files\":{}}".to_vec());
    assert_eq!(read_u32(&[1, 2, 3]).unwrap_err().message(), "invalid ASAR integer");
    assert_eq!(align_four(5).unwrap(), 8);
    assert_eq!(align_four(8).unwrap(), 8);
    assert_eq!(align_four(usize::MAX).unwrap_err().message(), "ASAR header size overflow");
    let prefix = encode_archive_prefix(20);
    assert_eq!(parse_archive_prefix(&prefix, 28).unwrap(), 20);
    assert_eq!(
        parse_archive_prefix(&prefix, 27).unwrap_err().message(),
        "unsupported or corrupt app.asar header"
    );
    let mut bad = pickle.clone();
    bad[4] = 200;
    assert_eq!(header_json_bytes(&bad).unwrap_err().message(), "invalid app.asar header pickle");
    let pickle = header_pickle(b"[]").unwrap();
    assert_eq!(
        archive_from_pickle(&pickle, pickle.len() as u32).unwrap_err().message(),
        "app.asar header has no file tree"
    );
}

#[test]
fn packed_entries_are_bounded() {
    let entry = PackedFile { path: "a.js".to_string(), offset: 10, size: 5 };
    assert_eq!(packed_file_start(100, &entry).unwrap(), 110);
    assert_eq!(
        packed_file_start(u64::MAX, &entry).unwrap_err().message(),
        "ASAR file offset overflow"
    );
    let big = PackedFile { path: "big.js".to_string(), offset: 0, size: 128 * 1024 * 1024 + 1 };
    assert_eq!(
        packed_file_start(0, &big).unwrap_err().message(),
        "ASAR JavaScript entry is unexpectedly large: big.js"
    );
    check_packed_file_end(110, &entry, 115).unwrap();
    assert_eq!(
        check_packed_file_end(110, &entry, 114).unwrap_err().message(),
        "ASAR entry extends beyond archive: a.js"
    );
}

#[test]
fn patch_output_needs_patches() {
    let (source, _) = build_archive(ORIGINAL_MAIN, b"{}", "r.js", ORIGINAL_RENDERER, &[]);
    let archive = read_archive(&source);
    let none: Vec<FilePatch> = Vec::new();
    assert_eq!(
        plan_patched_asar(archive.header, archive.data_offset, &none).unwrap_err().message(),
        "patch output requested for an already-patched archive"
    );
}

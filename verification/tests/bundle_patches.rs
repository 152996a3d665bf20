use codex_patch::i18n_patch::{
    patch_renderer_i18n, renderer_i18n_bundle_candidate, renderer_i18n_patch_is_valid,
    I18N_PATCH_MARKER,
};
use codex_patch::json::{insert_member, parse_json, text_less, Json};
use codex_patch::locale_patch::{embedded_object, native_locale_is_valid, patch_native_locale};
use codex_patch::menu_patch::{menu_patch_is_valid, patch_main_menu, MENU_PATCH_MARKER};

const ORIGINAL_MAIN: &[u8] = b"const It={items:[]};l.Menu.setApplicationMenu(It);";
const ORIGINAL_RENDERER: &[u8] =
    b"o=a?.get(`enable_i18n`,!1);let s=o,c=a?.get(`locale_source`,`IDE`);";
const CACHED_RENDERER: &[u8] = b"let o;t[0]===a?o=t[1]:(o=a?.get(`enable_i18n`,!1),t[0]=a,t[1]=o);let s=o,c=a?.get(`locale_source`,`IDE`),l=localeOverride;";
const TRANSLATIONS: &[u8] = "{\"File\":\"文件\",\"Edit\":\"编辑\"}".as_bytes();
const ADDITIONS: &[u8] = "{\"menu.quit\":\"退出\",\"menu.about\":\"关于\"}".as_bytes();

fn text(bytes: &[u8]) -> String {
    String::from_utf8(bytes.to_vec()).unwrap()
}

#[test]
fn main_menu_gets_the_translator_before_the_install_call() {
    let patched = patch_main_menu(ORIGINAL_MAIN, TRANSLATIONS).unwrap();
    let expected = format!(
        "const It={{items:[]}};(()=>{{const {m}={{\"Edit\":\"编辑\",\"File\":\"文件\"}};const __walk=e=>{{for(const t of e.items??[]){{const e=(t.label??``).replaceAll(`&`,``);t.label={m}[e]??t.label,t.submenu&&__walk(t.submenu)}}}};const __build=l.Menu.buildFromTemplate.bind(l.Menu);l.Menu.buildFromTemplate=(...e)=>{{const t=__build(...e);return __walk(t),t}};__walk(It)}})(),l.Menu.setApplicationMenu(It);",
        m = MENU_PATCH_MARKER
    );
    assert_eq!(text(&patched), expected);
    assert!(menu_patch_is_valid(&patched));
    assert!(!menu_patch_is_valid(ORIGINAL_MAIN));
}

#[test]
fn main_menu_patch_is_idempotent() {
    let once = patch_main_menu(ORIGINAL_MAIN, TRANSLATIONS).unwrap();
    let twice = patch_main_menu(&once, TRANSLATIONS).unwrap();
    assert_eq!(once, twice);
}

#[test]
fn main_menu_rejects_missing_or_ambiguous_install_call() {
    let missing = patch_main_menu(b"const It={items:[]};", TRANSLATIONS).unwrap_err();
    assert_eq!(
        missing.message(),
        "当前 Codex 主菜单安装位置应为 1 处，实际找到 0 处；已停止修改"
    );
    let duplicate = patch_main_menu(
        b"l.Menu.setApplicationMenu(It);l.Menu.setApplicationMenu(It);",
        TRANSLATIONS,
    )
    .unwrap_err();
    assert!(duplicate.message().contains("实际找到 2"));
}

#[test]
fn main_menu_rejects_partial_injection_and_bad_input() {
    let partial = format!("{}l.Menu.setApplicationMenu(It);", MENU_PATCH_MARKER);
    assert_eq!(
        patch_main_menu(partial.as_bytes(), TRANSLATIONS).unwrap_err().message(),
        "Windows 中文菜单标记存在，但注入内容不完整；已停止修改"
    );
    assert!(patch_main_menu(&[0xff, 0xfe], TRANSLATIONS)
        .unwrap_err()
        .message()
        .starts_with("main application bundle is not UTF-8: "));
    assert!(patch_main_menu(ORIGINAL_MAIN, b"{not json")
        .unwrap_err()
        .message()
        .starts_with("parse embedded menu translations: "));
    assert_eq!(
        patch_main_menu(ORIGINAL_MAIN, b"[1,2]").unwrap_err().message(),
        "embedded menu translations is not a JSON object"
    );
}

#[test]
fn renderer_gate_is_forced_on() {
    let patched = patch_renderer_i18n(ORIGINAL_RENDERER).unwrap();
    assert_eq!(
        text(&patched),
        "o=a?.get(`enable_i18n`,!1);let s=!0/*__codexForceI18nV1*/,c=a?.get(`locale_source`,`IDE`);"
    );
    assert!(renderer_i18n_patch_is_valid(&patched));
    let cached = patch_renderer_i18n(CACHED_RENDERER).unwrap();
    assert!(text(&cached).contains("let s=!0/*__codexForceI18nV1*/,c=a?.get(`locale_source`,`IDE`),l=localeOverride;"));
    assert_eq!(patch_renderer_i18n(&cached).unwrap(), cached);
}

#[test]
fn renderer_candidates_and_refusals() {
    assert!(renderer_i18n_bundle_candidate(ORIGINAL_RENDERER));
    assert!(renderer_i18n_bundle_candidate(I18N_PATCH_MARKER.as_bytes()));
    assert!(!renderer_i18n_bundle_candidate(b"const settings=['enable_i18n','locale_source'];"));
    assert_eq!(
        patch_renderer_i18n(b"let s=o,c=a?.get(`locale_source`,`IDE`);").unwrap_err().message(),
        "当前 Codex Webview 中文开关应为 1 处，实际找到 0 处；已停止修改"
    );
    assert_eq!(
        patch_renderer_i18n(b"get(`enable_i18n`,!1);").unwrap_err().message(),
        "当前 Codex Webview 语言解析位置应为 1 处，实际找到 0 处；已停止修改"
    );
    assert_eq!(
        patch_renderer_i18n(I18N_PATCH_MARKER.as_bytes()).unwrap_err().message(),
        "Windows Webview 中文标记存在，但启用内容不完整；已停止修改"
    );
}

#[test]
fn native_locale_gets_every_addition() {
    let patched = patch_native_locale(b"{\"menu.quit\":\"Quit\",\"other\":1}", ADDITIONS).unwrap();
    assert_eq!(
        text(&patched),
        "{\"menu.about\":\"关于\",\"menu.quit\":\"退出\",\"other\":1}"
    );
    let doc = match parse_json(&patched).unwrap() {
        Json::Object(members) => members,
        _ => panic!("not an object"),
    };
    assert!(native_locale_is_valid(&doc, ADDITIONS).unwrap());
    assert_eq!(patch_native_locale(&patched, ADDITIONS).unwrap(), patched);
}

#[test]
fn native_locale_checks_and_refusals() {
    let empty = match parse_json(b"{}").unwrap() {
        Json::Object(members) => members,
        _ => panic!("not an object"),
    };
    assert!(!native_locale_is_valid(&empty, ADDITIONS).unwrap());
    assert!(native_locale_is_valid(&empty, b"{}").unwrap());
    assert!(patch_native_locale(b"{", ADDITIONS)
        .unwrap_err()
        .message()
        .starts_with("parse native zh-CN locale: "));
    assert_eq!(
        patch_native_locale(b"[]", ADDITIONS).unwrap_err().message(),
        "native zh-CN locale is not a JSON object"
    );
    assert_eq!(
        patch_native_locale(b"{}", b"\"x\"").unwrap_err().message(),
        "embedded native locale additions is not a JSON object"
    );
    assert_eq!(
        embedded_object(b"1", "thing").unwrap_err().message(),
        "embedded thing is not a JSON object"
    );
    assert!(embedded_object(b"nope", "thing")
        .unwrap_err()
        .message()
        .starts_with("parse embedded thing: "));
}

#[test]
fn new_members_go_where_their_keys_keep_the_object_in_order() {
    let mut members = match parse_json(b"{\"c\":1,\"a\":2}").unwrap() {
        Json::Object(members) => members,
        _ => panic!("not an object"),
    };
    let keys: Vec<&str> = members.iter().map(|(k, _)| k.as_str()).collect();
    assert_eq!(keys, vec!["a", "c"]);
    insert_member(&mut members, "b", Json::Null);
    insert_member(&mut members, "d", Json::Null);
    insert_member(&mut members, "a", Json::Bool(true));
    let keys: Vec<&str> = members.iter().map(|(k, _)| k.as_str()).collect();
    assert_eq!(keys, vec!["a", "b", "c", "d"]);
    assert!(matches!(members[0].1, Json::Bool(true)));
    assert!(text_less("blockSize", "blocks"));
    assert!(text_less("ab", "abc"));
    assert!(!text_less("b", "ab"));
}

#[test]
fn native_locale_with_integers_patches_idempotently() {
    let source = b"{\"z\":-5,\"count\":7,\"deep\":[[-9223372036854775808]]}";
    let patched = patch_native_locale(source, ADDITIONS).unwrap();
    assert_eq!(
        text(&patched),
        "{\"count\":7,\"deep\":[[-9223372036854775808]],\"menu.about\":\"关于\",\"menu.quit\":\"退出\",\"z\":-5}"
    );
    assert_eq!(patch_native_locale(&patched, ADDITIONS).unwrap(), patched);
}

#[test]
fn locale_values_compare_as_json_values() {
    let locale = match parse_json(b"{\"a\":-0.0,\"b\":[1,\"x\"]}").unwrap() {
        Json::Object(members) => members,
        _ => panic!("not an object"),
    };
    assert!(native_locale_is_valid(&locale, b"{\"a\":0.0,\"b\":[1,\"x\"]}").unwrap());
    assert!(!native_locale_is_valid(&locale, b"{\"a\":0}").unwrap());
    assert!(!native_locale_is_valid(&locale, b"{\"b\":[1,\"y\"]}").unwrap());
}

//! Injecting the Chinese menu translator into the main-process bundle.
use vstd::prelude::*;
use vstd::string::StringSliceAdditionalSpecFns;
use vstd::utf8::{decode_utf8, encode_utf8_decode_utf8, encode_utf8_valid_utf8, valid_utf8, valid_utf8_concat};

use crate::bytes::{
    ascii_range, bytes_contain, concat_all, contains_bytes, extend_range, lemma_ascii_valid_utf8,
    lemma_concat_all_utf8, lemma_split_before_ascii,
};
use crate::error::{bytes_outcome, error_with, error_with_count, install_error, EngineError, Refusal};
use crate::json::{json_text, jv, print_json, Json, JsonV};
use crate::locale_patch::{embedded_object, spec_embedded_object};
use crate::matchers::{find_menu_install_calls, menu_install_calls, utf8_text};
use crate::text::decimal_text;

verus! {

/// Marks a main-process bundle into which the translator was injected.
pub const MENU_PATCH_MARKER: &'static str = "__codexChineseMenuPatchV2";

/// The bundle holds the marker and both parts of the injected translator.
pub open spec fn spec_menu_patch_is_valid(text: Seq<u8>) -> bool {
    &&& bytes_contain(text, MENU_PATCH_MARKER.spec_bytes())
    &&& bytes_contain(text, ".Menu.buildFromTemplate=(...e)=>".spec_bytes())
    &&& bytes_contain(text, "t.submenu&&__walk(t.submenu)".spec_bytes())
}

/// Whether a main-process bundle carries a complete injected translator.
pub fn menu_patch_is_valid(text: &[u8]) -> (r: bool)
    ensures
        r == spec_menu_patch_is_valid(text@),
{
    contains_bytes(text, MENU_PATCH_MARKER.as_bytes()) && contains_bytes(
        text,
        ".Menu.buildFromTemplate=(...e)=>".as_bytes(),
    ) && contains_bytes(text, "t.submenu&&__walk(t.submenu)".as_bytes())
}

/// The translator injected before the menu installation call: it wraps
/// `Menu.buildFromTemplate` of `receiver` so that every menu it builds, and
/// `menu` itself, has its labels replaced by their translations.
pub open spec fn menu_injection(translations: Seq<u8>, receiver: Seq<u8>, menu: Seq<u8>) -> Seq<u8> {
    "(()=>{const ".spec_bytes() + MENU_PATCH_MARKER.spec_bytes() + "=".spec_bytes() + translations
        + ";const __walk=e=>{for(const t of e.items??[]){const e=(t.label??``).replaceAll(`&`,``);t.label=".spec_bytes()
        + MENU_PATCH_MARKER.spec_bytes() + "[e]??t.label,t.submenu&&__walk(t.submenu)}};const __build=".spec_bytes()
        + receiver + ".Menu.buildFromTemplate.bind(".spec_bytes() + receiver + ".Menu);".spec_bytes()
        + receiver
        + ".Menu.buildFromTemplate=(...e)=>{const t=__build(...e);return __walk(t),t};__walk(".spec_bytes()
        + menu + ")})(),".spec_bytes()
}

/// Patching a main-process bundle that carries no translator yet inserts
/// the translator right before its single menu installation call and
/// changes nothing else; the translator wraps `Menu.buildFromTemplate` of
/// the call's own receiver, whose full identifier (the text the call holds
/// before `.Menu.setApplicationMenu(`) appears byte for byte in each of its
/// three places, and it ends by translating the call's own menu.
pub proof fn lemma_menu_translator_wraps_call_receiver(content: Seq<u8>, translations_json: Seq<u8>)
    requires
        spec_patch_main_menu(content, translations_json) is Ok,
        !bytes_contain(content, MENU_PATCH_MARKER.spec_bytes()),
    ensures
        ({
            let calls = menu_install_calls(decode_utf8(content));
            let p = spec_patch_main_menu(content, translations_json)->Ok_0;
            let receiver = content.subrange(calls[0].receiver_start as int, calls[0].receiver_end as int);
            let menu = content.subrange(calls[0].menu_start as int, calls[0].menu_end as int);
            &&& calls.len() == 1
            &&& exists|head: Seq<u8>|
                p == content.subrange(0, calls[0].start as int) + head + receiver
                    + ".Menu.buildFromTemplate.bind(".spec_bytes() + receiver + ".Menu);".spec_bytes()
                    + receiver
                    + ".Menu.buildFromTemplate=(...e)=>{const t=__build(...e);return __walk(t),t};__walk(".spec_bytes()
                    + menu + ")})(),".spec_bytes() + content.subrange(
                    calls[0].start as int,
                    content.len() as int,
                )
        }),
{
    let calls = menu_install_calls(decode_utf8(content));
    let translations = spec_embedded_object(translations_json, "menu translations"@)->Ok_0;
    let head = "(()=>{const ".spec_bytes() + MENU_PATCH_MARKER.spec_bytes() + "=".spec_bytes()
        + json_text(JsonV::Object(translations))
        + ";const __walk=e=>{for(const t of e.items??[]){const e=(t.label??``).replaceAll(`&`,``);t.label=".spec_bytes()
        + MENU_PATCH_MARKER.spec_bytes()
        + "[e]??t.label,t.submenu&&__walk(t.submenu)}};const __build=".spec_bytes();
    let receiver = content.subrange(calls[0].receiver_start as int, calls[0].receiver_end as int);
    let menu = content.subrange(calls[0].menu_start as int, calls[0].menu_end as int);
    let p = spec_patch_main_menu(content, translations_json)->Ok_0;
    assert(p =~= content.subrange(0, calls[0].start as int) + head + receiver
        + ".Menu.buildFromTemplate.bind(".spec_bytes() + receiver + ".Menu);".spec_bytes() + receiver
        + ".Menu.buildFromTemplate=(...e)=>{const t=__build(...e);return __walk(t),t};__walk(".spec_bytes()
        + menu + ")})(),".spec_bytes() + content.subrange(calls[0].start as int, content.len() as int));
}

/// What patching a main-process bundle gives: the bundle itself when it
/// already carries a complete translator, otherwise the bundle with the
/// translator injected before its single menu installation call; refused
/// for a bundle that is not UTF-8, a partial injection, no or several
/// installation calls, translations that are not a JSON object, or an
/// injection that does not check out.
pub open spec fn spec_patch_main_menu(content: Seq<u8>, translations_json: Seq<u8>) -> Result<
    Seq<u8>,
    Refusal,
> {
    if !valid_utf8(content) {
        Err(Refusal::Starting("main application bundle is not UTF-8: "@))
    } else if bytes_contain(content, MENU_PATCH_MARKER.spec_bytes()) {
        if spec_menu_patch_is_valid(content) {
            Ok(content)
        } else {
            Err(Refusal::Exactly("Windows 中文菜单标记存在，但注入内容不完整；已停止修改"@))
        }
    } else {
        let calls = menu_install_calls(decode_utf8(content));
        if calls.len() != 1 {
            Err(
                Refusal::Exactly(
                    "当前 Codex 主菜单安装位置应为 1 处，实际找到 "@ + decimal_text(calls.len())
                        + " 处；已停止修改"@,
                ),
            )
        } else {
            match spec_embedded_object(translations_json, "menu translations"@) {
                Err(why) => Err(why),
                Ok(translations) => {
                    let call = calls[0];
                    let patched = content.subrange(0, call.start as int) + menu_injection(
                        json_text(JsonV::Object(translations)),
                        content.subrange(call.receiver_start as int, call.receiver_end as int),
                        content.subrange(call.menu_start as int, call.menu_end as int),
                    ) + content.subrange(call.start as int, content.len() as int);
                    if spec_menu_patch_is_valid(patched) {
                        Ok(patched)
                    } else {
                        Err(Refusal::Exactly("Windows 中文菜单注入后的结构校验失败"@))
                    }
                },
            }
        }
    }
}

fn push_str(out: &mut Vec<u8>, s: &str)
    ensures
        final(out)@ == old(out)@ + s.spec_bytes(),
{
    out.extend_from_slice(s.as_bytes());
}

/// Injects the menu translator into a main-process bundle (see
/// `spec_patch_main_menu`); `translations_json` is the embedded table of
/// menu-label translations.
pub fn patch_main_menu(content: &[u8], translations_json: &[u8]) -> (r: Result<Vec<u8>, EngineError>)
    ensures
        bytes_outcome(spec_patch_main_menu(content@, translations_json@), r),
        r matches Ok(p) ==> spec_patch_main_menu(p@, translations_json@) == Ok::<Seq<u8>, Refusal>(
            p@,
        ) && valid_utf8(p@) && spec_menu_patch_is_valid(p@),
{
    let text = match utf8_text(content) {
        Ok(t) => t,
        Err(e) => {
            return Err(error_with("main application bundle is not UTF-8: ", e.as_str()));
        },
    };
    proof {
        encode_utf8_decode_utf8(text@);
    }
    if contains_bytes(content, MENU_PATCH_MARKER.as_bytes()) {
        if menu_patch_is_valid(content) {
            return Ok(vstd::slice::slice_to_vec(content));
        }
        return Err(install_error("Windows 中文菜单标记存在，但注入内容不完整；已停止修改"));
    }
    let calls = match find_menu_install_calls(text) {
        Ok(c) => c,
        Err(e) => {
            return Err(error_with("compile application-menu matcher: ", e.as_str()));
        },
    };
    if calls.len() != 1 {
        return Err(error_with_count(
            "当前 Codex 主菜单安装位置应为 1 处，实际找到 ",
            calls.len(),
            " 处；已停止修改",
        ));
    }
    let call = calls[0];
    let translations = match embedded_object(translations_json, "menu translations") {
        Ok(members) => Json::Object(members),
        Err(e) => {
            return Err(e);
        },
    };
    let printed = print_json(&translations);
    let mut patched: Vec<u8> = Vec::new();
    extend_range(&mut patched, content, 0, call.start);
    push_str(&mut patched, "(()=>{const ");
    push_str(&mut patched, MENU_PATCH_MARKER);
    push_str(&mut patched, "=");
    patched.extend_from_slice(printed.as_slice());
    push_str(
        &mut patched,
        ";const __walk=e=>{for(const t of e.items??[]){const e=(t.label??``).replaceAll(`&`,``);t.label=",
    );
    push_str(&mut patched, MENU_PATCH_MARKER);
    push_str(&mut patched, "[e]??t.label,t.submenu&&__walk(t.submenu)}};const __build=");
    extend_range(&mut patched, content, call.receiver_start, call.receiver_end);
    push_str(&mut patched, ".Menu.buildFromTemplate.bind(");
    extend_range(&mut patched, content, call.receiver_start, call.receiver_end);
    push_str(&mut patched, ".Menu);");
    extend_range(&mut patched, content, call.receiver_start, call.receiver_end);
    push_str(
        &mut patched,
        ".Menu.buildFromTemplate=(...e)=>{const t=__build(...e);return __walk(t),t};__walk(",
    );
    extend_range(&mut patched, content, call.menu_start, call.menu_end);
    push_str(&mut patched, ")})(),");
    extend_range(&mut patched, content, call.start, content.len());
    proof {
        let c = content@;
        assert(patched@ =~= c.subrange(0, call.start as int) + menu_injection(
            json_text(jv(translations)),
            c.subrange(call.receiver_start as int, call.receiver_end as int),
            c.subrange(call.menu_start as int, call.menu_end as int),
        ) + c.subrange(call.start as int, c.len() as int));
    }
    if !menu_patch_is_valid(patched.as_slice()) {
        return Err(install_error("Windows 中文菜单注入后的结构校验失败"));
    }
    proof {
        let c = content@;
        assert(ascii_range(c, call.start as int, call.end as int));
        let receiver = c.subrange(call.receiver_start as int, call.receiver_end as int);
        let menu = c.subrange(call.menu_start as int, call.menu_end as int);
        lemma_ascii_valid_utf8(receiver);
        lemma_ascii_valid_utf8(menu);
        lemma_menu_injection_utf8(printed@, receiver, menu);
        lemma_split_before_ascii(c, call.start as int);
        let inj = menu_injection(printed@, receiver, menu);
        valid_utf8_concat(c.subrange(0, call.start as int), inj);
        valid_utf8_concat(c.subrange(0, call.start as int) + inj, c.subrange(call.start as int, c.len() as int));
    }
    Ok(patched)
}

/// The injected translator is UTF-8 text when what it is made of is.
proof fn lemma_menu_injection_utf8(translations: Seq<u8>, receiver: Seq<u8>, menu: Seq<u8>)
    requires
        valid_utf8(translations),
        valid_utf8(receiver),
        valid_utf8(menu),
    ensures
        valid_utf8(menu_injection(translations, receiver, menu)),
{
    let pieces: Seq<Seq<u8>> = seq![
        "(()=>{const ".spec_bytes(),
        MENU_PATCH_MARKER.spec_bytes(),
        "=".spec_bytes(),
        translations,
        ";const __walk=e=>{for(const t of e.items??[]){const e=(t.label??``).replaceAll(`&`,``);t.label=".spec_bytes(),
        MENU_PATCH_MARKER.spec_bytes(),
        "[e]??t.label,t.submenu&&__walk(t.submenu)}};const __build=".spec_bytes(),
        receiver,
        ".Menu.buildFromTemplate.bind(".spec_bytes(),
        receiver,
        ".Menu);".spec_bytes(),
        receiver,
        ".Menu.buildFromTemplate=(...e)=>{const t=__build(...e);return __walk(t),t};__walk(".spec_bytes(),
        menu,
        ")})(),".spec_bytes(),
    ];
    assert forall|i: int| 0 <= i < pieces.len() implies valid_utf8(#[trigger] pieces[i]) by {
        encode_utf8_valid_utf8("(()=>{const "@);
        encode_utf8_valid_utf8(MENU_PATCH_MARKER@);
        encode_utf8_valid_utf8("="@);
        encode_utf8_valid_utf8(";const __walk=e=>{for(const t of e.items??[]){const e=(t.label??``).replaceAll(`&`,``);t.label="@);
        encode_utf8_valid_utf8("[e]??t.label,t.submenu&&__walk(t.submenu)}};const __build="@);
        encode_utf8_valid_utf8(".Menu.buildFromTemplate.bind("@);
        encode_utf8_valid_utf8(".Menu);"@);
        encode_utf8_valid_utf8(".Menu.buildFromTemplate=(...e)=>{const t=__build(...e);return __walk(t),t};__walk("@);
        encode_utf8_valid_utf8(")})(),"@);
    }
    lemma_concat_all_utf8(pieces, pieces.len() as int);
    reveal_with_fuel(concat_all, 16);
    assert(concat_all(pieces, pieces.len() as int) =~= menu_injection(translations, receiver, menu));
}

} // verus!

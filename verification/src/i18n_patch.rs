//! Switching the renderer's interface-language gate on.
use vstd::prelude::*;
use vstd::string::StringSliceAdditionalSpecFns;
use vstd::utf8::{decode_utf8, encode_utf8_decode_utf8, encode_utf8_valid_utf8, valid_utf8};

use crate::bytes::{
    ascii_range, bytes_contain, concat_all, contains_bytes, count_matches, count_occurrences,
    extend_range, lemma_ascii_valid_utf8, lemma_concat_all_utf8, lemma_splice_ascii,
};
use crate::error::{bytes_outcome, error_with, error_with_count, install_error, EngineError, Refusal};
use crate::matchers::{find_locale_source_sites, locale_source_sites, utf8_text};
use crate::text::decimal_text;

verus! {

/// Marks a renderer bundle whose language gate was switched on.
pub const I18N_PATCH_MARKER: &'static str = "__codexForceI18nV1";

/// The renderer's language gate, off by default.
pub const I18N_GATE_SIGNATURE: &'static str = "get(`enable_i18n`,!1)";

/// Where the renderer reads the interface-language source.
pub const I18N_SOURCE_SIGNATURE: &'static str = "get(`locale_source`,`IDE`)";

/// The bundle holds the marker and the forced-on gate.
pub open spec fn spec_renderer_i18n_patch_is_valid(text: Seq<u8>) -> bool {
    &&& bytes_contain(text, I18N_PATCH_MARKER.spec_bytes())
    &&& bytes_contain(text, "=!0/*__codexForceI18nV1*/,".spec_bytes())
}

/// Whether a renderer bundle carries the forced-on language gate.
pub fn renderer_i18n_patch_is_valid(text: &[u8]) -> (r: bool)
    ensures
        r == spec_renderer_i18n_patch_is_valid(text@),
{
    contains_bytes(text, I18N_PATCH_MARKER.as_bytes()) && contains_bytes(
        text,
        "=!0/*__codexForceI18nV1*/,".as_bytes(),
    )
}

/// The bundle is the one that initializes the interface language: it is
/// already patched, or it holds both the language gate and the language source.
pub open spec fn spec_renderer_i18n_bundle_candidate(text: Seq<u8>) -> bool {
    ||| bytes_contain(text, I18N_PATCH_MARKER.spec_bytes())
    ||| (bytes_contain(text, I18N_GATE_SIGNATURE.spec_bytes()) && bytes_contain(
        text,
        I18N_SOURCE_SIGNATURE.spec_bytes(),
    ))
}

/// Whether a renderer bundle initializes the interface language.
pub fn renderer_i18n_bundle_candidate(text: &[u8]) -> (r: bool)
    ensures
        r == spec_renderer_i18n_bundle_candidate(text@),
{
    contains_bytes(text, I18N_PATCH_MARKER.as_bytes()) || (contains_bytes(
        text,
        I18N_GATE_SIGNATURE.as_bytes(),
    ) && contains_bytes(text, I18N_SOURCE_SIGNATURE.as_bytes()))
}

/// A renderer script is the interface-language initialization bundle only
/// when it is already patched (it holds the marker) or it holds both the
/// language gate and the language-source signature; an unpatched script
/// that lacks either signature never is, and one that holds both always is.
pub proof fn lemma_i18n_candidate_needs_gate_and_source(text: Seq<u8>)
    ensures
        spec_renderer_i18n_bundle_candidate(text) ==> bytes_contain(
            text,
            I18N_PATCH_MARKER.spec_bytes(),
        ) || bytes_contain(text, I18N_SOURCE_SIGNATURE.spec_bytes()),
        spec_renderer_i18n_bundle_candidate(text) ==> bytes_contain(
            text,
            I18N_PATCH_MARKER.spec_bytes(),
        ) || bytes_contain(text, I18N_GATE_SIGNATURE.spec_bytes()),
        bytes_contain(text, I18N_PATCH_MARKER.spec_bytes()) ==> spec_renderer_i18n_bundle_candidate(
            text,
        ),
        bytes_contain(text, I18N_GATE_SIGNATURE.spec_bytes()) && bytes_contain(
            text,
            I18N_SOURCE_SIGNATURE.spec_bytes(),
        ) ==> spec_renderer_i18n_bundle_candidate(text),
{
}

/// Patching an unpatched renderer bundle replaces exactly its single
/// located language declaration, and nothing else: the text before and
/// after it stays, and the new declaration keeps the declaration's own
/// names, byte for byte: `let `, the enabled flag's name, the forced-on
/// marked value, the language source's name, `=`, the config object's name
/// and the language-source read.
pub proof fn lemma_renderer_patch_keeps_names(content: Seq<u8>)
    requires
        spec_patch_renderer_i18n(content) is Ok,
        !bytes_contain(content, I18N_PATCH_MARKER.spec_bytes()),
    ensures
        ({
            let sites = locale_source_sites(decode_utf8(content));
            &&& sites.len() == 1
            &&& spec_patch_renderer_i18n(content)->Ok_0 == content.subrange(0, sites[0].start as int)
                + "let ".spec_bytes() + content.subrange(
                sites[0].enabled_start as int,
                sites[0].enabled_end as int,
            ) + "=!0/*".spec_bytes() + I18N_PATCH_MARKER.spec_bytes() + "*/,".spec_bytes()
                + content.subrange(sites[0].source_start as int, sites[0].source_end as int)
                + "=".spec_bytes() + content.subrange(
                sites[0].config_start as int,
                sites[0].config_end as int,
            ) + "?.get(`locale_source`,`IDE`)".spec_bytes() + content.subrange(
                sites[0].end as int,
                content.len() as int,
            )
        }),
{
}

/// The declaration that replaces the located one: the enabled flag becomes
/// a marked `!0` (true); the language source is read as before.
pub open spec fn i18n_replacement(enabled: Seq<u8>, source: Seq<u8>, config: Seq<u8>) -> Seq<u8> {
    "let ".spec_bytes() + enabled + "=!0/*".spec_bytes() + I18N_PATCH_MARKER.spec_bytes()
        + "*/,".spec_bytes() + source + "=".spec_bytes() + config
        + "?.get(`locale_source`,`IDE`)".spec_bytes()
}

/// What patching a renderer bundle gives: the bundle itself when its gate
/// is already forced on, otherwise the bundle with its single language
/// declaration replaced; refused for a bundle that is not UTF-8, a partial
/// patch, other than one language gate or declaration, or a replacement
/// that does not check out.
pub open spec fn spec_patch_renderer_i18n(content: Seq<u8>) -> Result<Seq<u8>, Refusal> {
    if !valid_utf8(content) {
        Err(Refusal::Starting("renderer application bundle is not UTF-8: "@))
    } else if bytes_contain(content, I18N_PATCH_MARKER.spec_bytes()) {
        if spec_renderer_i18n_patch_is_valid(content) {
            Ok(content)
        } else {
            Err(Refusal::Exactly("Windows Webview 中文标记存在，但启用内容不完整；已停止修改"@))
        }
    } else {
        let gates = count_occurrences(content, I18N_GATE_SIGNATURE.spec_bytes());
        if gates != 1 {
            Err(
                Refusal::Exactly(
                    "当前 Codex Webview 中文开关应为 1 处，实际找到 "@ + decimal_text(gates)
                        + " 处；已停止修改"@,
                ),
            )
        } else {
            let sites = locale_source_sites(decode_utf8(content));
            if sites.len() != 1 {
                Err(
                    Refusal::Exactly(
                        "当前 Codex Webview 语言解析位置应为 1 处，实际找到 "@ + decimal_text(
                            sites.len(),
                        ) + " 处；已停止修改"@,
                    ),
                )
            } else {
                let site = sites[0];
                let patched = content.subrange(0, site.start as int) + i18n_replacement(
                    content.subrange(site.enabled_start as int, site.enabled_end as int),
                    content.subrange(site.source_start as int, site.source_end as int),
                    content.subrange(site.config_start as int, site.config_end as int),
                ) + content.subrange(site.end as int, content.len() as int);
                if spec_renderer_i18n_patch_is_valid(patched) {
                    Ok(patched)
                } else {
                    Err(Refusal::Exactly("Windows Webview 中文开关注入后的结构校验失败"@))
                }
            }
        }
    }
}

fn push_str(out: &mut Vec<u8>, s: &str)
    ensures
        final(out)@ == old(out)@ + s.spec_bytes(),
{
    out.extend_from_slice(s.as_bytes());
}

/// Forces the renderer's interface-language gate on (see
/// `spec_patch_renderer_i18n`).
pub fn patch_renderer_i18n(content: &[u8]) -> (r: Result<Vec<u8>, EngineError>)
    ensures
        bytes_outcome(spec_patch_renderer_i18n(content@), r),
        r matches Ok(p) ==> spec_patch_renderer_i18n(p@) == Ok::<Seq<u8>, Refusal>(p@) && valid_utf8(
            p@,
        ) && spec_renderer_i18n_patch_is_valid(p@),
{
    let text = match utf8_text(content) {
        Ok(t) => t,
        Err(e) => {
            return Err(error_with("renderer application bundle is not UTF-8: ", e.as_str()));
        },
    };
    proof {
        encode_utf8_decode_utf8(text@);
    }
    if contains_bytes(content, I18N_PATCH_MARKER.as_bytes()) {
        if renderer_i18n_patch_is_valid(content) {
            return Ok(vstd::slice::slice_to_vec(content));
        }
        return Err(install_error("Windows Webview 中文标记存在，但启用内容不完整；已停止修改"));
    }
    proof {
        reveal_strlit("get(`enable_i18n`,!1)");
        vstd::utf8::is_ascii_chars_encode_utf8(I18N_GATE_SIGNATURE@);
    }
    let gate_count = count_matches(content, I18N_GATE_SIGNATURE.as_bytes());
    if gate_count != 1 {
        return Err(error_with_count(
            "当前 Codex Webview 中文开关应为 1 处，实际找到 ",
            gate_count,
            " 处；已停止修改",
        ));
    }
    let sites = match find_locale_source_sites(text) {
        Ok(s) => s,
        Err(e) => {
            return Err(error_with("compile renderer i18n matcher: ", e.as_str()));
        },
    };
    if sites.len() != 1 {
        return Err(error_with_count(
            "当前 Codex Webview 语言解析位置应为 1 处，实际找到 ",
            sites.len(),
            " 处；已停止修改",
        ));
    }
    let site = sites[0];
    let mut patched: Vec<u8> = Vec::new();
    extend_range(&mut patched, content, 0, site.start);
    push_str(&mut patched, "let ");
    extend_range(&mut patched, content, site.enabled_start, site.enabled_end);
    push_str(&mut patched, "=!0/*");
    push_str(&mut patched, I18N_PATCH_MARKER);
    push_str(&mut patched, "*/,");
    extend_range(&mut patched, content, site.source_start, site.source_end);
    push_str(&mut patched, "=");
    extend_range(&mut patched, content, site.config_start, site.config_end);
    push_str(&mut patched, "?.get(`locale_source`,`IDE`)");
    extend_range(&mut patched, content, site.end, content.len());
    proof {
        let c = content@;
        assert(patched@ =~= c.subrange(0, site.start as int) + i18n_replacement(
            c.subrange(site.enabled_start as int, site.enabled_end as int),
            c.subrange(site.source_start as int, site.source_end as int),
            c.subrange(site.config_start as int, site.config_end as int),
        ) + c.subrange(site.end as int, c.len() as int));
    }
    if !renderer_i18n_patch_is_valid(patched.as_slice()) {
        return Err(install_error("Windows Webview 中文开关注入后的结构校验失败"));
    }
    proof {
        let c = content@;
        assert(ascii_range(c, site.start as int, site.end as int));
        let enabled = c.subrange(site.enabled_start as int, site.enabled_end as int);
        let source = c.subrange(site.source_start as int, site.source_end as int);
        let config = c.subrange(site.config_start as int, site.config_end as int);
        lemma_ascii_valid_utf8(enabled);
        lemma_ascii_valid_utf8(source);
        lemma_ascii_valid_utf8(config);
        lemma_replacement_utf8(enabled, source, config);
        lemma_splice_ascii(c, site.start as int, site.end as int, i18n_replacement(enabled, source, config));
    }
    Ok(patched)
}

/// The replacement declaration is UTF-8 text when the names are.
proof fn lemma_replacement_utf8(enabled: Seq<u8>, source: Seq<u8>, config: Seq<u8>)
    requires
        valid_utf8(enabled),
        valid_utf8(source),
        valid_utf8(config),
    ensures
        valid_utf8(i18n_replacement(enabled, source, config)),
{
    let pieces: Seq<Seq<u8>> = seq![
        "let ".spec_bytes(),
        enabled,
        "=!0/*".spec_bytes(),
        I18N_PATCH_MARKER.spec_bytes(),
        "*/,".spec_bytes(),
        source,
        "=".spec_bytes(),
        config,
        "?.get(`locale_source`,`IDE`)".spec_bytes(),
    ];
    assert forall|i: int| 0 <= i < pieces.len() implies valid_utf8(#[trigger] pieces[i]) by {
        encode_utf8_valid_utf8("let "@);
        encode_utf8_valid_utf8("=!0/*"@);
        encode_utf8_valid_utf8(I18N_PATCH_MARKER@);
        encode_utf8_valid_utf8("*/,"@);
        encode_utf8_valid_utf8("="@);
        encode_utf8_valid_utf8("?.get(`locale_source`,`IDE`)"@);
    }
    lemma_concat_all_utf8(pieces, pieces.len() as int);
    reveal_with_fuel(concat_all, 10);
    assert(concat_all(pieces, pieces.len() as int) =~= i18n_replacement(enabled, source, config));
}

} // verus!

//! Locating the code that the patches rewrite, with the regex crate, and
//! checking that bundle bytes are UTF-8 text.
use vstd::prelude::*;
use vstd::string::StringSliceAdditionalSpecFns;
use vstd::utf8::valid_utf8;

use crate::bytes::ascii_range;

verus! {

/// One `receiver.Menu.setApplicationMenu(menu)` call, as byte ranges.
#[derive(Clone, Copy)]
pub struct MenuCall {
    pub start: usize,
    pub end: usize,
    pub receiver_start: usize,
    pub receiver_end: usize,
    pub menu_start: usize,
    pub menu_end: usize,
}

/// One ``let enabled=flag,source=config?.get(`locale_source`,`IDE`)``
/// declaration, as byte ranges.
#[derive(Clone, Copy)]
pub struct LocaleSourceSite {
    pub start: usize,
    pub end: usize,
    pub enabled_start: usize,
    pub enabled_end: usize,
    pub source_start: usize,
    pub source_end: usize,
    pub config_start: usize,
    pub config_end: usize,
}

/// The application-menu installation calls that the regex finds in `text`,
/// left to right.
pub uninterp spec fn menu_install_calls(text: Seq<char>) -> Seq<MenuCall>;

/// The locale-source declarations that the regex finds in `text`, left to right.
pub uninterp spec fn locale_source_sites(text: Seq<char>) -> Seq<LocaleSourceSite>;

/// The ranges of a call lie in order inside text of `len` bytes, as the
/// pattern `receiver.Menu.setApplicationMenu(menu)` lays them out.
pub open spec fn menu_call_in_bounds(c: MenuCall, len: nat) -> bool {
    &&& c.start == c.receiver_start
    &&& c.receiver_start < c.receiver_end
    &&& c.receiver_end + 25 == c.menu_start
    &&& c.menu_start < c.menu_end
    &&& c.menu_end + 1 == c.end
    &&& c.end <= len
}

/// The ranges of a declaration lie in order inside text of `len` bytes.
pub open spec fn locale_site_in_bounds(s: LocaleSourceSite, len: nat) -> bool {
    &&& s.start + 4 == s.enabled_start
    &&& s.enabled_start < s.enabled_end
    &&& s.enabled_end < s.source_start
    &&& s.source_start < s.source_end
    &&& s.source_end + 1 == s.config_start
    &&& s.config_start < s.config_end
    &&& s.config_end + 28 == s.end
    &&& s.end <= len
}

/// `std::str::from_utf8`: the bytes as text when they are valid UTF-8;
/// otherwise the decoder's explanation, which the contract does not state.
#[verifier::external_body]
pub fn utf8_text(bytes: &[u8]) -> (r: Result<&str, String>)
    ensures
        r is Ok <==> valid_utf8(bytes@),
        r matches Ok(s) ==> s.spec_bytes() == bytes@,
{
    match std::str::from_utf8(bytes) {
        Ok(s) => Ok(s),
        Err(e) => Err(e.to_string()),
    }
}

/// `regex::Regex::captures_iter` with the application-menu pattern: every
/// non-overlapping `receiver.Menu.setApplicationMenu(menu)` call in `text`,
/// both names being identifiers. The contract claims that the matches depend
/// on the text alone and lie where the pattern puts them, over ASCII bytes
/// only, as the pattern has nothing else. The pattern is a fixed, valid
/// expression well within the regex crate's default size limits, so
/// compiling it succeeds and the result is `Ok`.
#[verifier::external_body]
pub fn find_menu_install_calls(text: &str) -> (r: Result<Vec<MenuCall>, String>)
    ensures
        r is Ok,
        r matches Ok(calls) ==> calls@ == menu_install_calls(text@),
        r matches Ok(calls) ==> forall|i: int|
            0 <= i < calls@.len() ==> menu_call_in_bounds(#[trigger] calls@[i], text.spec_bytes().len())
                && ascii_range(text.spec_bytes(), calls@[i].start as int, calls@[i].end as int),
{
    let pattern = match regex::Regex::new(
        r"(?P<call>(?P<receiver>[A-Za-z_$][A-Za-z0-9_$]*)\.Menu\.setApplicationMenu\((?P<menu>[A-Za-z_$][A-Za-z0-9_$]*)\))",
    ) {
        Ok(p) => p,
        Err(e) => return Err(e.to_string()),
    };
    let mut calls = Vec::new();
    for c in pattern.captures_iter(text) {
        if let (Some(call), Some(r), Some(m)) = (c.name("call"), c.name("receiver"), c.name("menu")) {
            calls.push(MenuCall { start: call.start(), end: call.end(), receiver_start: r.start(), receiver_end: r.end(), menu_start: m.start(), menu_end: m.end() });
        }
    }
    Ok(calls)
}

/// `regex::Regex::captures_iter` with the locale-source pattern: every
/// non-overlapping ``let enabled=flag,source=config?.get(`locale_source`,`IDE`)``
/// in `text`, the four names being identifiers. The contract claims that the
/// matches depend on the text alone and lie where the pattern puts them, over
/// ASCII bytes only, as the pattern has nothing else. The pattern is a
/// fixed, valid expression well within the regex crate's default size
/// limits, so compiling it succeeds and the result is `Ok`.
#[verifier::external_body]
pub fn find_locale_source_sites(text: &str) -> (r: Result<Vec<LocaleSourceSite>, String>)
    ensures
        r is Ok,
        r matches Ok(sites) ==> sites@ == locale_source_sites(text@),
        r matches Ok(sites) ==> forall|i: int|
            0 <= i < sites@.len() ==> locale_site_in_bounds(#[trigger] sites@[i], text.spec_bytes().len())
                && ascii_range(text.spec_bytes(), sites@[i].start as int, sites@[i].end as int),
{
    let pattern = match regex::Regex::new(
        r"let (?P<enabled>[A-Za-z_$][A-Za-z0-9_$]*)=(?P<flag>[A-Za-z_$][A-Za-z0-9_$]*),(?P<source>[A-Za-z_$][A-Za-z0-9_$]*)=(?P<config>[A-Za-z_$][A-Za-z0-9_$]*)\?\.get\(`locale_source`,`IDE`\)",
    ) {
        Ok(p) => p,
        Err(e) => return Err(e.to_string()),
    };
    let mut sites = Vec::new();
    for c in pattern.captures_iter(text) {
        if let (Some(all), Some(e), Some(s), Some(k)) = (c.get(0), c.name("enabled"), c.name("source"), c.name("config")) {
            sites.push(LocaleSourceSite { start: all.start(), end: all.end(), enabled_start: e.start(), enabled_end: e.end(), source_start: s.start(), source_end: s.end(), config_start: k.start(), config_end: k.end() });
        }
    }
    Ok(sites)
}

} // verus!

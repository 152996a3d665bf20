use codex_patch::digest::sha256;
use codex_patch::exe_integrity::{locate_integrity_field, update_integrity_hash, IntegrityField};
use codex_patch::text::encode_hex;

fn exe_with(marker: &str, value: &str) -> Vec<u8> {
    format!("prefix{marker}{value}\"suffix").into_bytes()
}

const SLASH: &str = "{\"file\":\"resources/app.asar\",\"alg\":\"SHA256\",\"value\":\"";
const ESCAPED: &str = "{\"file\":\"resources\\\\app.asar\",\"alg\":\"SHA256\",\"value\":\"";

#[test]
fn integrity_field_is_found_after_the_first_known_lead_in() {
    let exe = exe_with(SLASH, &"a".repeat(64));
    assert_eq!(locate_integrity_field(&exe), IntegrityField::At(6 + SLASH.len()));
    let exe = exe_with(ESCAPED, &"0".repeat(64));
    assert_eq!(locate_integrity_field(&exe), IntegrityField::At(6 + ESCAPED.len()));
    assert_eq!(locate_integrity_field(b"no record here"), IntegrityField::Missing);
    let exe = exe_with(SLASH, &"z".repeat(64));
    assert_eq!(locate_integrity_field(&exe), IntegrityField::Invalid);
    let exe = exe_with(SLASH, "abc");
    assert_eq!(locate_integrity_field(&exe), IntegrityField::Invalid);
}

#[test]
fn integrity_hash_is_replaced_once() {
    let header_json = b"{\"files\":{}}";
    let mut exe = exe_with(SLASH, &"a".repeat(64));
    let start = match locate_integrity_field(&exe) {
        IntegrityField::At(s) => s,
        other => panic!("unexpected {other:?}"),
    };
    assert!(update_integrity_hash(&mut exe, start, header_json));
    let expected = encode_hex(&sha256(header_json));
    assert_eq!(&exe[start..start + 64], expected.as_bytes());
    assert!(!exe.windows(64).any(|w| w == "a".repeat(64).as_bytes()));
    assert!(exe.ends_with(b"\"suffix"));
    assert!(!update_integrity_hash(&mut exe, start, header_json));
}

//! The `app.asar` integrity record embedded in the copied executable: where
//! its SHA-256 field lies and how it is brought up to date.
use vstd::prelude::*;
use vstd::string::StringSliceAdditionalSpecFns;
use vstd::utf8::encode_utf8;

use crate::bytes::{bytes_at, bytes_contain, find_subslice};
use crate::digest::{sha256, sha256_digest};
use crate::text::{encode_hex, hex_text};

verus! {

/// The record's lead-in with a JSON-escaped backslash separator.
pub const ESCAPED_BACKSLASH_MARKER: &'static str = "{\"file\":\"resources\\\\app.asar\",\"alg\":\"SHA256\",\"value\":\"";

/// The record's lead-in with a JSON-escaped slash separator.
pub const ESCAPED_SLASH_MARKER: &'static str = "{\"file\":\"resources\\/app.asar\",\"alg\":\"SHA256\",\"value\":\"";

/// The record's lead-in with a plain slash separator.
pub const SLASH_MARKER: &'static str = "{\"file\":\"resources/app.asar\",\"alg\":\"SHA256\",\"value\":\"";

/// The lead-ins, in the order they are looked for.
pub open spec fn markers() -> Seq<Seq<u8>> {
    seq![
        ESCAPED_BACKSLASH_MARKER.spec_bytes(),
        ESCAPED_SLASH_MARKER.spec_bytes(),
        SLASH_MARKER.spec_bytes(),
    ]
}

/// Where the integrity field of an executable lies.
#[derive(Debug, PartialEq, Eq, Structural)]
pub enum IntegrityField {
    /// No lead-in occurs.
    Missing,
    /// The 64 characters after the lead-in are not all hexadecimal digits.
    Invalid,
    /// The field's 64 hexadecimal digits start here.
    At(usize),
}

/// Position of the first lead-in, in list order, that occurs in `exe`.
pub open spec fn first_marker(exe: Seq<u8>, from: int) -> Option<int>
    decreases 3 - from,
{
    if from >= 3 || from < 0 {
        None
    } else if bytes_contain(exe, markers()[from]) {
        Some(from)
    } else {
        first_marker(exe, from + 1)
    }
}

/// The first position at which `needle` occurs.
pub open spec fn first_position(hay: Seq<u8>, needle: Seq<u8>) -> int {
    choose|i: int| bytes_at(hay, needle, i) && forall|j: int| 0 <= j < i ==> !bytes_at(hay, needle, j)
}

pub open spec fn is_hex_byte(b: u8) -> bool {
    (48 <= b <= 57) || (65 <= b <= 70) || (97 <= b <= 102)
}

/// The integrity field of an executable: after the first occurrence of the
/// first lead-in that occurs, 64 hexadecimal digits.
pub open spec fn spec_integrity_field(exe: Seq<u8>) -> Option<Option<int>> {
    match first_marker(exe, 0) {
        None => None,
        Some(k) => {
            let start = first_position(exe, markers()[k]) + markers()[k].len();
            if start + 64 <= exe.len() && forall|i: int|
                start <= i < start + 64 ==> is_hex_byte(#[trigger] exe[i]) {
                Some(Some(start))
            } else {
                Some(None)
            }
        },
    }
}

proof fn lemma_markers_nonempty()
    ensures
        forall|k: int| 0 <= k < 3 ==> #[trigger] markers()[k].len() > 0,
{
    reveal_strlit("{\"file\":\"resources\\\\app.asar\",\"alg\":\"SHA256\",\"value\":\"");
    reveal_strlit("{\"file\":\"resources\\/app.asar\",\"alg\":\"SHA256\",\"value\":\"");
    reveal_strlit("{\"file\":\"resources/app.asar\",\"alg\":\"SHA256\",\"value\":\"");
    assert(markers()[0].len() > 0);
    assert(markers()[1].len() > 0);
    assert(markers()[2].len() > 0);
}

/// Finds the integrity field of an executable (see `spec_integrity_field`).
pub fn locate_integrity_field(exe: &[u8]) -> (r: IntegrityField)
    ensures
        match spec_integrity_field(exe@) {
            None => r is Missing,
            Some(None) => r is Invalid,
            Some(Some(start)) => r == IntegrityField::At(start as usize),
        },
{
    proof {
        lemma_markers_nonempty();
    }
    let mut k: usize = 0;
    let mut found: Option<(usize, usize)> = None;
    while k < 3 && found.is_none()
        invariant
            0 <= k <= 3,
            forall|j: int| 0 <= j < 3 ==> #[trigger] markers()[j].len() > 0,
            found is None ==> first_marker(exe@, 0) == first_marker(exe@, k as int),
            found matches Some((m, pos)) ==> first_marker(exe@, 0) == Some(m as int) && m < 3
                && bytes_at(exe@, markers()[m as int], pos as int) && forall|j: int|
                0 <= j < pos ==> !bytes_at(exe@, markers()[m as int], j),
        decreases 3 - k,
    {
        let marker = if k == 0 {
            ESCAPED_BACKSLASH_MARKER
        } else if k == 1 {
            ESCAPED_SLASH_MARKER
        } else {
            SLASH_MARKER
        };
        proof {
            assert(marker.spec_bytes() == markers()[k as int]);
        }
        match find_subslice(exe, marker.as_bytes()) {
            Some(pos) => {
                proof {
                    assert(bytes_contain(exe@, markers()[k as int]));
                }
                found = Some((k, pos));
            },
            None => {},
        }
        k = k + 1;
    }
    let (m, pos) = match found {
        Some(f) => f,
        None => {
            return IntegrityField::Missing;
        },
    };
    let ghost mk = markers()[m as int];
    proof {
        assert(first_position(exe@, mk) == pos as int) by {
            let c = first_position(exe@, mk);
            assert(bytes_at(exe@, mk, pos as int));
            if c < pos {
                assert(!bytes_at(exe@, mk, c));
            } else if c > pos {
            }
        }
    }
    let marker_len: usize = if m == 0 {
        ESCAPED_BACKSLASH_MARKER.as_bytes().len()
    } else if m == 1 {
        ESCAPED_SLASH_MARKER.as_bytes().len()
    } else {
        SLASH_MARKER.as_bytes().len()
    };
    proof {
        assert(marker_len == mk.len());
    }
    let n = exe.len();
    let start = pos + marker_len;
    if exe.len() - start < 64 {
        return IntegrityField::Invalid;
    }
    let end = start + 64;
    let mut i: usize = start;
    while i < end
        invariant
            end == start + 64,
            start <= i <= end <= exe@.len(),
            m < 3,
            first_marker(exe@, 0) == Some(m as int),
            start == first_position(exe@, markers()[m as int]) + markers()[m as int].len(),
            forall|j: int| start <= j < i ==> is_hex_byte(#[trigger] exe@[j]),
        decreases end - i,
    {
        let b = exe[i];
        if !((b >= 48 && b <= 57) || (b >= 65 && b <= 70) || (b >= 97 && b <= 102)) {
            return IntegrityField::Invalid;
        }
        i = i + 1;
    }
    IntegrityField::At(start)
}

/// The hexadecimal SHA-256 of the header JSON, as ASCII bytes.
pub open spec fn header_hash(header_json: Seq<u8>) -> Seq<u8> {
    encode_utf8(hex_text(sha256_digest(header_json)))
}

/// Writes the SHA-256 of the header JSON into the integrity field at
/// `start`; returns whether the field changed.
pub fn update_integrity_hash(exe: &mut Vec<u8>, start: usize, header_json: &[u8]) -> (changed: bool)
    requires
        start + 64 <= old(exe)@.len(),
    ensures
        changed == (old(exe)@.subrange(start as int, start + 64) != header_hash(header_json@)),
        final(exe)@ == old(exe)@.subrange(0, start as int) + header_hash(header_json@) + old(
            exe,
        )@.subrange(start + 64, old(exe)@.len() as int),
        final(exe)@.len() == old(exe)@.len(),
        final(exe)@.subrange(start as int, start + 64) == header_hash(header_json@),
{
    let digest = sha256(header_json);
    let hex = encode_hex(digest.as_slice());
    let hash = hex.as_str().as_bytes();
    proof {
        lemma_hex_text_ascii(digest@);
        vstd::utf8::is_ascii_chars_encode_utf8(hex@);
        assert(hash@.len() == 64);
    }
    let len = exe.len();
    let current = vstd::slice::slice_subrange(exe.as_slice(), start, start + 64);
    let same = crate::bytes::bytes_equal(current, hash);
    let mut out: Vec<u8> = Vec::new();
    crate::bytes::extend_range(&mut out, exe.as_slice(), 0, start);
    out.extend_from_slice(hash);
    crate::bytes::extend_range(&mut out, exe.as_slice(), start + 64, len);
    proof {
        assert(out@.subrange(start as int, start + 64) =~= hash@);
    }
    *exe = out;
    !same
}

proof fn lemma_hex_text_ascii(bytes: Seq<u8>)
    ensures
        vstd::utf8::is_ascii_chars(hex_text(bytes)),
        hex_text(bytes).len() == 2 * bytes.len(),
    decreases bytes.len(),
{
    if bytes.len() > 0 {
        lemma_hex_text_ascii(bytes.drop_last());
    }
}

} // verus!

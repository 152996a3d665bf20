//! The binary framing of an ASAR archive: an 8-byte prefix that gives the
//! size of the header pickle, then the pickle, which frames the header JSON.
use vstd::prelude::*;
use vstd::slice::slice_subrange;

use crate::error::{install_error, EngineError};

verus! {

/// Largest header pickle that the patcher accepts or writes.
pub const MAX_ASAR_HEADER_BYTES: u32 = 33554432;

/// Little-endian value of four bytes.
pub open spec fn le_u32(b: Seq<u8>) -> u32
    recommends
        b.len() == 4,
{
    (b[0] as u32) | ((b[1] as u32) << 8u32) | ((b[2] as u32) << 16u32) | ((b[3] as u32) << 24u32)
}

/// The four little-endian bytes of `v`.
pub open spec fn u32_le_bytes(v: u32) -> Seq<u8> {
    seq![
        (v & 0xffu32) as u8,
        ((v >> 8u32) & 0xffu32) as u8,
        ((v >> 16u32) & 0xffu32) as u8,
        ((v >> 24u32) & 0xffu32) as u8,
    ]
}

pub proof fn lemma_le_u32_roundtrip(v: u32)
    ensures
        u32_le_bytes(v).len() == 4,
        le_u32(u32_le_bytes(v)) == v,
{
    let b = u32_le_bytes(v);
    let b0 = b[0];
    let b1 = b[1];
    let b2 = b[2];
    let b3 = b[3];
    assert(((b0 as u32) | ((b1 as u32) << 8u32) | ((b2 as u32) << 16u32) | ((b3 as u32) << 24u32))
        == v) by (bit_vector)
        requires
            b0 == (v & 0xffu32) as u8,
            b1 == ((v >> 8u32) & 0xffu32) as u8,
            b2 == ((v >> 16u32) & 0xffu32) as u8,
            b3 == ((v >> 24u32) & 0xffu32) as u8,
    ;
}

/// Decodes a little-endian `u32` from a slice of exactly four bytes.
pub fn read_u32(bytes: &[u8]) -> (r: Result<u32, EngineError>)
    ensures
        r is Ok <==> bytes@.len() == 4,
        r matches Ok(v) ==> v == le_u32(bytes@),
        r matches Err(e) ==> e.spec_message() == "invalid ASAR integer"@,
{
    if bytes.len() != 4 {
        return Err(install_error("invalid ASAR integer"));
    }
    Ok((bytes[0] as u32) | ((bytes[1] as u32) << 8u32) | ((bytes[2] as u32) << 16u32) | ((
    bytes[3] as u32) << 24u32))
}

/// Encodes `v` as four little-endian bytes.
pub fn u32_to_le_bytes(v: u32) -> (r: Vec<u8>)
    ensures
        r@ == u32_le_bytes(v),
{
    let mut r: Vec<u8> = Vec::with_capacity(4);
    r.push((v & 0xffu32) as u8);
    r.push(((v >> 8u32) & 0xffu32) as u8);
    r.push(((v >> 16u32) & 0xffu32) as u8);
    r.push(((v >> 24u32) & 0xffu32) as u8);
    assert(r@ =~= u32_le_bytes(v));
    r
}

/// `a - b`, or 0 when `b` exceeds `a`.
pub open spec fn saturating_sub(a: int, b: int) -> int {
    if a >= b {
        a - b
    } else {
        0
    }
}

/// The header pickle size announced by an archive's 8-byte prefix, when the
/// prefix is well formed and the pickle fits in an archive of `archive_size` bytes.
#[verifier::opaque]
pub open spec fn spec_archive_header_size(prefix: Seq<u8>, archive_size: u64) -> Option<u32> {
    let pickle_payload = le_u32(prefix.subrange(0, 4));
    let header_size = le_u32(prefix.subrange(4, 8));
    if pickle_payload != 4 || header_size < 8 || header_size > MAX_ASAR_HEADER_BYTES
        || header_size > saturating_sub(archive_size as int, 8) {
        None
    } else {
        Some(header_size)
    }
}

/// Checks the 8-byte prefix of an archive of `archive_size` bytes and returns
/// the size of the header pickle that follows it.
pub fn parse_archive_prefix(prefix: &[u8], archive_size: u64) -> (r: Result<u32, EngineError>)
    requires
        prefix@.len() == 8,
    ensures
        r is Ok <==> spec_archive_header_size(prefix@, archive_size) is Some,
        r matches Ok(h) ==> spec_archive_header_size(prefix@, archive_size) == Some(h),
        r matches Err(e) ==> e.spec_message() == "unsupported or corrupt app.asar header"@,
{
    proof {
        reveal(spec_archive_header_size);
    }
    let pickle_payload = read_u32(slice_subrange(prefix, 0, 4))?;
    let header_size = read_u32(slice_subrange(prefix, 4, 8))?;
    let room = if archive_size >= 8 {
        archive_size - 8
    } else {
        0
    };
    if pickle_payload != 4 || header_size < 8 || header_size > MAX_ASAR_HEADER_BYTES
        || header_size as u64 > room {
        return Err(install_error("unsupported or corrupt app.asar header"));
    }
    Ok(header_size)
}

/// Offset of the first payload byte in an archive whose header pickle has `header_size` bytes.
pub fn data_offset(header_size: u32) -> (r: u64)
    ensures
        r == 8 + header_size,
{
    8 + header_size as u64
}

/// Encodes the 8-byte archive prefix for a header pickle of `header_size` bytes.
pub fn encode_archive_prefix(header_size: u32) -> (r: Vec<u8>)
    ensures
        r@ == u32_le_bytes(4) + u32_le_bytes(header_size),
{
    let mut r = u32_to_le_bytes(4);
    let mut tail = u32_to_le_bytes(header_size);
    r.append(&mut tail);
    r
}

/// The header JSON framed by a pickle, when the pickle's two size fields are consistent.
pub open spec fn spec_header_json(pickle: Seq<u8>) -> Option<Seq<u8>>
    recommends
        pickle.len() >= 8,
{
    let payload_size = le_u32(pickle.subrange(0, 4)) as int;
    let json_size = le_u32(pickle.subrange(4, 8)) as int;
    if payload_size > saturating_sub(pickle.len() as int, 4) || json_size > saturating_sub(
        payload_size,
        4,
    ) || 8 + json_size > pickle.len() {
        None
    } else {
        Some(pickle.subrange(8, 8 + json_size))
    }
}

/// Extracts the header JSON bytes from a header pickle.
pub fn header_json_bytes(pickle: &[u8]) -> (r: Result<Vec<u8>, EngineError>)
    requires
        pickle@.len() >= 8,
    ensures
        r is Ok <==> spec_header_json(pickle@) is Some,
        r matches Ok(json) ==> spec_header_json(pickle@) == Some(json@),
        r matches Err(e) ==> e.spec_message() == "invalid app.asar header pickle"@,
{
    let payload_size = read_u32(slice_subrange(pickle, 0, 4))? as usize;
    let json_size = read_u32(slice_subrange(pickle, 4, 8))? as usize;
    let room = pickle.len() - 4;
    let json_room = if payload_size >= 4 {
        payload_size - 4
    } else {
        0
    };
    if payload_size > room || json_size > json_room || json_size > pickle.len() - 8 {
        return Err(install_error("invalid app.asar header pickle"));
    }
    let json = slice_subrange(pickle, 8, 8 + json_size);
    Ok(vstd::slice::slice_to_vec(json))
}

/// `n` rounded up to a multiple of four.
pub open spec fn spec_align_four(n: int) -> int {
    n + (4 - n % 4) % 4
}

/// Rounds `value` up to a multiple of four, failing when that overflows.
pub fn align_four(value: usize) -> (r: Result<usize, EngineError>)
    ensures
        r is Ok <==> spec_align_four(value as int) <= usize::MAX,
        r matches Ok(v) ==> v == spec_align_four(value as int),
        r matches Err(e) ==> e.spec_message() == "ASAR header size overflow"@,
{
    let pad = (4 - value % 4) % 4;
    if value > usize::MAX - pad {
        return Err(install_error("ASAR header size overflow"));
    }
    Ok(value + pad)
}

/// The header pickle that frames `json`: payload size, JSON size, the JSON,
/// and zero padding to a multiple of four. `None` when a size does not fit.
pub open spec fn spec_header_pickle(json: Seq<u8>) -> Option<Seq<u8>> {
    let aligned = spec_align_four(json.len() as int);
    if 8 + aligned > usize::MAX || 4 + aligned > u32::MAX {
        None
    } else {
        Some(
            u32_le_bytes((4 + aligned) as u32) + u32_le_bytes(json.len() as u32) + json + Seq::new(
                (aligned - json.len()) as nat,
                |i: int| 0u8,
            ),
        )
    }
}

/// Why a header of `json_len` bytes cannot be framed.
pub open spec fn spec_header_pickle_error(json_len: nat) -> Seq<char> {
    let aligned = spec_align_four(json_len as int);
    if aligned > usize::MAX {
        "ASAR header size overflow"@
    } else if aligned > usize::MAX - 4 {
        "ASAR header payload overflow"@
    } else if aligned > usize::MAX - 8 {
        "ASAR header pickle overflow"@
    } else {
        "ASAR header payload is too large"@
    }
}

/// Frames serialized header JSON as an ASAR header pickle.
pub fn header_pickle(json: &[u8]) -> (r: Result<Vec<u8>, EngineError>)
    ensures
        r is Ok <==> spec_header_pickle(json@) is Some,
        r matches Ok(p) ==> spec_header_pickle(json@) == Some(p@),
        r matches Err(e) ==> e.spec_message() == spec_header_pickle_error(json@.len()),
{
    let aligned_json = align_four(json.len())?;
    if aligned_json > usize::MAX - 4 {
        return Err(install_error("ASAR header payload overflow"));
    }
    let payload_size = 4 + aligned_json;
    if payload_size > usize::MAX - 4 {
        return Err(install_error("ASAR header pickle overflow"));
    }
    if payload_size > u32::MAX as usize {
        return Err(install_error("ASAR header payload is too large"));
    }
    let mut out = u32_to_le_bytes(payload_size as u32);
    let mut json_len = u32_to_le_bytes(json.len() as u32);
    out.append(&mut json_len);
    out.extend_from_slice(json);
    let mut i: usize = json.len();
    while i < aligned_json
        invariant
            json.len() <= i <= aligned_json,
            aligned_json == spec_align_four(json@.len() as int),
            out@ == u32_le_bytes(payload_size as u32) + u32_le_bytes(json@.len() as u32) + json@
                + Seq::new((i - json.len()) as nat, |k: int| 0u8),
        decreases aligned_json - i,
    {
        out.push(0u8);
        i = i + 1;
        assert(Seq::new((i - json.len()) as nat, |k: int| 0u8) =~= Seq::new(
            (i - 1 - json.len()) as nat,
            |k: int| 0u8,
        ).push(0u8));
    }
    Ok(out)
}

/// Reading the header back out of a pickle that `header_pickle` wrote gives
/// the JSON that was written.
pub proof fn lemma_header_pickle_roundtrip(json: Seq<u8>)
    requires
        spec_header_pickle(json) is Some,
    ensures
        spec_header_pickle(json)->0.len() >= 8,
        spec_header_json(spec_header_pickle(json)->0) == Some(json),
{
    let aligned = spec_align_four(json.len() as int);
    let p = spec_header_pickle(json)->0;
    let a = u32_le_bytes((4 + aligned) as u32);
    let b = u32_le_bytes(json.len() as u32);
    lemma_le_u32_roundtrip((4 + aligned) as u32);
    lemma_le_u32_roundtrip(json.len() as u32);
    assert(p.subrange(0, 4) =~= a);
    assert(p.subrange(4, 8) =~= b);
    assert(p.subrange(8, 8 + json.len() as int) =~= json);
}

/// An archive prefix written by `encode_archive_prefix` is accepted by
/// `parse_archive_prefix` exactly when its size is in the allowed range and
/// the archive can hold the pickle, and it gives back the written size.
pub proof fn lemma_archive_prefix_roundtrip(header_size: u32, archive_size: u64)
    ensures
        spec_archive_header_size(u32_le_bytes(4) + u32_le_bytes(header_size), archive_size) == (
        if 8 <= header_size <= MAX_ASAR_HEADER_BYTES && header_size + 8 <= archive_size {
            Some(header_size)
        } else {
            None
        }),
{
    reveal(spec_archive_header_size);
    let p = u32_le_bytes(4) + u32_le_bytes(header_size);
    lemma_le_u32_roundtrip(4);
    lemma_le_u32_roundtrip(header_size);
    assert(p.subrange(0, 4) =~= u32_le_bytes(4));
    assert(p.subrange(4, 8) =~= u32_le_bytes(header_size));
}

} // verus!

//! The file tree of an ASAR header: which entries are packed in the
//! archive's payload, where, and how large.
use vstd::prelude::*;

use crate::error::EngineError;
use crate::digest::{sha256, sha256_digest};
use crate::json::{
    insert_member, insert_v, items_v, json_u64, jv, lemma_get_view, lemma_items_v_index,
    lemma_first_member_view, lemma_member_pos, lemma_member_pos_v, lemma_member_pos_view,
    lemma_members_v_index, lemma_no_member_view, member,
    member_index, member_pos, member_pos_v, members_v, spec_as_u64, spec_get, spec_get_v, Json,
    JsonV, json_within, keys_sorted, lemma_insert_keeps_order, lemma_object_within,
    lemma_within_mono, text_lt, values_all,
};
use crate::text::decimal_string;
use vstd::hash_map::StringHashMap;
use vstd::slice::slice_subrange;
use crate::text::{decimal_text, encode_hex, hex_text, parse_u64, spec_parse_u64};

verus! {

/// A file stored in the archive's payload.
#[derive(Debug)]
pub struct PackedFile {
    pub path: String,
    pub offset: u64,
    pub size: u64,
}

pub struct PackedFileView {
    pub path: Seq<char>,
    pub offset: u64,
    pub size: u64,
}

impl View for PackedFile {
    type V = PackedFileView;

    open spec fn view(&self) -> PackedFileView {
        PackedFileView { path: self.path@, offset: self.offset, size: self.size }
    }
}

impl Clone for PackedFile {
    fn clone(&self) -> (r: Self)
        ensures
            r@ == self@,
    {
        PackedFile { path: self.path.clone(), offset: self.offset, size: self.size }
    }
}

/// The path of member `name` inside directory `parent` ("" is the root).
pub open spec fn child_path(parent: Seq<char>, name: Seq<char>) -> Seq<char> {
    if parent.len() == 0 {
        name
    } else {
        parent + "/"@ + name
    }
}

pub fn join_child_path(parent: &str, name: &str) -> (r: String)
    ensures
        r@ == child_path(parent@, name@),
{
    if parent.is_empty() {
        String::from_str(name)
    } else {
        let mut r = String::from_str(parent);
        r.append("/");
        r.append(name);
        r
    }
}

/// What the header says of one file entry at `path`: not packed (unpacked or
/// without an offset), packed at an offset and size, or malformed.
pub open spec fn spec_packed_entry(entry: Json, path: Seq<char>) -> Result<
    Option<PackedFileView>,
    Seq<char>,
> {
    if spec_get(entry, "unpacked"@) == Some(Json::Bool(true)) {
        Ok(None)
    } else {
        match spec_get(entry, "offset"@) {
            Some(Json::Str(text)) => match spec_parse_u64(text@) {
                None => Err("invalid ASAR offset for "@ + path),
                Some(offset) => match spec_get(entry, "size"@) {
                    Some(size_value) => match spec_as_u64(size_value) {
                        Some(size) => Ok(Some(PackedFileView { path, offset, size })),
                        None => Err("invalid ASAR size for "@ + path),
                    },
                    None => Err("invalid ASAR size for "@ + path),
                },
            },
            _ => Ok(None),
        }
    }
}

fn error_with_path(prefix: &str, path: &String) -> (e: EngineError)
    ensures
        e.spec_message() == prefix@ + path@,
{
    let mut m = String::from_str(prefix);
    m.append(path.as_str());
    EngineError::Install(m)
}

/// Reads the payload location of one file entry of the header.
pub fn packed_entry(entry: &Json, path: &String) -> (r: Result<Option<PackedFile>, EngineError>)
    ensures
        match r {
            Ok(Some(f)) => spec_packed_entry(*entry, path@) == Ok::<_, Seq<char>>(Some(f@)),
            Ok(None) => spec_packed_entry(*entry, path@) == Ok::<_, Seq<char>>(None::<PackedFileView>),
            Err(e) => spec_packed_entry(*entry, path@) == Err::<Option<PackedFileView>, _>(e.spec_message()),
        },
{
    if let Some(unpacked) = entry.get("unpacked") {
        if unpacked.as_bool() == Some(true) {
            return Ok(None);
        }
    }
    let offset_text = match entry.get("offset") {
        Some(v) => match v.as_str() {
            Some(t) => t,
            None => {
                return Ok(None);
            },
        },
        None => {
            return Ok(None);
        },
    };
    let offset = match parse_u64(offset_text.as_str()) {
        Some(o) => o,
        None => {
            return Err(error_with_path("invalid ASAR offset for ", path));
        },
    };
    let size = match entry.get("size") {
        Some(v) => match v.as_u64() {
            Some(s) => s,
            None => {
                return Err(error_with_path("invalid ASAR size for ", path));
            },
        },
        None => {
            return Err(error_with_path("invalid ASAR size for ", path));
        },
    };
    Ok(Some(PackedFile { path: path.clone(), offset, size }))
}

/// The packed files below one member `name` of directory `parent`, in
/// header order, or the first malformed entry's explanation.
pub open spec fn spec_entry_files(name: Seq<char>, entry: Json, parent: Seq<char>) -> Result<
    Seq<PackedFileView>,
    Seq<char>,
>
    decreases entry,
{
    let path = child_path(parent, name);
    let leaf = match spec_packed_entry(entry, path) {
        Ok(Some(f)) => Ok(seq![f]),
        Ok(None) => Ok(Seq::empty()),
        Err(m) => Err(m),
    };
    match entry {
        Json::Object(ms) => match member_pos(ms@, "files"@) {
            Some(k) => if 0 <= k < ms@.len() {
                match ms@[k].1 {
                    Json::Object(children) => spec_members_files(children@, path),
                    _ => leaf,
                }
            } else {
                leaf
            },
            None => leaf,
        },
        _ => leaf,
    }
}

/// The packed files below the members of directory `parent`, in header
/// order, or the first malformed entry's explanation.
pub open spec fn spec_members_files(members: Seq<(String, Json)>, parent: Seq<char>) -> Result<
    Seq<PackedFileView>,
    Seq<char>,
>
    decreases members,
{
    if members.len() == 0 {
        Ok(Seq::empty())
    } else {
        match spec_entry_files(members[0].0@, members[0].1, parent) {
            Err(m) => Err(m),
            Ok(a) => match spec_members_files(members.drop_first(), parent) {
                Err(m) => Err(m),
                Ok(b) => Ok(a + b),
            },
        }
    }
}

pub open spec fn views(files: Seq<PackedFile>) -> Seq<PackedFileView> {
    files.map_values(|f: PackedFile| f@)
}

/// Lists the packed files below the members of directory `parent`, in header order.
pub fn collect_packed_files(files: &Vec<(String, Json)>, parent: &String) -> (r: Result<
    Vec<PackedFile>,
    EngineError,
>)
    ensures
        match r {
            Ok(v) => spec_members_files(files@, parent@) == Ok::<_, Seq<char>>(views(v@)),
            Err(e) => spec_members_files(files@, parent@) == Err::<Seq<PackedFileView>, _>(
                e.spec_message(),
            ),
        },
    decreases files@,
{
    let mut out: Vec<PackedFile> = Vec::new();
    let mut i: usize = 0;
    proof {
        assert(files@.skip(0) =~= files@);
        assert(views(out@) =~= Seq::<PackedFileView>::empty());
    }
    while i < files.len()
        invariant
            0 <= i <= files@.len(),
            spec_members_files(files@, parent@) == (match spec_members_files(files@.skip(i as int), parent@) {
                Ok(b) => Ok::<_, Seq<char>>(views(out@) + b),
                Err(m) => Err(m),
            }),
        decreases files.len() - i,
    {
        let name = &files[i].0;
        let entry = &files[i].1;
        let ghost rest = files@.skip(i as int);
        proof {
            assert(rest[0] == files@[i as int]);
            assert(rest.drop_first() =~= files@.skip(i + 1));
        }
        let path = join_child_path(parent.as_str(), name.as_str());
        let children = match entry.get("files") {
            Some(v) => v.as_object(),
            None => None,
        };
        let ghost before = views(out@);
        let ghost mut got: Seq<PackedFileView> = Seq::empty();
        match children {
            Some(children) => {
                proof {
                    let ms = entry->Object_0;
                    lemma_member_pos(ms@, "files"@);
                    let k = member_pos(ms@, "files"@)->0;
                    assert(ms@[k].1 == Json::Object(*children));
                    assert(decreases_to!(files@ => files@[i as int]));
                    assert(decreases_to!(files@[i as int] => files@[i as int].1));
                    assert(decreases_to!(*entry => ms));
                    assert(decreases_to!(ms => ms@));
                    assert(decreases_to!(ms@ => ms@[k]));
                    assert(decreases_to!(ms@[k] => ms@[k].1));
                    assert(decreases_to!(ms@[k].1 => ms@[k].1->Object_0));
                    assert(ms@[k].1->Object_0 == *children);
                    assert(decreases_to!(*children => children@));
                }
                let sub = match collect_packed_files(children, &path) {
                    Ok(sub) => sub,
                    Err(e) => {
                        proof {
                            let ms = entry->Object_0;
                            lemma_member_pos(ms@, "files"@);
                            assert(spec_entry_files(name@, *entry, parent@) == spec_members_files(children@, path@));
                            assert(spec_members_files(rest, parent@) == Err::<Seq<PackedFileView>, _>(e.spec_message()));
                        }
                        return Err(e);
                    },
                };
                let mut j: usize = 0;
                while j < sub.len()
                    invariant
                        0 <= j <= sub@.len(),
                        views(out@) =~= before + views(sub@).take(j as int),
                    decreases sub.len() - j,
                {
                    let f = sub[j].clone();
                    assert(f@ == sub@[j as int]@);
                    let ghost old_out = out@;
                    out.push(f);
                    proof {
                        assert(out@ == old_out.push(f));
                        assert(views(out@) =~= views(old_out).push(f@));
                        assert(views(sub@).take(j + 1) =~= views(sub@).take(j as int).push(sub@[j as int]@));
                    }
                    j = j + 1;
                }
                proof {
                    assert(views(sub@).take(sub@.len() as int) =~= views(sub@));
                    let ms = entry->Object_0;
                    lemma_member_pos(ms@, "files"@);
                    got = views(sub@);
                    assert(spec_entry_files(name@, *entry, parent@) == spec_members_files(children@, path@));
                }
            },
            None => {
                proof {
                    if *entry is Object {
                        lemma_member_pos(entry->Object_0@, "files"@);
                    }
                }
                let leaf = match packed_entry(entry, &path) {
                    Ok(l) => l,
                    Err(e) => {
                        proof {
                            assert(spec_members_files(rest, parent@) == Err::<Seq<PackedFileView>, _>(e.spec_message()));
                        }
                        return Err(e);
                    },
                };
                match leaf {
                    Some(f) => {
                        out.push(f);
                        proof {
                            assert(views(out@) =~= before + seq![f@]);
                            got = seq![f@];
                        }
                    },
                    None => {
                        proof {
                            assert(views(out@) =~= before + got);
                        }
                    },
                }
            },
        }
        proof {
            assert(spec_entry_files(name@, *entry, parent@) == Ok::<_, Seq<char>>(got));
            assert(views(out@) =~= before + got);
            match spec_members_files(files@.skip(i + 1), parent@) {
                Ok(b) => {
                    assert(before + (got + b) =~= views(out@) + b);
                },
                Err(m) => {},
            }
        }
        i = i + 1;
    }
    proof {
        assert(files@.skip(i as int).len() == 0);
        assert(views(out@) + Seq::<PackedFileView>::empty() =~= views(out@));
    }
    Ok(out)
}

/// Integrity blocks are 4 MiB unless the header says otherwise.
pub const DEFAULT_INTEGRITY_BLOCK_SIZE: usize = 4194304;

/// `bytes` cut into consecutive blocks of `block_size` bytes, the last one
/// possibly shorter; empty content is one empty block.
pub open spec fn file_blocks(bytes: Seq<u8>, block_size: nat) -> Seq<Seq<u8>>
    decreases bytes.len(),
{
    if block_size == 0 || bytes.len() <= block_size {
        seq![bytes]
    } else {
        seq![bytes.take(block_size as int)] + file_blocks(bytes.skip(block_size as int), block_size)
    }
}

/// The hexadecimal SHA-256 digest of each block.
pub open spec fn block_hashes(blocks: Seq<Seq<u8>>) -> Seq<JsonV>
    decreases blocks.len(),
{
    if blocks.len() == 0 {
        Seq::empty()
    } else {
        seq![JsonV::Str(hex_text(sha256_digest(blocks[0])))] + block_hashes(blocks.drop_first())
    }
}

/// The integrity record of a file's content: SHA-256 of the whole content
/// and of each block of `block_size` bytes (at least one byte per block).
pub open spec fn spec_integrity(bytes: Seq<u8>, block_size: usize) -> JsonV {
    let bs: nat = if block_size == 0 {
        1
    } else {
        block_size as nat
    };
    JsonV::Object(
        seq![
            ("algorithm"@, JsonV::Str("SHA256"@)),
            ("blockSize"@, JsonV::Number(decimal_text(bs), Some(bs as u64))),
            ("blocks"@, JsonV::Array(block_hashes(file_blocks(bytes, bs)))),
            ("hash"@, JsonV::Str(hex_text(sha256_digest(bytes)))),
        ],
    )
}

proof fn lemma_block_hashes_concat(a: Seq<Seq<u8>>, b: Seq<Seq<u8>>)
    ensures
        block_hashes(a + b) == block_hashes(a) + block_hashes(b),
    decreases a.len(),
{
    if a.len() == 0 {
        assert(a + b =~= b);
        assert(Seq::<JsonV>::empty() + block_hashes(b) =~= block_hashes(b));
    } else {
        lemma_block_hashes_concat(a.drop_first(), b);
        assert((a + b).drop_first() =~= a.drop_first() + b);
        assert(block_hashes(a + b) =~= block_hashes(a) + block_hashes(b));
    }
}

proof fn lemma_block_hashes_single(x: Seq<u8>)
    ensures
        block_hashes(seq![x]) == seq![JsonV::Str(hex_text(sha256_digest(x)))],
{
    assert(seq![x].drop_first() =~= Seq::<Seq<u8>>::empty());
    assert(seq![x][0] == x);
    assert(block_hashes(Seq::<Seq<u8>>::empty()) =~= Seq::<JsonV>::empty());
    assert(block_hashes(seq![x]) =~= seq![JsonV::Str(hex_text(sha256_digest(x)))]);
}

proof fn lemma_items_v_push(items: Seq<Json>, x: Json)
    ensures
        items_v(items.push(x)) == items_v(items).push(jv(x)),
{
    lemma_items_v_index(items);
    lemma_items_v_index(items.push(x));
    assert(items_v(items.push(x)) =~= items_v(items).push(jv(x)));
}

/// The JSON string of the hexadecimal SHA-256 digest of `data`.
fn digest_entry(data: &[u8]) -> (r: Json)
    ensures
        jv(r) == JsonV::Str(hex_text(sha256_digest(data@))),
{
    let digest = sha256(data);
    Json::Str(encode_hex(digest.as_slice()))
}

/// Builds the integrity record of a file's content.
pub fn integrity_value(bytes: &[u8], block_size: usize) -> (r: Json)
    ensures
        jv(r) == spec_integrity(bytes@, block_size),
{
    let bs: usize = if block_size == 0 {
        1
    } else {
        block_size
    };
    let mut blocks: Vec<Json> = Vec::new();
    let mut pos: usize = 0;
    proof {
        assert(bytes@.skip(0) =~= bytes@);
    }
    while bytes.len() - pos > bs
        invariant
            bs >= 1,
            bs as nat == (if block_size == 0 {
                1
            } else {
                block_size as nat
            }),
            0 <= pos <= bytes@.len(),
            items_v(blocks@) + block_hashes(file_blocks(bytes@.skip(pos as int), bs as nat))
                == block_hashes(file_blocks(bytes@, bs as nat)),
        decreases bytes.len() - pos,
    {
        let ghost rest = bytes@.skip(pos as int);
        let chunk = slice_subrange(bytes, pos, pos + bs);
        let entry = digest_entry(chunk);
        let ghost prev = blocks@;
        blocks.push(entry);
        proof {
            assert(chunk@ =~= rest.take(bs as int));
            assert(rest.skip(bs as int) =~= bytes@.skip(pos + bs));
            assert(file_blocks(rest, bs as nat) == seq![rest.take(bs as int)] + file_blocks(
                rest.skip(bs as int),
                bs as nat,
            ));
            lemma_block_hashes_concat(seq![rest.take(bs as int)], file_blocks(rest.skip(bs as int), bs as nat));
            lemma_block_hashes_single(rest.take(bs as int));
            lemma_items_v_push(prev, entry);
            assert(items_v(blocks@) + block_hashes(file_blocks(bytes@.skip(pos + bs), bs as nat))
                =~= items_v(prev) + block_hashes(file_blocks(rest, bs as nat)));
        }
        pos = pos + bs;
    }
    let last = slice_subrange(bytes, pos, bytes.len());
    let entry = digest_entry(last);
    let ghost prev = blocks@;
    blocks.push(entry);
    proof {
        let rest = bytes@.skip(pos as int);
        assert(last@ =~= rest);
        assert(file_blocks(rest, bs as nat) == seq![rest]);
        lemma_block_hashes_single(rest);
        lemma_items_v_push(prev, entry);
        assert(items_v(blocks@) =~= block_hashes(file_blocks(bytes@, bs as nat)));
    }
    let whole = digest_entry(bytes);
    let mut members: Vec<(String, Json)> = Vec::new();
    members.push((String::from_str("algorithm"), Json::Str(String::from_str("SHA256"))));
    members.push((String::from_str("blockSize"), crate::json::json_u64(bs as u64)));
    members.push((String::from_str("blocks"), Json::Array(blocks)));
    members.push((String::from_str("hash"), whole));
    proof {
        lemma_members_v_index(members@);
        assert(members_v(members@) =~= spec_integrity(bytes@, block_size)->Object_0);
    }
    Json::Object(members)
}

/// The contents of a table of byte buffers.
pub open spec fn bytes_view(table: Map<Seq<char>, Vec<u8>>) -> Map<Seq<char>, Seq<u8>> {
    table.map_values(|v: Vec<u8>| v@)
}

/// The integrity block size that a file entry declares, when it fits in a
/// `usize`; the default otherwise.
pub open spec fn spec_declared_block_size(members: Seq<(Seq<char>, JsonV)>) -> usize {
    match spec_get_v(JsonV::Object(members), "integrity"@) {
        Some(integrity) => match spec_get_v(integrity, "blockSize"@) {
            Some(JsonV::Number(_, Some(v))) => if v <= usize::MAX {
                v as usize
            } else {
                DEFAULT_INTEGRITY_BLOCK_SIZE
            },
            _ => DEFAULT_INTEGRITY_BLOCK_SIZE,
        },
        None => DEFAULT_INTEGRITY_BLOCK_SIZE,
    }
}

/// A packed file entry rewritten for the patched archive: its offset becomes
/// the recalculated one, and a patched file also gets its new size and
/// integrity record. Unpacked entries and entries without an offset stay.
pub open spec fn spec_update_leaf(
    members: Seq<(Seq<char>, JsonV)>,
    path: Seq<char>,
    offsets: Map<Seq<char>, u64>,
    patched: Map<Seq<char>, Seq<u8>>,
) -> Result<JsonV, Seq<char>> {
    let entry = JsonV::Object(members);
    if spec_get_v(entry, "unpacked"@) == Some(JsonV::Bool(true)) {
        Ok(entry)
    } else if !(spec_get_v(entry, "offset"@) matches Some(JsonV::Str(_))) {
        Ok(entry)
    } else if !offsets.contains_key(path) {
        Err("missing recalculated ASAR offset for "@ + path)
    } else {
        let with_offset = insert_v(members, "offset"@, JsonV::Str(decimal_text(offsets[path] as nat)));
        if patched.contains_key(path) {
            let bytes = patched[path];
            let with_size = insert_v(
                with_offset,
                "size"@,
                JsonV::Number(decimal_text(bytes.len()), Some(bytes.len() as u64)),
            );
            Ok(
                JsonV::Object(
                    insert_v(
                        with_size,
                        "integrity"@,
                        spec_integrity(bytes, spec_declared_block_size(with_size)),
                    ),
                ),
            )
        } else {
            Ok(JsonV::Object(with_offset))
        }
    }
}

/// The entry at `path` rewritten for the patched archive: directories are
/// rewritten member by member, file entries as `spec_update_leaf` says.
pub open spec fn spec_update_entry(
    path: Seq<char>,
    entry: JsonV,
    offsets: Map<Seq<char>, u64>,
    patched: Map<Seq<char>, Seq<u8>>,
) -> Result<JsonV, Seq<char>>
    decreases entry,
{
    match entry {
        JsonV::Object(ms) => match member_pos_v(ms, "files"@) {
            Some(k) => if 0 <= k < ms.len() && ms[k].1 is Object {
                match spec_update_members(ms[k].1->Object_0, path, offsets, patched) {
                    Ok(children) => Ok(JsonV::Object(ms.update(k, (ms[k].0, JsonV::Object(children))))),
                    Err(m) => Err(m),
                }
            } else {
                spec_update_leaf(ms, path, offsets, patched)
            },
            None => spec_update_leaf(ms, path, offsets, patched),
        },
        _ => Ok(entry),
    }
}

/// The members of directory `parent` rewritten for the patched archive, or
/// the first failure.
pub open spec fn spec_update_members(
    members: Seq<(Seq<char>, JsonV)>,
    parent: Seq<char>,
    offsets: Map<Seq<char>, u64>,
    patched: Map<Seq<char>, Seq<u8>>,
) -> Result<Seq<(Seq<char>, JsonV)>, Seq<char>>
    decreases members,
{
    if members.len() == 0 {
        Ok(Seq::empty())
    } else {
        match spec_update_entry(child_path(parent, members[0].0), members[0].1, offsets, patched) {
            Err(m) => Err(m),
            Ok(e) => match spec_update_members(members.drop_first(), parent, offsets, patched) {
                Err(m) => Err(m),
                Ok(rest) => Ok(seq![(members[0].0, e)] + rest),
            },
        }
    }
}

/// The `i`-th block of `bytes` cut into blocks of `bs` bytes: from `i * bs`
/// to `(i + 1) * bs`, or to the end when that comes first.
pub open spec fn nth_block(bytes: Seq<u8>, bs: int, i: int) -> Seq<u8> {
    bytes.subrange(
        i * bs,
        if (i + 1) * bs < bytes.len() {
            (i + 1) * bs
        } else {
            bytes.len() as int
        },
    )
}

/// How many blocks of `bs` bytes cover `len` bytes: at least one, and
/// `len / bs` rounded up.
pub open spec fn block_count(len: int, bs: int) -> int {
    if len == 0 {
        1
    } else {
        (len + bs - 1) / bs
    }
}

proof fn lemma_file_blocks_chunks(bytes: Seq<u8>, bs: nat)
    requires
        bs > 0,
    ensures
        file_blocks(bytes, bs).len() == block_count(bytes.len() as int, bs as int),
        forall|i: int|
            0 <= i < file_blocks(bytes, bs).len() ==> #[trigger] file_blocks(bytes, bs)[i]
                == nth_block(bytes, bs as int, i) && (bytes.len() > 0 ==> i * (bs as int)
                < bytes.len()),
    decreases bytes.len(),
{
    let len = bytes.len() as int;
    let b = bs as int;
    if len <= b {
        if len > 0 {
            vstd::arithmetic::div_mod::lemma_div_plus_one(len - 1, b);
            vstd::arithmetic::div_mod::lemma_basic_div(len - 1, b);
            assert(b + (len - 1) == len + b - 1);
        }
        assert(0 * b == 0);
        assert(nth_block(bytes, b, 0) =~= bytes);
    } else {
        let rest = bytes.skip(b);
        lemma_file_blocks_chunks(rest, bs);
        vstd::arithmetic::div_mod::lemma_div_plus_one(len - 1, b);
        assert(b + (len - 1) == len + b - 1);
        assert(rest.len() + b - 1 == len - 1);
        let fb = file_blocks(bytes, bs);
        let fr = file_blocks(rest, bs);
        assert(fb == seq![bytes.take(b)] + fr);
        assert forall|i: int| 0 <= i < fb.len() implies #[trigger] fb[i] == nth_block(bytes, b, i)
            && (len > 0 ==> i * b < len) by {
            if i == 0 {
                assert(0 * b == 0);
                assert(nth_block(bytes, b, 0) =~= bytes.take(b));
            } else {
                assert(fb[i] == fr[i - 1]);
                assert((i - 1) * b + b == i * b) by (nonlinear_arith);
                assert(i * b + b == (i + 1) * b) by (nonlinear_arith);
                let x = (i - 1) * b;
                assert(fr[i - 1] == nth_block(rest, b, i - 1) && x < rest.len());
                let y = if i * b < rest.len() {
                    i * b
                } else {
                    rest.len() as int
                };
                assert(fr[i - 1] == rest.subrange(x, y));
                assert(0 <= x) by (nonlinear_arith)
                    requires
                        i >= 1,
                        b > 0,
                        x == (i - 1) * b,
                ;
                assert(rest.subrange(x, y) =~= bytes.subrange(x + b, y + b));
                assert(nth_block(bytes, b, i) == bytes.subrange(x + b, y + b));
            }
        }
    }
}

proof fn lemma_block_hashes_index(blocks: Seq<Seq<u8>>)
    ensures
        block_hashes(blocks).len() == blocks.len(),
        forall|i: int|
            0 <= i < blocks.len() ==> #[trigger] block_hashes(blocks)[i] == JsonV::Str(
                hex_text(sha256_digest(blocks[i])),
            ),
    decreases blocks.len(),
{
    if blocks.len() > 0 {
        lemma_block_hashes_index(blocks.drop_first());
        let h = block_hashes(blocks);
        assert forall|i: int| 0 <= i < blocks.len() implies #[trigger] h[i] == JsonV::Str(
            hex_text(sha256_digest(blocks[i])),
        ) by {
            if i > 0 {
                assert(h[i] == block_hashes(blocks.drop_first())[i - 1]);
                assert(blocks[i] == blocks.drop_first()[i - 1]);
            }
        }
    }
}

/// The integrity record of a file's content describes that content: its
/// `hash` is the SHA-256 of the whole content, its `blockSize` is the block
/// size used (at least one byte), and its `blocks` are, in order, the
/// SHA-256 digests of consecutive slices of the content of `blockSize`
/// bytes each, the last possibly shorter, which together cover the whole
/// content: `len / blockSize` rounded up of them, and at least one.
pub proof fn lemma_integrity_describes_content(bytes: Seq<u8>, block_size: usize)
    ensures
        ({
            let bs: int = if block_size == 0 {
                1
            } else {
                block_size as int
            };
            let record = spec_integrity(bytes, block_size);
            &&& spec_get_v(record, "hash"@) == Some(JsonV::Str(hex_text(sha256_digest(bytes))))
            &&& spec_get_v(record, "blockSize"@) == Some(
                JsonV::Number(decimal_text(bs as nat), Some(bs as u64)),
            )
            &&& spec_get_v(record, "blocks"@) matches Some(JsonV::Array(blocks)) && blocks.len()
                == block_count(bytes.len() as int, bs) && forall|i: int|
                0 <= i < blocks.len() ==> #[trigger] blocks[i] == JsonV::Str(
                    hex_text(sha256_digest(nth_block(bytes, bs, i))),
                )
        }),
{
    reveal_strlit("algorithm");
    reveal_strlit("blockSize");
    reveal_strlit("blocks");
    reveal_strlit("hash");
    reveal_with_fuel(member_pos_v, 5);
    let bs: nat = if block_size == 0 {
        1
    } else {
        block_size as nat
    };
    assert("algorithm"@[0] != "hash"@[0] && "blockSize"@[0] != "hash"@[0] && "blocks"@[0]
        != "hash"@[0]);
    assert("algorithm"@[0] != "blockSize"@[0] && "algorithm"@[0] != "blocks"@[0]);
    assert("blockSize"@.len() != "blocks"@.len());
    lemma_file_blocks_chunks(bytes, bs);
    lemma_block_hashes_index(file_blocks(bytes, bs));
}

/// The block hashes are texts.
proof fn lemma_block_hashes_texts(blocks: Seq<Seq<u8>>)
    ensures
        block_hashes(blocks).len() == blocks.len(),
        forall|i: int| 0 <= i < blocks.len() ==> #[trigger] block_hashes(blocks)[i] is Str,
    decreases blocks.len(),
{
    if blocks.len() > 0 {
        lemma_block_hashes_texts(blocks.drop_first());
        let h = block_hashes(blocks);
        assert forall|i: int| 0 <= i < blocks.len() implies #[trigger] h[i] is Str by {
            if i > 0 {
                assert(h[i] == block_hashes(blocks.drop_first())[i - 1]);
            }
        }
    }
}

/// An integrity record nests two levels deep, with its keys in order.
proof fn lemma_integrity_within(bytes: Seq<u8>, block_size: usize)
    ensures
        json_within(spec_integrity(bytes, block_size), 2),
{
    reveal_strlit("algorithm");
    reveal_strlit("blockSize");
    reveal_strlit("blocks");
    reveal_strlit("hash");
    let bs: nat = if block_size == 0 {
        1
    } else {
        block_size as nat
    };
    let ms = spec_integrity(bytes, block_size)->Object_0;
    let hs = block_hashes(file_blocks(bytes, bs));
    lemma_block_hashes_texts(file_blocks(bytes, bs));
    assert(json_within(JsonV::Array(hs), 1)) by {
        assert forall|i: int| 0 <= i < hs.len() implies crate::json::plain_upto(#[trigger] hs[i], 0) by {
            assert(hs[i] is Str);
        }
        assert forall|i: int| 0 <= i < hs.len() implies crate::json::sorted_upto(#[trigger] hs[i], 0) by {
        }
        assert(crate::json::plain_upto(JsonV::Array(hs), 1));
        assert(crate::json::sorted_upto(JsonV::Array(hs), 1));
    }
    assert(bs <= u64::MAX);
    assert(json_within(JsonV::Number(decimal_text(bs), Some(bs as u64)), 1));
    assert(text_lt("algorithm"@, "blockSize"@));
    assert(text_lt("algorithm"@, "blocks"@));
    assert(text_lt("algorithm"@, "hash"@));
    assert(text_lt("blockSize"@, "blocks"@)) by {
        reveal_with_fuel(text_lt, 7);
    }
    assert(text_lt("blockSize"@, "hash"@));
    assert(text_lt("blocks"@, "hash"@));
    assert(keys_sorted(ms));
    assert(values_all(ms, |v: JsonV| json_within(v, 1)));
    lemma_object_within(ms, 1);
}

/// The patched contents fit a `u64` length.
pub open spec fn patched_fit(patched: Map<Seq<char>, Seq<u8>>) -> bool {
    forall|k: Seq<char>| #[trigger] patched.contains_key(k) ==> patched[k].len() <= u64::MAX
}

/// A file entry rewritten for the patched archive nests at most two levels
/// deeper than before and keeps its keys in order.
proof fn lemma_leaf_within(
    members: Seq<(Seq<char>, JsonV)>,
    path: Seq<char>,
    offsets: Map<Seq<char>, u64>,
    patched: Map<Seq<char>, Seq<u8>>,
    d: nat,
)
    requires
        d >= 1,
        json_within(JsonV::Object(members), d),
        patched_fit(patched),
    ensures
        spec_update_leaf(members, path, offsets, patched) matches Ok(e) ==> json_within(e, d + 2),
{
    let f = |v: JsonV| json_within(v, d + 1);
    lemma_object_within(members, (d - 1) as nat);
    assert(values_all(members, f)) by {
        assert forall|i: int| 0 <= i < members.len() implies f(#[trigger] members[i].1) by {
            assert(json_within(members[i].1, (d - 1) as nat));
            lemma_within_mono(members[i].1, (d - 1) as nat, d + 1);
        }
    }
    match spec_update_leaf(members, path, offsets, patched) {
        Ok(e) => {
            let entry = JsonV::Object(members);
            if spec_get_v(entry, "unpacked"@) == Some(JsonV::Bool(true)) || !(spec_get_v(
                entry,
                "offset"@,
            ) matches Some(JsonV::Str(_))) {
                lemma_within_mono(entry, d, d + 2);
            } else {
                let off = JsonV::Str(decimal_text(offsets[path] as nat));
                let with_offset = insert_v(members, "offset"@, off);
                assert(f(off));
                lemma_insert_keeps_order(members, "offset"@, off, f);
                if patched.contains_key(path) {
                    let bytes = patched[path];
                    let size = JsonV::Number(decimal_text(bytes.len()), Some(bytes.len() as u64));
                    assert(bytes.len() <= u64::MAX);
                    assert(f(size));
                    lemma_insert_keeps_order(with_offset, "size"@, size, f);
                    let with_size = insert_v(with_offset, "size"@, size);
                    let integrity = spec_integrity(bytes, spec_declared_block_size(with_size));
                    lemma_integrity_within(bytes, spec_declared_block_size(with_size));
                    lemma_within_mono(integrity, 2, d + 1);
                    lemma_insert_keeps_order(with_size, "integrity"@, integrity, f);
                    lemma_object_within(insert_v(with_size, "integrity"@, integrity), d + 1);
                } else {
                    lemma_object_within(with_offset, d + 1);
                }
            }
        },
        Err(_) => {},
    }
}

/// An entry rewritten for the patched archive nests at most two levels
/// deeper than before and keeps every object's keys in order.
proof fn lemma_entry_within(
    path: Seq<char>,
    entry: JsonV,
    offsets: Map<Seq<char>, u64>,
    patched: Map<Seq<char>, Seq<u8>>,
    d: nat,
)
    requires
        json_within(entry, d),
        patched_fit(patched),
    ensures
        spec_update_entry(path, entry, offsets, patched) matches Ok(e) ==> json_within(e, d + 2),
    decreases entry,
{
    match entry {
        JsonV::Object(ms) => {
            lemma_object_within(ms, (d - 1) as nat);
            match member_pos_v(ms, "files"@) {
                Some(k) => {
                    if 0 <= k < ms.len() && ms[k].1 is Object {
                        let sub = ms[k].1->Object_0;
                        assert(json_within(ms[k].1, (d - 1) as nat));
                        lemma_object_within(sub, (d - 2) as nat);
                        assert(decreases_to!(entry => ms));
                        assert(decreases_to!(ms => ms[k]));
                        assert(decreases_to!(ms[k] => ms[k].1));
                        assert(decreases_to!(ms[k].1 => sub));
                        lemma_members_within(sub, path, offsets, patched, (d - 2) as nat);
                        match spec_update_members(sub, path, offsets, patched) {
                            Ok(children) => {
                                lemma_object_within(children, d);
                                let up = ms.update(k, (ms[k].0, JsonV::Object(children)));
                                assert forall|i: int, j: int| 0 <= i < j < up.len() implies text_lt(
                                    #[trigger] up[i].0,
                                    #[trigger] up[j].0,
                                ) by {
                                    assert(up[i].0 == ms[i].0 && up[j].0 == ms[j].0);
                                }
                                assert forall|i: int| 0 <= i < up.len() implies json_within(
                                    #[trigger] up[i].1,
                                    d + 1,
                                ) by {
                                    if i != k {
                                        assert(up[i] == ms[i]);
                                        assert(json_within(ms[i].1, (d - 1) as nat));
                                        lemma_within_mono(ms[i].1, (d - 1) as nat, d + 1);
                                    }
                                }
                                assert(values_all(up, |v: JsonV| json_within(v, d + 1)));
                                lemma_object_within(up, d + 1);
                            },
                            Err(_) => {},
                        }
                    } else {
                        lemma_leaf_within(ms, path, offsets, patched, d);
                    }
                },
                None => {
                    lemma_leaf_within(ms, path, offsets, patched, d);
                },
            }
        },
        _ => {
            lemma_within_mono(entry, d, d + 2);
        },
    }
}

/// The members of a directory rewritten for the patched archive keep their
/// keys, in order, and each value nests at most two levels deeper.
pub proof fn lemma_members_within(
    members: Seq<(Seq<char>, JsonV)>,
    parent: Seq<char>,
    offsets: Map<Seq<char>, u64>,
    patched: Map<Seq<char>, Seq<u8>>,
    d: nat,
)
    requires
        keys_sorted(members),
        values_all(members, |v: JsonV| json_within(v, d)),
        patched_fit(patched),
    ensures
        spec_update_members(members, parent, offsets, patched) matches Ok(rs) ==> {
            &&& rs.len() == members.len()
            &&& forall|i: int| 0 <= i < rs.len() ==> #[trigger] rs[i].0 == members[i].0
            &&& keys_sorted(rs)
            &&& values_all(rs, |v: JsonV| json_within(v, d + 2))
        },
    decreases members,
{
    if members.len() > 0 {
        let rest = members.drop_first();
        assert(json_within(members[0].1, d));
        assert(decreases_to!(members => members[0]));
        assert(decreases_to!(members[0] => members[0].1));
        lemma_entry_within(child_path(parent, members[0].0), members[0].1, offsets, patched, d);
        assert forall|i: int, j: int| 0 <= i < j < rest.len() implies text_lt(
            #[trigger] rest[i].0,
            #[trigger] rest[j].0,
        ) by {
            assert(rest[i] == members[i + 1] && rest[j] == members[j + 1]);
        }
        assert forall|i: int| 0 <= i < rest.len() implies json_within(#[trigger] rest[i].1, d) by {
            assert(rest[i] == members[i + 1]);
        }
        lemma_members_within(rest, parent, offsets, patched, d);
        match spec_update_members(members, parent, offsets, patched) {
            Ok(rs) => {
                let e = spec_update_entry(child_path(parent, members[0].0), members[0].1, offsets, patched)->Ok_0;
                let rrs = spec_update_members(rest, parent, offsets, patched)->Ok_0;
                assert(rs == seq![(members[0].0, e)] + rrs);
                assert forall|i: int| 0 <= i < rs.len() implies #[trigger] rs[i].0 == members[i].0 by {
                    if i > 0 {
                        assert(rs[i] == rrs[i - 1]);
                    }
                }
                assert forall|i: int, j: int| 0 <= i < j < rs.len() implies text_lt(
                    #[trigger] rs[i].0,
                    #[trigger] rs[j].0,
                ) by {
                    assert(rs[i].0 == members[i].0 && rs[j].0 == members[j].0);
                }
                assert forall|i: int| 0 <= i < rs.len() implies json_within(#[trigger] rs[i].1, d + 2) by {
                    if i > 0 {
                        assert(rs[i] == rrs[i - 1]);
                    }
                }
            },
            Err(_) => {},
        }
    }
}

/// The integrity block size declared by a file entry's members.
fn declared_block_size(members: &Vec<(String, Json)>) -> (r: usize)
    ensures
        r == spec_declared_block_size(members_v(members@)),
{
    proof {
        lemma_get_view(Json::Object(*members), "integrity"@);
    }
    match member_index(members, "integrity") {
        Some(i) => {
            let integrity = &members[i].1;
            proof {
                lemma_get_view(*integrity, "blockSize"@);
            }
            match integrity.get("blockSize") {
                Some(v) => {
                    let ghost vv = *v;
                    match v.as_u64() {
                        Some(n) => {
                            proof {
                                assert(jv(vv) matches JsonV::Number(_, Some(x)) && x == n);
                            }
                            if n <= usize::MAX as u64 {
                                n as usize
                            } else {
                                DEFAULT_INTEGRITY_BLOCK_SIZE
                            }
                        },
                        None => {
                            proof {
                                assert(!(jv(vv) matches JsonV::Number(_, Some(_))));
                            }
                            DEFAULT_INTEGRITY_BLOCK_SIZE
                        },
                    }
                },
                None => DEFAULT_INTEGRITY_BLOCK_SIZE,
            }
        },
        None => DEFAULT_INTEGRITY_BLOCK_SIZE,
    }
}

/// Rewrites one file entry for the patched archive (see `spec_update_leaf`).
fn update_leaf(
    entry: Json,
    path: &String,
    offsets: &StringHashMap<u64>,
    patched: &StringHashMap<Vec<u8>>,
) -> (r: Result<Json, EngineError>)
    requires
        entry is Object,
    ensures
        match r {
            Ok(j) => spec_update_leaf(members_v(entry->Object_0@), path@, offsets@, bytes_view(patched@))
                == Ok::<_, Seq<char>>(jv(j)),
            Err(e) => spec_update_leaf(members_v(entry->Object_0@), path@, offsets@, bytes_view(patched@))
                == Err::<JsonV, _>(e.spec_message()),
        },
{
    proof {
        lemma_get_view(entry, "unpacked"@);
        lemma_get_view(entry, "offset"@);
    }
    if let Some(unpacked) = entry.get("unpacked") {
        if unpacked.as_bool() == Some(true) {
            return Ok(entry);
        }
    }
    let has_offset = match entry.get("offset") {
        Some(v) => v.as_str().is_some(),
        None => false,
    };
    if !has_offset {
        return Ok(entry);
    }
    match entry {
        Json::Object(mut members) => {
            let offset = match offsets.get(path.as_str()) {
                Some(o) => *o,
                None => {
                    return Err(error_with_path("missing recalculated ASAR offset for ", path));
                },
            };
            insert_member(&mut members, "offset", Json::Str(decimal_string(offset)));
            match patched.get(path.as_str()) {
                Some(bytes) => {
                    insert_member(&mut members, "size", json_u64(bytes.len() as u64));
                    let block_size = declared_block_size(&members);
                    insert_member(&mut members, "integrity", integrity_value(bytes.as_slice(), block_size));
                },
                None => {},
            }
            Ok(Json::Object(members))
        },
        _ => Err(error_with_path("invalid ASAR entry for ", path)),
    }
}

/// Rewrites the entry at `path` for the patched archive (see `spec_update_entry`).
fn update_entry(
    entry: Json,
    path: &String,
    offsets: &StringHashMap<u64>,
    patched: &StringHashMap<Vec<u8>>,
) -> (r: Result<Json, EngineError>)
    ensures
        match r {
            Ok(j) => spec_update_entry(path@, jv(entry), offsets@, bytes_view(patched@)) == Ok::<_, Seq<char>>(
                jv(j),
            ),
            Err(e) => spec_update_entry(path@, jv(entry), offsets@, bytes_view(patched@)) == Err::<JsonV, _>(
                e.spec_message(),
            ),
        },
    decreases entry,
{
    let ghost orig = entry;
    match entry {
        Json::Object(mut members) => {
            proof {
                lemma_member_pos(members@, "files"@);
                lemma_member_pos_view(members@, "files"@);
                lemma_members_v_index(members@);
            }
            let found = member_index(&members, "files");
            proof {
                match found {
                    Some(k) => {
                        lemma_first_member_view(members@, "files"@, k as int);
                        assert(members_v(members@)[k as int] == (members@[k as int].0@, jv(members@[k as int].1)));
                    },
                    None => {
                        lemma_no_member_view(members@, "files"@);
                    },
                }
            }
            let dir = match found {
                Some(k) => match &members[k].1 {
                    Json::Object(_) => Some(k),
                    _ => None,
                },
                None => None,
            };
            match dir {
                Some(k) => {
                    let ghost before = members@;
                    let mut child = Json::Null;
                    std::mem::swap(&mut child, &mut members[k].1);
                    match child {
                        Json::Object(mut children) => {
                            proof {
                                assert(child == before[k as int].1);
                                assert(decreases_to!(orig => orig->Object_0));
                                assert(orig->Object_0@ == before);
                            }
                            let res = update_header_entries(&mut children, path, offsets, patched);
                            match res {
                                Ok(()) => {
                                    let ghost mid = members@;
                                    members[k].1 = Json::Object(children);
                                    proof {
                                        lemma_members_v_index(members@);
                                        lemma_members_v_index(before);
                                        let ms = members_v(before);
                                        assert(ms[k as int].1 == jv(before[k as int].1));
                                        assert(members_v(members@) =~= ms.update(
                                            k as int,
                                            (ms[k as int].0, JsonV::Object(members_v(children@))),
                                        ));
                                    }
                                    Ok(Json::Object(members))
                                },
                                Err(e) => {
                                    proof {
                                        lemma_members_v_index(before);
                                    }
                                    Err(e)
                                },
                            }
                        },
                        _ => {
                            proof {
                                assert(false);
                            }
                            Err(error_with_path("invalid ASAR entry for ", path))
                        },
                    }
                },
                None => {
                    proof {
                        lemma_member_pos_v(members_v(members@), "files"@);
                    }
                    update_leaf(Json::Object(members), path, offsets, patched)
                },
            }
        },
        _ => Ok(entry),
    }
}

/// Rewrites the members of directory `parent` for the patched archive: every
/// packed file gets its recalculated offset, and patched files their new
/// size and integrity record.
pub fn update_header_entries(
    files: &mut Vec<(String, Json)>,
    parent: &String,
    offsets: &StringHashMap<u64>,
    patched: &StringHashMap<Vec<u8>>,
) -> (r: Result<(), EngineError>)
    ensures
        match r {
            Ok(()) => spec_update_members(members_v(old(files)@), parent@, offsets@, bytes_view(patched@))
                == Ok::<_, Seq<char>>(members_v(final(files)@)),
            Err(e) => spec_update_members(members_v(old(files)@), parent@, offsets@, bytes_view(patched@))
                == Err::<Seq<(Seq<char>, JsonV)>, _>(e.spec_message()),
        },
    decreases old(files)@,
{
    let ghost entries = files@;
    proof {
        lemma_members_v_index(entries);
        assert(members_v(entries).skip(0) =~= members_v(entries));
        assert(members_v(files@.take(0)) =~= Seq::<(Seq<char>, JsonV)>::empty());
    }
    let mut i: usize = 0;
    while i < files.len()
        invariant
            entries == old(files)@,
            files@.len() == entries.len(),
            0 <= i <= entries.len(),
            forall|j: int| i <= j < entries.len() ==> files@[j] == entries[j],
            forall|j: int| 0 <= j < i ==> files@[j].0 == entries[j].0,
            spec_update_members(members_v(entries), parent@, offsets@, bytes_view(patched@)) == (match spec_update_members(
                members_v(entries).skip(i as int),
                parent@,
                offsets@,
                bytes_view(patched@),
            ) {
                Ok(rest) => Ok::<_, Seq<char>>(members_v(files@.take(i as int)) + rest),
                Err(m) => Err(m),
            }),
        decreases entries.len() - i,
    {
        let path = join_child_path(parent.as_str(), files[i].0.as_str());
        let ghost before = files@;
        let mut entry = Json::Null;
        std::mem::swap(&mut entry, &mut files[i].1);
        proof {
            lemma_members_v_index(entries);
            let rest = members_v(entries).skip(i as int);
            assert(rest[0] == members_v(entries)[i as int]);
            assert(rest.drop_first() =~= members_v(entries).skip(i + 1));
            assert(entry == entries[i as int].1);
            assert(decreases_to!(entries => entries[i as int]));
            assert(decreases_to!(entries[i as int] => entries[i as int].1));
        }
        let updated = match update_entry(entry, &path, offsets, patched) {
            Ok(u) => u,
            Err(e) => {
                return Err(e);
            },
        };
        files[i].1 = updated;
        proof {
            lemma_members_v_index(files@.take(i + 1));
            lemma_members_v_index(before.take(i as int));
            let rest = members_v(entries).skip(i as int);
            match spec_update_members(members_v(entries).skip(i + 1), parent@, offsets@, bytes_view(patched@)) {
                Ok(tail) => {
                    assert(members_v(files@.take(i + 1)) =~= members_v(before.take(i as int)) + seq![
                        (entries[i as int].0@, jv(updated)),
                    ]);
                    assert(before.take(i as int) =~= files@.take(i as int));
                    assert(members_v(files@.take(i as int)) + (seq![(entries[i as int].0@, jv(updated))] + tail)
                        =~= members_v(files@.take(i + 1)) + tail);
                },
                Err(m) => {},
            }
        }
        i = i + 1;
    }
    proof {
        assert(files@.take(i as int) =~= files@);
        assert(members_v(entries).skip(i as int) =~= Seq::<(Seq<char>, JsonV)>::empty());
        assert(members_v(files@) + Seq::<(Seq<char>, JsonV)>::empty() =~= members_v(files@));
    }
    Ok(())
}

} // verus!

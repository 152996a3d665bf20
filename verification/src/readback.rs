//! What reading a rewritten header lists: every packed file at its
//! recalculated offset, a patched file with its new size.
use vstd::prelude::*;

use crate::header::{
    child_path, spec_entry_files, spec_members_files, spec_packed_entry, spec_update_entry,
    spec_update_leaf, spec_update_members, PackedFileView,
};
use crate::json::{
    insert_v, jv, lemma_get_view, lemma_member_pos_v, lemma_member_pos_view, member_pos,
    member_pos_v, members_v, spec_get_v, Json, JsonV,
};
use crate::analysis::{has_file_tree, spec_read_header};
use crate::asar::{
    lemma_archive_prefix_roundtrip, lemma_header_pickle_roundtrip, spec_archive_header_size,
    spec_header_json, spec_header_pickle, u32_le_bytes,
};
use crate::error::Refusal;
use crate::json::{json_parse, json_text};
use crate::layout::{files_disjoint, new_content, targets_are_files};
use crate::locale_patch::{lemma_get_after_insert, lemma_get_other_after_insert};
use crate::order::spec_stable_order;
use crate::rewrite::{
    offset_keys, patch_table, run_payload_steps, spec_file_tree, spec_patched_archive,
    spec_patched_header, spec_payload_plan, spec_shift_offsets, with_file_tree, FilePatchView,
    PayloadStep,
};
use crate::text::{all_digits, decimal_text, decimal_value, lemma_decimal_push, spec_parse_u64};

verus! {

/// What a file entry of a header document says of its payload location
/// (see `spec_packed_entry`).
pub open spec fn spec_packed_entry_v(entry: JsonV, path: Seq<char>) -> Result<
    Option<PackedFileView>,
    Seq<char>,
> {
    if spec_get_v(entry, "unpacked"@) == Some(JsonV::Bool(true)) {
        Ok(None)
    } else {
        match spec_get_v(entry, "offset"@) {
            Some(JsonV::Str(text)) => match spec_parse_u64(text) {
                None => Err("invalid ASAR offset for "@ + path),
                Some(offset) => match spec_get_v(entry, "size"@) {
                    Some(JsonV::Number(_, Some(size))) => Ok(Some(PackedFileView { path, offset, size })),
                    _ => Err("invalid ASAR size for "@ + path),
                },
            },
            _ => Ok(None),
        }
    }
}

/// The packed files below one member of a header document (see `spec_entry_files`).
pub open spec fn spec_entry_files_v(name: Seq<char>, entry: JsonV, parent: Seq<char>) -> Result<
    Seq<PackedFileView>,
    Seq<char>,
>
    decreases entry,
{
    let path = child_path(parent, name);
    let leaf = match spec_packed_entry_v(entry, path) {
        Ok(Some(f)) => Ok(seq![f]),
        Ok(None) => Ok(Seq::empty()),
        Err(m) => Err(m),
    };
    match entry {
        JsonV::Object(ms) => match member_pos_v(ms, "files"@) {
            Some(k) => if 0 <= k < ms.len() {
                match ms[k].1 {
                    JsonV::Object(children) => spec_members_files_v(children, path),
                    _ => leaf,
                }
            } else {
                leaf
            },
            None => leaf,
        },
        _ => leaf,
    }
}

/// The packed files below the members of a directory of a header document
/// (see `spec_members_files`).
pub open spec fn spec_members_files_v(members: Seq<(Seq<char>, JsonV)>, parent: Seq<char>) -> Result<
    Seq<PackedFileView>,
    Seq<char>,
>
    decreases members,
{
    if members.len() == 0 {
        Ok(Seq::empty())
    } else {
        match spec_entry_files_v(members[0].0, members[0].1, parent) {
            Err(m) => Err(m),
            Ok(a) => match spec_members_files_v(members.drop_first(), parent) {
                Err(m) => Err(m),
                Ok(b) => Ok(a + b),
            },
        }
    }
}

proof fn lemma_packed_entry_view(entry: Json, path: Seq<char>)
    ensures
        spec_packed_entry(entry, path) == spec_packed_entry_v(jv(entry), path),
{
    lemma_get_view(entry, "unpacked"@);
    lemma_get_view(entry, "offset"@);
    lemma_get_view(entry, "size"@);
}

/// Listing the packed files of a document and of its value agree.
pub proof fn lemma_entry_files_view(name: Seq<char>, entry: Json, parent: Seq<char>)
    ensures
        spec_entry_files(name, entry, parent) == spec_entry_files_v(name, jv(entry), parent),
    decreases entry,
{
    let path = child_path(parent, name);
    lemma_packed_entry_view(entry, path);
    match entry {
        Json::Object(ms) => {
            crate::json::lemma_member_pos(ms@, "files"@);
            lemma_member_pos_view(ms@, "files"@);
            crate::json::lemma_members_v_index(ms@);
            match member_pos(ms@, "files"@) {
                Some(k) => {
                    assert(members_v(ms@)[k] == (ms@[k].0@, jv(ms@[k].1)));
                    match ms@[k].1 {
                        Json::Object(children) => {
                            assert(decreases_to!(entry => ms));
                            assert(decreases_to!(ms => ms@));
                            assert(decreases_to!(ms@ => ms@[k]));
                            assert(decreases_to!(ms@[k] => ms@[k].1));
                            assert(decreases_to!(ms@[k].1 => ms@[k].1->Object_0));
                            assert(ms@[k].1->Object_0 == children);
                            assert(decreases_to!(children => children@));
                            lemma_members_files_view(children@, path);
                        },
                        _ => {},
                    }
                },
                None => {},
            }
        },
        _ => {},
    }
}

/// Listing the packed files of a directory's members and of their values agree.
pub proof fn lemma_members_files_view(members: Seq<(String, Json)>, parent: Seq<char>)
    ensures
        spec_members_files(members, parent) == spec_members_files_v(members_v(members), parent),
    decreases members,
{
    if members.len() > 0 {
        assert(decreases_to!(members => members[0]));
        assert(decreases_to!(members[0] => members[0].1));
        lemma_entry_files_view(members[0].0@, members[0].1, parent);
        lemma_members_files_view(members.drop_first(), parent);
        assert(members_v(members).drop_first() =~= members_v(members.drop_first()));
    }
}

/// The decimal text of a number parses back to it.
pub proof fn lemma_parse_decimal_text(n: u64)
    ensures
        spec_parse_u64(decimal_text(n as nat)) == Some(n),
{
    lemma_decimal_text_value(n as nat);
}

pub proof fn lemma_decimal_text_value(n: nat)
    ensures
        decimal_text(n).len() > 0,
        all_digits(decimal_text(n)),
        decimal_value(decimal_text(n)) == n,
        decimal_text(n)[0] != '+',
    decreases n,
{
    if n >= 10 {
        lemma_decimal_text_value(n / 10);
        let d = decimal_text(n / 10);
        let c = (48 + n % 10) as char;
        assert(decimal_text(n) == d + seq![c]);
        assert(d + seq![c] =~= d.push(c));
        lemma_decimal_push(d, c);
        assert((c as u32) == 48 + n % 10);
        assert((n / 10) * 10 + n % 10 == n) by (nonlinear_arith);
        assert(decimal_text(n)[0] == d[0]);
    } else {
        let t = decimal_text(n);
        assert(t =~= seq![(48 + n) as char]);
        assert(t.drop_last() =~= Seq::<char>::empty());
        assert(decimal_value(t.drop_last()) == 0);
        assert(((48 + n) as char) as u32 == 48 + n);
        assert(t.last() == (48 + n) as char);
    }
}

/// The files as the rewritten header lists them: each at its recalculated
/// offset, a patched one with the size of its new content.
pub open spec fn relocated(
    files: Seq<PackedFileView>,
    offsets: Map<Seq<char>, u64>,
    patched: Map<Seq<char>, Seq<u8>>,
) -> Seq<PackedFileView> {
    files.map_values(
        |f: PackedFileView|
            PackedFileView {
                path: f.path,
                offset: offsets[f.path],
                size: if patched.contains_key(f.path) {
                    patched[f.path].len() as u64
                } else {
                    f.size
                },
            },
    )
}

/// How an object entry is listed, by its `files` member.
proof fn lemma_entry_files_by_get(name: Seq<char>, ms: Seq<(Seq<char>, JsonV)>, parent: Seq<char>)
    ensures
        spec_entry_files_v(name, JsonV::Object(ms), parent) == match spec_get_v(
            JsonV::Object(ms),
            "files"@,
        ) {
            Some(JsonV::Object(children)) => spec_members_files_v(children, child_path(parent, name)),
            _ => match spec_packed_entry_v(JsonV::Object(ms), child_path(parent, name)) {
                Ok(Some(f)) => Ok(seq![f]),
                Ok(None) => Ok(Seq::empty()),
                Err(m) => Err(m),
            },
        },
{
    lemma_member_pos_v(ms, "files"@);
}

proof fn lemma_get_through_inserts(
    ms: Seq<(Seq<char>, JsonV)>,
    k: Seq<char>,
    v: JsonV,
    other: Seq<char>,
)
    requires
        k != other,
    ensures
        spec_get_v(JsonV::Object(insert_v(ms, k, v)), other) == spec_get_v(JsonV::Object(ms), other),
{
    lemma_get_other_after_insert(ms, k, v, other);
}

/// A rewritten file entry is listed at its recalculated offset, with the
/// size of its new content when it is patched.
proof fn lemma_update_leaf_files(
    name: Seq<char>,
    ms: Seq<(Seq<char>, JsonV)>,
    parent: Seq<char>,
    offsets: Map<Seq<char>, u64>,
    patched: Map<Seq<char>, Seq<u8>>,
)
    requires
        !(spec_get_v(JsonV::Object(ms), "files"@) matches Some(JsonV::Object(_))),
        spec_update_leaf(ms, child_path(parent, name), offsets, patched) is Ok,
        spec_entry_files_v(name, JsonV::Object(ms), parent) is Ok,
    ensures
        spec_entry_files_v(
            name,
            spec_update_leaf(ms, child_path(parent, name), offsets, patched)->Ok_0,
            parent,
        ) == Ok::<_, Seq<char>>(
            relocated(spec_entry_files_v(name, JsonV::Object(ms), parent)->Ok_0, offsets, patched),
        ),
{
    let path = child_path(parent, name);
    let entry = JsonV::Object(ms);
    reveal_strlit("files");
    reveal_strlit("unpacked");
    reveal_strlit("offset");
    reveal_strlit("size");
    reveal_strlit("integrity");
    assert("offset"@ != "files"@) by {
        assert("offset"@.len() != "files"@.len());
    }
    assert("offset"@ != "unpacked"@) by {
        assert("offset"@.len() != "unpacked"@.len());
    }
    assert("offset"@ != "size"@) by {
        assert("offset"@.len() != "size"@.len());
    }
    assert("size"@ != "files"@) by {
        assert("size"@.len() != "files"@.len());
    }
    assert("size"@ != "unpacked"@) by {
        assert("size"@.len() != "unpacked"@.len());
    }
    assert("integrity"@ != "files"@) by {
        assert("integrity"@.len() != "files"@.len());
    }
    assert("integrity"@ != "unpacked"@) by {
        assert("integrity"@[0] != "unpacked"@[0]);
    }
    assert("integrity"@ != "offset"@) by {
        assert("integrity"@.len() != "offset"@.len());
    }
    assert("integrity"@ != "size"@) by {
        assert("integrity"@.len() != "size"@.len());
    }
    lemma_entry_files_by_get(name, ms, parent);
    let before = spec_entry_files_v(name, entry, parent)->Ok_0;
    if spec_get_v(entry, "unpacked"@) == Some(JsonV::Bool(true)) {
        assert(before =~= Seq::<PackedFileView>::empty());
        assert(relocated(before, offsets, patched) =~= before);
    } else if !(spec_get_v(entry, "offset"@) matches Some(JsonV::Str(_))) {
        assert(before =~= Seq::<PackedFileView>::empty());
        assert(relocated(before, offsets, patched) =~= before);
    } else {
        let off = offsets[path];
        let with_offset = insert_v(ms, "offset"@, JsonV::Str(decimal_text(off as nat)));
        lemma_get_after_insert(ms, "offset"@, JsonV::Str(decimal_text(off as nat)));
        lemma_get_through_inserts(ms, "offset"@, JsonV::Str(decimal_text(off as nat)), "files"@);
        lemma_get_through_inserts(ms, "offset"@, JsonV::Str(decimal_text(off as nat)), "unpacked"@);
        lemma_get_through_inserts(ms, "offset"@, JsonV::Str(decimal_text(off as nat)), "size"@);
        lemma_parse_decimal_text(off);
        let text = spec_get_v(entry, "offset"@)->Some_0->Str_0;
        let old_offset = spec_parse_u64(text)->Some_0;
        let old_size = spec_get_v(entry, "size"@)->Some_0->Number_1->Some_0;
        assert(before == seq![PackedFileView { path, offset: old_offset, size: old_size }]);
        if patched.contains_key(path) {
            let bytes = patched[path];
            let size_value = JsonV::Number(decimal_text(bytes.len()), Some(bytes.len() as u64));
            let with_size = insert_v(with_offset, "size"@, size_value);
            lemma_get_after_insert(with_offset, "size"@, size_value);
            lemma_get_through_inserts(with_offset, "size"@, size_value, "files"@);
            lemma_get_through_inserts(with_offset, "size"@, size_value, "unpacked"@);
            lemma_get_through_inserts(with_offset, "size"@, size_value, "offset"@);
            let integrity = crate::header::spec_integrity(
                bytes,
                crate::header::spec_declared_block_size(with_size),
            );
            let last = insert_v(with_size, "integrity"@, integrity);
            lemma_get_through_inserts(with_size, "integrity"@, integrity, "files"@);
            lemma_get_through_inserts(with_size, "integrity"@, integrity, "unpacked"@);
            lemma_get_through_inserts(with_size, "integrity"@, integrity, "offset"@);
            lemma_get_through_inserts(with_size, "integrity"@, integrity, "size"@);
            lemma_entry_files_by_get(name, last, parent);
            assert(relocated(before, offsets, patched) =~= seq![
                PackedFileView { path, offset: off, size: bytes.len() as u64 },
            ]);
        } else {
            lemma_entry_files_by_get(name, with_offset, parent);
            assert(relocated(before, offsets, patched) =~= seq![
                PackedFileView { path, offset: off, size: old_size },
            ]);
        }
    }
}

/// A rewritten entry is listed with every packed file relocated.
pub proof fn lemma_update_entry_files(
    name: Seq<char>,
    entry: JsonV,
    parent: Seq<char>,
    offsets: Map<Seq<char>, u64>,
    patched: Map<Seq<char>, Seq<u8>>,
)
    requires
        spec_update_entry(child_path(parent, name), entry, offsets, patched) is Ok,
        spec_entry_files_v(name, entry, parent) is Ok,
    ensures
        spec_entry_files_v(
            name,
            spec_update_entry(child_path(parent, name), entry, offsets, patched)->Ok_0,
            parent,
        ) == Ok::<_, Seq<char>>(
            relocated(spec_entry_files_v(name, entry, parent)->Ok_0, offsets, patched),
        ),
    decreases entry,
{
    let path = child_path(parent, name);
    match entry {
        JsonV::Object(ms) => {
            lemma_member_pos_v(ms, "files"@);
            lemma_entry_files_by_get(name, ms, parent);
            match member_pos_v(ms, "files"@) {
                Some(k) => {
                    if ms[k].1 is Object {
                        let children = ms[k].1->Object_0;
                        assert(decreases_to!(entry => ms));
                        assert(decreases_to!(ms => ms[k]));
                        assert(decreases_to!(ms[k] => ms[k].1));
                        assert(decreases_to!(ms[k].1 => children));
                        lemma_update_members_files(children, path, offsets, patched);
                        let updated = spec_update_members(children, path, offsets, patched)->Ok_0;
                        let ms2 = ms.update(k, (ms[k].0, JsonV::Object(updated)));
                        lemma_member_pos_v(ms2, "files"@);
                        assert(member_pos_v(ms2, "files"@) == Some(k)) by {
                            let p2 = member_pos_v(ms2, "files"@);
                            if p2 is Some {
                                let q = p2->Some_0;
                                if q < k {
                                    assert(ms2[q] == ms[q]);
                                }
                            } else {
                                assert(ms2[k].0 == "files"@);
                            }
                        }
                        lemma_entry_files_by_get(name, ms2, parent);
                    } else {
                        lemma_update_leaf_files(name, ms, parent, offsets, patched);
                    }
                },
                None => {
                    lemma_update_leaf_files(name, ms, parent, offsets, patched);
                },
            }
        },
        _ => {
            let before = spec_entry_files_v(name, entry, parent)->Ok_0;
            assert(before =~= Seq::<PackedFileView>::empty());
            assert(relocated(before, offsets, patched) =~= before);
        },
    }
}

/// A rewritten directory is listed with every packed file relocated.
pub proof fn lemma_update_members_files(
    members: Seq<(Seq<char>, JsonV)>,
    parent: Seq<char>,
    offsets: Map<Seq<char>, u64>,
    patched: Map<Seq<char>, Seq<u8>>,
)
    requires
        spec_update_members(members, parent, offsets, patched) is Ok,
        spec_members_files_v(members, parent) is Ok,
    ensures
        spec_members_files_v(spec_update_members(members, parent, offsets, patched)->Ok_0, parent)
            == Ok::<_, Seq<char>>(
            relocated(spec_members_files_v(members, parent)->Ok_0, offsets, patched),
        ),
    decreases members,
{
    if members.len() == 0 {
        assert(relocated(Seq::<PackedFileView>::empty(), offsets, patched) =~= Seq::<
            PackedFileView,
        >::empty());
    } else {
        let name = members[0].0;
        let entry = members[0].1;
        assert(decreases_to!(members => members[0]));
        assert(decreases_to!(members[0] => members[0].1));
        lemma_update_entry_files(name, entry, parent, offsets, patched);
        lemma_update_members_files(members.drop_first(), parent, offsets, patched);
        let e2 = spec_update_entry(child_path(parent, name), entry, offsets, patched)->Ok_0;
        let rest2 = spec_update_members(members.drop_first(), parent, offsets, patched)->Ok_0;
        let updated = seq![(name, e2)] + rest2;
        assert(updated[0] == (name, e2));
        assert(updated.drop_first() =~= rest2);
        let a = spec_entry_files_v(name, entry, parent)->Ok_0;
        let b = spec_members_files_v(members.drop_first(), parent)->Ok_0;
        assert(relocated(a + b, offsets, patched) =~= relocated(a, offsets, patched) + relocated(
            b,
            offsets,
            patched,
        ));
    }
}

/// The source archive is laid out as the rewrite expects: its packed
/// files lie in its payload, have distinct paths and do not overlap, and
/// every patch replaces one of them, which is not empty.
pub open spec fn archive_layout_ok(
    source: Seq<u8>,
    data_offset: u64,
    files: Seq<PackedFileView>,
    patches: Seq<FilePatchView>,
) -> bool {
    &&& files.len() <= usize::MAX
    &&& patches.len() <= usize::MAX
    &&& data_offset <= source.len()
    &&& forall|i: int| 0 <= i < files.len() ==> data_offset + #[trigger] files[i].offset + files[i].size <= source.len()
    &&& files_disjoint(files)
    &&& forall|i: int, j: int| 0 <= i < j < files.len() ==> #[trigger] files[i].path != #[trigger] files[j].path
    &&& targets_are_files(files, patches)
    &&& forall|k: int| 0 <= k < patches.len() ==> #[trigger] patches[k].target.size > 0
}

/// Reading back an archive written by the plan: its prefix and header
/// pickle are accepted, its header lists every packed file of the source
/// at its recalculated offset (a patched one with its new size), and every
/// such file of positive size holds its new content there. This holds when
/// the source archive is laid out as expected and the new header's JSON
/// text parses back to the new header, which `plan_patched_asar` shows for
/// a source header whose numbers are integers as serde_json prints them, whose
/// keys are in order (as parsed headers' are) and which nests at most
/// `ROUND_TRIP_DEPTH - 2` levels.
pub proof fn lemma_rewritten_archive_reads_back(
    source: Seq<u8>,
    header: Json,
    data_offset: u64,
    patches: Seq<FilePatchView>,
    head: Seq<u8>,
    steps: Seq<PayloadStep>,
)
    requires
        spec_patched_archive(header, data_offset, patches) == Ok::<_, Seq<char>>((head, steps)),
        json_parse(json_text(spec_patched_header(header, patches)->Ok_0)) == Some(
            spec_patched_header(header, patches)->Ok_0,
        ),
        archive_layout_ok(
            source,
            data_offset,
            spec_members_files(spec_file_tree(header)->Some_0, ""@)->Ok_0,
            patches,
        ),
        head.len() + run_payload_steps(source, patches, steps, 0).len() <= u64::MAX,
    ensures
        ({
            let written = head + run_payload_steps(source, patches, steps, 0);
            let files = spec_members_files(spec_file_tree(header)->Some_0, ""@)->Ok_0;
            let table = patch_table(patches);
            let offsets = spec_shift_offsets(
                files,
                spec_stable_order(offset_keys(files), files.len()),
                table,
            )->Ok_0.0;
            let header_size = (head.len() - 8) as u32;
            &&& spec_archive_header_size(written.take(8), written.len() as u64) == Some(header_size)
            &&& spec_read_header(written.subrange(8, 8 + header_size)) matches Ok((_, new_header))
                && spec_get_v(new_header, "files"@) matches Some(JsonV::Object(tree))
                && spec_members_files_v(tree, ""@) == Ok::<_, Seq<char>>(relocated(files, offsets, table))
            &&& forall|i: int|
                0 <= i < files.len() && #[trigger] files[i].size > 0 ==> {
                    let content = new_content(files[i], source.skip(data_offset as int), table);
                    let at = head.len() + offsets[files[i].path];
                    &&& at + content.len() <= written.len()
                    &&& written.subrange(at, at + content.len()) == content
                }
        }),
{
    let tree = spec_file_tree(header)->Some_0;
    let files = spec_members_files(tree, ""@)->Ok_0;
    let table = patch_table(patches);
    let order = spec_stable_order(offset_keys(files), files.len());
    let (offsets, growth) = spec_shift_offsets(files, order, table)->Ok_0;
    let new_tree = spec_update_members(members_v(tree), ""@, offsets, table)->Ok_0;
    let new_header = spec_patched_header(header, patches)->Ok_0;
    assert(new_header == with_file_tree(jv(header), new_tree));
    let json = json_text(new_header);
    let pickle = spec_header_pickle(json)->Some_0;
    assert(head == u32_le_bytes(4) + u32_le_bytes(pickle.len() as u32) + pickle);
    assert(pickle.len() <= crate::asar::MAX_ASAR_HEADER_BYTES);
    let out = run_payload_steps(source, patches, steps, 0);
    lemma_header_pickle_roundtrip(json);
    lemma_written_head(pickle, head, out);
    lemma_new_header_tree(header, new_tree);
    assert(spec_read_header(pickle) == Ok::<_, Refusal>((json, new_header)));
    lemma_members_files_view(tree, ""@);
    lemma_update_members_files(members_v(tree), ""@, offsets, table);
    assert(spec_payload_plan(patches, data_offset) == Ok::<_, Seq<char>>(steps));
    lemma_written_contents(source, data_offset, files, patches, steps, offsets, growth, head);
}

/// Reading back an archive whose head is written for `header` (the prefix,
/// then the pickle of the header's JSON text) and followed by `payload`:
/// the prefix gives the pickle's size, the pickle stands right after it,
/// and reading the pickle gives back the header's text and the header
/// itself, so the payload starts after the prefix and the pickle. This
/// holds when the header has a file tree, its pickle fits the size limit
/// and its text reads back to it, which `crate::json::print_json` states
/// for documents whose numbers are integers, whose keys are in order and
/// which nest at most `ROUND_TRIP_DEPTH` deep.
pub proof fn lemma_written_header_reads_back(header: JsonV, pickle: Seq<u8>, payload: Seq<u8>)
    requires
        json_parse(json_text(header)) == Some(header),
        has_file_tree(header),
        spec_header_pickle(json_text(header)) == Some(pickle),
        pickle.len() <= crate::asar::MAX_ASAR_HEADER_BYTES,
        8 + pickle.len() + payload.len() <= u64::MAX,
    ensures
        ({
            let archive = u32_le_bytes(4) + u32_le_bytes(pickle.len() as u32) + pickle + payload;
            &&& spec_archive_header_size(archive.take(8), archive.len() as u64) == Some(
                pickle.len() as u32,
            )
            &&& archive.subrange(8, 8 + pickle.len() as int) == pickle
            &&& spec_read_header(pickle) == Ok::<_, Refusal>((json_text(header), header))
        }),
{
    let json = json_text(header);
    lemma_header_pickle_roundtrip(json);
    assert(pickle.len() >= 8);
    assert(spec_read_header(pickle) == Ok::<_, Refusal>((json_text(header), header)));
    lemma_written_archive(pickle, payload);
}

proof fn lemma_written_archive(pickle: Seq<u8>, payload: Seq<u8>)
    requires
        8 <= pickle.len() <= crate::asar::MAX_ASAR_HEADER_BYTES,
        8 + pickle.len() + payload.len() <= u64::MAX,
    ensures
        ({
            let archive = u32_le_bytes(4) + u32_le_bytes(pickle.len() as u32) + pickle + payload;
            &&& spec_archive_header_size(archive.take(8), archive.len() as u64) == Some(
                pickle.len() as u32,
            )
            &&& archive.subrange(8, 8 + pickle.len() as int) == pickle
        }),
{
    let head = u32_le_bytes(4) + u32_le_bytes(pickle.len() as u32) + pickle;
    assert(head.len() == 8 + pickle.len());
    lemma_written_head(pickle, head, payload);
}

/// The prefix and header pickle of a written archive read back.
proof fn lemma_written_head(pickle: Seq<u8>, head: Seq<u8>, out: Seq<u8>)
    requires
        8 <= pickle.len() <= crate::asar::MAX_ASAR_HEADER_BYTES,
        head == u32_le_bytes(4) + u32_le_bytes(pickle.len() as u32) + pickle,
        (head + out).len() <= u64::MAX,
    ensures
        head.len() == 8 + pickle.len(),
        spec_archive_header_size((head + out).take(8), (head + out).len() as u64) == Some(
            pickle.len() as u32,
        ),
        (head + out).subrange(8, 8 + pickle.len() as int) == pickle,
{
    let header_size = pickle.len() as u32;
    let prefix = u32_le_bytes(4) + u32_le_bytes(header_size);
    crate::asar::lemma_le_u32_roundtrip(4);
    crate::asar::lemma_le_u32_roundtrip(header_size);
    lemma_concat_parts(prefix, pickle, out);
    lemma_archive_prefix_roundtrip(header_size, (head + out).len() as u64);
}

proof fn lemma_concat_parts(a: Seq<u8>, b: Seq<u8>, c: Seq<u8>)
    ensures
        (a + b + c).take(a.len() as int) == a,
        (a + b + c).subrange(a.len() as int, (a.len() + b.len()) as int) == b,
        (a + b).len() == a.len() + b.len(),
{
    assert((a + b + c).take(a.len() as int) =~= a);
    assert((a + b + c).subrange(a.len() as int, (a.len() + b.len()) as int) =~= b);
}

/// The rewritten header keeps its file tree where the source header had it.
proof fn lemma_new_header_tree(header: Json, new_tree: Seq<(Seq<char>, JsonV)>)
    requires
        spec_file_tree(header) is Some,
    ensures
        spec_get_v(with_file_tree(jv(header), new_tree), "files"@) == Some(JsonV::Object(new_tree)),
{
    lemma_get_view(header, "files"@);
    let hv = jv(header);
    assert(header is Object);
    assert(hv is Object);
    let ms = hv->Object_0;
    assert(spec_get_v(hv, "files"@) is Some);
    assert(member_pos_v(ms, "files"@) is Some);
    lemma_member_pos_v(ms, "files"@);
    let k = member_pos_v(ms, "files"@)->Some_0;
    let ms2 = ms.update(k, (ms[k].0, JsonV::Object(new_tree)));
    lemma_member_pos_v(ms2, "files"@);
    assert(ms[k].0 == "files"@);
    assert(ms2[k].0 == "files"@);
    assert(member_pos_v(ms2, "files"@) == Some(k)) by {
        let p2 = member_pos_v(ms2, "files"@);
        if p2 is Some {
            let q = p2->Some_0;
            if q < k {
                assert(ms2[q] == ms[q]);
                assert(ms[q].0 != "files"@);
            } else if q > k {
                assert(ms2[k].0 == "files"@);
            }
        } else {
            assert(ms2[k].0 == "files"@);
        }
    }
}

/// The payload written after the head holds every file's new content at
/// its recalculated offset.
proof fn lemma_written_contents(
    source: Seq<u8>,
    data_offset: u64,
    files: Seq<PackedFileView>,
    patches: Seq<FilePatchView>,
    steps: Seq<PayloadStep>,
    offsets: Map<Seq<char>, u64>,
    growth: int,
    head: Seq<u8>,
)
    requires
        archive_layout_ok(source, data_offset, files, patches),
        crate::rewrite::distinct_targets(patches),
        spec_payload_plan(patches, data_offset) == Ok::<_, Seq<char>>(steps),
        spec_shift_offsets(files, spec_stable_order(offset_keys(files), files.len()), patch_table(patches))
            == Ok::<_, Seq<char>>((offsets, growth)),
        head.len() >= 8,
    ensures
        forall|i: int|
            0 <= i < files.len() && #[trigger] files[i].size > 0 ==> {
                let written = head + run_payload_steps(source, patches, steps, 0);
                let content = new_content(files[i], source.skip(data_offset as int), patch_table(patches));
                let at = head.len() + offsets[files[i].path];
                &&& at + content.len() <= written.len()
                &&& written.subrange(at, at + content.len()) == content
            },
{
    crate::layout::lemma_rewritten_files_in_place(source, data_offset, files, patches, steps, offsets, growth);
    let out = run_payload_steps(source, patches, steps, 0);
    let written = head + out;
    assert forall|i: int| 0 <= i < files.len() && #[trigger] files[i].size > 0 implies {
        let content = new_content(files[i], source.skip(data_offset as int), patch_table(patches));
        let at = head.len() + offsets[files[i].path];
        &&& at + content.len() <= written.len()
        &&& written.subrange(at, at + content.len()) == content
    } by {
        let content = new_content(files[i], source.skip(data_offset as int), patch_table(patches));
        let at = offsets[files[i].path] as int;
        assert(out.subrange(at, at + content.len()) == content);
        assert(written.subrange(head.len() + at, head.len() + at + content.len()) =~= out.subrange(
            at,
            at + content.len(),
        ));
    }
}

} // verus!

//! Planning the patched archive: new header and the order in which the
//! source payload is copied around the replaced files.
use vstd::prelude::*;
use vstd::hash_map::StringHashMap;

use crate::asar::{
    encode_archive_prefix, header_pickle, spec_header_pickle, spec_header_pickle_error,
    u32_le_bytes, MAX_ASAR_HEADER_BYTES,
};
use crate::error::{install_error, EngineError};
use crate::header::{
    bytes_view, collect_packed_files, lemma_members_within, patched_fit, spec_members_files,
    spec_update_members, update_header_entries, views, PackedFile, PackedFileView,
};
use crate::json::{
    jv, json_parse, json_text, json_within, lemma_first_member_view, lemma_get_view, lemma_member_pos,
    lemma_member_pos_v, lemma_members_v_index, lemma_object_within, lemma_within_mono, member_index,
    member_pos_v, members_v, print_json, round_trips, spec_get, text_lt, values_all, Json, JsonV,
    ROUND_TRIP_DEPTH,
};
use crate::order::{is_stable_order, lemma_stable_order_indices, spec_stable_order, stable_order};
use crate::text::str_eq;

verus! {

/// New content for one packed file.
#[derive(Debug)]
pub struct FilePatch {
    pub target: PackedFile,
    pub patched_bytes: Vec<u8>,
}

pub struct FilePatchView {
    pub target: PackedFileView,
    pub bytes: Seq<u8>,
}

impl View for FilePatch {
    type V = FilePatchView;

    open spec fn view(&self) -> FilePatchView {
        FilePatchView { target: self.target@, bytes: self.patched_bytes@ }
    }
}

pub open spec fn patch_views(patches: Seq<FilePatch>) -> Seq<FilePatchView> {
    patches.map_values(|p: FilePatch| p@)
}

/// No two patches replace the same path.
pub open spec fn distinct_targets(patches: Seq<FilePatchView>) -> bool {
    forall|i: int, j: int|
        0 <= i < j < patches.len() ==> patches[i].target.path != patches[j].target.path
}

/// The new content of each patched path.
pub open spec fn patch_table(patches: Seq<FilePatchView>) -> Map<Seq<char>, Seq<u8>>
    decreases patches.len(),
{
    if patches.len() == 0 {
        Map::empty()
    } else {
        patch_table(patches.drop_last()).insert(patches.last().target.path, patches.last().bytes)
    }
}

/// Indexes the patches by path; two patches of one path are refused.
pub fn patched_file_table(patches: &Vec<FilePatch>) -> (r: Result<StringHashMap<Vec<u8>>, EngineError>)
    ensures
        r is Ok <==> distinct_targets(patch_views(patches@)),
        r matches Ok(m) ==> bytes_view(m@) == patch_table(patch_views(patches@)),
        r matches Err(e) ==> e.spec_message() == "duplicate ASAR patch target"@,
{
    let ghost pv = patch_views(patches@);
    let mut i: usize = 0;
    while i < patches.len()
        invariant
            0 <= i <= patches@.len(),
            pv == patch_views(patches@),
            forall|a: int, b: int| 0 <= a < b < i ==> pv[a].target.path != pv[b].target.path,
        decreases patches.len() - i,
    {
        let mut j: usize = 0;
        while j < i
            invariant
                0 <= j <= i < patches@.len(),
                pv == patch_views(patches@),
                forall|a: int, b: int| 0 <= a < b < i ==> pv[a].target.path != pv[b].target.path,
                forall|a: int| 0 <= a < j ==> pv[a].target.path != pv[i as int].target.path,
            decreases i - j,
        {
            if str_eq(patches[j].target.path.as_str(), patches[i].target.path.as_str()) {
                proof {
                    assert(pv[j as int].target.path == patches@[j as int].target.path@);
                    assert(pv[i as int].target.path == patches@[i as int].target.path@);
                }
                return Err(install_error("duplicate ASAR patch target"));
            }
            j = j + 1;
        }
        i = i + 1;
    }
    let mut table: StringHashMap<Vec<u8>> = StringHashMap::new();
    let mut k: usize = 0;
    proof {
        assert(bytes_view(table@) =~= patch_table(pv.take(0)));
    }
    while k < patches.len()
        invariant
            0 <= k <= patches@.len(),
            pv == patch_views(patches@),
            bytes_view(table@) == patch_table(pv.take(k as int)),
        decreases patches.len() - k,
    {
        let bytes = patches[k].patched_bytes.clone();
        proof {
            assert(bytes@ =~= patches@[k as int].patched_bytes@);
        }
        table.insert(patches[k].target.path.clone(), bytes);
        proof {
            assert(pv.take(k + 1).drop_last() =~= pv.take(k as int));
            assert(bytes_view(table@) =~= patch_table(pv.take(k + 1)));
        }
        k = k + 1;
    }
    proof {
        assert(pv.take(k as int) =~= pv);
    }
    Ok(table)
}

pub open spec fn offset_keys(files: Seq<PackedFileView>) -> Seq<u64> {
    files.map_values(|f: PackedFileView| f.offset)
}

/// Walking the files in stable offset order, each file moves by the growth
/// of the patched files before it; returns the new offsets by path and the
/// total growth, or the first overflow.
pub open spec fn spec_shift_offsets(
    files: Seq<PackedFileView>,
    order: Seq<usize>,
    patched: Map<Seq<char>, Seq<u8>>,
) -> Result<(Map<Seq<char>, u64>, int), Seq<char>>
    decreases order.len(),
{
    if order.len() == 0 {
        Ok((Map::empty(), 0))
    } else {
        match spec_shift_offsets(files, order.drop_last(), patched) {
            Err(m) => Err(m),
            Ok((offsets, delta)) => {
                let f = files[order.last() as int];
                let shifted = f.offset + delta;
                if shifted < 0 || shifted > u64::MAX {
                    Err("ASAR offset shift overflow for "@ + f.path)
                } else {
                    let next = if patched.contains_key(f.path) {
                        delta + (patched[f.path].len() - f.size)
                    } else {
                        delta
                    };
                    if next < i128::MIN || next > i128::MAX {
                        Err("ASAR cumulative offset shift overflow"@)
                    } else {
                        Ok((offsets.insert(f.path, shifted as u64), next))
                    }
                }
            },
        }
    }
}

/// The payload offsets of the patched archive, by path (see `spec_shift_offsets`).
pub fn recalculate_offsets(files: &Vec<PackedFile>, patched: &StringHashMap<Vec<u8>>) -> (r: Result<
    StringHashMap<u64>,
    EngineError,
>)
    ensures
        ({
            let order = spec_stable_order(offset_keys(views(files@)), files@.len());
            match r {
                Ok(m) => spec_shift_offsets(views(files@), order, bytes_view(patched@)) matches Ok(
                    (o, _),
                ) && m@ == o,
                Err(e) => spec_shift_offsets(views(files@), order, bytes_view(patched@)) == Err::<
                    (Map<Seq<char>, u64>, int),
                    _,
                >(e.spec_message()),
            }
        }),
{
    let ghost fv = views(files@);
    let mut keys: Vec<u64> = Vec::new();
    let mut i: usize = 0;
    while i < files.len()
        invariant
            0 <= i <= files@.len(),
            fv == views(files@),
            keys@ == offset_keys(fv).take(i as int),
        decreases files.len() - i,
    {
        keys.push(files[i].offset);
        proof {
            assert(keys@ =~= offset_keys(fv).take(i + 1));
        }
        i = i + 1;
    }
    proof {
        assert(keys@ =~= offset_keys(fv));
    }
    let order = stable_order(&keys);
    let mut offsets: StringHashMap<u64> = StringHashMap::new();
    let mut delta: i128 = 0;
    let mut k: usize = 0;
    proof {
        assert(order@.take(0) =~= Seq::<usize>::empty());
        assert(offsets@ =~= Map::<Seq<char>, u64>::empty());
    }
    while k < order.len()
        invariant
            0 <= k <= order@.len(),
            fv == views(files@),
            is_stable_order(keys@, order@),
            keys@.len() == files@.len(),
            order@ == spec_stable_order(offset_keys(fv), files@.len()),
            spec_shift_offsets(fv, order@.take(k as int), bytes_view(patched@)) == Ok::<_, Seq<char>>(
                (offsets@, delta as int),
            ),
        decreases order.len() - k,
    {
        let idx = order[k];
        let f = &files[idx];
        proof {
            assert(order@.take(k + 1).drop_last() =~= order@.take(k as int));
            assert(order@.take(k + 1).last() == idx);
            assert(fv[idx as int] == f@);
        }
        let shifted = match (f.offset as i128).checked_add(delta) {
            Some(v) => v,
            None => {
                let e = error_at(f);
                proof {
                    lemma_shift_error_persists(fv, order@, k + 1, order@.len() as int, bytes_view(patched@));
                    assert(order@.take(order@.len() as int) =~= order@);
                }
                return Err(e);
            },
        };
        if shifted < 0 || shifted > u64::MAX as i128 {
            let e = error_at(f);
            proof {
                lemma_shift_error_persists(fv, order@, k + 1, order@.len() as int, bytes_view(patched@));
                assert(order@.take(order@.len() as int) =~= order@);
            }
            return Err(e);
        }
        offsets.insert(f.path.clone(), shifted as u64);
        match patched.get(f.path.as_str()) {
            Some(bytes) => {
                let growth = bytes.len() as i128 - f.size as i128;
                match delta.checked_add(growth) {
                    Some(d) => {
                        delta = d;
                    },
                    None => {
                        let e = install_error("ASAR cumulative offset shift overflow");
                        proof {
                            lemma_shift_error_persists(fv, order@, k + 1, order@.len() as int, bytes_view(patched@));
                            assert(order@.take(order@.len() as int) =~= order@);
                        }
                        return Err(e);
                    },
                }
            },
            None => {},
        }
        k = k + 1;
    }
    proof {
        assert(order@.take(k as int) =~= order@);
    }
    Ok(offsets)
}

proof fn lemma_shift_error_persists(
    files: Seq<PackedFileView>,
    order: Seq<usize>,
    m: int,
    n: int,
    patched: Map<Seq<char>, Seq<u8>>,
)
    requires
        0 <= m <= n <= order.len(),
        spec_shift_offsets(files, order.take(m), patched) is Err,
    ensures
        spec_shift_offsets(files, order.take(n), patched) == spec_shift_offsets(
            files,
            order.take(m),
            patched,
        ),
    decreases n - m,
{
    if n > m {
        lemma_shift_error_persists(files, order, m, n - 1, patched);
        assert(order.take(n).drop_last() =~= order.take(n - 1));
    }
}

fn error_at(f: &PackedFile) -> (e: EngineError)
    ensures
        e.spec_message() == "ASAR offset shift overflow for "@ + f.path@,
{
    let mut m = String::from_str("ASAR offset shift overflow for ");
    m.append(f.path.as_str());
    EngineError::Install(m)
}

/// One step of writing the patched payload.
#[derive(Debug, PartialEq, Eq, Structural)]
pub enum PayloadStep {
    /// Move the read position of the source archive to this absolute offset.
    Seek(u64),
    /// Copy exactly this many bytes of the source archive.
    Copy(u64),
    /// Write the new content of the patch at this position of the patch list.
    Insert(usize),
    /// Copy the rest of the source archive.
    CopyRest,
}

/// The steps that write the payload after the patches in `order` (each a
/// target offset, size and patch position), with the source archive read
/// up to payload offset `cursor`.
pub open spec fn spec_payload_steps(
    targets: Seq<(u64, u64, usize)>,
    data_offset: u64,
    cursor: u64,
) -> Result<Seq<PayloadStep>, Seq<char>>
    decreases targets.len(),
{
    if targets.len() == 0 {
        Ok(seq![PayloadStep::CopyRest])
    } else {
        let (offset, size, index) = targets[0];
        if offset < cursor {
            Err("overlapping ASAR patch targets"@)
        } else if offset + size > u64::MAX {
            Err("ASAR patch target end overflow"@)
        } else if data_offset + offset + size > u64::MAX {
            Err("ASAR source seek overflow"@)
        } else {
            match spec_payload_steps(targets.drop_first(), data_offset, (offset + size) as u64) {
                Err(m) => Err(m),
                Ok(rest) => Ok(
                    seq![
                        PayloadStep::Copy((offset - cursor) as u64),
                        PayloadStep::Insert(index),
                        PayloadStep::Seek((data_offset + offset + size) as u64),
                    ] + rest,
                ),
            }
        }
    }
}

/// The patch targets in stable offset order: offset, size and patch position.
pub open spec fn ordered_targets(patches: Seq<FilePatchView>) -> Seq<(u64, u64, usize)> {
    let order = spec_stable_order(patches.map_values(|p: FilePatchView| p.target.offset), patches.len());
    order.map_values(|i: usize| (patches[i as int].target.offset, patches[i as int].target.size, i))
}

/// The complete payload plan: seek to the payload, then the steps for the
/// patches in offset order.
pub open spec fn spec_payload_plan(patches: Seq<FilePatchView>, data_offset: u64) -> Result<
    Seq<PayloadStep>,
    Seq<char>,
> {
    match spec_payload_steps(ordered_targets(patches), data_offset, 0) {
        Ok(steps) => Ok(seq![PayloadStep::Seek(data_offset)] + steps),
        Err(m) => Err(m),
    }
}

/// Plans how the payload is written: the source bytes are copied around
/// the patched files, which are written in their place.
pub fn plan_payload(patches: &Vec<FilePatch>, data_offset: u64) -> (r: Result<
    Vec<PayloadStep>,
    EngineError,
>)
    ensures
        match r {
            Ok(steps) => spec_payload_plan(patch_views(patches@), data_offset) == Ok::<_, Seq<char>>(
                steps@,
            ),
            Err(e) => spec_payload_plan(patch_views(patches@), data_offset) == Err::<
                Seq<PayloadStep>,
                _,
            >(e.spec_message()),
        },
{
    let ghost pv = patch_views(patches@);
    let mut keys: Vec<u64> = Vec::new();
    let mut i: usize = 0;
    while i < patches.len()
        invariant
            0 <= i <= patches@.len(),
            pv == patch_views(patches@),
            keys@ == pv.map_values(|p: FilePatchView| p.target.offset).take(i as int),
        decreases patches.len() - i,
    {
        keys.push(patches[i].target.offset);
        proof {
            assert(keys@ =~= pv.map_values(|p: FilePatchView| p.target.offset).take(i + 1));
        }
        i = i + 1;
    }
    proof {
        assert(keys@ =~= pv.map_values(|p: FilePatchView| p.target.offset));
    }
    let order = stable_order(&keys);
    let ghost targets = ordered_targets(pv);
    let mut steps: Vec<PayloadStep> = Vec::new();
    steps.push(PayloadStep::Seek(data_offset));
    let mut cursor: u64 = 0;
    let mut k: usize = 0;
    proof {
        assert(targets.skip(0) =~= targets);
    }
    while k < order.len()
        invariant
            0 <= k <= order@.len(),
            pv == patch_views(patches@),
            is_stable_order(keys@, order@),
            keys@.len() == patches@.len(),
            targets == ordered_targets(pv),
            order@ == spec_stable_order(pv.map_values(|p: FilePatchView| p.target.offset), pv.len()),
            spec_payload_plan(pv, data_offset) == (match spec_payload_steps(
                targets.skip(k as int),
                data_offset,
                cursor,
            ) {
                Ok(rest) => Ok::<_, Seq<char>>(steps@ + rest),
                Err(m) => Err(m),
            }),
        decreases order.len() - k,
    {
        let idx = order[k];
        let offset = patches[idx].target.offset;
        let size = patches[idx].target.size;
        proof {
            let t = targets.skip(k as int);
            assert(t[0] == (offset, size, idx));
            assert(t.drop_first() =~= targets.skip(k + 1));
        }
        if offset < cursor {
            return Err(install_error("overlapping ASAR patch targets"));
        }
        let end = match offset.checked_add(size) {
            Some(e) => e,
            None => {
                return Err(install_error("ASAR patch target end overflow"));
            },
        };
        let seek = match data_offset.checked_add(end) {
            Some(s) => s,
            None => {
                return Err(install_error("ASAR source seek overflow"));
            },
        };
        let ghost prev = steps@;
        steps.push(PayloadStep::Copy(offset - cursor));
        steps.push(PayloadStep::Insert(idx));
        steps.push(PayloadStep::Seek(seek));
        proof {
            match spec_payload_steps(targets.skip(k + 1), data_offset, end) {
                Ok(rest) => {
                    assert(steps@ + rest =~= prev + (seq![
                        PayloadStep::Copy((offset - cursor) as u64),
                        PayloadStep::Insert(idx),
                        PayloadStep::Seek(seek),
                    ] + rest));
                },
                Err(m) => {},
            }
        }
        cursor = end;
        k = k + 1;
    }
    let ghost before_rest = steps@;
    steps.push(PayloadStep::CopyRest);
    proof {
        assert(targets.len() == order@.len());
        assert(targets.skip(k as int).len() == 0);
        assert(steps@ =~= before_rest + seq![PayloadStep::CopyRest]);
    }
    Ok(steps)
}

/// What writing `steps` produces from the `source` archive, reading from
/// position `pos` on: seeks move the read position, copies take the next
/// bytes of the source, inserts write a patch's new content, and the last
/// step copies the rest of the source.
pub open spec fn run_payload_steps(
    source: Seq<u8>,
    patches: Seq<FilePatchView>,
    steps: Seq<PayloadStep>,
    pos: int,
) -> Seq<u8>
    decreases steps.len(),
{
    if steps.len() == 0 {
        Seq::empty()
    } else {
        let rest = steps.drop_first();
        match steps[0] {
            PayloadStep::Seek(to) => run_payload_steps(source, patches, rest, to as int),
            PayloadStep::Copy(n) => source.subrange(pos, pos + n) + run_payload_steps(
                source,
                patches,
                rest,
                pos + n,
            ),
            PayloadStep::Insert(i) => patches[i as int].bytes + run_payload_steps(
                source,
                patches,
                rest,
                pos,
            ),
            PayloadStep::CopyRest => source.subrange(pos, source.len() as int) + run_payload_steps(
                source,
                patches,
                rest,
                source.len() as int,
            ),
        }
    }
}

/// The payload with the ranges of `targets` (offset, size and patch
/// position, in offset order) replaced by the patches' new content, from
/// payload offset `cursor` on.
pub open spec fn spliced_payload(
    payload: Seq<u8>,
    targets: Seq<(u64, u64, usize)>,
    patches: Seq<FilePatchView>,
    cursor: int,
) -> Seq<u8>
    decreases targets.len(),
{
    if targets.len() == 0 {
        payload.subrange(cursor, payload.len() as int)
    } else {
        let (offset, size, index) = targets[0];
        payload.subrange(cursor, offset as int) + patches[index as int].bytes + spliced_payload(
            payload,
            targets.drop_first(),
            patches,
            offset + size,
        )
    }
}

/// Every target lies inside a payload of `len` bytes.
pub open spec fn targets_within(targets: Seq<(u64, u64, usize)>, len: int) -> bool {
    forall|k: int| 0 <= k < targets.len() ==> #[trigger] targets[k].0 + targets[k].1 <= len
}

proof fn lemma_run_payload_steps(
    source: Seq<u8>,
    patches: Seq<FilePatchView>,
    targets: Seq<(u64, u64, usize)>,
    data_offset: u64,
    cursor: u64,
    steps: Seq<PayloadStep>,
)
    requires
        spec_payload_steps(targets, data_offset, cursor) == Ok::<_, Seq<char>>(steps),
        targets_within(targets, source.len() - data_offset),
        data_offset + cursor <= source.len(),
    ensures
        run_payload_steps(source, patches, steps, data_offset + cursor) == spliced_payload(
            source.skip(data_offset as int),
            targets,
            patches,
            cursor as int,
        ),
    decreases targets.len(),
{
    let payload = source.skip(data_offset as int);
    reveal_with_fuel(run_payload_steps, 4);
    if targets.len() == 0 {
        assert(steps == seq![PayloadStep::CopyRest]);
        assert(steps.drop_first() =~= Seq::<PayloadStep>::empty());
        assert(source.subrange(data_offset + cursor, source.len() as int) =~= payload.subrange(
            cursor as int,
            payload.len() as int,
        ));
        assert(run_payload_steps(source, patches, steps, data_offset + cursor) =~= source.subrange(
            data_offset + cursor,
            source.len() as int,
        ) + Seq::<u8>::empty());
    } else {
        let (offset, size, index) = targets[0];
        let rest_targets = targets.drop_first();
        let end = (offset + size) as u64;
        let rest_steps = spec_payload_steps(rest_targets, data_offset, end)->Ok_0;
        assert(targets_within(rest_targets, source.len() - data_offset)) by {
            assert forall|k: int| 0 <= k < rest_targets.len() implies #[trigger] rest_targets[k].0
                + rest_targets[k].1 <= source.len() - data_offset by {
                assert(rest_targets[k] == targets[k + 1]);
            }
        }
        assert(targets[0].0 + targets[0].1 <= source.len() - data_offset);
        lemma_run_payload_steps(source, patches, rest_targets, data_offset, end, rest_steps);
        let head = seq![
            PayloadStep::Copy((offset - cursor) as u64),
            PayloadStep::Insert(index),
            PayloadStep::Seek((data_offset + offset + size) as u64),
        ];
        assert(steps == head + rest_steps);
        assert(steps[0] == PayloadStep::Copy((offset - cursor) as u64));
        assert(steps.drop_first()[0] == PayloadStep::Insert(index));
        assert(steps.drop_first().drop_first()[0] == PayloadStep::Seek(
            (data_offset + offset + size) as u64,
        ));
        assert(steps.drop_first().drop_first().drop_first() =~= rest_steps);
        let s1 = steps.drop_first();
        let s2 = s1.drop_first();
        assert(run_payload_steps(source, patches, s2, data_offset + cursor + (offset - cursor))
            == run_payload_steps(source, patches, rest_steps, data_offset + end));
        assert(run_payload_steps(source, patches, s1, data_offset + cursor + (offset - cursor))
            == patches[index as int].bytes + run_payload_steps(source, patches, rest_steps, data_offset + end));
        assert(source.subrange(data_offset + cursor, data_offset + offset) =~= payload.subrange(
            cursor as int,
            offset as int,
        ));
        assert(run_payload_steps(source, patches, steps, data_offset + cursor) =~= source.subrange(
            data_offset + cursor,
            data_offset + offset,
        ) + (patches[index as int].bytes + run_payload_steps(
            source,
            patches,
            rest_steps,
            data_offset + end,
        )));
    }
}

/// Writing the payload by the plan gives the source payload with the
/// range of every patched file, in offset order, replaced by its new
/// content: the bytes between and after the patched files are kept.
pub proof fn lemma_payload_plan_splices(
    source: Seq<u8>,
    patches: Seq<FilePatchView>,
    data_offset: u64,
    steps: Seq<PayloadStep>,
)
    requires
        spec_payload_plan(patches, data_offset) == Ok::<_, Seq<char>>(steps),
        data_offset <= source.len(),
        forall|i: int|
            0 <= i < patches.len() ==> data_offset + #[trigger] patches[i].target.offset
                + patches[i].target.size <= source.len(),
    ensures
        run_payload_steps(source, patches, steps, 0) == spliced_payload(
            source.skip(data_offset as int),
            ordered_targets(patches),
            patches,
            0,
        ),
{
    let targets = ordered_targets(patches);
    let order = spec_stable_order(patches.map_values(|p: FilePatchView| p.target.offset), patches.len());
    lemma_stable_order_indices(patches.map_values(|p: FilePatchView| p.target.offset), patches.len());
    assert(targets_within(targets, source.len() - data_offset)) by {
        assert forall|k: int| 0 <= k < targets.len() implies #[trigger] targets[k].0 + targets[k].1
            <= source.len() - data_offset by {
            let i = order[k] as int;
            assert(targets[k] == (patches[i].target.offset, patches[i].target.size, order[k]));
        }
    }
    let rest = spec_payload_steps(targets, data_offset, 0)->Ok_0;
    lemma_run_payload_steps(source, patches, targets, data_offset, 0, rest);
    assert(steps == seq![PayloadStep::Seek(data_offset)] + rest);
    assert(steps.drop_first() =~= rest);
}

/// What the patched archive is written from: its prefix and header pickle,
/// then the payload steps.
#[derive(Debug)]
pub struct PatchedArchivePlan {
    pub head: Vec<u8>,
    pub steps: Vec<PayloadStep>,
}

/// The members of the header's root file tree.
pub open spec fn spec_file_tree(header: Json) -> Option<Seq<(String, Json)>> {
    match spec_get(header, "files"@) {
        Some(Json::Object(tree)) => Some(tree@),
        _ => None,
    }
}

/// `header` with the members of its root file tree replaced by `tree`.
pub open spec fn with_file_tree(header: JsonV, tree: Seq<(Seq<char>, JsonV)>) -> JsonV {
    match header {
        JsonV::Object(ms) => match member_pos_v(ms, "files"@) {
            Some(k) => JsonV::Object(ms.update(k, (ms[k].0, JsonV::Object(tree)))),
            None => header,
        },
        _ => header,
    }
}

/// The header of the patched archive: every packed file at its
/// recalculated offset, the patched files with their new sizes and
/// integrity records; or why the archive cannot be patched.
pub open spec fn spec_patched_header(header: Json, patches: Seq<FilePatchView>) -> Result<
    JsonV,
    Seq<char>,
> {
    if patches.len() == 0 {
        Err("patch output requested for an already-patched archive"@)
    } else {
        match spec_file_tree(header) {
            None => Err("app.asar header has no file tree"@),
            Some(tree) => match spec_members_files(tree, ""@) {
                Err(m) => Err(m),
                Ok(files) => if !distinct_targets(patches) {
                    Err("duplicate ASAR patch target"@)
                } else {
                    match spec_shift_offsets(
                        files,
                        spec_stable_order(offset_keys(files), files.len()),
                        patch_table(patches),
                    ) {
                        Err(m) => Err(m),
                        Ok((offsets, _)) => match spec_update_members(
                            members_v(tree),
                            ""@,
                            offsets,
                            patch_table(patches),
                        ) {
                            Err(m) => Err(m),
                            Ok(new_tree) => Ok(with_file_tree(jv(header), new_tree)),
                        },
                    }
                },
            },
        }
    }
}

/// The patch table holds contents that fit a `u64` length when every
/// patch's content does.
proof fn lemma_patch_table_fit(patches: Seq<FilePatchView>)
    requires
        forall|i: int| 0 <= i < patches.len() ==> #[trigger] patches[i].bytes.len() <= u64::MAX,
    ensures
        patched_fit(patch_table(patches)),
    decreases patches.len(),
{
    if patches.len() > 0 {
        let prev = patches.drop_last();
        assert forall|i: int| 0 <= i < prev.len() implies #[trigger] prev[i].bytes.len() <= u64::MAX by {
            assert(prev[i] == patches[i]);
        }
        lemma_patch_table_fit(prev);
        assert(patches.last().bytes.len() <= u64::MAX);
    }
}

/// The header of the patched archive nests at most two levels deeper than
/// the source header and keeps every object's keys in order.
pub proof fn lemma_patched_header_within(header: Json, patches: Seq<FilePatchView>, d: nat)
    requires
        json_within(jv(header), d),
        forall|i: int| 0 <= i < patches.len() ==> #[trigger] patches[i].bytes.len() <= u64::MAX,
    ensures
        spec_patched_header(header, patches) matches Ok(h) ==> json_within(h, d + 2),
{
    match spec_patched_header(header, patches) {
        Ok(h) => {
            let tree = spec_file_tree(header)->Some_0;
            lemma_get_view(header, "files"@);
            let hv = jv(header)->Object_0;
            lemma_member_pos_v(hv, "files"@);
            let k = member_pos_v(hv, "files"@)->0;
            lemma_object_within(hv, (d - 1) as nat);
            assert(json_within(hv[k].1, (d - 1) as nat));
            assert(hv[k].1 == JsonV::Object(members_v(tree)));
            lemma_object_within(members_v(tree), (d - 2) as nat);
            lemma_patch_table_fit(patches);
            let files = spec_members_files(tree, ""@)->Ok_0;
            let offsets = spec_shift_offsets(
                files,
                spec_stable_order(offset_keys(files), files.len()),
                patch_table(patches),
            )->Ok_0.0;
            lemma_members_within(members_v(tree), ""@, offsets, patch_table(patches), (d - 2) as nat);
            let new_tree = spec_update_members(members_v(tree), ""@, offsets, patch_table(patches))->Ok_0;
            lemma_object_within(new_tree, d);
            let up = hv.update(k, (hv[k].0, JsonV::Object(new_tree)));
            assert(h == JsonV::Object(up));
            assert forall|i: int, j: int| 0 <= i < j < up.len() implies text_lt(
                #[trigger] up[i].0,
                #[trigger] up[j].0,
            ) by {
                assert(up[i].0 == hv[i].0 && up[j].0 == hv[j].0);
            }
            assert forall|i: int| 0 <= i < up.len() implies json_within(#[trigger] up[i].1, d + 1) by {
                if i != k {
                    assert(up[i] == hv[i]);
                    assert(json_within(hv[i].1, (d - 1) as nat));
                    lemma_within_mono(hv[i].1, (d - 1) as nat, d + 1);
                }
            }
            assert(values_all(up, |v: JsonV| json_within(v, d + 1)));
            lemma_object_within(up, d + 1);
        },
        Err(_) => {},
    }
}

/// The head (prefix and header pickle) and payload steps of the patched archive.
pub open spec fn spec_patched_archive(
    header: Json,
    data_offset: u64,
    patches: Seq<FilePatchView>,
) -> Result<(Seq<u8>, Seq<PayloadStep>), Seq<char>> {
    match spec_patched_header(header, patches) {
        Err(m) => Err(m),
        Ok(new_header) => {
            let json = json_text(new_header);
            match spec_header_pickle(json) {
                None => Err(spec_header_pickle_error(json.len())),
                Some(pickle) => if pickle.len() > MAX_ASAR_HEADER_BYTES {
                    Err("patched app.asar header exceeds safety limit"@)
                } else {
                    match spec_payload_plan(patches, data_offset) {
                        Err(m) => Err(m),
                        Ok(steps) => Ok(
                            (u32_le_bytes(4) + u32_le_bytes(pickle.len() as u32) + pickle, steps),
                        ),
                    }
                },
            }
        },
    }
}

/// Plans the patched archive from the source header, the payload offset
/// of the source archive and the patches (see `spec_patched_archive`).
pub fn plan_patched_asar(header: Json, data_offset: u64, patches: &Vec<FilePatch>) -> (r: Result<
    PatchedArchivePlan,
    EngineError,
>)
    ensures
        match r {
            Ok(plan) => spec_patched_archive(header, data_offset, patch_views(patches@)) == Ok::<
                _,
                Seq<char>,
            >((plan.head@, plan.steps@)),
            Err(e) => spec_patched_archive(header, data_offset, patch_views(patches@)) == Err::<
                (Seq<u8>, Seq<PayloadStep>),
                _,
            >(e.spec_message()),
        },
        r is Ok && json_within(jv(header), (ROUND_TRIP_DEPTH - 2) as nat) ==> json_parse(
            json_text(spec_patched_header(header, patch_views(patches@))->Ok_0),
        ) == Some(spec_patched_header(header, patch_views(patches@))->Ok_0),
{
    let ghost pv = patch_views(patches@);
    let ghost source_header = header;
    if patches.len() == 0 {
        return Err(install_error("patch output requested for an already-patched archive"));
    }
    proof {
        lemma_get_view(header, "files"@);
    }
    let (mut members, k, mut tree) = match header {
        Json::Object(mut members) => {
            proof {
                lemma_member_pos(members@, "files"@);
            }
            match member_index(&members, "files") {
                Some(k) => {
                    proof {
                        lemma_first_member_view(members@, "files"@, k as int);
                        lemma_members_v_index(members@);
                    }
                    let mut child = Json::Null;
                    let ghost before = members@;
                    std::mem::swap(&mut child, &mut members[k].1);
                    match child {
                        Json::Object(tree) => {
                            proof {
                                assert(child == before[k as int].1);
                            }
                            (members, k, tree)
                        },
                        _ => {
                            return Err(install_error("app.asar header has no file tree"));
                        },
                    }
                },
                None => {
                    return Err(install_error("app.asar header has no file tree"));
                },
            }
        },
        _ => {
            return Err(install_error("app.asar header has no file tree"));
        },
    };
    let ghost members_before = source_header->Object_0@;
    assert(spec_file_tree(source_header) == Some(tree@));
    let root = String::new();
    proof {
        reveal_strlit("");
        assert(root@ =~= ""@);
    }
    let files = collect_packed_files(&tree, &root)?;
    let table = patched_file_table(patches)?;
    let offsets = recalculate_offsets(&files, &table)?;
    let ghost tree_before = tree@;
    update_header_entries(&mut tree, &root, &offsets, &table)?;
    members[k].1 = Json::Object(tree);
    let new_header = Json::Object(members);
    proof {
        lemma_members_v_index(members_before);
        lemma_members_v_index(new_header->Object_0@);
        lemma_first_member_view(members_before, "files"@, k as int);
        let ms = members_v(members_before);
        assert(members_v(new_header->Object_0@) =~= ms.update(
            k as int,
            (ms[k as int].0, JsonV::Object(members_v(tree@))),
        ));
        assert(jv(new_header) == with_file_tree(jv(source_header), members_v(tree@)));
    }
    let json = print_json(&new_header);
    proof {
        if json_within(jv(source_header), (ROUND_TRIP_DEPTH - 2) as nat) {
            assert forall|i: int| 0 <= i < pv.len() implies #[trigger] pv[i].bytes.len() <= u64::MAX by {
                assert(pv[i].bytes == patches@[i].patched_bytes@);
                assert(patches@[i].patched_bytes.len() == patches@[i].patched_bytes@.len());
            }
            lemma_patched_header_within(source_header, pv, (ROUND_TRIP_DEPTH - 2) as nat);
            assert(round_trips(jv(new_header)));
        }
    }
    let pickle = header_pickle(json.as_slice())?;
    if pickle.len() > MAX_ASAR_HEADER_BYTES as usize {
        return Err(install_error("patched app.asar header exceeds safety limit"));
    }
    let mut head = encode_archive_prefix(pickle.len() as u32);
    let ghost prefix = head@;
    let mut body = pickle;
    let ghost pickle_view = body@;
    head.append(&mut body);
    let steps = plan_payload(patches, data_offset)?;
    proof {
        assert(head@ =~= u32_le_bytes(4) + u32_le_bytes(pickle_view.len() as u32) + pickle_view);
    }
    Ok(PatchedArchivePlan { head, steps })
}

} // verus!

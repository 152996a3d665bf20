//! Where the files of a rewritten archive end up: the offsets written into
//! the new header are where the rewritten payload holds each file's content.
use vstd::prelude::*;

use crate::header::PackedFileView;
use crate::order::{insert_pos, key_before, spec_stable_order};
use crate::rewrite::{
    distinct_targets, offset_keys, ordered_targets, patch_table, run_payload_steps,
    spec_payload_plan, PayloadStep, spec_payload_steps, spec_shift_offsets,
    spliced_payload, FilePatchView,
};

verus! {

/// The sum of a sequence of integers.
pub open spec fn seq_sum(s: Seq<int>) -> int
    decreases s.len(),
{
    if s.len() == 0 {
        0
    } else {
        s[0] + seq_sum(s.drop_first())
    }
}

pub proof fn lemma_seq_sum_concat(a: Seq<int>, b: Seq<int>)
    ensures
        seq_sum(a + b) == seq_sum(a) + seq_sum(b),
    decreases a.len(),
{
    if a.len() == 0 {
        assert(a + b =~= b);
    } else {
        lemma_seq_sum_concat(a.drop_first(), b);
        assert((a + b).drop_first() =~= a.drop_first() + b);
    }
}

pub proof fn lemma_seq_sum_single(x: int)
    ensures
        seq_sum(seq![x]) == x,
{
    assert(seq![x].drop_first() =~= Seq::<int>::empty());
    assert(seq_sum(Seq::<int>::empty()) == 0);
}

pub proof fn lemma_seq_sum_insert(s: Seq<int>, p: int, x: int)
    requires
        0 <= p <= s.len(),
    ensures
        seq_sum(s.insert(p, x)) == seq_sum(s) + x,
{
    let one = seq![x];
    lemma_seq_sum_single(x);
    lemma_seq_sum_concat(s.take(p), one + s.skip(p));
    lemma_seq_sum_concat(one, s.skip(p));
    lemma_seq_sum_concat(s.take(p), s.skip(p));
    assert(s.insert(p, x) =~= s.take(p) + (one + s.skip(p)));
    assert(s =~= s.take(p) + s.skip(p));
}

pub proof fn lemma_seq_sum_update(s: Seq<int>, i: int, v: int)
    requires
        0 <= i < s.len(),
    ensures
        seq_sum(s.update(i, v)) == seq_sum(s) - s[i] + v,
    decreases s.len(),
{
    if i > 0 {
        lemma_seq_sum_update(s.drop_first(), i - 1, v);
        assert(s.update(i, v).drop_first() =~= s.drop_first().update(i - 1, v));
    } else {
        assert(s.update(i, v).drop_first() =~= s.drop_first());
    }
}

pub proof fn lemma_seq_sum_zero(s: Seq<int>)
    requires
        forall|i: int| 0 <= i < s.len() ==> s[i] == 0,
    ensures
        seq_sum(s) == 0,
    decreases s.len(),
{
    if s.len() > 0 {
        lemma_seq_sum_zero(s.drop_first());
    }
}

/// `h` summed over the positions that the stable order lists is `h` summed
/// over all positions: the stable order lists every position once.
pub proof fn lemma_stable_order_sum(keys: Seq<u64>, n: nat, h: spec_fn(int) -> int)
    requires
        n <= keys.len(),
        n <= usize::MAX,
    ensures
        seq_sum(spec_stable_order(keys, n).map_values(|i: usize| h(i as int))) == seq_sum(
            Seq::new(n, |i: int| h(i)),
        ),
    decreases n,
{
    if n > 0 {
        let m = (n - 1) as nat;
        lemma_stable_order_sum(keys, m, h);
        let prev = spec_stable_order(keys, m);
        crate::order::lemma_stable_order_indices(keys, m);
        crate::order::lemma_insert_pos_bound(keys, prev, keys[n - 1]);
        let p = insert_pos(keys, prev, keys[n - 1]);
        let mapped_prev = prev.map_values(|i: usize| h(i as int));
        assert(spec_stable_order(keys, n).map_values(|i: usize| h(i as int)) =~= mapped_prev.insert(
            p,
            h(n - 1),
        ));
        lemma_seq_sum_insert(mapped_prev, p, h(n - 1));
        assert(Seq::new(n, |i: int| h(i)) =~= Seq::new(m, |i: int| h(i)) + seq![h(n - 1)]);
        let one = seq![h(n - 1)];
        lemma_seq_sum_single(h(n - 1));
        lemma_seq_sum_concat(Seq::new(m, |i: int| h(i)), one);
    }
}

/// The first `n` positions in stable order are sorted: by key, then by position.
pub open spec fn sorted_prefix_order(keys: Seq<u64>, order: Seq<usize>, n: nat) -> bool {
    &&& order.len() == n
    &&& forall|i: int| 0 <= i < n ==> #[trigger] order[i] < n
    &&& forall|i: int, j: int|
        0 <= i < j < n ==> key_before(keys, #[trigger] order[i] as int, #[trigger] order[j] as int)
}

proof fn lemma_insert_pos_split(keys: Seq<u64>, order: Seq<usize>, key: u64)
    requires
        forall|i: int| 0 <= i < order.len() ==> #[trigger] order[i] < keys.len(),
        forall|i: int, j: int|
            0 <= i < j < order.len() ==> key_before(keys, #[trigger] order[i] as int, #[trigger] order[j] as int),
    ensures
        0 <= insert_pos(keys, order, key) <= order.len(),
        forall|k: int|
            insert_pos(keys, order, key) <= k < order.len() ==> keys[#[trigger] order[k] as int] > key,
        forall|k: int|
            0 <= k < insert_pos(keys, order, key) ==> keys[#[trigger] order[k] as int] <= key,
    decreases order.len(),
{
    if order.len() > 0 {
        let p = insert_pos(keys, order, key);
        if keys[order.last() as int] > key {
            let prev = order.drop_last();
            assert forall|i: int, j: int| 0 <= i < j < prev.len() implies key_before(
                keys,
                #[trigger] prev[i] as int,
                #[trigger] prev[j] as int,
            ) by {
                assert(prev[i] == order[i] && prev[j] == order[j]);
            }
            lemma_insert_pos_split(keys, prev, key);
            assert forall|k: int| p <= k < order.len() implies keys[#[trigger] order[k] as int] > key by {
                if k < order.len() - 1 {
                    assert(order[k] == prev[k]);
                }
            }
            assert forall|k: int| 0 <= k < p implies keys[#[trigger] order[k] as int] <= key by {
                assert(order[k] == prev[k]);
            }
        } else {
            assert forall|k: int| 0 <= k < p implies keys[#[trigger] order[k] as int] <= key by {
                if k < order.len() - 1 {
                    assert(key_before(keys, order[k] as int, order[order.len() - 1] as int));
                }
            }
        }
    }
}

/// The stable order of the first `n` positions is sorted.
pub proof fn lemma_stable_order_sorted(keys: Seq<u64>, n: nat)
    requires
        n <= keys.len(),
        n <= usize::MAX,
    ensures
        sorted_prefix_order(keys, spec_stable_order(keys, n), n),
    decreases n,
{
    if n > 0 {
        let m = (n - 1) as nat;
        lemma_stable_order_sorted(keys, m);
        let prev = spec_stable_order(keys, m);
        let key = keys[n - 1];
        lemma_insert_pos_split(keys, prev, key);
        let p = insert_pos(keys, prev, key);
        let next = prev.insert(p, (n - 1) as usize);
        assert(next == spec_stable_order(keys, n));
        assert forall|i: int| 0 <= i < n implies #[trigger] next[i] < n by {
            if i < p {
                assert(next[i] == prev[i]);
            } else if i > p {
                assert(next[i] == prev[i - 1]);
            }
        }
        assert forall|a: int, b: int| 0 <= a < b < n implies key_before(
            keys,
            #[trigger] next[a] as int,
            #[trigger] next[b] as int,
        ) by {
            if b < p {
                assert(next[a] == prev[a] && next[b] == prev[b]);
            } else if b == p {
                assert(next[a] == prev[a]);
                assert(keys[prev[a] as int] <= key);
                assert(prev[a] < m);
            } else if a < p {
                assert(next[a] == prev[a] && next[b] == prev[b - 1]);
                assert(keys[prev[a] as int] <= key);
                assert(keys[prev[b - 1] as int] > key);
            } else if a == p {
                assert(next[b] == prev[b - 1]);
                assert(keys[prev[b - 1] as int] > key);
            } else {
                assert(next[a] == prev[a - 1] && next[b] == prev[b - 1]);
            }
        }
    }
}

/// How much a file grows when it is replaced by its patch; zero when it is not patched.
pub open spec fn file_growth(f: PackedFileView, patched: Map<Seq<char>, Seq<u8>>) -> int {
    if patched.contains_key(f.path) {
        patched[f.path].len() - f.size
    } else {
        0
    }
}

/// The growth of the files at the listed positions.
pub open spec fn growths(files: Seq<PackedFileView>, order: Seq<usize>, patched: Map<Seq<char>, Seq<u8>>) -> Seq<int> {
    order.map_values(|i: usize| file_growth(files[i as int], patched))
}

/// Walking the files in `order`, each file is moved by the growth of the
/// files walked before it.
pub proof fn lemma_shift_offsets_values(
    files: Seq<PackedFileView>,
    order: Seq<usize>,
    patched: Map<Seq<char>, Seq<u8>>,
)
    requires
        spec_shift_offsets(files, order, patched) is Ok,
        forall|k: int| 0 <= k < order.len() ==> #[trigger] order[k] < files.len(),
        forall|a: int, b: int|
            0 <= a < b < order.len() ==> files[#[trigger] order[a] as int].path != files[#[trigger] order[b] as int].path,
    ensures
        ({
            let (offsets, delta) = spec_shift_offsets(files, order, patched)->Ok_0;
            &&& delta == seq_sum(growths(files, order, patched))
            &&& forall|k: int|
                0 <= k < order.len() ==> offsets.contains_key(#[trigger] files[order[k] as int].path)
                    && offsets[files[order[k] as int].path] == files[order[k] as int].offset + seq_sum(
                    growths(files, order.take(k), patched),
                )
        }),
    decreases order.len(),
{
    if order.len() == 0 {
        assert(growths(files, order, patched) =~= Seq::<int>::empty());
    } else {
        let prev = order.drop_last();
        assert forall|a: int, b: int| 0 <= a < b < prev.len() implies files[#[trigger] prev[a] as int].path
            != files[#[trigger] prev[b] as int].path by {
            assert(prev[a] == order[a] && prev[b] == order[b]);
        }
        lemma_shift_offsets_values(files, prev, patched);
        let (offsets, delta) = spec_shift_offsets(files, order, patched)->Ok_0;
        let (po, pd) = spec_shift_offsets(files, prev, patched)->Ok_0;
        let last = order.last();
        let f = files[last as int];
        assert(offsets == po.insert(f.path, (f.offset + pd) as u64));
        assert(offsets[f.path] == f.offset + pd);
        assert(delta == pd + file_growth(f, patched));
        assert(growths(files, order, patched) =~= growths(files, prev, patched) + seq![
            file_growth(f, patched),
        ]);
        lemma_seq_sum_concat(growths(files, prev, patched), seq![file_growth(f, patched)]);
        lemma_seq_sum_single(file_growth(f, patched));
        assert(order.take(order.len() - 1) =~= prev);
        assert forall|k: int| 0 <= k < order.len() implies offsets.contains_key(
            #[trigger] files[order[k] as int].path,
        ) && offsets[files[order[k] as int].path] == files[order[k] as int].offset + seq_sum(
            growths(files, order.take(k), patched),
        ) by {
            if k < order.len() - 1 {
                assert(order[k] == prev[k]);
                assert(order.take(k) =~= prev.take(k));
                assert(files[order[k] as int].path != f.path);
            }
        }
    }
}

/// How much a patch target grows when its patch is written in its place.
pub open spec fn target_growth(t: (u64, u64, usize), patches: Seq<FilePatchView>) -> int {
    patches[t.2 as int].bytes.len() - t.1
}

/// The growth of the targets that end at or before payload offset `x`.
pub open spec fn growth_before(
    targets: Seq<(u64, u64, usize)>,
    patches: Seq<FilePatchView>,
    x: int,
) -> int
    decreases targets.len(),
{
    if targets.len() == 0 {
        0
    } else {
        (if targets[0].0 + targets[0].1 <= x {
            target_growth(targets[0], patches)
        } else {
            0
        }) + growth_before(targets.drop_first(), patches, x)
    }
}

/// A successful payload plan visits its targets in order, none starting
/// before the cursor.
proof fn lemma_steps_ordered(targets: Seq<(u64, u64, usize)>, data_offset: u64, cursor: u64)
    requires
        spec_payload_steps(targets, data_offset, cursor) is Ok,
    ensures
        forall|k: int| 0 <= k < targets.len() ==> #[trigger] targets[k].0 >= cursor,
        targets.len() > 0 ==> spec_payload_steps(
            targets.drop_first(),
            data_offset,
            (targets[0].0 + targets[0].1) as u64,
        ) is Ok,
    decreases targets.len(),
{
    if targets.len() > 0 {
        let rest = targets.drop_first();
        let end = (targets[0].0 + targets[0].1) as u64;
        lemma_steps_ordered(rest, data_offset, end);
        assert forall|k: int| 0 <= k < targets.len() implies #[trigger] targets[k].0 >= cursor by {
            if k > 0 {
                assert(targets[k] == rest[k - 1]);
            }
        }
    }
}

proof fn lemma_growth_before_none(
    targets: Seq<(u64, u64, usize)>,
    patches: Seq<FilePatchView>,
    x: int,
)
    requires
        forall|k: int| 0 <= k < targets.len() ==> #[trigger] targets[k].0 + targets[k].1 > x,
    ensures
        growth_before(targets, patches, x) == 0,
    decreases targets.len(),
{
    if targets.len() > 0 {
        let rest = targets.drop_first();
        assert forall|k: int| 0 <= k < rest.len() implies #[trigger] rest[k].0 + rest[k].1 > x by {
            assert(rest[k] == targets[k + 1]);
        }
        lemma_growth_before_none(rest, patches, x);
    }
}

/// Bytes of the payload outside every target keep their place, moved by
/// the growth of the targets before them.
proof fn lemma_spliced_keeps(
    payload: Seq<u8>,
    targets: Seq<(u64, u64, usize)>,
    patches: Seq<FilePatchView>,
    data_offset: u64,
    cursor: u64,
    x: int,
    size: int,
)
    requires
        spec_payload_steps(targets, data_offset, cursor) is Ok,
        crate::rewrite::targets_within(targets, payload.len() as int),
        forall|k: int| 0 <= k < targets.len() ==> #[trigger] targets[k].1 > 0,
        forall|k: int|
            0 <= k < targets.len() ==> x + size <= #[trigger] targets[k].0 || targets[k].0
                + targets[k].1 <= x,
        forall|k: int| 0 <= k < targets.len() ==> #[trigger] targets[k].2 < patches.len(),
        cursor <= x,
        0 < size,
        x + size <= payload.len(),
    ensures
        ({
            let out = spliced_payload(payload, targets, patches, cursor as int);
            let y = x - cursor + growth_before(targets, patches, x);
            &&& 0 <= y
            &&& y + size <= out.len()
            &&& out.subrange(y, y + size) == payload.subrange(x, x + size)
        }),
    decreases targets.len(),
{
    lemma_steps_ordered(targets, data_offset, cursor);
    let out = spliced_payload(payload, targets, patches, cursor as int);
    if targets.len() == 0 {
        assert(out.subrange(x - cursor, x - cursor + size) =~= payload.subrange(x, x + size));
    } else {
        let (offset, tsize, index) = targets[0];
        let rest = targets.drop_first();
        let end = (offset + tsize) as u64;
        let bytes = patches[index as int].bytes;
        let tail = spliced_payload(payload, rest, patches, end as int);
        assert(out == payload.subrange(cursor as int, offset as int) + bytes + tail);
        lemma_steps_ordered(rest, data_offset, end);
        if x + size <= offset {
            assert forall|k: int| 0 <= k < targets.len() implies #[trigger] targets[k].0
                + targets[k].1 > x by {
                if k > 0 {
                    assert(targets[k] == rest[k - 1]);
                }
            }
            lemma_growth_before_none(targets, patches, x);
            assert(out.subrange(x - cursor, x - cursor + size) =~= payload.subrange(x, x + size));
        } else {
            assert(offset + tsize <= x);
            assert forall|k: int| 0 <= k < rest.len() implies x + size <= #[trigger] rest[k].0
                || rest[k].0 + rest[k].1 <= x by {
                assert(rest[k] == targets[k + 1]);
            }
            assert forall|k: int| 0 <= k < rest.len() implies #[trigger] rest[k].1 > 0 by {
                assert(rest[k] == targets[k + 1]);
            }
            assert forall|k: int| 0 <= k < rest.len() implies #[trigger] rest[k].2 < patches.len() by {
                assert(rest[k] == targets[k + 1]);
            }
            assert(crate::rewrite::targets_within(rest, payload.len() as int)) by {
                assert forall|k: int| 0 <= k < rest.len() implies #[trigger] rest[k].0 + rest[k].1
                    <= payload.len() by {
                    assert(rest[k] == targets[k + 1]);
                }
            }
            lemma_spliced_keeps(payload, rest, patches, data_offset, end, x, size);
            let y2 = x - end + growth_before(rest, patches, x);
            let y = x - cursor + growth_before(targets, patches, x);
            assert(y == (offset - cursor) + bytes.len() + y2);
            assert(out.subrange(y, y + size) =~= tail.subrange(y2, y2 + size));
        }
    }
}

/// Each target's new content lies where its old content started,
/// moved by the growth of the targets before it.
proof fn lemma_spliced_inserts(
    payload: Seq<u8>,
    targets: Seq<(u64, u64, usize)>,
    patches: Seq<FilePatchView>,
    data_offset: u64,
    cursor: u64,
    k: int,
)
    requires
        spec_payload_steps(targets, data_offset, cursor) is Ok,
        crate::rewrite::targets_within(targets, payload.len() as int),
        forall|j: int| 0 <= j < targets.len() ==> #[trigger] targets[j].1 > 0,
        forall|j: int| 0 <= j < targets.len() ==> #[trigger] targets[j].2 < patches.len(),
        0 <= k < targets.len(),
    ensures
        ({
            let out = spliced_payload(payload, targets, patches, cursor as int);
            let t = targets[k];
            let bytes = patches[t.2 as int].bytes;
            let y = t.0 - cursor + growth_before(targets, patches, t.0 as int);
            &&& 0 <= y
            &&& y + bytes.len() <= out.len()
            &&& out.subrange(y, y + bytes.len()) == bytes
        }),
    decreases targets.len(),
{
    lemma_steps_ordered(targets, data_offset, cursor);
    let out = spliced_payload(payload, targets, patches, cursor as int);
    let (offset, tsize, index) = targets[0];
    let rest = targets.drop_first();
    let end = (offset + tsize) as u64;
    let bytes0 = patches[index as int].bytes;
    let tail = spliced_payload(payload, rest, patches, end as int);
    assert(out == payload.subrange(cursor as int, offset as int) + bytes0 + tail);
    lemma_steps_ordered(rest, data_offset, end);
    if k == 0 {
        assert forall|j: int| 0 <= j < targets.len() implies #[trigger] targets[j].0 + targets[j].1
            > offset by {
            if j > 0 {
                assert(targets[j] == rest[j - 1]);
            }
        }
        lemma_growth_before_none(targets, patches, offset as int);
        assert(out.subrange(offset - cursor, offset - cursor + bytes0.len()) =~= bytes0);
    } else {
        assert(targets[k] == rest[k - 1]);
        assert forall|j: int| 0 <= j < rest.len() implies #[trigger] rest[j].1 > 0 by {
            assert(rest[j] == targets[j + 1]);
        }
        assert forall|j: int| 0 <= j < rest.len() implies #[trigger] rest[j].2 < patches.len() by {
            assert(rest[j] == targets[j + 1]);
        }
        assert(crate::rewrite::targets_within(rest, payload.len() as int)) by {
            assert forall|j: int| 0 <= j < rest.len() implies #[trigger] rest[j].0 + rest[j].1
                <= payload.len() by {
                assert(rest[j] == targets[j + 1]);
            }
        }
        lemma_spliced_inserts(payload, rest, patches, data_offset, end, k - 1);
        let t = targets[k];
        let bytes = patches[t.2 as int].bytes;
        assert(t.0 >= end);
        let y2 = t.0 - end + growth_before(rest, patches, t.0 as int);
        let y = t.0 - cursor + growth_before(targets, patches, t.0 as int);
        assert(y == (offset - cursor) + bytes0.len() + y2);
        assert(out.subrange(y, y + bytes.len()) =~= tail.subrange(y2, y2 + bytes.len()));
    }
}

/// A position below `n` that the stable order lists.
proof fn lemma_stable_order_covers(keys: Seq<u64>, n: nat, i: int) -> (k: int)
    requires
        0 <= i < n,
        n <= keys.len(),
        n <= usize::MAX,
    ensures
        0 <= k < n,
        spec_stable_order(keys, n)[k] == i,
    decreases n,
{
    let m = (n - 1) as nat;
    let prev = spec_stable_order(keys, m);
    crate::order::lemma_stable_order_indices(keys, m);
    crate::order::lemma_insert_pos_bound(keys, prev, keys[n - 1]);
    let p = insert_pos(keys, prev, keys[n - 1]);
    let next = prev.insert(p, (n - 1) as usize);
    assert(next == spec_stable_order(keys, n));
    if i == n - 1 {
        p
    } else {
        let j = lemma_stable_order_covers(keys, m, i);
        if j < p {
            assert(next[j] == prev[j]);
            j
        } else {
            assert(next[j + 1] == prev[j]);
            j + 1
        }
    }
}

/// With distinct targets, the patch table holds exactly each patch's path,
/// with that patch's content.
pub proof fn lemma_patch_table_lookup(patches: Seq<FilePatchView>)
    requires
        distinct_targets(patches),
    ensures
        forall|k: int|
            0 <= k < patches.len() ==> patch_table(patches).contains_key(
                #[trigger] patches[k].target.path,
            ) && patch_table(patches)[patches[k].target.path] == patches[k].bytes,
        forall|path: Seq<char>|
            #[trigger] patch_table(patches).contains_key(path) ==> exists|k: int|
                0 <= k < patches.len() && patches[k].target.path == path,
    decreases patches.len(),
{
    if patches.len() > 0 {
        let prev = patches.drop_last();
        assert(distinct_targets(prev)) by {
            assert forall|i: int, j: int| 0 <= i < j < prev.len() implies prev[i].target.path
                != prev[j].target.path by {
                assert(prev[i] == patches[i] && prev[j] == patches[j]);
            }
        }
        lemma_patch_table_lookup(prev);
        let last = patches.last();
        assert forall|k: int| 0 <= k < patches.len() implies patch_table(patches).contains_key(
            #[trigger] patches[k].target.path,
        ) && patch_table(patches)[patches[k].target.path] == patches[k].bytes by {
            if k < patches.len() - 1 {
                assert(patches[k] == prev[k]);
                assert(patches[k].target.path != last.target.path);
            }
        }
        assert forall|path: Seq<char>| #[trigger] patch_table(patches).contains_key(path) implies exists|k: int|
            0 <= k < patches.len() && patches[k].target.path == path by {
            if path != last.target.path {
                assert(patch_table(prev).contains_key(path));
                let k = choose|k: int| 0 <= k < prev.len() && prev[k].target.path == path;
                assert(patches[k] == prev[k]);
            } else {
                assert(patches[patches.len() - 1].target.path == path);
            }
        }
    }
}

/// How much a patch grows, when its target ends at or before `x`.
pub open spec fn patch_growth_before(p: FilePatchView, x: int) -> int {
    if p.target.offset + p.target.size <= x {
        p.bytes.len() - p.target.size
    } else {
        0
    }
}

/// How much a file grows by its patch, when it is patched and ends at or before `x`.
pub open spec fn file_growth_before(f: PackedFileView, patched: Map<Seq<char>, Seq<u8>>, x: int) -> int {
    if patched.contains_key(f.path) && f.offset + f.size <= x {
        patched[f.path].len() - f.size
    } else {
        0
    }
}

proof fn lemma_growth_before_sum(
    targets: Seq<(u64, u64, usize)>,
    patches: Seq<FilePatchView>,
    x: int,
)
    ensures
        growth_before(targets, patches, x) == seq_sum(
            targets.map_values(
                |t: (u64, u64, usize)|
                    if t.0 + t.1 <= x {
                        target_growth(t, patches)
                    } else {
                        0
                    },
            ),
        ),
    decreases targets.len(),
{
    let f = |t: (u64, u64, usize)|
        if t.0 + t.1 <= x {
            target_growth(t, patches)
        } else {
            0
        };
    if targets.len() > 0 {
        lemma_growth_before_sum(targets.drop_first(), patches, x);
        assert(targets.map_values(f).drop_first() =~= targets.drop_first().map_values(f));
    } else {
        assert(targets.map_values(f) =~= Seq::<int>::empty());
    }
}

/// The growth before `x` of the ordered targets is that of all patches.
proof fn lemma_targets_growth(patches: Seq<FilePatchView>, x: int)
    requires
        patches.len() <= usize::MAX,
    ensures
        growth_before(ordered_targets(patches), patches, x) == seq_sum(
            Seq::new(patches.len(), |i: int| patch_growth_before(patches[i], x)),
        ),
{
    let keys = patches.map_values(|p: FilePatchView| p.target.offset);
    let order = spec_stable_order(keys, patches.len());
    crate::order::lemma_stable_order_indices(keys, patches.len());
    let targets = ordered_targets(patches);
    lemma_growth_before_sum(targets, patches, x);
    let h = |i: int| patch_growth_before(patches[i], x);
    lemma_stable_order_sum(keys, patches.len(), h);
    let f = |t: (u64, u64, usize)|
        if t.0 + t.1 <= x {
            target_growth(t, patches)
        } else {
            0
        };
    assert(targets.map_values(f) =~= order.map_values(|i: usize| h(i as int)));
    assert(Seq::new(patches.len(), |i: int| h(i)) =~= Seq::new(
        patches.len(),
        |i: int| patch_growth_before(patches[i], x),
    ));
}

/// `target` is one of the files.
pub open spec fn file_at(files: Seq<PackedFileView>, target: PackedFileView) -> bool {
    exists|i: int| 0 <= i < files.len() && files[i] == target
}

/// Every patch replaces one of the files.
pub open spec fn targets_are_files(files: Seq<PackedFileView>, patches: Seq<FilePatchView>) -> bool {
    forall|k: int| 0 <= k < patches.len() ==> #[trigger] file_at(files, patches[k].target)
}

/// The growth before `x` summed over the files equals that summed over the
/// patches, each patch replacing one file.
proof fn lemma_files_growth(files: Seq<PackedFileView>, patches: Seq<FilePatchView>, x: int)
    requires
        distinct_targets(patches),
        forall|i: int, j: int| 0 <= i < j < files.len() ==> #[trigger] files[i].path != #[trigger] files[j].path,
        targets_are_files(files, patches),
    ensures
        seq_sum(Seq::new(files.len(), |i: int| file_growth_before(files[i], patch_table(patches), x)))
            == seq_sum(Seq::new(patches.len(), |i: int| patch_growth_before(patches[i], x))),
    decreases patches.len(),
{
    if patches.len() == 0 {
        assert(patch_table(patches) =~= Map::<Seq<char>, Seq<u8>>::empty());
        lemma_seq_sum_zero(Seq::new(files.len(), |i: int| file_growth_before(files[i], patch_table(patches), x)));
        lemma_seq_sum_zero(Seq::new(patches.len(), |i: int| patch_growth_before(patches[i], x)));
    } else {
        let prev = patches.drop_last();
        let last = patches.last();
        assert(distinct_targets(prev)) by {
            assert forall|i: int, j: int| 0 <= i < j < prev.len() implies prev[i].target.path
                != prev[j].target.path by {
                assert(prev[i] == patches[i] && prev[j] == patches[j]);
            }
        }
        assert(targets_are_files(files, prev)) by {
            assert forall|k: int| 0 <= k < prev.len() implies #[trigger] file_at(files, prev[k].target) by {
                assert(prev[k] == patches[k]);
                assert(file_at(files, patches[k].target));
            }
        }
        lemma_files_growth(files, prev, x);
        lemma_patch_table_lookup(prev);
        let table = patch_table(patches);
        let ptable = patch_table(prev);
        assert(patches[patches.len() - 1] == last);
        assert(file_at(files, patches[patches.len() - 1].target));
        let istar = choose|i: int| 0 <= i < files.len() && files[i] == patches[patches.len() - 1].target;
        assert(!ptable.contains_key(last.target.path)) by {
            if ptable.contains_key(last.target.path) {
                let k = choose|k: int| 0 <= k < prev.len() && prev[k].target.path == last.target.path;
                assert(prev[k] == patches[k]);
            }
        }
        let now = Seq::new(files.len(), |i: int| file_growth_before(files[i], table, x));
        let before = Seq::new(files.len(), |i: int| file_growth_before(files[i], ptable, x));
        assert(now =~= before.update(istar, patch_growth_before(last, x))) by {
            assert forall|i: int| 0 <= i < files.len() && i != istar implies now[i] == before[i] by {
                assert(files[i].path != files[istar].path);
            }
        }
        lemma_seq_sum_update(before, istar, patch_growth_before(last, x));
        let pnow = Seq::new(patches.len(), |i: int| patch_growth_before(patches[i], x));
        let pbefore = Seq::new(prev.len(), |i: int| patch_growth_before(prev[i], x));
        assert(pnow =~= pbefore + seq![patch_growth_before(last, x)]);
        lemma_seq_sum_concat(pbefore, seq![patch_growth_before(last, x)]);
        lemma_seq_sum_single(patch_growth_before(last, x));
    }
}

/// Files of positive size do not overlap.
pub open spec fn files_disjoint(files: Seq<PackedFileView>) -> bool {
    forall|i: int, j: int|
        0 <= i < files.len() && 0 <= j < files.len() && i != j && files[i].size > 0 && files[j].size
            > 0 ==> #[trigger] files[i].offset + files[i].size <= #[trigger] files[j].offset
            || files[j].offset + files[j].size <= files[i].offset
}

/// The growth that the walk in offset order has added before a file of
/// positive size is that of the patched files ending at or before it.
proof fn lemma_walk_growth(files: Seq<PackedFileView>, patched: Map<Seq<char>, Seq<u8>>, kf: int)
    requires
        files.len() <= usize::MAX,
        files_disjoint(files),
        forall|i: int| 0 <= i < files.len() && #[trigger] patched.contains_key(files[i].path) ==> files[i].size > 0,
        0 <= kf < files.len(),
        files[spec_stable_order(offset_keys(files), files.len())[kf] as int].size > 0,
    ensures
        ({
            let order = spec_stable_order(offset_keys(files), files.len());
            let f = files[order[kf] as int];
            seq_sum(growths(files, order.take(kf), patched)) == seq_sum(
                Seq::new(files.len(), |i: int| file_growth_before(files[i], patched, f.offset as int)),
            )
        }),
{
    let keys = offset_keys(files);
    let n = files.len();
    let order = spec_stable_order(keys, n);
    lemma_stable_order_sorted(keys, n);
    let fi = order[kf] as int;
    let f = files[fi];
    let u = |i: int| file_growth_before(files[i], patched, f.offset as int);
    let mapped = order.map_values(|i: usize| u(i as int));
    assert(growths(files, order.take(kf), patched) =~= mapped.take(kf)) by {
        assert forall|j: int| 0 <= j < kf implies #[trigger] growths(files, order.take(kf), patched)[j]
            == mapped[j] by {
            let gi = order[j] as int;
            let g = files[gi];
            assert(key_before(keys, gi, fi));
            assert(gi != fi);
            if patched.contains_key(g.path) {
                assert(g.size > 0);
                assert(g.offset <= f.offset);
                assert(g.offset + g.size <= f.offset || f.offset + f.size <= g.offset);
            }
        }
    }
    assert forall|j: int| 0 <= j < mapped.skip(kf).len() implies #[trigger] mapped.skip(kf)[j] == 0 by {
        let gi = order[kf + j] as int;
        let g = files[gi];
        if j > 0 {
            assert(key_before(keys, fi, gi));
        }
        if patched.contains_key(g.path) {
            assert(g.size > 0);
        }
    }
    lemma_seq_sum_zero(mapped.skip(kf));
    lemma_seq_sum_concat(mapped.take(kf), mapped.skip(kf));
    assert(mapped =~= mapped.take(kf) + mapped.skip(kf));
    lemma_stable_order_sum(keys, n, u);
    assert(Seq::new(n, |i: int| u(i)) =~= Seq::new(
        n,
        |i: int| file_growth_before(files[i], patched, f.offset as int),
    ));
}

/// The content a file has in the rewritten archive: its patch, or its
/// source bytes.
pub open spec fn new_content(
    f: PackedFileView,
    payload: Seq<u8>,
    patched: Map<Seq<char>, Seq<u8>>,
) -> Seq<u8> {
    if patched.contains_key(f.path) {
        patched[f.path]
    } else {
        payload.subrange(f.offset as int, f.offset + f.size)
    }
}

/// Writing the payload by the plan puts every file of positive size, with
/// its new content, at the offset that the rewritten header gives it: the
/// files after an enlarged or shrunk file keep valid offsets. This holds
/// for an archive whose packed files lie inside its payload, have distinct
/// paths and do not overlap, and for patches of distinct, non-empty files
/// of it.
pub proof fn lemma_rewritten_files_in_place(
    source: Seq<u8>,
    data_offset: u64,
    files: Seq<PackedFileView>,
    patches: Seq<FilePatchView>,
    steps: Seq<PayloadStep>,
    offsets: Map<Seq<char>, u64>,
    growth: int,
)
    requires
        files.len() <= usize::MAX,
        patches.len() <= usize::MAX,
        data_offset <= source.len(),
        forall|i: int| 0 <= i < files.len() ==> data_offset + #[trigger] files[i].offset + files[i].size <= source.len(),
        files_disjoint(files),
        forall|i: int, j: int| 0 <= i < j < files.len() ==> #[trigger] files[i].path != #[trigger] files[j].path,
        distinct_targets(patches),
        targets_are_files(files, patches),
        forall|k: int| 0 <= k < patches.len() ==> #[trigger] patches[k].target.size > 0,
        spec_payload_plan(patches, data_offset) == Ok::<_, Seq<char>>(steps),
        spec_shift_offsets(
            files,
            spec_stable_order(offset_keys(files), files.len()),
            patch_table(patches),
        ) == Ok::<_, Seq<char>>((offsets, growth)),
    ensures
        forall|i: int|
            0 <= i < files.len() && #[trigger] files[i].size > 0 ==> {
                let out = run_payload_steps(source, patches, steps, 0);
                let content = new_content(files[i], source.skip(data_offset as int), patch_table(patches));
                let at = offsets[files[i].path] as int;
                &&& offsets.contains_key(files[i].path)
                &&& at + content.len() <= out.len()
                &&& out.subrange(at, at + content.len()) == content
            },
{
    let payload = source.skip(data_offset as int);
    let table = patch_table(patches);
    let n = files.len();
    let keys = offset_keys(files);
    let order = spec_stable_order(keys, n);
    let targets = ordered_targets(patches);
    let pkeys = patches.map_values(|p: FilePatchView| p.target.offset);
    let porder = spec_stable_order(pkeys, patches.len());
    assert forall|i: int| 0 <= i < patches.len() implies data_offset + #[trigger] patches[i].target.offset
        + patches[i].target.size <= source.len() by {
        assert(file_at(files, patches[i].target));
    }
    crate::rewrite::lemma_payload_plan_splices(source, patches, data_offset, steps);
    let out = run_payload_steps(source, patches, steps, 0);
    assert(out == spliced_payload(payload, targets, patches, 0));
    crate::order::lemma_stable_order_indices(keys, n);
    crate::order::lemma_stable_order_indices(pkeys, patches.len());
    lemma_stable_order_sorted(keys, n);
    lemma_patch_table_lookup(patches);
    assert forall|a: int, b: int| 0 <= a < b < order.len() implies files[#[trigger] order[a] as int].path
        != files[#[trigger] order[b] as int].path by {
        assert(key_before(keys, order[a] as int, order[b] as int));
        assert(order[a] != order[b]);
    }
    lemma_shift_offsets_values(files, order, table);
    assert forall|i: int| 0 <= i < files.len() && #[trigger] table.contains_key(files[i].path) implies files[i].size
        > 0 by {
        let k = choose|k: int| 0 <= k < patches.len() && patches[k].target.path == files[i].path;
        assert(file_at(files, patches[k].target));
        let idx = choose|idx: int| 0 <= idx < files.len() && files[idx] == patches[k].target;
        if idx != i {
            if idx < i {
                assert(files[idx].path != files[i].path);
            } else {
                assert(files[i].path != files[idx].path);
            }
        }
    }
    assert(spec_payload_steps(targets, data_offset, 0) is Ok);
    assert(crate::rewrite::targets_within(targets, payload.len() as int)) by {
        assert forall|k: int| 0 <= k < targets.len() implies #[trigger] targets[k].0 + targets[k].1
            <= payload.len() by {
            let j = porder[k] as int;
            assert(targets[k] == (patches[j].target.offset, patches[j].target.size, porder[k]));
            assert(data_offset + patches[j].target.offset + patches[j].target.size <= source.len());
        }
    }
    assert forall|k: int| 0 <= k < targets.len() implies #[trigger] targets[k].1 > 0 by {
        let j = porder[k] as int;
        assert(targets[k] == (patches[j].target.offset, patches[j].target.size, porder[k]));
    }
    assert forall|k: int| 0 <= k < targets.len() implies #[trigger] targets[k].2 < patches.len() by {
        let j = porder[k] as int;
        assert(targets[k] == (patches[j].target.offset, patches[j].target.size, porder[k]));
    }
    assert forall|i: int| 0 <= i < files.len() && #[trigger] files[i].size > 0 implies {
        let content = new_content(files[i], payload, table);
        let at = offsets[files[i].path] as int;
        &&& offsets.contains_key(files[i].path)
        &&& at + content.len() <= out.len()
        &&& out.subrange(at, at + content.len()) == content
    } by {
        let f = files[i];
        let kf = lemma_stable_order_covers(keys, n, i);
        assert(order[kf] == i);
        lemma_walk_growth(files, table, kf);
        lemma_files_growth(files, patches, f.offset as int);
        lemma_targets_growth(patches, f.offset as int);
        let g = growth_before(targets, patches, f.offset as int);
        assert(offsets[f.path] == f.offset + g);
        if table.contains_key(f.path) {
            let j = choose|j: int| 0 <= j < patches.len() && patches[j].target.path == f.path;
            assert(file_at(files, patches[j].target));
            let idx = choose|idx: int| 0 <= idx < files.len() && files[idx] == patches[j].target;
            if idx != i {
                if idx < i {
                    assert(files[idx].path != files[i].path);
                } else {
                    assert(files[i].path != files[idx].path);
                }
            }
            assert(patches[j].target == f);
            assert(table[f.path] == patches[j].bytes);
            let k = lemma_stable_order_covers(pkeys, patches.len(), j);
            assert(targets[k] == (patches[j].target.offset, patches[j].target.size, porder[k]));
            lemma_spliced_inserts(payload, targets, patches, data_offset, 0, k);
        } else {
            assert forall|k: int| 0 <= k < targets.len() implies f.offset + f.size <= #[trigger] targets[k].0
                || targets[k].0 + targets[k].1 <= f.offset by {
                let j = porder[k] as int;
                assert(targets[k] == (patches[j].target.offset, patches[j].target.size, porder[k]));
                assert(table.contains_key(patches[j].target.path));
                assert(file_at(files, patches[j].target));
                let idx = choose|idx: int| 0 <= idx < files.len() && files[idx] == patches[j].target;
                assert(idx != i);
                assert(files[idx].size > 0);
            }
            lemma_spliced_keeps(payload, targets, patches, data_offset, 0, f.offset as int, f.size as int);
        }
    }
}

} // verus!

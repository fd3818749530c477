//! Compaction as a function on the state of a store: the live records go to
//! one new segment, in the order of their keys; a second new segment takes
//! the records to come; the old segments go.

use crate::command::{CommandView, LogPointer};
use crate::index::{
    holds, index_map, key_before, lemma_key_before_asymmetric, lemma_position_unique,
    lemma_put_entry, lemma_sorted_front, parts_entries, position, sorted, EntryView,
};
use crate::log::{
    apply_op, apply_ops, compaction_due, lemma_replay_from_append, live_bytes, nothing_replayed,
    pointer_to, points_to_put, put_applied, record_at, remove_applied, replay_all, replay_from,
    value_at, DiskOpView, Replayed, StoreState,
};
use crate::record::{is_record_of, lemma_decode_bounds, lemma_decode_relocates, record_of};
use crate::segments::{
    ascending, data_of, has_segment, lemma_place_unique, total_bytes, SegmentView,
};
use vstd::prelude::*;

verus! {

/// Whether every entry points to a record that sets its key.
pub open spec fn entries_valid(segments: Seq<SegmentView>, entries: Seq<EntryView>) -> bool {
    forall|i: int|
        0 <= i < entries.len() ==> points_to_put(
            segments,
            (#[trigger] entries[i]).key,
            entries[i].pointer,
        )
}

/// The records that the entries point to, one behind the other.
pub open spec fn compacted_data(segments: Seq<SegmentView>, entries: Seq<EntryView>) -> Seq<u8>
    decreases entries.len(),
{
    if entries.len() == 0 {
        Seq::empty()
    } else {
        compacted_data(segments, entries.drop_last()) + record_at(
            segments,
            entries.last().pointer,
        )
    }
}

/// The pointer of the entry at `at` once its record lies in the segment
/// `target`, behind the records of the entries before it.
pub open spec fn compacted_pointer(entries: Seq<EntryView>, target: u64, at: int) -> LogPointer {
    LogPointer {
        file_id: target,
        offset: live_bytes(entries.take(at)) as u64,
        len: entries[at].pointer.len,
    }
}

/// The entries once their records lie in the segment `target`.
pub open spec fn compacted_entries(entries: Seq<EntryView>, target: u64) -> Seq<EntryView> {
    Seq::new(
        entries.len(),
        |i: int| EntryView { key: entries[i].key, pointer: compacted_pointer(entries, target, i) },
    )
}

/// The deletion of each of the segments, in their order.
pub open spec fn removals(segments: Seq<SegmentView>) -> Seq<DiskOpView> {
    Seq::new(segments.len(), |i: int| DiskOpView::Delete { file_id: segments[i].id })
}

/// The id of the segment that compaction writes the live records to.
pub open spec fn target_id(v: StoreState) -> u64 {
    (v.current_id() + 1) as u64
}

/// The id of the segment that takes new records after compaction.
pub open spec fn fresh_id(v: StoreState) -> u64 {
    (v.current_id() + 2) as u64
}

/// The state after compaction.
///
/// The operations on the files come in this order: the segment of live
/// records is written, the segment for new records is made, and only then
/// are the old segments deleted.
pub open spec fn compacted(v: StoreState) -> StoreState {
    let data = compacted_data(v.segments, v.entries);
    StoreState {
        segments: seq![
            SegmentView { id: target_id(v), data },
            SegmentView { id: fresh_id(v), data: Seq::empty() },
        ],
        entries: compacted_entries(v.entries, target_id(v)),
        uncompacted: 0,
        pending: v.pending + seq![
            DiskOpView::Append { file_id: target_id(v), bytes: data },
            DiskOpView::Append { file_id: fresh_id(v), bytes: Seq::empty() },
        ] + removals(v.segments),
        synced: v.synced,
    }
}

/// The state once compaction had its turn: compacted where it was due.
pub open spec fn settled(v: StoreState) -> StoreState {
    if compaction_due(v) {
        compacted(v)
    } else {
        v
    }
}

/// The state that setting `key` to `value` leaves.
pub open spec fn after_put(v: StoreState, key: Seq<char>, value: Seq<char>) -> StoreState {
    settled(put_applied(v, key, record_of(CommandView::Put { key, value })->0))
}

/// The state that removing `key` leaves.
pub open spec fn after_remove(v: StoreState, key: Seq<char>) -> StoreState {
    settled(remove_applied(v, key, record_of(CommandView::Remove { key })->0))
}

/// In a consistent state every entry points to a record that sets its key.
pub proof fn lemma_entries_valid(v: StoreState)
    requires
        v.wf(),
    ensures
        entries_valid(v.segments, v.entries),
{
    assert forall|i: int| 0 <= i < v.entries.len() implies points_to_put(
        v.segments,
        (#[trigger] v.entries[i]).key,
        v.entries[i].pointer,
    ) by {
        lemma_position_unique(v.entries, i);
        assert(v.index().contains_key(v.entries[i].key));
    }
}

/// A record that a pointer leads to lies inside its segment, and read by
/// itself it is the same record.
pub proof fn lemma_record_at(segments: Seq<SegmentView>, key: Seq<char>, pointer: LogPointer)
    requires
        points_to_put(segments, key, pointer),
    ensures
        pointer.offset + pointer.len <= data_of(segments, pointer.file_id).len(),
        record_at(segments, pointer).len() == pointer.len,
        pointer.len > 0,
        is_record_of(
            record_at(segments, pointer),
            CommandView::Put { key, value: value_at(segments, pointer) },
        ),
{
    let data = data_of(segments, pointer.file_id);
    let record = record_at(segments, pointer);
    lemma_decode_bounds(data, pointer.offset as int);
    assert(data.subrange(pointer.offset as int, pointer.offset + pointer.len) =~= record.subrange(
        0,
        0 + pointer.len,
    ));
    lemma_decode_relocates(data, pointer.offset as int, record, 0);
}

/// The compacted data has as many bytes as the entries' records.
pub proof fn lemma_compacted_len(segments: Seq<SegmentView>, entries: Seq<EntryView>)
    requires
        entries_valid(segments, entries),
    ensures
        compacted_data(segments, entries).len() == live_bytes(entries),
    decreases entries.len(),
{
    if entries.len() > 0 {
        let front = entries.drop_last();
        let n = entries.len() - 1;
        assert forall|i: int| 0 <= i < front.len() implies points_to_put(
            segments,
            (#[trigger] front[i]).key,
            front[i].pointer,
        ) by {
            assert(front[i] == entries[i]);
        }
        lemma_compacted_len(segments, front);
        assert(entries.last() == entries[n]);
        lemma_record_at(segments, entries[n].key, entries[n].pointer);
    }
}

/// The entries before `n` are valid if all are.
pub proof fn lemma_entries_valid_front(segments: Seq<SegmentView>, entries: Seq<EntryView>, n: int)
    requires
        entries_valid(segments, entries),
        0 <= n <= entries.len(),
    ensures
        entries_valid(segments, entries.take(n)),
{
    let front = entries.take(n);
    assert forall|i: int| 0 <= i < front.len() implies points_to_put(
        segments,
        (#[trigger] front[i]).key,
        front[i].pointer,
    ) by {
        assert(front[i] == entries[i]);
    }
}

/// The compacted data of the first `n + 1` entries is that of the first
/// `n`, and then the record of the entry at `n`.
pub proof fn lemma_compacted_step(segments: Seq<SegmentView>, entries: Seq<EntryView>, n: int)
    requires
        0 <= n < entries.len(),
    ensures
        compacted_data(segments, entries.take(n + 1)) == compacted_data(segments, entries.take(n))
            + record_at(segments, entries[n].pointer),
        live_bytes(entries.take(n + 1)) == live_bytes(entries.take(n)) + entries[n].pointer.len,
{
    let longer = entries.take(n + 1);
    assert(longer.drop_last() =~= entries.take(n));
    assert(longer.last() == entries[n]);
}

/// In the compacted data, the record of the entry at `at` lies where its
/// new pointer says.
pub proof fn lemma_compacted_record(
    segments: Seq<SegmentView>,
    entries: Seq<EntryView>,
    at: int,
    n: int,
)
    requires
        entries_valid(segments, entries),
        0 <= at < n <= entries.len(),
    ensures
        live_bytes(entries.take(at)) + entries[at].pointer.len <= compacted_data(
            segments,
            entries.take(n),
        ).len(),
        compacted_data(segments, entries.take(n)).subrange(
            live_bytes(entries.take(at)) as int,
            live_bytes(entries.take(at)) + entries[at].pointer.len,
        ) == record_at(segments, entries[at].pointer),
    decreases n,
{
    let shorter = compacted_data(segments, entries.take(n - 1));
    let record = record_at(segments, entries[n - 1].pointer);
    lemma_compacted_step(segments, entries, n - 1);
    lemma_entries_valid_front(segments, entries, n - 1);
    lemma_compacted_len(segments, entries.take(n - 1));
    lemma_record_at(segments, entries[n - 1].key, entries[n - 1].pointer);
    let start = live_bytes(entries.take(at)) as int;
    let end = start + entries[at].pointer.len;
    if at == n - 1 {
        assert((shorter + record).subrange(start, end) =~= record);
    } else {
        lemma_compacted_record(segments, entries, at, n - 1);
        assert((shorter + record).subrange(start, end) =~= shorter.subrange(start, end));
    }
}

/// The compacted entries keep their keys, so they stay sorted, and hold the
/// keys that the entries held, at the same places.
pub proof fn lemma_compacted_keys(entries: Seq<EntryView>, target: u64)
    requires
        sorted(entries),
    ensures
        sorted(compacted_entries(entries, target)),
        forall|key: Seq<char>|
            holds(compacted_entries(entries, target), key) == holds(entries, key),
        forall|key: Seq<char>|
            holds(entries, key) ==> position(compacted_entries(entries, target), key) == position(
                entries,
                key,
            ),
{
    let after = compacted_entries(entries, target);
    assert forall|i: int, j: int| 0 <= i < j < after.len() implies key_before(
        (#[trigger] after[i]).key,
        (#[trigger] after[j]).key,
    ) by {
        assert(after[i].key == entries[i].key);
        assert(after[j].key == entries[j].key);
    }
    assert forall|key: Seq<char>| holds(after, key) == holds(entries, key) by {
        if holds(entries, key) {
            let i = position(entries, key);
            assert(after[i].key == key);
        }
        if holds(after, key) {
            let i = position(after, key);
            assert(entries[i].key == key);
        }
    }
    assert forall|key: Seq<char>| holds(entries, key) implies position(after, key) == position(
        entries,
        key,
    ) by {
        let i = position(entries, key);
        assert(after[i].key == key);
        lemma_position_unique(after, i);
    }
}

/// The compacted entries point to as many bytes as the entries did.
pub proof fn lemma_compacted_live(entries: Seq<EntryView>, target: u64, n: int)
    requires
        0 <= n <= entries.len(),
    ensures
        live_bytes(compacted_entries(entries, target).take(n)) == live_bytes(entries.take(n)),
    decreases n,
{
    if n > 0 {
        let after = compacted_entries(entries, target);
        lemma_compacted_live(entries, target, n - 1);
        lemma_compacted_step(Seq::empty(), entries, n - 1);
        lemma_compacted_step(Seq::empty(), after, n - 1);
    }
}

/// Replaying the compacted data of the first `n` entries gives the first
/// `n` compacted entries, and nothing stale.
pub proof fn lemma_replay_compacted(
    segments: Seq<SegmentView>,
    entries: Seq<EntryView>,
    target: u64,
    n: int,
)
    requires
        sorted(entries),
        entries_valid(segments, entries),
        live_bytes(entries) <= usize::MAX,
        0 <= n <= entries.len(),
    ensures
        live_bytes(entries.take(n)) <= live_bytes(entries),
        replay_from(compacted_data(segments, entries.take(n)), 0, target, nothing_replayed())
            == Some(
            Replayed { index: index_map(compacted_entries(entries, target).take(n)), stale: 0 },
        ),
    decreases entries.len() - n,
{
    lemma_replay_compacted_up(segments, entries, target, n);
    lemma_live_front(entries, n);
}

/// The records of the first `n` entries are among those of all.
pub proof fn lemma_live_front(entries: Seq<EntryView>, n: int)
    requires
        0 <= n <= entries.len(),
    ensures
        live_bytes(entries.take(n)) <= live_bytes(entries),
    decreases entries.len() - n,
{
    if n < entries.len() {
        lemma_compacted_step(Seq::empty(), entries, n);
        lemma_live_front(entries, n + 1);
    } else {
        assert(entries.take(n) =~= entries);
    }
}

/// As `lemma_replay_compacted`, by induction from the first entry up.
proof fn lemma_replay_compacted_up(
    segments: Seq<SegmentView>,
    entries: Seq<EntryView>,
    target: u64,
    n: int,
)
    requires
        sorted(entries),
        entries_valid(segments, entries),
        live_bytes(entries) <= usize::MAX,
        0 <= n <= entries.len(),
    ensures
        replay_from(compacted_data(segments, entries.take(n)), 0, target, nothing_replayed())
            == Some(
            Replayed { index: index_map(compacted_entries(entries, target).take(n)), stale: 0 },
        ),
    decreases n,
{
    let after = compacted_entries(entries, target);
    if n == 0 {
        assert(index_map(after.take(0)) =~= Map::<Seq<char>, LogPointer>::empty());
    } else {
        let m = n - 1;
        lemma_replay_compacted_up(segments, entries, target, m);
        let shorter = compacted_data(segments, entries.take(m));
        let entry = entries[m];
        let record = record_at(segments, entry.pointer);
        let value = value_at(segments, entry.pointer);
        lemma_compacted_step(segments, entries, m);
        lemma_entries_valid_front(segments, entries, m);
        lemma_compacted_len(segments, entries.take(m));
        lemma_record_at(segments, entry.key, entry.pointer);
        lemma_live_front(entries, n);
        let state = Replayed { index: index_map(after.take(m)), stale: 0 };
        lemma_replay_from_append(
            shorter,
            0,
            target,
            nothing_replayed(),
            record,
            CommandView::Put { key: entry.key, value },
        );
        // The entry at `m` is a new key for the entries before it.
        let front = after.take(m);
        lemma_compacted_keys(entries, target);
        lemma_sorted_front(after, m);
        assert forall|i: int| 0 <= i < m implies key_before((#[trigger] front[i]).key, entry.key) by {
            assert(front[i].key == entries[i].key);
        }
        assert(parts_entries(front, entry.key, m));
        if holds(front, entry.key) {
            let i = position(front, entry.key);
            lemma_key_before_asymmetric(front[i].key, entry.key);
        }
        let pointer = pointer_to(target, shorter.len() as int, (shorter.len() + record.len()) as int);
        assert(pointer == after[m].pointer);
        lemma_put_entry(front, entry.key, pointer, m);
        assert(after.take(n) =~= front.insert(m, EntryView { key: entry.key, pointer }));
    }
}

/// Doing one list of operations and then another is doing the two in a row.
pub proof fn lemma_apply_ops_concat(
    files: Map<u64, Seq<u8>>,
    first: Seq<DiskOpView>,
    second: Seq<DiskOpView>,
)
    ensures
        apply_ops(files, first + second) == apply_ops(apply_ops(files, first), second),
    decreases second.len(),
{
    if second.len() == 0 {
        assert(first + second =~= first);
    } else {
        assert((first + second).drop_last() =~= first + second.drop_last());
        lemma_apply_ops_concat(files, first, second.drop_last());
    }
}

/// Deleting each of the segments leaves the files that are none of them.
pub proof fn lemma_apply_removals(files: Map<u64, Seq<u8>>, segments: Seq<SegmentView>)
    ensures
        apply_ops(files, removals(segments)).dom() == files.dom().filter(
            |id: u64| !has_segment(segments, id),
        ),
        forall|id: u64| #[trigger]
            files.contains_key(id) && !has_segment(segments, id) ==> apply_ops(
                files,
                removals(segments),
            )[id] == files[id],
    decreases segments.len(),
{
    let ops = removals(segments);
    if segments.len() == 0 {
        assert(apply_ops(files, ops).dom() =~= files.dom().filter(
            |id: u64| !has_segment(segments, id),
        ));
    } else {
        let front = segments.drop_last();
        assert(ops.drop_last() =~= removals(front));
        lemma_apply_removals(files, front);
        let last = segments.last();
        assert(last == segments[segments.len() - 1]);
        assert forall|id: u64| has_segment(segments, id) == (has_segment(front, id) || id
            == last.id) by {
            if has_segment(front, id) {
                let i = choose|i: int| 0 <= i < front.len() && (#[trigger] front[i]).id == id;
                assert(segments[i].id == id);
            }
            if has_segment(segments, id) {
                let i = choose|i: int| 0 <= i < segments.len() && (#[trigger] segments[i]).id == id;
                if i < front.len() {
                    assert(front[i].id == id);
                }
            }
        }
        assert(apply_ops(files, ops).dom() =~= files.dom().filter(
            |id: u64| !has_segment(segments, id),
        ));
    }
}

/// Compaction keeps the state consistent and keeps what the store holds;
/// afterwards every pointer leads into the one new segment, nothing is
/// stale, and the segments are no larger than they were.
pub proof fn lemma_compacted(v: StoreState)
    requires
        v.wf(),
        v.current_id() <= u64::MAX - 2,
        live_bytes(v.entries) <= usize::MAX,
    ensures
        compacted(v).wf(),
        compacted(v).contents() == v.contents(),
        total_bytes(compacted(v).segments) == live_bytes(v.entries),
        total_bytes(compacted(v).segments) <= total_bytes(v.segments),
        compacted(v).index().dom() == v.index().dom(),
        forall|key: Seq<char>| #[trigger]
            compacted(v).index().contains_key(key) ==> compacted(v).index()[key].file_id
                == target_id(v),
{
    let after = compacted(v);
    let target = target_id(v);
    let fresh = fresh_id(v);
    let data = compacted_data(v.segments, v.entries);
    let n = v.entries.len() as int;
    lemma_entries_valid(v);
    assert(v.entries.take(n) =~= v.entries);
    assert(after.entries.take(n) =~= after.entries);
    lemma_compacted_len(v.segments, v.entries);
    lemma_compacted_keys(v.entries, target);
    lemma_compacted_live(v.entries, target, n);
    lemma_replay_compacted(v.segments, v.entries, target, n);

    // The two new segments.
    assert(after.segments[0].id == target && after.segments[1].id == fresh);
    assert(ascending(after.segments));
    lemma_place_unique(after.segments, 0);
    lemma_place_unique(after.segments, 1);
    assert forall|id: u64| has_segment(after.segments, id) == (id == target || id == fresh) by {
        if has_segment(after.segments, id) {
            let i = choose|i: int|
                0 <= i < after.segments.len() && (#[trigger] after.segments[i]).id == id;
            assert(i == 0 || i == 1);
        }
    }

    // Replaying them.
    let only = after.segments.drop_last();
    assert(only =~= seq![after.segments[0]]);
    assert(only.drop_last() =~= Seq::<SegmentView>::empty());
    assert(replay_all(only.drop_last()) == Some(nothing_replayed()));
    assert(replay_all(only) == replay_from(data, 0, target, nothing_replayed()));
    assert(total_bytes(only.drop_last()) == 0);
    assert(total_bytes(only) == data.len());

    // Every entry points to its record in the new segment.
    assert forall|key: Seq<char>| #[trigger] after.index().contains_key(key) implies {
        &&& points_to_put(after.segments, key, after.index()[key])
        &&& value_at(after.segments, after.index()[key]) == value_at(v.segments, v.index()[key])
        &&& after.index()[key].file_id == target
    } by {
        let i = position(v.entries, key);
        let old_pointer = v.entries[i].pointer;
        let new_pointer = after.entries[i].pointer;
        lemma_record_at(v.segments, key, old_pointer);
        lemma_compacted_record(v.segments, v.entries, i, n);
        let old_data = data_of(v.segments, old_pointer.file_id);
        lemma_decode_bounds(old_data, old_pointer.offset as int);
        lemma_live_front(v.entries, i);
        lemma_decode_relocates(old_data, old_pointer.offset as int, data, new_pointer.offset as int);
    }
    assert(after.index().dom() =~= v.index().dom());
    assert(after.contents() =~= v.contents());

    // The files follow.
    let steps = seq![
        DiskOpView::Append { file_id: target, bytes: data },
        DiskOpView::Append { file_id: fresh, bytes: Seq::empty() },
    ];
    lemma_apply_ops_concat(v.synced, v.pending + steps, removals(v.segments));
    lemma_apply_ops_concat(v.synced, v.pending, steps);
    let before_files = v.files();
    assert(steps.drop_last() =~= seq![steps[0]]);
    assert(steps.drop_last().drop_last() =~= Seq::<DiskOpView>::empty());
    let made = apply_ops(before_files, steps);
    assert forall|id: u64| has_segment(v.segments, id) implies id <= v.current_id() by {
        let i = choose|i: int| 0 <= i < v.segments.len() && (#[trigger] v.segments[i]).id == id;
        if i < v.segments.len() - 1 {
            assert(v.segments[i].id < v.segments[v.segments.len() - 1].id);
        }
    }
    let one = steps.drop_last();
    assert(one.last() == steps[0]);
    assert(apply_ops(before_files, one.drop_last()) == before_files);
    assert(apply_ops(before_files, one) == apply_op(before_files, steps[0]));
    assert(made == apply_op(apply_ops(before_files, one), steps[1]));
    assert(!before_files.contains_key(target));
    assert(!before_files.insert(target, data).contains_key(fresh));
    assert(made =~= before_files.insert(target, data).insert(fresh, Seq::empty()));
    lemma_apply_removals(made, v.segments);
    assert(apply_ops(made, removals(v.segments)) =~= after.files());
}

} // verus!

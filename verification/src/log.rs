//! The log as a mathematical object: segments of bytes, what replaying them
//! gives, and what the store's operations make of them.

use crate::command::{CommandView, LogPointer};
use crate::index::{
    drop_entry, holds, index_map, lemma_drop_entry, lemma_put_entry_map, lemma_slot_parts,
    position, put_entry, slot, sorted, EntryView,
};
use crate::record::{
    decode_at, is_record_of, lemma_decode_bounds, lemma_decode_relocates, ReadRecord,
};
use crate::segments::{
    ascending, data_of, files_of, has_segment, lemma_place_unique, lemma_total_with_record,
    lemma_with_data, total_bytes, with_record, SegmentView,
};
use vstd::prelude::*;

verus! {

/// The number of stale bytes from which the store compacts its log.
pub const COMPACTION_THRESHOLD: u64 = 262144;

/// The number of bytes of the records that the entries point to.
pub open spec fn live_bytes(entries: Seq<EntryView>) -> nat
    decreases entries.len(),
{
    if entries.len() == 0 {
        0
    } else {
        live_bytes(entries.drop_last()) + entries.last().pointer.len as nat
    }
}

/// The pointer to the record that fills `start..end` of the segment `file_id`.
pub open spec fn pointer_to(file_id: u64, start: int, end: int) -> LogPointer {
    LogPointer { file_id, offset: start as u64, len: (end - start) as u64 }
}

/// What replaying a log has given so far: the index, and the number of
/// bytes of records that a later record has superseded.
pub struct Replayed {
    pub index: Map<Seq<char>, LogPointer>,
    pub stale: nat,
}

/// The state before any record.
pub open spec fn nothing_replayed() -> Replayed {
    Replayed { index: Map::empty(), stale: 0 }
}

/// The bytes that the record under `key` takes, if the index holds one.
pub open spec fn held_bytes(index: Map<Seq<char>, LogPointer>, key: Seq<char>) -> nat {
    if index.contains_key(key) {
        index[key].len as nat
    } else {
        0
    }
}

/// The state after one more record, which lies at `pointer`.
///
/// A record that sets a key supersedes the key's earlier record. A record
/// that removes a key supersedes that record too, and is stale itself.
pub open spec fn apply_record(state: Replayed, command: CommandView, pointer: LogPointer) -> Replayed {
    match command {
        CommandView::Put { key, .. } => Replayed {
            index: state.index.insert(key, pointer),
            stale: state.stale + held_bytes(state.index, key),
        },
        CommandView::Remove { key } => Replayed {
            index: state.index.remove(key),
            stale: state.stale + held_bytes(state.index, key) + pointer.len as nat,
        },
    }
}

/// The state after the records of `data` from `pos` on, in the segment
/// `file_id`; `None` where the bytes from `pos` on are no sequence of
/// well-formed records.
pub open spec fn replay_from(data: Seq<u8>, pos: int, file_id: u64, state: Replayed) -> Option<
    Replayed,
>
    decreases data.len() - pos,
{
    if pos >= data.len() {
        Some(state)
    } else {
        match decode_at(data, pos) {
            Some(read) => if pos < read.next {
                replay_from(
                    data,
                    read.next,
                    file_id,
                    apply_record(state, read.command, pointer_to(file_id, pos, read.next)),
                )
            } else {
                None
            },
            None => None,
        }
    }
}

/// The state after all the segments, replayed in their order.
pub open spec fn replay_all(segments: Seq<SegmentView>) -> Option<Replayed>
    decreases segments.len(),
{
    if segments.len() == 0 {
        Some(nothing_replayed())
    } else {
        match replay_all(segments.drop_last()) {
            Some(state) => replay_from(segments.last().data, 0, segments.last().id, state),
            None => None,
        }
    }
}

/// Whether `pointer` leads to a whole record that sets `key`.
pub open spec fn points_to_put(segments: Seq<SegmentView>, key: Seq<char>, pointer: LogPointer) -> bool {
    &&& has_segment(segments, pointer.file_id)
    &&& match decode_at(data_of(segments, pointer.file_id), pointer.offset as int) {
        Some(read) => {
            &&& read.next == pointer.offset + pointer.len
            &&& read.command is Put
            &&& read.command.key() == key
        },
        None => false,
    }
}

/// Whether every pointer of the index leads to a record that sets its key.
pub open spec fn index_valid(segments: Seq<SegmentView>, index: Map<Seq<char>, LogPointer>) -> bool {
    forall|key: Seq<char>| #[trigger]
        index.contains_key(key) ==> points_to_put(segments, key, index[key])
}

/// The value that the record at `pointer` sets.
pub open spec fn value_at(segments: Seq<SegmentView>, pointer: LogPointer) -> Seq<char> {
    match decode_at(data_of(segments, pointer.file_id), pointer.offset as int) {
        Some(ReadRecord { command: CommandView::Put { value, .. }, .. }) => value,
        _ => Seq::empty(),
    }
}

/// The pairs that the store holds: for each key of the index, the value
/// that its record sets.
pub open spec fn contents_of(segments: Seq<SegmentView>, index: Map<Seq<char>, LogPointer>) -> Map<
    Seq<char>,
    Seq<char>,
> {
    Map::new(
        |key: Seq<char>| index.contains_key(key),
        |key: Seq<char>| value_at(segments, index[key]),
    )
}

/// The bytes of the record at `pointer`.
pub open spec fn record_at(segments: Seq<SegmentView>, pointer: LogPointer) -> Seq<u8> {
    data_of(segments, pointer.file_id).subrange(
        pointer.offset as int,
        pointer.offset + pointer.len,
    )
}

/// A counter of bytes that stops at the largest `u64`.
pub open spec fn clip(n: nat) -> u64 {
    if n > u64::MAX {
        u64::MAX
    } else {
        n as u64
    }
}

/// What the store asks to be done to the files of its directory.
pub enum DiskOpView {
    /// Append `bytes` to the file of segment `file_id`, which is made if it
    /// is not there.
    Append { file_id: u64, bytes: Seq<u8> },
    /// Delete the file of segment `file_id`.
    Delete { file_id: u64 },
}

/// The files after `op`.
pub open spec fn apply_op(files: Map<u64, Seq<u8>>, op: DiskOpView) -> Map<u64, Seq<u8>> {
    match op {
        DiskOpView::Append { file_id, bytes } => files.insert(
            file_id,
            if files.contains_key(file_id) {
                files[file_id] + bytes
            } else {
                bytes
            },
        ),
        DiskOpView::Delete { file_id } => files.remove(file_id),
    }
}

/// The files after `ops`, done in their order.
pub open spec fn apply_ops(files: Map<u64, Seq<u8>>, ops: Seq<DiskOpView>) -> Map<u64, Seq<u8>>
    decreases ops.len(),
{
    if ops.len() == 0 {
        files
    } else {
        apply_op(apply_ops(files, ops.drop_last()), ops.last())
    }
}

/// The state of a store.
pub struct StoreState {
    /// The segments, in the order of their ids; the last is the one that
    /// new records go to.
    pub segments: Seq<SegmentView>,
    /// The index, in the order of its keys.
    pub entries: Seq<EntryView>,
    /// The count of stale bytes.
    pub uncompacted: u64,
    /// What is still to be done to the files.
    pub pending: Seq<DiskOpView>,
    /// The files as they were when nothing was pending.
    pub synced: Map<u64, Seq<u8>>,
}

impl StoreState {
    /// The index as a map.
    pub open spec fn index(self) -> Map<Seq<char>, LogPointer> {
        index_map(self.entries)
    }

    /// The pairs that the store holds.
    pub open spec fn contents(self) -> Map<Seq<char>, Seq<char>> {
        contents_of(self.segments, self.index())
    }

    /// The value that the store holds for `key`, if it holds one.
    pub open spec fn value_of(self, key: Seq<char>) -> Option<Seq<char>> {
        if self.contents().contains_key(key) {
            Some(self.contents()[key])
        } else {
            None
        }
    }

    /// The id of the segment that new records go to.
    pub open spec fn current_id(self) -> u64 {
        self.segments.last().id
    }

    /// The segments as files.
    pub open spec fn files(self) -> Map<u64, Seq<u8>> {
        files_of(self.segments)
    }

    /// Whether the state is consistent.
    ///
    /// The index is what replaying the segments gives, and so is the count
    /// of stale bytes; every byte of the segments is live or stale; every
    /// pointer leads to a record that sets its key; and the pending
    /// operations turn the files as they were into the segments as they are.
    pub open spec fn wf(self) -> bool {
        &&& self.segments.len() > 0
        &&& ascending(self.segments)
        &&& forall|i: int|
            0 <= i < self.segments.len() ==> (#[trigger] self.segments[i]).data.len() <= usize::MAX
        &&& sorted(self.entries)
        &&& index_valid(self.segments, self.index())
        &&& replay_all(self.segments) matches Some(replayed) && {
            &&& replayed.index == self.index()
            &&& clip(replayed.stale) == self.uncompacted
            &&& live_bytes(self.entries) + replayed.stale == total_bytes(self.segments)
        }
        &&& apply_ops(self.synced, self.pending) == self.files()
    }
}

/// The pointer to a record that is appended next and has `len` bytes.
pub open spec fn next_pointer(segments: Seq<SegmentView>, len: nat) -> LogPointer {
    pointer_to(
        segments.last().id,
        segments.last().data.len() as int,
        (segments.last().data.len() + len) as int,
    )
}

/// Replaying a segment to which one record was appended gives what
/// replaying the segment gave, and then that record.
pub proof fn lemma_replay_from_append(
    data: Seq<u8>,
    pos: int,
    file_id: u64,
    state: Replayed,
    record: Seq<u8>,
    command: CommandView,
)
    requires
        0 <= pos <= data.len(),
        replay_from(data, pos, file_id, state) is Some,
        is_record_of(record, command),
    ensures
        replay_from(data + record, pos, file_id, state) == Some(
            apply_record(
                replay_from(data, pos, file_id, state)->0,
                command,
                pointer_to(file_id, data.len() as int, (data.len() + record.len()) as int),
            ),
        ),
    decreases data.len() - pos,
{
    let longer = data + record;
    if pos == data.len() {
        lemma_decode_bounds(record, 0);
        assert(record.subrange(0, record.len() as int) =~= longer.subrange(
            pos,
            pos + record.len(),
        ));
        lemma_decode_relocates(record, 0, longer, pos);
        let next = pos + record.len();
        assert(replay_from(longer, next, file_id, apply_record(state, command, pointer_to(file_id, pos, next)))
            == Some(apply_record(state, command, pointer_to(file_id, pos, next))));
    } else {
        let read = decode_at(data, pos)->0;
        lemma_decode_bounds(data, pos);
        assert(data.subrange(pos, read.next) =~= longer.subrange(pos, pos + (read.next - pos)));
        lemma_decode_relocates(data, pos, longer, pos);
        lemma_replay_from_append(
            data,
            read.next,
            file_id,
            apply_record(state, read.command, pointer_to(file_id, pos, read.next)),
            record,
            command,
        );
    }
}

/// Replaying segments to the last of which one record was appended gives
/// what replaying the segments gave, and then that record.
pub proof fn lemma_replay_all_append(
    segments: Seq<SegmentView>,
    record: Seq<u8>,
    command: CommandView,
)
    requires
        segments.len() > 0,
        replay_all(segments) is Some,
        is_record_of(record, command),
    ensures
        replay_all(with_record(segments, record)) == Some(
            apply_record(
                replay_all(segments)->0,
                command,
                next_pointer(segments, record.len()),
            ),
        ),
{
    let after = with_record(segments, record);
    assert(after.drop_last() =~= segments.drop_last());
    let state = replay_all(segments.drop_last())->0;
    lemma_replay_from_append(
        segments.last().data,
        0,
        segments.last().id,
        state,
        record,
        command,
    );
}

/// A pointer that led to a record still leads to it once another record
/// was appended.
pub proof fn lemma_pointer_survives_append(
    segments: Seq<SegmentView>,
    record: Seq<u8>,
    key: Seq<char>,
    pointer: LogPointer,
)
    requires
        segments.len() > 0,
        ascending(segments),
        points_to_put(segments, key, pointer),
    ensures
        points_to_put(with_record(segments, record), key, pointer),
        value_at(with_record(segments, record), pointer) == value_at(segments, pointer),
        record_at(with_record(segments, record), pointer) == record_at(segments, pointer),
{
    let last = segments.len() - 1;
    let after = with_record(segments, record);
    lemma_with_data(segments, last, segments.last().data + record);
    let before_data = data_of(segments, pointer.file_id);
    let after_data = data_of(after, pointer.file_id);
    let start = pointer.offset as int;
    let read = decode_at(before_data, start)->0;
    lemma_decode_bounds(before_data, start);
    if pointer.file_id == segments[last].id {
        lemma_place_unique(segments, last);
        assert(after_data == before_data + record);
        assert(before_data.subrange(start, read.next) =~= after_data.subrange(
            start,
            start + (read.next - start),
        ));
        lemma_decode_relocates(before_data, start, after_data, start);
        assert(record_at(after, pointer) =~= record_at(segments, pointer));
    } else {
        assert(after_data == before_data);
    }
}

/// The pointer to a record that was just appended leads to that record.
pub proof fn lemma_new_pointer(
    segments: Seq<SegmentView>,
    record: Seq<u8>,
    key: Seq<char>,
    value: Seq<char>,
)
    requires
        segments.len() > 0,
        ascending(segments),
        is_record_of(record, CommandView::Put { key, value }),
        segments.last().data.len() + record.len() <= u64::MAX,
    ensures
        points_to_put(with_record(segments, record), key, next_pointer(segments, record.len())),
        value_at(with_record(segments, record), next_pointer(segments, record.len())) == value,
{
    let last = segments.len() - 1;
    let after = with_record(segments, record);
    let data = segments.last().data;
    lemma_with_data(segments, last, data + record);
    lemma_place_unique(segments, last);
    lemma_decode_bounds(record, 0);
    let longer = data + record;
    assert(record.subrange(0, record.len() as int) =~= longer.subrange(
        data.len() as int,
        (data.len() + record.len()) as int,
    ));
    lemma_decode_relocates(record, 0, longer, data.len() as int);
}

/// Replacing an entry changes the live bytes by the difference of the two
/// records' lengths.
pub proof fn lemma_live_update(entries: Seq<EntryView>, at: int, entry: EntryView)
    requires
        0 <= at < entries.len(),
    ensures
        live_bytes(entries.update(at, entry)) + entries[at].pointer.len == live_bytes(entries)
            + entry.pointer.len,
    decreases entries.len(),
{
    let after = entries.update(at, entry);
    if at == entries.len() - 1 {
        assert(after.drop_last() =~= entries.drop_last());
    } else {
        assert(after.drop_last() =~= entries.drop_last().update(at, entry));
        lemma_live_update(entries.drop_last(), at, entry);
    }
}

/// A new entry adds the length of its record to the live bytes.
pub proof fn lemma_live_insert(entries: Seq<EntryView>, at: int, entry: EntryView)
    requires
        0 <= at <= entries.len(),
    ensures
        live_bytes(entries.insert(at, entry)) == live_bytes(entries) + entry.pointer.len,
    decreases entries.len(),
{
    let after = entries.insert(at, entry);
    if at == entries.len() {
        assert(after.drop_last() =~= entries);
    } else {
        assert(after.drop_last() =~= entries.drop_last().insert(at, entry));
        assert(after.last() == entries.last());
        lemma_live_insert(entries.drop_last(), at, entry);
    }
}

/// An entry that leaves takes the length of its record from the live bytes.
pub proof fn lemma_live_remove(entries: Seq<EntryView>, at: int)
    requires
        0 <= at < entries.len(),
    ensures
        live_bytes(entries.remove(at)) + entries[at].pointer.len == live_bytes(entries),
    decreases entries.len(),
{
    let after = entries.remove(at);
    if at == entries.len() - 1 {
        assert(after =~= entries.drop_last());
    } else {
        assert(after.drop_last() =~= entries.drop_last().remove(at));
        assert(after.last() == entries.last());
        lemma_live_remove(entries.drop_last(), at);
    }
}

/// Setting a key trades the bytes of its old record for those of the new.
pub proof fn lemma_live_put(entries: Seq<EntryView>, key: Seq<char>, pointer: LogPointer)
    requires
        sorted(entries),
    ensures
        live_bytes(put_entry(entries, key, pointer)) + held_bytes(index_map(entries), key)
            == live_bytes(entries) + pointer.len,
{
    if holds(entries, key) {
        lemma_live_update(entries, position(entries, key), EntryView { key, pointer });
    } else {
        lemma_slot_parts(entries, key);
        lemma_live_insert(entries, slot(entries, key), EntryView { key, pointer });
    }
}

/// Dropping a key takes the bytes of its record away.
pub proof fn lemma_live_drop(entries: Seq<EntryView>, key: Seq<char>)
    ensures
        live_bytes(drop_entry(entries, key)) + held_bytes(index_map(entries), key) == live_bytes(
            entries,
        ),
{
    if holds(entries, key) {
        lemma_live_remove(entries, position(entries, key));
    }
}

/// The state with `record` appended to the current segment, and the
/// matching operation on the files pending.
pub open spec fn appended(v: StoreState, record: Seq<u8>) -> StoreState {
    StoreState {
        segments: with_record(v.segments, record),
        pending: v.pending.push(DiskOpView::Append { file_id: v.current_id(), bytes: record }),
        ..v
    }
}

/// The state after `record`, which sets `key`, was appended and indexed.
pub open spec fn put_applied(v: StoreState, key: Seq<char>, record: Seq<u8>) -> StoreState {
    StoreState {
        entries: put_entry(v.entries, key, next_pointer(v.segments, record.len())),
        uncompacted: clip(v.uncompacted as nat + held_bytes(v.index(), key)),
        ..appended(v, record)
    }
}

/// The state after `record`, which removes `key`, was appended and the key
/// left the index.
pub open spec fn remove_applied(v: StoreState, key: Seq<char>, record: Seq<u8>) -> StoreState {
    StoreState {
        entries: drop_entry(v.entries, key),
        uncompacted: clip(v.uncompacted as nat + held_bytes(v.index(), key) + record.len()),
        ..appended(v, record)
    }
}

/// What holds of a consistent state once a record was appended: the old
/// pointers still lead to their records, and the files follow.
proof fn lemma_appended(v: StoreState, record: Seq<u8>)
    requires
        v.wf(),
        v.segments.last().data.len() + record.len() <= usize::MAX,
    ensures
        appended(v, record).segments.len() == v.segments.len(),
        ascending(appended(v, record).segments),
        forall|i: int|
            0 <= i < v.segments.len() ==> (#[trigger] appended(v, record).segments[i]).data.len()
                <= usize::MAX,
        apply_ops(v.synced, appended(v, record).pending) == appended(v, record).files(),
        total_bytes(appended(v, record).segments) == total_bytes(v.segments) + record.len(),
        forall|key: Seq<char>| #[trigger]
            v.index().contains_key(key) ==> {
                &&& points_to_put(appended(v, record).segments, key, v.index()[key])
                &&& value_at(appended(v, record).segments, v.index()[key]) == value_at(
                    v.segments,
                    v.index()[key],
                )
            },
{
    let after = appended(v, record);
    let last = v.segments.len() - 1;
    lemma_with_data(v.segments, last, v.segments.last().data + record);
    lemma_place_unique(v.segments, last);
    lemma_total_with_record(v.segments, record);
    assert(after.pending.drop_last() =~= v.pending);
    assert(after.files() =~= apply_op(v.files(), after.pending.last()));
    assert forall|key: Seq<char>| #[trigger] v.index().contains_key(key) implies {
        &&& points_to_put(after.segments, key, v.index()[key])
        &&& value_at(after.segments, v.index()[key]) == value_at(v.segments, v.index()[key])
    } by {
        lemma_pointer_survives_append(v.segments, record, key, v.index()[key]);
    }
}

/// Setting a key keeps the state consistent, and gives the key its value.
pub proof fn lemma_put_applied(v: StoreState, key: Seq<char>, value: Seq<char>, record: Seq<u8>)
    requires
        v.wf(),
        is_record_of(record, CommandView::Put { key, value }),
        v.segments.last().data.len() + record.len() <= usize::MAX,
    ensures
        put_applied(v, key, record).wf(),
        put_applied(v, key, record).contents() == v.contents().insert(key, value),
{
    let after = put_applied(v, key, record);
    let pointer = next_pointer(v.segments, record.len());
    lemma_appended(v, record);
    lemma_put_entry_map(v.entries, key, pointer);
    lemma_live_put(v.entries, key, pointer);
    lemma_new_pointer(v.segments, record, key, value);
    lemma_replay_all_append(v.segments, record, CommandView::Put { key, value });
    assert(after.index() == v.index().insert(key, pointer));
    assert(after.contents() =~= v.contents().insert(key, value));
}

/// Removing a key keeps the state consistent, and takes the key away.
pub proof fn lemma_remove_applied(v: StoreState, key: Seq<char>, record: Seq<u8>)
    requires
        v.wf(),
        is_record_of(record, CommandView::Remove { key }),
        v.segments.last().data.len() + record.len() <= usize::MAX,
    ensures
        remove_applied(v, key, record).wf(),
        remove_applied(v, key, record).contents() == v.contents().remove(key),
{
    let after = remove_applied(v, key, record);
    lemma_appended(v, record);
    lemma_drop_entry(v.entries, key);
    lemma_live_drop(v.entries, key);
    lemma_replay_all_append(v.segments, record, CommandView::Remove { key });
    assert(after.index() == v.index().remove(key));
    assert(after.contents() =~= v.contents().remove(key));
}

/// Where the first segments cannot be replayed, all of them cannot.
pub proof fn lemma_replay_front(segments: Seq<SegmentView>, n: int)
    requires
        0 <= n <= segments.len(),
        replay_all(segments) is Some,
    ensures
        replay_all(segments.take(n)) is Some,
    decreases segments.len() - n,
{
    if n < segments.len() {
        lemma_replay_front(segments, n + 1);
        assert(segments.take(n + 1).drop_last() =~= segments.take(n));
    } else {
        assert(segments.take(n) =~= segments);
    }
}

/// Whether the count of stale bytes calls for compaction, and two more
/// segment ids are to be had.
pub open spec fn compaction_due(v: StoreState) -> bool {
    v.uncompacted >= COMPACTION_THRESHOLD && v.current_id() <= u64::MAX - 2
}

/// Whether a record of `len` bytes fits behind the current segment's bytes.
pub open spec fn has_room(v: StoreState, len: nat) -> bool {
    v.segments.last().data.len() + len <= usize::MAX
}

} // verus!

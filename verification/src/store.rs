//! The store: an append-only log in numbered segments, an index from each
//! live key to its latest record, and compaction.
//!
//! The store keeps the bytes of its segments in memory and never touches a
//! file. What has to happen to the files of its directory it hands out as a
//! list of operations, which the caller carries out in their order.
//!
//! The segments stand in a vector in the order of their ids: that is the
//! order in which they are replayed, and the last is the one that new
//! records go to.

use crate::command::{Command, CommandView, LogPointer};
use crate::compaction::{
    after_put, after_remove, compacted, compacted_data, compacted_entries, entries_valid,
    lemma_compacted, lemma_compacted_len, lemma_compacted_step, lemma_entries_valid,
    lemma_entries_valid_front, lemma_record_at, removals, settled,
};
use crate::engine::KvsEngine;
use crate::error::KvsError;
use crate::index::{index_map, lemma_drop_entry, lemma_put_entry_map, lookup, Index};
use crate::log::{
    appended, apply_op, apply_ops, apply_record, clip, has_room, index_valid, lemma_live_drop,
    lemma_live_put, lemma_put_applied, lemma_remove_applied, lemma_replay_front, live_bytes,
    next_pointer, nothing_replayed, pointer_to, points_to_put, put_applied, record_at,
    remove_applied, replay_all, replay_from, DiskOpView, Replayed, StoreState,
    COMPACTION_THRESHOLD,
};
use crate::record::{
    append_bytes, decode, encode_checked, faithful, is_put_record, is_record_of,
    lemma_decode_bounds, read_value, value_set_by,
};
use crate::segments::{
    ascending, data_of, files_of, has_segment, lemma_place_unique, lemma_placed, normalized,
    parts_segments, placed, segment_place, total_bytes, with_record, SegmentView,
};
use vstd::pervasive::VecAdditionalExecFns;
use vstd::prelude::*;
use vstd::slice::{slice_subrange, slice_to_vec};

verus! {

/// One segment of the log: its id and the bytes of its records.
#[derive(Debug)]
pub struct Segment {
    /// The id, which is the number in the name of the segment's file.
    pub id: u64,
    /// The bytes of the segment's records.
    pub data: Vec<u8>,
}

impl View for Segment {
    type V = SegmentView;

    open spec fn view(&self) -> SegmentView {
        SegmentView { id: self.id, data: self.data@ }
    }
}

/// The segments of a vector, each by its view.
pub open spec fn segments_view(segments: Seq<Segment>) -> Seq<SegmentView> {
    Seq::new(segments.len(), |i: int| segments[i]@)
}

/// What the store asks to be done to the files of its directory.
#[derive(Debug)]
pub enum DiskOp {
    /// Append `bytes` to the file of segment `file_id`, which is made if it
    /// is not there, and flush.
    Append {
        /// The id of the segment.
        file_id: u64,
        /// The bytes to append.
        bytes: Vec<u8>,
    },
    /// Delete the file of segment `file_id`.
    Delete {
        /// The id of the segment.
        file_id: u64,
    },
}

impl View for DiskOp {
    type V = DiskOpView;

    open spec fn view(&self) -> DiskOpView {
        match self {
            DiskOp::Append { file_id, bytes } => DiskOpView::Append {
                file_id: *file_id,
                bytes: bytes@,
            },
            DiskOp::Delete { file_id } => DiskOpView::Delete { file_id: *file_id },
        }
    }
}

/// The operations of a vector, each by its view.
pub open spec fn ops_view(ops: Seq<DiskOp>) -> Seq<DiskOpView> {
    Seq::new(ops.len(), |i: int| ops[i]@)
}

/// The views of a vector with one more operation.
proof fn lemma_ops_push(ops: Seq<DiskOp>, op: DiskOp)
    ensures
        ops_view(ops.push(op)) == ops_view(ops).push(op@),
{
    assert(ops_view(ops.push(op)) =~= ops_view(ops).push(op@));
}

/// The place of the segment with the id `id`.
fn find_segment(segments: &Vec<Segment>, id: u64) -> (place: Option<usize>)
    ensures
        match place {
            Some(at) => at < segments@.len() && segments@[at as int].id == id,
            None => !has_segment(segments_view(segments@), id),
        },
{
    let mut at = segments.len();
    while at > 0
        invariant
            at <= segments@.len(),
            forall|i: int| at <= i < segments@.len() ==> segments@[i].id != id,
        decreases at,
    {
        at -= 1;
        if segments[at].id == id {
            return Some(at);
        }
    }
    proof {
        let view = segments_view(segments@);
        if has_segment(view, id) {
            let i = segment_place(view, id);
            assert(view[i].id == segments@[i].id);
        }
    }
    None
}

/// The bytes of the record that `pointer` leads to.
fn record_bytes<'a>(
    segments: &'a Vec<Segment>,
    pointer: LogPointer,
    Ghost(key): Ghost<Seq<char>>,
) -> (record: &'a [u8])
    requires
        ascending(segments_view(segments@)),
        points_to_put(segments_view(segments@), key, pointer),
    ensures
        record@ == record_at(segments_view(segments@), pointer),
{
    let ghost view = segments_view(segments@);
    match find_segment(segments, pointer.file_id) {
        Some(at) => {
            let data = segments[at].data.as_slice();
            let size = data.len();
            proof {
                assert(view[at as int] == segments@[at as int]@);
                lemma_place_unique(view, at as int);
                lemma_record_at(view, key, pointer);
                assert(data_of(view, pointer.file_id) == data@);
                assert(pointer.offset + pointer.len <= size);
            }
            let start = pointer.offset as usize;
            let end = (pointer.offset + pointer.len) as usize;
            slice_subrange(data, start, end)
        },
        None => vstd::pervasive::unreached(),
    }
}

/// Puts `segment` in its place among the segments of `table`, which stand in
/// the order of their ids; it takes the place of a segment with the same id.
fn place_segment(table: &mut Vec<Segment>, segment: Segment)
    requires
        ascending(segments_view(old(table)@)),
    ensures
        ascending(segments_view(final(table)@)),
        segments_view(final(table)@) == placed(segments_view(old(table)@), segment@),
{
    let ghost before = segments_view(table@);
    let mut at = table.len();
    while at > 0 && table[at - 1].id > segment.id
        invariant
            at <= table@.len(),
            table@ == old(table)@,
            forall|i: int| at <= i < table@.len() ==> table@[i].id > segment.id,
        decreases at,
    {
        at -= 1;
    }
    if at > 0 && table[at - 1].id == segment.id {
        proof {
            assert(before[at - 1].id == segment.id);
            lemma_place_unique(before, at - 1);
            lemma_placed(before, segment@, at - 1);
        }
        table.set(at - 1, segment);
        assert(segments_view(table@) =~= before.update(at - 1, segment@));
    } else {
        proof {
            assert forall|i: int| 0 <= i < at implies (#[trigger] before[i]).id < segment.id by {
                if i < at - 1 {
                    assert(before[i].id < before[at - 1].id);
                }
                assert(before[at - 1] == table@[at - 1]@);
            }
            assert forall|i: int| at <= i < before.len() implies (#[trigger] before[i]).id
                >= segment.id by {
                assert(before[i] == table@[i]@);
            }
            assert(parts_segments(before, segment.id, at as int));
            if has_segment(before, segment.id) {
                let i = segment_place(before, segment.id);
                assert(before[i] == table@[i]@);
            }
            lemma_placed(before, segment@, at as int);
        }
        table.insert(at, segment);
        assert(segments_view(table@) =~= before.insert(at as int, segment@));
    }
}

/// Puts the segments in the order of their ids; of two with the same id,
/// the later one stays.
fn normalize(input: Vec<Segment>) -> (table: Vec<Segment>)
    ensures
        ascending(segments_view(table@)),
        segments_view(table@) == normalized(segments_view(input@)),
{
    let ghost given = segments_view(input@);
    let mut input = input;
    let mut table: Vec<Segment> = Vec::new();
    let mut done: usize = 0;
    assert(given.take(0) =~= Seq::<SegmentView>::empty());
    while done < input.len()
        invariant
            done <= input@.len(),
            input@.len() == given.len(),
            forall|i: int| done <= i < input@.len() ==> input@[i]@ == given[i],
            ascending(segments_view(table@)),
            segments_view(table@) == normalized(given.take(done as int)),
        decreases input@.len() - done,
    {
        let mut segment = Segment { id: 0, data: Vec::new() };
        input.set_and_swap(done, &mut segment);
        proof {
            let more = given.take(done + 1);
            assert(more.drop_last() =~= given.take(done as int));
            assert(more.last() == given[done as int]);
        }
        place_segment(&mut table, segment);
        done += 1;
    }
    assert(given.take(done as int) =~= given);
    table
}

/// Replays the records of one segment into the index, and returns the new
/// count of stale bytes.
///
/// `data` holds the bytes of the segment `file_id`, which is one of
/// `segments`; `state` is what replaying gave before this segment.
fn load_index(
    data: &[u8],
    index: &mut Index,
    file_id: u64,
    stale: u64,
    Ghost(segments): Ghost<Seq<SegmentView>>,
    Ghost(state): Ghost<Replayed>,
) -> (result: Result<u64, KvsError>)
    requires
        old(index).wf(),
        ascending(segments),
        has_segment(segments, file_id),
        data_of(segments, file_id) == data@,
        state.index == index_map(old(index).entries()),
        clip(state.stale) == stale,
        index_valid(segments, state.index),
    ensures
        match replay_from(data@, 0, file_id, state) {
            Some(replayed) => {
                &&& result == Ok::<u64, KvsError>(clip(replayed.stale))
                &&& final(index).wf()
                &&& index_map(final(index).entries()) == replayed.index
                &&& index_valid(segments, replayed.index)
                &&& live_bytes(final(index).entries()) + replayed.stale == live_bytes(
                    old(index).entries(),
                ) + state.stale + data@.len()
            },
            None => result matches Err(KvsError::Serde(_)),
        },
{
    let mut stale = stale;
    let mut pos: usize = 0;
    let ghost mut now = state;
    while pos < data.len()
        invariant
            pos <= data@.len(),
            index.wf(),
            ascending(segments),
            has_segment(segments, file_id),
            data_of(segments, file_id) == data@,
            now.index == index_map(index.entries()),
            clip(now.stale) == stale,
            index_valid(segments, now.index),
            replay_from(data@, 0, file_id, state) == replay_from(data@, pos as int, file_id, now),
            live_bytes(index.entries()) + now.stale == live_bytes(old(index).entries())
                + state.stale + pos,
        decreases data@.len() - pos,
    {
        let (command, next) = match decode(data, pos) {
            Ok(read) => read,
            Err(e) => {
                return Err(e);
            },
        };
        proof {
            lemma_decode_bounds(data@, pos as int);
            index.lemma_wf_sorted();
        }
        let ghost entries = index.entries();
        let pointer = LogPointer { file_id, offset: pos as u64, len: (next - pos) as u64 };
        assert(pointer == pointer_to(file_id, pos as int, next as int));
        match command {
            Command::Put { key, value: _ } => {
                proof {
                    lemma_put_entry_map(entries, key@, pointer);
                    lemma_live_put(entries, key@, pointer);
                }
                let replaced = index.insert(key, pointer);
                if let Some(before) = replaced {
                    stale = stale.saturating_add(before.len);
                }
            },
            Command::Remove { key } => {
                proof {
                    lemma_drop_entry(entries, key@);
                    lemma_live_drop(entries, key@);
                }
                let removed = index.remove(key.as_str());
                stale = stale.saturating_add(pointer.len);
                if let Some(before) = removed {
                    stale = stale.saturating_add(before.len);
                }
            },
        }
        proof {
            now = apply_record(now, command@, pointer);
        }
        pos = next;
    }
    Ok(stale)
}

/// The parts of a store, while an operation works on them.
struct Parts {
    segments: Vec<Segment>,
    index: Index,
    uncompacted: u64,
    pending: Vec<DiskOp>,
    synced: Ghost<Map<u64, Seq<u8>>>,
}

impl Parts {
    spec fn view(&self) -> StoreState {
        StoreState {
            segments: segments_view(self.segments@),
            entries: self.index.entries(),
            uncompacted: self.uncompacted,
            pending: ops_view(self.pending@),
            synced: self.synced@,
        }
    }

    spec fn wf(&self) -> bool {
        &&& self.index.wf()
        &&& self.view().wf()
    }

    /// A store with one empty segment, which is to be made yet.
    fn new() -> (parts: Parts)
        ensures
            parts.wf(),
            parts.view() == fresh_store(),
    {
        let mut segments: Vec<Segment> = Vec::new();
        segments.push(Segment { id: 0, data: Vec::new() });
        let mut pending: Vec<DiskOp> = Vec::new();
        pending.push(DiskOp::Append { file_id: 0, bytes: Vec::new() });
        let parts = Parts {
            segments,
            index: Index::new(),
            uncompacted: 0,
            pending,
            synced: Ghost(Map::empty()),
        };
        proof {
            lemma_fresh_store();
            assert(parts.view().segments =~= fresh_store().segments);
            assert(parts.view().pending =~= fresh_store().pending);
        }
        parts
    }

    /// Appends `record` to the current segment.
    fn append(&mut self, record: Vec<u8>) -> (pointer: LogPointer)
        requires
            old(self).wf(),
        ensures
            has_room(old(self).view(), record@.len()),
            final(self).view() == appended(old(self).view(), record@),
            final(self).index == old(self).index,
            pointer == next_pointer(old(self).view().segments, record@.len()),
            pointer.len == record@.len(),
    {
        let ghost before = self.view();
        let mut current = match self.segments.pop() {
            Some(segment) => segment,
            None => vstd::pervasive::unreached(),
        };
        assert(current@ == before.segments.last());
        let offset = current.data.len();
        append_bytes(&mut current.data, record.as_slice());
        let end = current.data.len();
        assert(end == offset + record@.len());
        let len = record.len();
        let pointer = LogPointer { file_id: current.id, offset: offset as u64, len: len as u64 };
        self.pending.push(DiskOp::Append { file_id: current.id, bytes: record });
        self.segments.push(current);
        proof {
            assert(self.view().segments =~= with_record(before.segments, record@));
            assert(self.view().pending =~= appended(before, record@).pending);
        }
        pointer
    }

    /// The value that the store holds for `key`.
    fn get(&self, key: &str) -> (result: Result<Option<String>, KvsError>)
        requires
            self.wf(),
        ensures
            result matches Ok(found) && match found {
                Some(value) => self.view().value_of(key@) == Some(value@),
                None => self.view().value_of(key@) is None,
            },
    {
        let ghost v = self.view();
        match self.index.get(key) {
            None => Ok(None),
            Some(pointer) => {
                proof {
                    assert(v.index().contains_key(key@));
                    assert(points_to_put(v.segments, key@, v.index()[key@]));
                    lemma_record_at(v.segments, key@, pointer);
                }
                let record = record_bytes(&self.segments, pointer, Ghost(key@));
                match read_value(record) {
                    Ok(value) => Ok(Some(value)),
                    Err(e) => Err(e),
                }
            },
        }
    }

    /// Appends `record`, which sets `key`, and points the index to it; then
    /// compacts if that is due.
    fn put(&mut self, key: String, record: Vec<u8>, Ghost(value): Ghost<Seq<char>>)
        requires
            old(self).wf(),
            is_record_of(record@, CommandView::Put { key: key@, value }),
        ensures
            final(self).wf(),
            final(self).view() == settled(put_applied(old(self).view(), key@, record@)),
            final(self).view().contents() == old(self).view().contents().insert(key@, value),
    {
        let ghost before = self.view();
        let pointer = self.append(record);
        let replaced = self.index.insert(key, pointer);
        if let Some(stale) = replaced {
            self.uncompacted = self.uncompacted.saturating_add(stale.len);
        }
        proof {
            lemma_put_applied(before, key@, value, record@);
            assert(self.view() == put_applied(before, key@, record@));
        }
        self.settle();
    }

    /// Appends `record`, which removes `key`, and takes the key out of the
    /// index; then compacts if that is due.
    fn remove(&mut self, key: &str, record: Vec<u8>)
        requires
            old(self).wf(),
            is_record_of(record@, CommandView::Remove { key: key@ }),
        ensures
            final(self).wf(),
            final(self).view() == settled(remove_applied(old(self).view(), key@, record@)),
            final(self).view().contents() == old(self).view().contents().remove(key@),
    {
        let ghost before = self.view();
        let pointer = self.append(record);
        let removed = self.index.remove(key);
        self.uncompacted = self.uncompacted.saturating_add(pointer.len);
        if let Some(stale) = removed {
            self.uncompacted = self.uncompacted.saturating_add(stale.len);
        }
        proof {
            lemma_remove_applied(before, key@, record@);
            assert(self.view() == remove_applied(before, key@, record@));
        }
        self.settle();
    }

    /// The id of the segment that new records go to.
    fn current_id(&self) -> (id: u64)
        requires
            self.wf(),
        ensures
            id == self.view().current_id(),
    {
        self.segments[self.segments.len() - 1].id
    }

    /// Hands out the pending operations, and takes the files for what the
    /// segments hold.
    fn drain(&mut self) -> (ops: Vec<DiskOp>)
        requires
            old(self).wf(),
        ensures
            final(self).wf(),
            ops_view(ops@) == old(self).view().pending,
            final(self).view() == (StoreState {
                pending: Seq::empty(),
                synced: old(self).view().files(),
                ..old(self).view()
            }),
    {
        let ghost before = self.view();
        let mut ops: Vec<DiskOp> = Vec::new();
        core::mem::swap(&mut ops, &mut self.pending);
        self.synced = Ghost(before.files());
        proof {
            assert(self.view().pending =~= Seq::<DiskOpView>::empty());
        }
        ops
    }

    /// Compacts the log if the count of stale bytes calls for it.
    fn settle(&mut self)
        requires
            old(self).wf(),
        ensures
            final(self).wf(),
            final(self).view() == settled(old(self).view()),
            final(self).view().contents() == old(self).view().contents(),
    {
        if self.uncompacted >= COMPACTION_THRESHOLD && self.current_id() <= u64::MAX - 2 {
            self.compact();
        }
    }

    /// Writes the live records to a new segment, makes a second new segment
    /// for the records to come, and drops the old segments.
    fn compact(&mut self)
        requires
            old(self).wf(),
            old(self).view().current_id() <= u64::MAX - 2,
        ensures
            final(self).wf(),
            final(self).view() == compacted(old(self).view()),
            final(self).view().contents() == old(self).view().contents(),
            live_bytes(old(self).view().entries) <= usize::MAX,
    {
        let ghost before = self.view();
        let ghost entries = before.entries;
        let target = self.current_id() + 1;
        let fresh = target + 1;
        proof {
            lemma_entries_valid(before);
        }
        let mut data: Vec<u8> = Vec::new();
        let count = self.index.len();
        let mut at: usize = 0;
        while at < count
            invariant
                at <= count,
                count == entries.len(),
                self.index.wf(),
                self.index.entries().len() == count,
                self.pending == old(self).pending,
                self.synced == old(self).synced,
                ops_view(self.pending@) == before.pending,
                segments_view(self.segments@) == before.segments,
                ascending(before.segments),
                entries_valid(before.segments, entries),
                data@ == compacted_data(before.segments, entries.take(at as int)),
                forall|i: int|
                    0 <= i < at ==> self.index.entries()[i] == compacted_entries(entries, target)[i],
                forall|i: int| at <= i < count ==> self.index.entries()[i] == entries[i],
            decreases count - at,
        {
            let pointer = self.index.pointer_at(at);
            let record = record_bytes(&self.segments, pointer, Ghost(entries[at as int].key));
            let offset = data.len();
            proof {
                lemma_entries_valid_front(before.segments, entries, at as int);
                lemma_compacted_len(before.segments, entries.take(at as int));
                lemma_compacted_step(before.segments, entries, at as int);
            }
            append_bytes(&mut data, record);
            self.index.set_pointer(
                at,
                LogPointer { file_id: target, offset: offset as u64, len: pointer.len },
            );
            at += 1;
        }
        proof {
            assert(entries.take(count as int) =~= entries);
            lemma_compacted_len(before.segments, entries);
            assert(self.index.entries() =~= compacted_entries(entries, target));
        }
        let total = data.len();
        assert(live_bytes(entries) == total);
        let ghost steps = seq![
            DiskOpView::Append { file_id: target, bytes: data@ },
            DiskOpView::Append { file_id: fresh, bytes: Seq::empty() },
        ];
        let written = DiskOp::Append { file_id: target, bytes: slice_to_vec(data.as_slice()) };
        let made = DiskOp::Append { file_id: fresh, bytes: Vec::new() };
        proof {
            lemma_ops_push(self.pending@, written);
            lemma_ops_push(self.pending@.push(written), made);
            assert(before.pending.push(written@).push(made@) =~= before.pending + steps);
        }
        self.pending.push(written);
        self.pending.push(made);
        let ghost index = self.index;
        assert(removals(before.segments).take(0) =~= Seq::<DiskOpView>::empty());
        assert(before.pending + steps + Seq::<DiskOpView>::empty() =~= before.pending + steps);
        let mut k: usize = 0;
        while k < self.segments.len()
            invariant
                k <= self.segments@.len(),
                self.index == index,
                self.synced == old(self).synced,
                segments_view(self.segments@) == before.segments,
                ops_view(self.pending@) == before.pending + steps + removals(before.segments).take(
                    k as int,
                ),
            decreases self.segments@.len() - k,
        {
            let dropped = DiskOp::Delete { file_id: self.segments[k].id };
            proof {
                let done = removals(before.segments).take(k as int);
                let more = removals(before.segments).take(k + 1);
                assert(before.segments[k as int].id == self.segments@[k as int].id);
                assert(more =~= done.push(dropped@));
                lemma_ops_push(self.pending@, dropped);
                assert((before.pending + steps + done).push(dropped@) =~= before.pending + steps
                    + more);
            }
            self.pending.push(dropped);
            k += 1;
        }
        proof {
            assert(removals(before.segments).take(k as int) =~= removals(before.segments));
        }
        let mut segments: Vec<Segment> = Vec::new();
        segments.push(Segment { id: target, data });
        segments.push(Segment { id: fresh, data: Vec::new() });
        self.segments = segments;
        self.uncompacted = 0;
        proof {
            lemma_compacted(before);
            assert(self.view().segments =~= compacted(before).segments);
            assert(self.view().entries == compacted(before).entries);
            assert(self.view().pending == compacted(before).pending);
            assert(self.view().synced == compacted(before).synced);
            assert(self.view() == compacted(before));
        }
    }
}

/// Whether `v` is the state of a store that was just opened on the
/// segments `disk`.
///
/// The store holds the segments in the order of their ids, takes them for
/// what the files hold, and has nothing pending; on no segments at all it is
/// the fresh store. Being consistent, its index and its count of stale
/// bytes are what replaying the segments gives.
pub open spec fn opened_on(disk: Seq<SegmentView>, v: StoreState) -> bool {
    let table = normalized(disk);
    &&& v.wf()
    &&& v.synced == files_of(table)
    &&& if table.len() == 0 {
        v.segments == fresh_store().segments && v.pending == fresh_store().pending
    } else {
        v.segments == table && v.pending == Seq::<DiskOpView>::empty()
    }
}

/// The store: string keys with string values, kept in a log of segments.
pub struct KvStore {
    parts: Parts,
}

impl View for KvStore {
    type V = StoreState;

    closed spec fn view(&self) -> StoreState {
        self.parts.view()
    }
}

impl KvStore {
    #[verifier::type_invariant]
    spec fn inv(self) -> bool {
        self.parts.wf()
    }

    /// Takes the parts out to work on them, and leaves a fresh store in
    /// their place until they are put back.
    fn take(&mut self) -> (parts: Parts)
        ensures
            parts.wf(),
            parts.view() == old(self)@,
    {
        let mut taken = KvStore { parts: Parts::new() };
        core::mem::swap(self, &mut taken);
        proof {
            use_type_invariant(&taken);
        }
        let KvStore { parts } = taken;
        parts
    }

    /// A store on an empty directory: one empty segment with the id 0,
    /// whose file is to be made yet.
    pub fn new() -> (store: KvStore)
        ensures
            store@ == fresh_store(),
            store@.wf(),
    {
        KvStore { parts: Parts::new() }
    }

    /// Opens a store on the segments that a directory holds.
    ///
    /// The segments are put in the order of their ids and replayed in that
    /// order. The segment with the largest id takes the new records; where
    /// there is no segment, one with the id 0 is made.
    ///
    /// Fails with `Serde` exactly where the bytes of some segment are no
    /// sequence of well-formed records.
    pub fn open(segments: Vec<Segment>) -> (result: Result<KvStore, KvsError>)
        ensures
            match result {
                Ok(store) => replay_all(normalized(segments_view(segments@))) is Some && opened_on(
                    segments_view(segments@),
                    store@,
                ),
                Err(e) => replay_all(normalized(segments_view(segments@))) is None && e is Serde,
            },
    {
        let table = normalize(segments);
        let ghost disk = segments_view(table@);
        if table.len() == 0 {
            proof {
                lemma_fresh_store();
                assert(files_of(disk) =~= Map::<u64, Seq<u8>>::empty());
            }
            return Ok(KvStore::new());
        }
        let mut index = Index::new();
        let mut stale: u64 = 0;
        let mut done: usize = 0;
        let ghost mut state = nothing_replayed();
        proof {
            assert(disk.take(0) =~= Seq::<SegmentView>::empty());
            assert(index_map(index.entries()) =~= Map::<Seq<char>, LogPointer>::empty());
        }
        while done < table.len()
            invariant
                done <= table@.len(),
                disk == segments_view(table@),
                disk == normalized(segments_view(segments@)),
                ascending(disk),
                index.wf(),
                replay_all(disk.take(done as int)) == Some(state),
                state.index == index_map(index.entries()),
                clip(state.stale) == stale,
                index_valid(disk, state.index),
                live_bytes(index.entries()) + state.stale == total_bytes(disk.take(done as int)),
                forall|i: int| 0 <= i < done ==> (#[trigger] disk[i]).data.len() <= usize::MAX,
            decreases table@.len() - done,
        {
            let data = table[done].data.as_slice();
            let size = data.len();
            proof {
                assert(disk[done as int] == table@[done as int]@);
                assert(disk[done as int].data.len() == size);
                lemma_place_unique(disk, done as int);
                let more = disk.take(done + 1);
                assert(more.drop_last() =~= disk.take(done as int));
                assert(more.last() == disk[done as int]);
                if replay_all(disk) is Some {
                    lemma_replay_front(disk, done + 1);
                }
            }
            let loaded = load_index(
                data,
                &mut index,
                table[done].id,
                stale,
                Ghost(disk),
                Ghost(state),
            );
            stale = match loaded {
                Ok(count) => count,
                Err(e) => {
                    proof {
                        assert(replay_all(disk.take(done + 1)) is None);
                    }
                    return Err(e);
                },
            };
            proof {
                state = replay_all(disk.take(done + 1))->0;
            }
            done += 1;
        }
        let pending: Vec<DiskOp> = Vec::new();
        proof {
            assert(disk.take(done as int) =~= disk);
            index.lemma_wf_sorted();
            assert(ops_view(pending@) =~= Seq::<DiskOpView>::empty());
        }
        let parts = Parts {
            segments: table,
            index,
            uncompacted: stale,
            pending,
            synced: Ghost(files_of(disk)),
        };
        assert(parts.view().wf());
        Ok(KvStore { parts })
    }

    /// Appends `record`, which sets `key`, and points the index to it; the
    /// bytes of the record that it supersedes count as stale; then the log
    /// is compacted if the count has reached the threshold.
    ///
    /// `record` is a record that was read back: `set` hands its records
    /// here.
    pub fn put_record(&mut self, key: String, record: Vec<u8>)
        requires
            is_put_record(record@, key@),
        ensures
            final(self)@.wf(),
            final(self)@ == settled(put_applied(old(self)@, key@, record@)),
            final(self)@.contents() == old(self)@.contents().insert(key@, value_set_by(record@)),
    {
        let mut parts = self.take();
        parts.put(key, record, Ghost(value_set_by(record@)));
        *self = KvStore { parts };
    }

    /// Appends `record`, which removes `key`, and takes the key out of the
    /// index; the bytes of the removal and of the record that it
    /// supersedes count as stale; then the log is compacted if the count
    /// has reached the threshold.
    ///
    /// `record` is a record that was read back: `remove` hands its records
    /// here, for keys that the store holds.
    pub fn remove_record(&mut self, key: String, record: Vec<u8>)
        requires
            is_record_of(record@, CommandView::Remove { key: key@ }),
        ensures
            final(self)@.wf(),
            final(self)@ == settled(remove_applied(old(self)@, key@, record@)),
            final(self)@.contents() == old(self)@.contents().remove(key@),
    {
        let mut parts = self.take();
        parts.remove(key.as_str(), record);
        *self = KvStore { parts };
    }

    /// Compacts the log now, whatever the count of stale bytes: the live
    /// records go to one new segment, a second new segment takes the records
    /// to come, and the old segments go. What the store holds stays.
    ///
    /// Returns `false`, and leaves the store as it is, where the ids of
    /// segments are used up.
    pub fn compact(&mut self) -> (done: bool)
        ensures
            final(self)@.wf(),
            done == (old(self)@.current_id() <= u64::MAX - 2),
            done ==> final(self)@ == compacted(old(self)@),
            !done ==> final(self)@ == old(self)@,
            final(self)@.contents() == old(self)@.contents(),
    {
        let mut parts = self.take();
        let done = parts.current_id() <= u64::MAX - 2;
        if done {
            parts.compact();
        }
        *self = KvStore { parts };
        done
    }

    /// Hands out the operations on the files that are pending, in the order
    /// in which they are to be done. Done to the files as they were, they
    /// make the files hold what the segments hold.
    pub fn take_pending(&mut self) -> (ops: Vec<DiskOp>)
        ensures
            final(self)@.wf(),
            ops_view(ops@) == old(self)@.pending,
            apply_ops(old(self)@.synced, ops_view(ops@)) == old(self)@.files(),
            final(self)@.pending == Seq::<DiskOpView>::empty(),
            final(self)@.synced == old(self)@.files(),
            final(self)@.segments == old(self)@.segments,
            final(self)@.entries == old(self)@.entries,
            final(self)@.uncompacted == old(self)@.uncompacted,
    {
        let mut parts = self.take();
        let ops = parts.drain();
        *self = KvStore { parts };
        ops
    }

    /// The id of the segment that new records go to.
    pub fn current_id(&self) -> (id: u64)
        ensures
            self@.wf(),
            id == self@.current_id(),
    {
        proof {
            use_type_invariant(self);
        }
        self.parts.current_id()
    }

    /// The count of stale bytes.
    pub fn uncompacted(&self) -> (count: u64)
        ensures
            self@.wf(),
            count == self@.uncompacted,
    {
        proof {
            use_type_invariant(self);
        }
        self.parts.uncompacted
    }

    /// The number of keys that the store holds.
    pub fn len(&self) -> (count: usize)
        ensures
            self@.wf(),
            count == self@.entries.len(),
    {
        proof {
            use_type_invariant(self);
        }
        self.parts.index.len()
    }

    /// Where the latest record of `key` lies, if the store holds the key.
    pub fn pointer(&self, key: &str) -> (pointer: Option<LogPointer>)
        ensures
            self@.wf(),
            pointer == lookup(self@.entries, key@),
    {
        proof {
            use_type_invariant(self);
        }
        self.parts.index.get(key)
    }

    /// The ids of the segments, in ascending order.
    pub fn segment_ids(&self) -> (ids: Vec<u64>)
        ensures
            self@.wf(),
            ids@.len() == self@.segments.len(),
            forall|i: int| 0 <= i < ids@.len() ==> ids@[i] == (#[trigger] self@.segments[i]).id,
    {
        proof {
            use_type_invariant(self);
        }
        let mut ids: Vec<u64> = Vec::new();
        let mut at: usize = 0;
        while at < self.parts.segments.len()
            invariant
                at <= self.parts.segments@.len(),
                ids@.len() == at,
                forall|i: int| 0 <= i < at ==> ids@[i] == self.parts.segments@[i].id,
            decreases self.parts.segments@.len() - at,
        {
            ids.push(self.parts.segments[at].id);
            at += 1;
        }
        ids
    }

    /// The bytes of the segment `id`, if there is such a segment.
    pub fn segment_data(&self, id: u64) -> (data: Option<&[u8]>)
        ensures
            self@.wf(),
            match data {
                Some(bytes) => has_segment(self@.segments, id) && bytes@ == data_of(
                    self@.segments,
                    id,
                ),
                None => !has_segment(self@.segments, id),
            },
    {
        proof {
            use_type_invariant(self);
        }
        match find_segment(&self.parts.segments, id) {
            Some(at) => {
                proof {
                    assert(self@.segments[at as int] == self.parts.segments@[at as int]@);
                    lemma_place_unique(self@.segments, at as int);
                }
                Some(self.parts.segments[at].data.as_slice())
            },
            None => None,
        }
    }
}

impl KvsEngine for KvStore {
    /// The store says what it holds.
    open spec fn modelled(&self) -> bool {
        true
    }

    /// What the store holds: for each key of the index, the value that its
    /// record sets.
    open spec fn pairs(&self) -> Map<Seq<char>, Seq<char>> {
        self@.contents()
    }

    /// `set` succeeds exactly where the record of the command reads back
    /// as the command, and then leaves the state that `after_put` gives;
    /// else it fails with `Serde` and leaves the store as it is.
    open spec fn set_yields(
        &self,
        key: Seq<char>,
        value: Seq<char>,
        outcome: Result<(), KvsError>,
        after: KvStore,
    ) -> bool {
        &&& after@.wf()
        &&& match outcome {
            Ok(_) => {
                &&& faithful(CommandView::Put { key, value })
                &&& after@ == after_put(self@, key, value)
                &&& after@.contents() == self@.contents().insert(key, value)
            },
            Err(e) => {
                &&& !faithful(CommandView::Put { key, value })
                &&& e is Serde
                &&& after@ == self@
            },
        }
    }

    /// `get` always succeeds, with what the store holds for the key, and
    /// leaves the store as it is.
    open spec fn get_yields(
        &self,
        key: Seq<char>,
        outcome: Result<Option<String>, KvsError>,
        after: KvStore,
    ) -> bool {
        &&& after@.wf()
        &&& after@ == self@
        &&& outcome matches Ok(found) && match found {
            Some(value) => self@.value_of(key) == Some(value@),
            None => self@.value_of(key) is None,
        }
    }

    /// `remove` fails with `KeyNotFound` exactly where the store does not
    /// hold the key. Where it holds the key, `remove` succeeds exactly where
    /// the record of the command reads back as the command, and then leaves
    /// the state that `after_remove` gives; else it fails with `Serde`. A
    /// `remove` that fails leaves the store as it is.
    open spec fn remove_yields(
        &self,
        key: Seq<char>,
        outcome: Result<(), KvsError>,
        after: KvStore,
    ) -> bool {
        &&& after@.wf()
        &&& match outcome {
            Ok(_) => {
                &&& self@.contents().contains_key(key)
                &&& faithful(CommandView::Remove { key })
                &&& after@ == after_remove(self@, key)
                &&& after@.contents() == self@.contents().remove(key)
            },
            Err(KvsError::KeyNotFound) => {
                &&& !self@.contents().contains_key(key)
                &&& after@ == self@
            },
            Err(e) => {
                &&& self@.contents().contains_key(key)
                &&& !faithful(CommandView::Remove { key })
                &&& e is Serde
                &&& after@ == self@
            },
        }
    }

    /// Stores `value` under `key`, in place of any value that was there.
    ///
    /// The record is appended to the current segment and the index points
    /// to it; the bytes of the record that it supersedes count as stale;
    /// and the log is compacted once the count has reached the threshold.
    ///
    /// Fails with `Serde`, and leaves the store as it is, exactly where the
    /// record of the command does not read back as the command.
    fn set(&mut self, key: String, value: String) -> (result: Result<(), KvsError>) {
        proof {
            use_type_invariant(&*self);
        }
        let command = Command::Put { key, value };
        let record = match encode_checked(&command) {
            Ok(record) => record,
            Err(e) => {
                return Err(e);
            },
        };
        match command {
            Command::Put { key, value: _ } => {
                self.put_record(key, record);
                Ok(())
            },
            Command::Remove { .. } => vstd::pervasive::unreached(),
        }
    }

    /// Looks `key` up: the value that the store holds for it, or `None`.
    ///
    /// The store is left as it is. In a store of this type the lookup
    /// cannot fail: every pointer of the index leads to a record that sets
    /// its key.
    fn get(&mut self, key: String) -> (result: Result<Option<String>, KvsError>) {
        proof {
            use_type_invariant(&*self);
        }
        self.parts.get(key.as_str())
    }

    /// Deletes `key`.
    ///
    /// Where the store does not hold the key, fails with `KeyNotFound` and
    /// leaves the store as it is: nothing is written. Otherwise the record
    /// of the removal is appended, the key leaves the index, the bytes of
    /// both records count as stale, and the log is compacted once the count
    /// has reached the threshold.
    ///
    /// Fails with `Serde`, and leaves the store as it is, where the store
    /// holds the key and the record of the command does not read back as
    /// the command.
    fn remove(&mut self, key: String) -> (result: Result<(), KvsError>) {
        proof {
            use_type_invariant(&*self);
        }
        if self.parts.index.get(key.as_str()).is_none() {
            return Err(KvsError::KeyNotFound);
        }
        let command = Command::Remove { key };
        let record = match encode_checked(&command) {
            Ok(record) => record,
            Err(e) => {
                return Err(e);
            },
        };
        match command {
            Command::Remove { key } => {
                self.remove_record(key, record);
                Ok(())
            },
            Command::Put { .. } => vstd::pervasive::unreached(),
        }
    }
}

/// The state of a store that was just made in an empty directory: one
/// empty segment with the id 0, whose file is to be made yet.
pub open spec fn fresh_store() -> StoreState {
    StoreState {
        segments: seq![SegmentView { id: 0, data: Seq::empty() }],
        entries: Seq::empty(),
        uncompacted: 0,
        pending: seq![DiskOpView::Append { file_id: 0, bytes: Seq::empty() }],
        synced: Map::empty(),
    }
}

/// The fresh store is consistent and holds nothing.
pub proof fn lemma_fresh_store()
    ensures
        fresh_store().wf(),
        fresh_store().contents() == Map::<Seq<char>, Seq<char>>::empty(),
{
    let v = fresh_store();
    assert(v.index() =~= Map::<Seq<char>, LogPointer>::empty());
    assert(v.segments.drop_last() =~= Seq::<SegmentView>::empty());
    assert(replay_all(v.segments.drop_last()) == Some(nothing_replayed()));
    assert(total_bytes(v.segments.drop_last()) == 0);
    lemma_place_unique(v.segments, 0);
    assert(v.pending.drop_last() =~= Seq::<DiskOpView>::empty());
    assert(apply_ops(v.synced, v.pending.drop_last()) == v.synced);
    assert(apply_ops(v.synced, v.pending) == apply_op(
        v.synced,
        v.pending.last(),
    ));
    assert(v.files() =~= apply_op(Map::empty(), v.pending.last()));
    assert(v.contents() =~= Map::<Seq<char>, Seq<char>>::empty());
}

} // verus!

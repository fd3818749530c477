//! What holds of the store, proved of its states.
//!
//! The operations of the store are functions on its state (`after_put`,
//! `after_remove`, `compacted`), and the executable methods are proved to
//! compute them. The laws below are about those functions. Some need the
//! machine to have room for what an operation writes; a running store has
//! it, or the program has ended for want of memory.

use crate::command::CommandView;
use crate::compaction::{
    after_put, after_remove, compacted, fresh_id, lemma_compacted, lemma_compacted_len,
    lemma_entries_valid, settled, target_id,
};
use crate::error::KvsError;
use crate::index::{
    index_map, lemma_drop_entry, lemma_key_before_asymmetric, lemma_position_unique,
    lemma_sorted_front, position, sorted, EntryView,
};
use crate::log::{
    clip, compaction_due, has_room, lemma_live_drop, lemma_live_put, lemma_put_applied,
    lemma_remove_applied, live_bytes, next_pointer, put_applied, remove_applied, replay_all,
    DiskOpView, StoreState, COMPACTION_THRESHOLD,
};
use crate::protocol::{Request, Response};
use crate::record::{faithful, record_of};
use crate::segments::{
    ascending, data_of, files_given, has_segment, lemma_normalized_ascending,
    lemma_normalized_files, lemma_normalized_of_ascending, lemma_place_unique,
    lemma_segments_unique, lemma_with_data, normalized, segment_place, total_bytes, with_record,
    SegmentView,
};
use crate::server::handled;
use crate::store::{fresh_store, lemma_fresh_store, opened_on, KvStore};
use vstd::prelude::*;

verus! {

/// Whether the machine has room for a record of `len` bytes: behind the
/// current segment, and in one segment together with all live records.
pub open spec fn within_limits(v: StoreState, len: nat) -> bool {
    &&& has_room(v, len)
    &&& live_bytes(v.entries) + len <= usize::MAX
}

/// The record that sets `key` to `value`.
pub open spec fn put_record(key: Seq<char>, value: Seq<char>) -> Seq<u8> {
    record_of(CommandView::Put { key, value })->0
}

/// The record that removes `key`.
pub open spec fn remove_record(key: Seq<char>) -> Seq<u8> {
    record_of(CommandView::Remove { key })->0
}

/// Setting a key leaves a consistent store that holds what it held, with
/// the key set to the value; whether the log was compacted or not.
pub proof fn law_put(v: StoreState, key: Seq<char>, value: Seq<char>)
    requires
        v.wf(),
        faithful(CommandView::Put { key, value }),
        within_limits(v, put_record(key, value).len()),
    ensures
        after_put(v, key, value).wf(),
        after_put(v, key, value).contents() == v.contents().insert(key, value),
{
    let record = put_record(key, value);
    let applied = put_applied(v, key, record);
    lemma_put_applied(v, key, value, record);
    if compaction_due(applied) {
        lemma_live_put(v.entries, key, next_pointer(v.segments, record.len()));
        lemma_compacted(applied);
    }
}

/// Removing a key leaves a consistent store that holds what it held,
/// without the key; whether the log was compacted or not.
pub proof fn law_remove(v: StoreState, key: Seq<char>)
    requires
        v.wf(),
        faithful(CommandView::Remove { key }),
        within_limits(v, remove_record(key).len()),
    ensures
        after_remove(v, key).wf(),
        after_remove(v, key).contents() == v.contents().remove(key),
{
    let record = remove_record(key);
    let applied = remove_applied(v, key, record);
    lemma_remove_applied(v, key, record);
    if compaction_due(applied) {
        lemma_live_drop(v.entries, key);
        lemma_compacted(applied);
    }
}

/// A key that was set is found with the value it was given, and every
/// other key is found as before.
pub proof fn law_get_after_set(v: StoreState, key: Seq<char>, value: Seq<char>)
    requires
        v.wf(),
        faithful(CommandView::Put { key, value }),
        within_limits(v, put_record(key, value).len()),
    ensures
        after_put(v, key, value).value_of(key) == Some(value),
        forall|other: Seq<char>|
            other != key ==> after_put(v, key, value).value_of(other) == v.value_of(other),
{
    law_put(v, key, value);
}

/// On a store that was just made, a key that was set is found with the
/// value it was given, and no other key is found.
pub proof fn law_get_after_set_fresh(key: Seq<char>, value: Seq<char>)
    requires
        faithful(CommandView::Put { key, value }),
        put_record(key, value).len() <= usize::MAX,
    ensures
        after_put(fresh_store(), key, value).value_of(key) == Some(value),
        forall|other: Seq<char>|
            other != key ==> after_put(fresh_store(), key, value).value_of(other) is None,
{
    lemma_fresh_store();
    law_put(fresh_store(), key, value);
}

/// A key that was set twice is found with the second value.
pub proof fn law_set_overwrites(
    v: StoreState,
    key: Seq<char>,
    first: Seq<char>,
    second: Seq<char>,
)
    requires
        v.wf(),
        faithful(CommandView::Put { key, value: first }),
        faithful(CommandView::Put { key, value: second }),
        within_limits(v, put_record(key, first).len()),
        within_limits(after_put(v, key, first), put_record(key, second).len()),
    ensures
        after_put(after_put(v, key, first), key, second).value_of(key) == Some(second),
{
    law_put(v, key, first);
    law_put(after_put(v, key, first), key, second);
}

/// A key that was set and then removed is not found.
pub proof fn law_get_after_remove(v: StoreState, key: Seq<char>, value: Seq<char>)
    requires
        v.wf(),
        faithful(CommandView::Put { key, value }),
        faithful(CommandView::Remove { key }),
        within_limits(v, put_record(key, value).len()),
        within_limits(after_put(v, key, value), remove_record(key).len()),
    ensures
        after_remove(after_put(v, key, value), key).value_of(key) is None,
{
    law_put(v, key, value);
    law_remove(after_put(v, key, value), key);
}

/// Two sorted lists of entries that are the same map are the same list.
pub proof fn lemma_entries_unique(a: Seq<EntryView>, b: Seq<EntryView>)
    requires
        sorted(a),
        sorted(b),
        index_map(a) == index_map(b),
    ensures
        a == b,
    decreases a.len(),
{
    if a.len() == 0 {
        if b.len() > 0 {
            lemma_position_unique(b, 0);
            assert(index_map(b).contains_key(b[0].key));
            assert(index_map(a).contains_key(b[0].key));
        }
        assert(a =~= b);
    } else {
        let last_a = a.len() - 1;
        let top = a[last_a].key;
        lemma_position_unique(a, last_a);
        assert(index_map(a).contains_key(top));
        assert(index_map(b).contains_key(top));
        let at = position(b, top);
        let last_b = b.len() - 1;
        if at < last_b {
            let other = b[last_b].key;
            lemma_position_unique(b, last_b);
            assert(index_map(b).contains_key(other));
            assert(index_map(a).contains_key(other));
            let back = position(a, other);
            lemma_key_before_asymmetric(b[at].key, b[last_b].key);
            assert(back < last_a);
            lemma_key_before_asymmetric(a[back].key, a[last_a].key);
        }
        lemma_position_unique(b, last_b);
        assert(index_map(a)[top] == a[last_a].pointer);
        assert(index_map(b)[top] == b[last_b].pointer);
        lemma_drop_entry(a, top);
        lemma_drop_entry(b, top);
        assert(a.remove(last_a) =~= a.drop_last());
        assert(b.remove(last_b) =~= b.drop_last());
        lemma_sorted_front(a, last_a);
        lemma_sorted_front(b, last_b);
        assert(a.take(last_a) =~= a.drop_last());
        assert(b.take(last_b) =~= b.drop_last());
        lemma_entries_unique(a.drop_last(), b.drop_last());
        assert(a =~= a.drop_last().push(a[last_a]));
        assert(b =~= b.drop_last().push(b[last_b]));
    }
}

/// A consistent store is settled by its segments: two consistent stores
/// on the same segments have the same index and the same count of stale
/// bytes, and hold the same.
pub proof fn law_segments_settle(v: StoreState, w: StoreState)
    requires
        v.wf(),
        w.wf(),
        v.segments == w.segments,
    ensures
        v.entries == w.entries,
        v.uncompacted == w.uncompacted,
        v.contents() == w.contents(),
        forall|key: Seq<char>| v.value_of(key) == w.value_of(key),
{
    lemma_entries_unique(v.entries, w.entries);
}

/// Persistence: once the pending operations were done to the files, a
/// store that is opened on the files can be opened, and it has the index
/// of the store that wrote them, counts the same stale bytes, and gives
/// the same answers.
pub proof fn law_reopen(v: StoreState, w: StoreState)
    requires
        v.wf(),
        opened_on(v.segments, w),
    ensures
        replay_all(normalized(v.segments)) is Some,
        w.segments == v.segments,
        w.entries == v.entries,
        w.uncompacted == v.uncompacted,
        w.contents() == v.contents(),
        forall|key: Seq<char>| w.value_of(key) == v.value_of(key),
{
    lemma_normalized_of_ascending(v.segments);
    law_segments_settle(v, w);
}

/// Persistence, from the files: whatever the order in which the files of
/// the directory are listed, a store that is opened on them has the
/// segments, the index and the count of stale bytes of the store that
/// wrote them, and gives the same answers.
pub proof fn law_reopen_from_files(
    v: StoreState,
    disk: Seq<SegmentView>,
    w: StoreState,
)
    requires
        v.wf(),
        files_given(disk) == v.files(),
        opened_on(disk, w),
    ensures
        replay_all(normalized(disk)) is Some,
        w.segments == v.segments,
        w.entries == v.entries,
        w.uncompacted == v.uncompacted,
        w.contents() == v.contents(),
        forall|key: Seq<char>| w.value_of(key) == v.value_of(key),
{
    lemma_normalized_files(disk);
    lemma_normalized_ascending(disk);
    lemma_segments_unique(normalized(disk), v.segments);
    law_segments_settle(v, w);
}

/// Opening is a function of the segments: two stores that were opened on
/// the same segments are in the same state.
pub proof fn law_open_twice(disk: Seq<SegmentView>, a: StoreState, b: StoreState)
    requires
        opened_on(disk, a),
        opened_on(disk, b),
    ensures
        a == b,
{
    law_segments_settle(a, b);
}

/// Compaction changes no answer. It leaves two segments, of which the
/// first holds the live records and nothing else and the second is empty;
/// every pointer of the index leads into the first; no byte is stale; and
/// the segments are no larger than they were. Of the operations on the
/// files that it adds, the first writes the live records, the second makes
/// the empty segment, and the rest delete the old segments.
pub proof fn law_compaction(v: StoreState)
    requires
        v.wf(),
        v.current_id() <= u64::MAX - 2,
        live_bytes(v.entries) <= usize::MAX,
    ensures
        compacted(v).wf(),
        compacted(v).contents() == v.contents(),
        forall|key: Seq<char>| compacted(v).value_of(key) == v.value_of(key),
        compacted(v).segments.len() == 2,
        compacted(v).segments[0].id == target_id(v),
        compacted(v).segments[0].data.len() == live_bytes(v.entries),
        compacted(v).segments[1].id == fresh_id(v),
        compacted(v).segments[1].data.len() == 0,
        forall|i: int|
            0 <= i < v.segments.len() ==> (#[trigger] v.segments[i]).id < target_id(v) < fresh_id(
                v,
            ),
        forall|key: Seq<char>| #[trigger]
            compacted(v).index().contains_key(key) ==> compacted(v).index()[key].file_id
                == target_id(v),
        compacted(v).uncompacted == 0,
        total_bytes(compacted(v).segments) <= total_bytes(v.segments),
        compacted(v).pending.len() == v.pending.len() + 2 + v.segments.len(),
        compacted(v).pending.take(v.pending.len() as int) == v.pending,
        compacted(v).pending[v.pending.len() as int] == (DiskOpView::Append {
            file_id: target_id(v),
            bytes: compacted(v).segments[0].data,
        }),
        compacted(v).pending[v.pending.len() as int + 1] == (DiskOpView::Append {
            file_id: fresh_id(v),
            bytes: Seq::empty(),
        }),
        forall|i: int|
            0 <= i < v.segments.len() ==> #[trigger] compacted(v).pending[v.pending.len() as int + 2
                + i]
                == (DiskOpView::Delete { file_id: v.segments[i].id }),
{
    lemma_compacted(v);
    lemma_entries_valid(v);
    lemma_compacted_len(v.segments, v.entries);
    assert(compacted(v).pending.take(v.pending.len() as int) =~= v.pending);
    let after = compacted(v);
    assert(after.segments.drop_last() =~= seq![after.segments[0]]);
    assert(after.segments.drop_last().drop_last() =~= Seq::<SegmentView>::empty());
    assert(total_bytes(after.segments.drop_last().drop_last()) == 0);
}

/// The server on the store: what `KvsServer::handle` says of any engine
/// comes, for the store, to this.
///
/// - A `Get` is always answered with success: with the value that the
///   store holds for the key, or with none; the store stays as it is.
/// - A `Put` is answered with success, and leaves the state that
///   `after_put` gives, exactly where the record of the command reads back
///   as the command; else it is answered with a failure and the store stays
///   as it is.
/// - A `Remove` of a key that the store does not hold is answered with the
///   failure `Key not found`, and the store stays as it is, nothing being
///   written. A `Remove` of a key that it holds is answered as a `Put` is,
///   with `after_remove`.
/// - A request that could not be decoded is answered with its failure, and
///   the store stays as it is.
pub proof fn law_store_served(
    before: KvStore,
    incoming: Result<Request, String>,
    response: Response,
    after: KvStore,
)
    requires
        handled(before, incoming, response, after),
    ensures
        match incoming {
            Err(text) => response == Response::Failure(text) && after@ == before@,
            Ok(Request::Get { key }) => {
                &&& after@ == before@
                &&& match before@.value_of(key@) {
                    Some(value) => response matches Response::Success(Some(found)) && found@
                        == value,
                    None => response == Response::Success(None),
                }
            },
            Ok(Request::Put { key, value }) => if faithful(
                CommandView::Put { key: key@, value: value@ },
            ) {
                &&& response == Response::Success(None)
                &&& after@ == after_put(before@, key@, value@)
                &&& after@.contents() == before@.contents().insert(key@, value@)
            } else {
                response is Failure && after@ == before@
            },
            Ok(Request::Remove { key }) => if !before@.contents().contains_key(key@) {
                &&& response matches Response::Failure(text) && text@
                    == KvsError::KeyNotFound.message_spec()
                &&& after@ == before@
            } else if faithful(CommandView::Remove { key: key@ }) {
                &&& response == Response::Success(None)
                &&& after@ == after_remove(before@, key@)
                &&& after@.contents() == before@.contents().remove(key@)
            } else {
                response is Failure && after@ == before@
            },
        },
{
}

/// What a caller does to a store.
pub enum Action {
    /// Set `key` to `value`.
    Put { key: Seq<char>, value: Seq<char> },
    /// Look `key` up.
    Get { key: Seq<char> },
    /// Remove `key`.
    Remove { key: Seq<char> },
    /// Compact the log.
    Compact,
}

/// What the caller sees of it.
pub enum Outcome {
    /// The store did as it was told.
    Done,
    /// What the store holds for the key.
    Found(Option<Seq<char>>),
    /// The store does not hold the key.
    KeyNotFound,
    /// The record of the command could not be written.
    Unwritable,
}

/// The state that an action leaves, as the methods of the store compute it.
pub open spec fn leaves(v: StoreState, action: Action) -> StoreState {
    match action {
        Action::Put { key, value } => if faithful(CommandView::Put { key, value }) {
            after_put(v, key, value)
        } else {
            v
        },
        Action::Get { .. } => v,
        Action::Remove { key } => if v.contents().contains_key(key) && faithful(
            CommandView::Remove { key },
        ) {
            after_remove(v, key)
        } else {
            v
        },
        Action::Compact => if v.current_id() <= u64::MAX - 2 {
            compacted(v)
        } else {
            v
        },
    }
}

/// What the caller sees of an action, as the methods of the store return it.
pub open spec fn outcome(v: StoreState, action: Action) -> Outcome {
    match action {
        Action::Put { key, value } => if faithful(CommandView::Put { key, value }) {
            Outcome::Done
        } else {
            Outcome::Unwritable
        },
        Action::Get { key } => Outcome::Found(v.value_of(key)),
        Action::Remove { key } => if !v.contents().contains_key(key) {
            Outcome::KeyNotFound
        } else if faithful(CommandView::Remove { key }) {
            Outcome::Done
        } else {
            Outcome::Unwritable
        },
        Action::Compact => Outcome::Done,
    }
}

/// What an action makes of a plain map from keys to values.
pub open spec fn map_leaves(pairs: Map<Seq<char>, Seq<char>>, action: Action) -> Map<
    Seq<char>,
    Seq<char>,
> {
    match action {
        Action::Put { key, value } => if faithful(CommandView::Put { key, value }) {
            pairs.insert(key, value)
        } else {
            pairs
        },
        Action::Get { .. } => pairs,
        Action::Remove { key } => if faithful(CommandView::Remove { key }) {
            pairs.remove(key)
        } else {
            pairs
        },
        Action::Compact => pairs,
    }
}

/// What the caller would see of an action on a plain map.
pub open spec fn map_outcome(pairs: Map<Seq<char>, Seq<char>>, action: Action) -> Outcome {
    match action {
        Action::Put { key, value } => if faithful(CommandView::Put { key, value }) {
            Outcome::Done
        } else {
            Outcome::Unwritable
        },
        Action::Get { key } => Outcome::Found(
            if pairs.contains_key(key) {
                Some(pairs[key])
            } else {
                None
            },
        ),
        Action::Remove { key } => if !pairs.contains_key(key) {
            Outcome::KeyNotFound
        } else if faithful(CommandView::Remove { key }) {
            Outcome::Done
        } else {
            Outcome::Unwritable
        },
        Action::Compact => Outcome::Done,
    }
}

/// Whether the machine has room for what the action writes.
pub open spec fn action_within_limits(v: StoreState, action: Action) -> bool {
    match action {
        Action::Put { key, value } => faithful(CommandView::Put { key, value }) ==> within_limits(
            v,
            put_record(key, value).len(),
        ),
        Action::Get { .. } => true,
        Action::Remove { key } => faithful(CommandView::Remove { key }) ==> within_limits(
            v,
            remove_record(key).len(),
        ),
        Action::Compact => live_bytes(v.entries) <= usize::MAX,
    }
}

/// The state after the actions, done in their order.
pub open spec fn run(v: StoreState, actions: Seq<Action>) -> StoreState
    decreases actions.len(),
{
    if actions.len() == 0 {
        v
    } else {
        leaves(run(v, actions.drop_last()), actions.last())
    }
}

/// The plain map after the actions, done in their order.
pub open spec fn map_run(pairs: Map<Seq<char>, Seq<char>>, actions: Seq<Action>) -> Map<
    Seq<char>,
    Seq<char>,
>
    decreases actions.len(),
{
    if actions.len() == 0 {
        pairs
    } else {
        map_leaves(map_run(pairs, actions.drop_last()), actions.last())
    }
}

/// Whether the machine has room for what each of the actions writes.
pub open spec fn run_within_limits(v: StoreState, actions: Seq<Action>) -> bool
    decreases actions.len(),
{
    actions.len() == 0 || {
        &&& run_within_limits(v, actions.drop_last())
        &&& action_within_limits(run(v, actions.drop_last()), actions.last())
    }
}

/// The actions without the compactions.
pub open spec fn without_compactions(actions: Seq<Action>) -> Seq<Action>
    decreases actions.len(),
{
    if actions.len() == 0 {
        actions
    } else if actions.last() is Compact {
        without_compactions(actions.drop_last())
    } else {
        without_compactions(actions.drop_last()).push(actions.last())
    }
}

/// One action on a consistent store is that action on the map of what the
/// store holds.
pub proof fn law_action(v: StoreState, action: Action)
    requires
        v.wf(),
        action_within_limits(v, action),
    ensures
        leaves(v, action).wf(),
        leaves(v, action).contents() == map_leaves(v.contents(), action),
        outcome(v, action) == map_outcome(v.contents(), action),
{
    match action {
        Action::Put { key, value } => {
            if faithful(CommandView::Put { key, value }) {
                law_put(v, key, value);
            }
        },
        Action::Get { .. } => {},
        Action::Remove { key } => {
            if faithful(CommandView::Remove { key }) {
                if v.contents().contains_key(key) {
                    law_remove(v, key);
                } else {
                    assert(v.contents().remove(key) =~= v.contents());
                }
            }
        },
        Action::Compact => {
            if v.current_id() <= u64::MAX - 2 {
                lemma_compacted(v);
            }
        },
    }
}

/// Whether `longer` begins with `shorter`.
pub open spec fn begins_with(longer: Seq<u8>, shorter: Seq<u8>) -> bool {
    shorter.len() <= longer.len() && longer.subrange(0, shorter.len() as int) == shorter
}

/// The segments are only ever appended to: a segment that is there before
/// and after an action holds afterwards what it held, and maybe more
/// behind that. No action makes a segment with an id below the current one.
pub proof fn law_append_only(v: StoreState, action: Action)
    requires
        v.wf(),
        action_within_limits(v, action),
    ensures
        forall|id: u64|
            has_segment(v.segments, id) && #[trigger] has_segment(leaves(v, action).segments, id)
                ==> begins_with(
                data_of(leaves(v, action).segments, id),
                data_of(v.segments, id),
            ),
        forall|id: u64|
            !has_segment(v.segments, id) && #[trigger] has_segment(leaves(v, action).segments, id)
                ==> id > v.current_id(),
        leaves(v, action).current_id() >= v.current_id(),
{
    let after = leaves(v, action);
    law_action(v, action);
    let last = v.segments.len() - 1;
    lemma_place_unique(v.segments, last);
    assert forall|id: u64| has_segment(v.segments, id) implies id <= v.current_id() by {
        let i = segment_place(v.segments, id);
        if i < last {
            assert(v.segments[i].id < v.segments[last].id);
        }
    }
    match action {
        Action::Put { key, value } => {
            if faithful(CommandView::Put { key, value }) {
                let record = put_record(key, value);
                lemma_appended_grows(v, record);
                let applied = put_applied(v, key, record);
                assert(applied.segments == with_record(v.segments, record));
                if compaction_due(applied) {
                    lemma_compaction_ids(applied);
                } else {
                    assert(after == applied);
                }
            } else {
                lemma_same_begins(v);
            }
        },
        Action::Get { .. } => {
            lemma_same_begins(v);
        },
        Action::Remove { key } => {
            if v.contents().contains_key(key) && faithful(CommandView::Remove { key }) {
                let record = remove_record(key);
                lemma_appended_grows(v, record);
                let applied = remove_applied(v, key, record);
                assert(applied.segments == with_record(v.segments, record));
                if compaction_due(applied) {
                    lemma_compaction_ids(applied);
                } else {
                    assert(after == applied);
                }
            } else {
                lemma_same_begins(v);
            }
        },
        Action::Compact => {
            if v.current_id() <= u64::MAX - 2 {
                lemma_compaction_ids(v);
            } else {
                lemma_same_begins(v);
            }
        },
    }
}

/// Every segment begins with itself.
proof fn lemma_same_begins(v: StoreState)
    ensures
        forall|id: u64| #[trigger]
            has_segment(v.segments, id) ==> begins_with(
                data_of(v.segments, id),
                data_of(v.segments, id),
            ),
{
    assert forall|id: u64| #[trigger] has_segment(v.segments, id) implies begins_with(
        data_of(v.segments, id),
        data_of(v.segments, id),
    ) by {
        let data = data_of(v.segments, id);
        assert(data.subrange(0, data.len() as int) =~= data);
    }
}

/// A record that is appended changes the current segment only, at its end.
proof fn lemma_appended_grows(v: StoreState, record: Seq<u8>)
    requires
        v.wf(),
    ensures
        forall|id: u64|
            has_segment(with_record(v.segments, record), id) == has_segment(v.segments, id),
        forall|id: u64| #[trigger]
            has_segment(v.segments, id) ==> begins_with(
                data_of(with_record(v.segments, record), id),
                data_of(v.segments, id),
            ),
        with_record(v.segments, record).last().id == v.current_id(),
{
    let last = v.segments.len() - 1;
    let grown = v.segments.last().data + record;
    lemma_with_data(v.segments, last, grown);
    lemma_place_unique(v.segments, last);
    lemma_same_begins(v);
    assert(grown.subrange(0, v.segments.last().data.len() as int) =~= v.segments.last().data);
}

/// The segments that compaction leaves have ids above the current one.
proof fn lemma_compaction_ids(v: StoreState)
    requires
        v.segments.len() > 0,
        ascending(v.segments),
        v.current_id() <= u64::MAX - 2,
    ensures
        forall|id: u64| #[trigger]
            has_segment(compacted(v).segments, id) ==> id > v.current_id() && !has_segment(
                v.segments,
                id,
            ),
        compacted(v).current_id() > v.current_id(),
{
    let after = compacted(v);
    let last = v.segments.len() - 1;
    assert forall|id: u64| #[trigger] has_segment(after.segments, id) implies id > v.current_id()
        && !has_segment(v.segments, id) by {
        let i = segment_place(after.segments, id);
        assert(i == 0 || i == 1);
        if has_segment(v.segments, id) {
            let j = segment_place(v.segments, id);
            if j < last {
                assert(v.segments[j].id < v.segments[last].id);
            }
        }
    }
}

/// Any actions on a consistent store are those actions on the map of what
/// the store holds: the store stays consistent, holds what the map holds,
/// and each action is seen to end as it would on the map.
pub proof fn law_run(v: StoreState, actions: Seq<Action>)
    requires
        v.wf(),
        run_within_limits(v, actions),
    ensures
        run(v, actions).wf(),
        run(v, actions).contents() == map_run(v.contents(), actions),
        forall|i: int|
            0 <= i < actions.len() ==> outcome(#[trigger] run(v, actions.take(i)), actions[i])
                == map_outcome(map_run(v.contents(), actions.take(i)), actions[i]),
    decreases actions.len(),
{
    if actions.len() > 0 {
        let front = actions.drop_last();
        let last = actions.len() - 1;
        law_run(v, front);
        law_action(run(v, front), actions.last());
        assert forall|i: int| 0 <= i < actions.len() implies outcome(
            #[trigger] run(v, actions.take(i)),
            actions[i],
        ) == map_outcome(map_run(v.contents(), actions.take(i)), actions[i]) by {
            if i < last {
                assert(actions.take(i) =~= front.take(i));
                assert(actions[i] == front[i]);
            } else {
                assert(actions.take(i) =~= front);
            }
        }
    }
}

/// Compaction is invisible: on a plain map the actions do what they do
/// without the compactions among them. With `law_run`, a store gives the
/// same answers and holds the same whether it is compacted, at any points,
/// or not.
pub proof fn law_compactions_change_nothing(pairs: Map<Seq<char>, Seq<char>>, actions: Seq<Action>)
    ensures
        map_run(pairs, actions) == map_run(pairs, without_compactions(actions)),
    decreases actions.len(),
{
    if actions.len() > 0 {
        let front = actions.drop_last();
        law_compactions_change_nothing(pairs, front);
        if !(actions.last() is Compact) {
            let kept = without_compactions(front).push(actions.last());
            assert(kept.drop_last() =~= without_compactions(front));
        }
    }
}

/// Whether an action sets or removes `key`.
pub open spec fn touches(action: Action, key: Seq<char>) -> bool {
    match action {
        Action::Put { key: set, .. } => set == key,
        Action::Remove { key: removed } => removed == key,
        _ => false,
    }
}

/// Whether an action changes the store: a set whose record reads back, or
/// a removal of a key that the store holds whose record reads back.
pub open spec fn takes_effect(v: StoreState, action: Action) -> bool {
    match action {
        Action::Put { key, value } => faithful(CommandView::Put { key, value }),
        Action::Remove { key } => v.contents().contains_key(key) && faithful(
            CommandView::Remove { key },
        ),
        _ => false,
    }
}

/// The last set of a key wins: on a plain map, a key holds the value of a
/// set that succeeded and that no later action has touched, whatever
/// else was done before and after.
pub proof fn law_last_put_holds(
    pairs: Map<Seq<char>, Seq<char>>,
    actions: Seq<Action>,
    at: int,
    key: Seq<char>,
    value: Seq<char>,
)
    requires
        0 <= at < actions.len(),
        actions[at] == (Action::Put { key, value }),
        faithful(CommandView::Put { key, value }),
        forall|later: int| at < later < actions.len() ==> !touches(#[trigger] actions[later], key),
    ensures
        map_run(pairs, actions).contains_key(key),
        map_run(pairs, actions)[key] == value,
    decreases actions.len(),
{
    let front = actions.drop_last();
    let last = actions.len() - 1;
    if at < last {
        assert(front[at] == actions[at]);
        assert forall|later: int| at < later < front.len() implies !touches(
            #[trigger] front[later],
            key,
        ) by {
            assert(front[later] == actions[later]);
        }
        law_last_put_holds(pairs, front, at, key, value);
        assert(!touches(actions[last], key));
    }
}

/// Sets survive a restart: after any actions on a consistent store, a
/// store that is opened on the files gives, for a key, the value of the
/// last set of that key that succeeded, where no later action has touched
/// the key; whether the log was compacted meanwhile or not.
///
/// With distinct keys, each set is the last of its key; with one key set
/// over and over, the last set is.
pub proof fn law_sets_survive(
    v: StoreState,
    actions: Seq<Action>,
    at: int,
    key: Seq<char>,
    value: Seq<char>,
    disk: Seq<SegmentView>,
    w: StoreState,
)
    requires
        v.wf(),
        run_within_limits(v, actions),
        0 <= at < actions.len(),
        actions[at] == (Action::Put { key, value }),
        faithful(CommandView::Put { key, value }),
        forall|later: int| at < later < actions.len() ==> !touches(#[trigger] actions[later], key),
        files_given(disk) == run(v, actions).files(),
        opened_on(disk, w),
    ensures
        run(v, actions).value_of(key) == Some(value),
        w.value_of(key) == Some(value),
{
    law_run(v, actions);
    law_last_put_holds(v.contents(), actions, at, key, value);
    law_reopen_from_files(run(v, actions), disk, w);
}

/// Compaction, where it is due, leaves two segments and a current id
/// that is two above the old one; else all stays.
proof fn lemma_settled_bounds(x: StoreState)
    requires
        x.segments.len() > 0,
    ensures
        settled(x).segments.len() == x.segments.len() || settled(x).segments.len() == 2,
        x.current_id() <= settled(x).current_id() <= x.current_id() + 2,
{
    if compaction_due(x) {
        let after = compacted(x);
        assert(after.segments.len() == 2);
        assert(after.segments.last() == after.segments[1]);
        assert(after.segments[1].id == fresh_id(x));
    }
}

/// A record that is appended leaves the number of segments and the id of
/// the current one.
proof fn lemma_with_record_bounds(segments: Seq<SegmentView>, record: Seq<u8>)
    requires
        segments.len() > 0,
    ensures
        with_record(segments, record).len() == segments.len(),
        with_record(segments, record).last().id == segments.last().id,
{
}

/// An action leaves no more segments than there were, or two; and the id of
/// the current segment grows by two at most.
pub proof fn law_action_bounds(v: StoreState, action: Action)
    requires
        v.wf(),
    ensures
        leaves(v, action).segments.len() <= v.segments.len() || leaves(v, action).segments.len()
            == 2,
        v.current_id() <= leaves(v, action).current_id() <= v.current_id() + 2,
{
    match action {
        Action::Put { key, value } => {
            if faithful(CommandView::Put { key, value }) {
                let record = put_record(key, value);
                let applied = put_applied(v, key, record);
                lemma_with_record_bounds(v.segments, record);
                assert(applied.segments == with_record(v.segments, record));
                lemma_settled_bounds(applied);
                assert(leaves(v, action) == settled(applied));
            }
        },
        Action::Remove { key } => {
            if v.contents().contains_key(key) && faithful(CommandView::Remove { key }) {
                let record = remove_record(key);
                let applied = remove_applied(v, key, record);
                lemma_with_record_bounds(v.segments, record);
                assert(applied.segments == with_record(v.segments, record));
                lemma_settled_bounds(applied);
                assert(leaves(v, action) == settled(applied));
            }
        },
        Action::Get { .. } => {},
        Action::Compact => {
            if v.current_id() <= u64::MAX - 2 {
                let after = compacted(v);
                assert(after.segments.len() == 2);
                assert(after.segments.last() == after.segments[1]);
                assert(after.segments[1].id == fresh_id(v));
            }
        },
    }
}

/// Old segments do not pile up: after any actions a store has no more
/// segments than it began with, or two; the id of its current segment has
/// grown by two for each action at most.
pub proof fn law_run_bounds(v: StoreState, actions: Seq<Action>)
    requires
        v.wf(),
        run_within_limits(v, actions),
    ensures
        run(v, actions).segments.len() <= v.segments.len() || run(v, actions).segments.len() <= 2,
        v.current_id() <= run(v, actions).current_id() <= v.current_id() + 2 * actions.len(),
    decreases actions.len(),
{
    if actions.len() > 0 {
        let front = actions.drop_last();
        law_run_bounds(v, front);
        law_run(v, front);
        law_action_bounds(run(v, front), actions.last());
    }
}

/// Every byte of the segments is live or stale: the segments have as many
/// bytes as the records that the index points to, and the stale bytes that
/// replaying the segments counts; and the counter of the store is that
/// count, as far as a `u64` can hold it.
pub proof fn law_bytes(v: StoreState)
    requires
        v.wf(),
    ensures
        replay_all(v.segments) is Some,
        total_bytes(v.segments) == live_bytes(v.entries) + replay_all(v.segments)->0.stale,
        v.uncompacted == clip(replay_all(v.segments)->0.stale),
{
}

/// Stale bytes are reclaimed: after a set or a removal that took effect,
/// on a store that has segment ids to spare, fewer bytes than the
/// threshold are stale, and the segments have the bytes of the live
/// records and the stale bytes that the counter counts, and no more.
pub proof fn law_stale_bytes_stay_few(v: StoreState, action: Action)
    requires
        v.wf(),
        action_within_limits(v, action),
        takes_effect(v, action),
        v.current_id() <= u64::MAX - 2,
    ensures
        leaves(v, action).uncompacted < COMPACTION_THRESHOLD,
        total_bytes(leaves(v, action).segments) == live_bytes(leaves(v, action).entries)
            + leaves(v, action).uncompacted,
        total_bytes(leaves(v, action).segments) < live_bytes(leaves(v, action).entries)
            + COMPACTION_THRESHOLD,
{
    law_action(v, action);
    match action {
        Action::Put { key, value } => {
            lemma_appended_grows(v, put_record(key, value));
        },
        Action::Remove { key } => {
            lemma_appended_grows(v, remove_record(key));
        },
        _ => {},
    }
}

/// As `law_stale_bytes_stay_few`, at the end of any actions of which the
/// last took effect, on a store whose segment ids suffice for them.
pub proof fn law_run_stays_small(v: StoreState, actions: Seq<Action>)
    requires
        v.wf(),
        run_within_limits(v, actions),
        actions.len() > 0,
        takes_effect(run(v, actions.drop_last()), actions.last()),
        v.current_id() + 2 * actions.len() <= u64::MAX,
    ensures
        run(v, actions).segments.len() <= v.segments.len() || run(v, actions).segments.len() <= 2,
        run(v, actions).uncompacted < COMPACTION_THRESHOLD,
        total_bytes(run(v, actions).segments) < live_bytes(run(v, actions).entries)
            + COMPACTION_THRESHOLD,
{
    let front = actions.drop_last();
    law_run_bounds(v, actions);
    law_run_bounds(v, front);
    law_run(v, front);
    law_stale_bytes_stay_few(run(v, front), actions.last());
}

} // verus!

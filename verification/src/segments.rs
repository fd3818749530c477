//! The segments of a log as a mathematical object: a list in the order of
//! the ids, the files that it stands for, and how a list in any order is
//! put in order.

use vstd::prelude::*;

verus! {

/// One segment of the log: its id and the bytes of its records.
pub struct SegmentView {
    pub id: u64,
    pub data: Seq<u8>,
}

/// Whether the segments stand in the strict order of their ids.
pub open spec fn ascending(segments: Seq<SegmentView>) -> bool {
    forall|i: int, j: int|
        0 <= i < j < segments.len() ==> (#[trigger] segments[i]).id < (#[trigger] segments[j]).id
}

/// Whether a segment has the id `id`.
pub open spec fn has_segment(segments: Seq<SegmentView>, id: u64) -> bool {
    exists|i: int| 0 <= i < segments.len() && (#[trigger] segments[i]).id == id
}

/// The place of the segment with the id `id`.
pub open spec fn segment_place(segments: Seq<SegmentView>, id: u64) -> int {
    choose|i: int| 0 <= i < segments.len() && (#[trigger] segments[i]).id == id
}

/// The bytes of the segment with the id `id`.
pub open spec fn data_of(segments: Seq<SegmentView>, id: u64) -> Seq<u8> {
    segments[segment_place(segments, id)].data
}

/// The segments as files: a map from ids to bytes.
pub open spec fn files_of(segments: Seq<SegmentView>) -> Map<u64, Seq<u8>> {
    Map::new(|id: u64| has_segment(segments, id), |id: u64| data_of(segments, id))
}

/// The number of bytes in all the segments.
pub open spec fn total_bytes(segments: Seq<SegmentView>) -> nat
    decreases segments.len(),
{
    if segments.len() == 0 {
        0
    } else {
        total_bytes(segments.drop_last()) + segments.last().data.len()
    }
}

/// The segments with the bytes of the one at `at` replaced by `data`.
pub open spec fn with_data(segments: Seq<SegmentView>, at: int, data: Seq<u8>) -> Seq<SegmentView> {
    segments.update(at, SegmentView { id: segments[at].id, data })
}

/// The segments with `record` appended to the last one.
pub open spec fn with_record(segments: Seq<SegmentView>, record: Seq<u8>) -> Seq<SegmentView> {
    with_data(segments, segments.len() - 1, segments.last().data + record)
}

/// In ascending segments, an id is found at one place only.
pub proof fn lemma_place_unique(segments: Seq<SegmentView>, at: int)
    requires
        ascending(segments),
        0 <= at < segments.len(),
    ensures
        has_segment(segments, segments[at].id),
        segment_place(segments, segments[at].id) == at,
{
    let found = segment_place(segments, segments[at].id);
    if found < at {
        assert(segments[found].id < segments[at].id);
    } else if at < found {
        assert(segments[at].id < segments[found].id);
    }
}

/// Replacing the bytes of one segment changes the file of that segment and
/// nothing else.
pub proof fn lemma_with_data(segments: Seq<SegmentView>, at: int, data: Seq<u8>)
    requires
        ascending(segments),
        0 <= at < segments.len(),
    ensures
        ascending(with_data(segments, at, data)),
        forall|id: u64|
            has_segment(with_data(segments, at, data), id) == has_segment(segments, id),
        forall|id: u64|
            has_segment(segments, id) && id != segments[at].id ==> data_of(
                with_data(segments, at, data),
                id,
            ) == data_of(segments, id),
        data_of(with_data(segments, at, data), segments[at].id) == data,
        files_of(with_data(segments, at, data)) == files_of(segments).insert(segments[at].id, data),
{
    let after = with_data(segments, at, data);
    assert forall|i: int, j: int| 0 <= i < j < after.len() implies (#[trigger] after[i]).id < (
    #[trigger] after[j]).id by {
        assert(after[i].id == segments[i].id);
        assert(after[j].id == segments[j].id);
    }
    assert forall|id: u64| has_segment(after, id) == has_segment(segments, id) by {
        if has_segment(segments, id) {
            let i = segment_place(segments, id);
            assert(after[i].id == id);
        }
        if has_segment(after, id) {
            let i = segment_place(after, id);
            assert(segments[i].id == id);
        }
    }
    assert forall|id: u64| has_segment(segments, id) implies data_of(after, id) == (if id
        == segments[at].id {
        data
    } else {
        data_of(segments, id)
    }) by {
        let i = segment_place(segments, id);
        lemma_place_unique(segments, i);
        assert(after[i].id == id);
        lemma_place_unique(after, i);
        if i == at {
        } else {
            lemma_place_unique(segments, at);
        }
    }
    lemma_place_unique(segments, at);
    assert(files_of(after) =~= files_of(segments).insert(segments[at].id, data));
}

/// Appending to the last segment adds to the total.
pub proof fn lemma_total_with_record(segments: Seq<SegmentView>, record: Seq<u8>)
    requires
        segments.len() > 0,
    ensures
        total_bytes(with_record(segments, record)) == total_bytes(segments) + record.len(),
{
    let after = with_record(segments, record);
    assert(after.drop_last() =~= segments.drop_last());
}

/// The number of segments whose id is smaller than `id`: in ascending
/// segments, the place at which a segment with that id belongs.
pub open spec fn id_slot(segments: Seq<SegmentView>, id: u64) -> int
    decreases segments.len(),
{
    if segments.len() == 0 {
        0
    } else {
        id_slot(segments.drop_last(), id) + if segments.last().id < id {
            1int
        } else {
            0int
        }
    }
}

/// The segments with `segment` put in its place; it takes the place of a
/// segment with the same id.
pub open spec fn placed(segments: Seq<SegmentView>, segment: SegmentView) -> Seq<SegmentView> {
    if has_segment(segments, segment.id) {
        segments.update(segment_place(segments, segment.id), segment)
    } else {
        segments.insert(id_slot(segments, segment.id), segment)
    }
}

/// The segments in the order of their ids; of two with the same id, the
/// later one stays.
pub open spec fn normalized(input: Seq<SegmentView>) -> Seq<SegmentView>
    decreases input.len(),
{
    if input.len() == 0 {
        Seq::empty()
    } else {
        placed(normalized(input.drop_last()), input.last())
    }
}

/// Whether `at` parts the segments into those with an id below `id` and
/// the rest.
pub open spec fn parts_segments(segments: Seq<SegmentView>, id: u64, at: int) -> bool {
    &&& 0 <= at <= segments.len()
    &&& forall|i: int| 0 <= i < at ==> (#[trigger] segments[i]).id < id
    &&& forall|i: int| at <= i < segments.len() ==> (#[trigger] segments[i]).id >= id
}

/// The place that parts the segments at `id` is the id's slot.
pub proof fn lemma_id_slot_is_part(segments: Seq<SegmentView>, id: u64, at: int)
    requires
        parts_segments(segments, id, at),
    ensures
        id_slot(segments, id) == at,
    decreases segments.len(),
{
    if segments.len() > 0 {
        let front = segments.drop_last();
        assert(segments.last() == segments[segments.len() - 1]);
        assert forall|i: int| 0 <= i < front.len() implies front[i] == segments[i] by {}
        if at == segments.len() {
            assert(parts_segments(front, id, at - 1)) by {
                assert forall|i: int| 0 <= i < at - 1 implies (#[trigger] front[i]).id < id by {
                    assert(front[i] == segments[i]);
                }
            }
            lemma_id_slot_is_part(front, id, at - 1);
        } else {
            assert(parts_segments(front, id, at)) by {
                assert forall|i: int| 0 <= i < at implies (#[trigger] front[i]).id < id by {
                    assert(front[i] == segments[i]);
                }
                assert forall|i: int| at <= i < front.len() implies (#[trigger] front[i]).id
                    >= id by {
                    assert(front[i] == segments[i]);
                }
            }
            lemma_id_slot_is_part(front, id, at);
        }
    }
}

/// The first segments of ascending segments are ascending.
pub proof fn lemma_ascending_front(segments: Seq<SegmentView>, n: int)
    requires
        ascending(segments),
        0 <= n <= segments.len(),
    ensures
        ascending(segments.take(n)),
{
    let front = segments.take(n);
    assert forall|i: int, j: int| 0 <= i < j < front.len() implies (#[trigger] front[i]).id < (
    #[trigger] front[j]).id by {
        assert(front[i] == segments[i]);
        assert(front[j] == segments[j]);
    }
}

/// In ascending segments, the slot of an id parts the segments at that id.
pub proof fn lemma_id_slot_parts(segments: Seq<SegmentView>, id: u64)
    requires
        ascending(segments),
    ensures
        parts_segments(segments, id, id_slot(segments, id)),
    decreases segments.len(),
{
    if segments.len() > 0 {
        let n = segments.len() - 1;
        let front = segments.drop_last();
        assert(front =~= segments.take(n));
        lemma_ascending_front(segments, n);
        lemma_id_slot_parts(front, id);
        assert(segments.last() == segments[n]);
        assert forall|i: int| 0 <= i < n implies front[i] == segments[i] by {}
        if segments[n].id < id {
            assert(parts_segments(front, id, n)) by {
                assert forall|i: int| 0 <= i < n implies (#[trigger] front[i]).id < id by {
                    assert(front[i] == segments[i]);
                    assert(segments[i].id < segments[n].id);
                }
            }
            lemma_id_slot_is_part(front, id, n);
            assert forall|i: int| 0 <= i < n + 1 implies (#[trigger] segments[i]).id < id by {
                if i < n {
                    assert(segments[i].id < segments[n].id);
                }
            }
        } else {
            let at = id_slot(front, id);
            assert forall|i: int| 0 <= i < at implies (#[trigger] segments[i]).id < id by {
                assert(front[i] == segments[i]);
            }
            assert forall|i: int| at <= i < segments.len() implies (#[trigger] segments[i]).id
                >= id by {
                if i < n {
                    assert(front[i] == segments[i]);
                }
            }
        }
    }
}

/// What `placed` leaves: ascending segments, whose files are the old ones
/// with the file of `segment` set.
pub proof fn lemma_placed(segments: Seq<SegmentView>, segment: SegmentView, at: int)
    requires
        ascending(segments),
        has_segment(segments, segment.id) ==> at == segment_place(segments, segment.id),
        !has_segment(segments, segment.id) ==> parts_segments(segments, segment.id, at),
    ensures
        ascending(placed(segments, segment)),
        files_of(placed(segments, segment)) == files_of(segments).insert(segment.id, segment.data),
        has_segment(segments, segment.id) ==> placed(segments, segment) == segments.update(
            at,
            segment,
        ),
        !has_segment(segments, segment.id) ==> placed(segments, segment) == segments.insert(
            at,
            segment,
        ),
{
    let after = placed(segments, segment);
    if has_segment(segments, segment.id) {
        assert(after == with_data(segments, at, segment.data));
        lemma_with_data(segments, at, segment.data);
    } else {
        lemma_id_slot_is_part(segments, segment.id, at);
        assert(after == segments.insert(at, segment));
        assert forall|i: int, j: int| 0 <= i < j < after.len() implies (#[trigger] after[i]).id < (
        #[trigger] after[j]).id by {
            if i < at {
                assert(after[i] == segments[i]);
            } else if i > at {
                assert(after[i] == segments[i - 1]);
            }
            if j < at {
                assert(after[j] == segments[j]);
            } else if j > at {
                assert(after[j] == segments[j - 1]);
            }
        }
        assert forall|id: u64| has_segment(after, id) == (id == segment.id || has_segment(
            segments,
            id,
        )) by {
            if has_segment(segments, id) {
                let i = segment_place(segments, id);
                if i < at {
                    assert(after[i].id == id);
                } else {
                    assert(after[i + 1].id == id);
                }
            }
            if id == segment.id {
                assert(after[at].id == id);
            }
            if has_segment(after, id) {
                let i = segment_place(after, id);
                if i < at {
                    assert(segments[i].id == id);
                } else if i > at {
                    assert(segments[i - 1].id == id);
                }
            }
        }
        assert forall|id: u64| has_segment(after, id) implies data_of(after, id) == files_of(
            segments,
        ).insert(segment.id, segment.data)[id] by {
            let i = segment_place(after, id);
            lemma_place_unique(after, i);
            if i < at {
                assert(segments[i].id == id);
                lemma_place_unique(segments, i);
            } else if i > at {
                assert(segments[i - 1].id == id);
                lemma_place_unique(segments, i - 1);
            }
        }
        assert(files_of(after) =~= files_of(segments).insert(segment.id, segment.data));
    }
}

/// Normalized segments are ascending.
pub proof fn lemma_normalized_ascending(input: Seq<SegmentView>)
    ensures
        ascending(normalized(input)),
    decreases input.len(),
{
    if input.len() > 0 {
        let table = normalized(input.drop_last());
        let segment = input.last();
        lemma_normalized_ascending(input.drop_last());
        lemma_id_slot_parts(table, segment.id);
        if has_segment(table, segment.id) {
            lemma_placed(table, segment, segment_place(table, segment.id));
        } else {
            lemma_placed(table, segment, id_slot(table, segment.id));
        }
    }
}

/// Ascending segments are normalized already.
pub proof fn lemma_normalized_of_ascending(input: Seq<SegmentView>)
    requires
        ascending(input),
    ensures
        normalized(input) == input,
    decreases input.len(),
{
    if input.len() > 0 {
        let n = input.len() - 1;
        let front = input.drop_last();
        let segment = input.last();
        assert(front =~= input.take(n));
        lemma_ascending_front(input, n);
        lemma_normalized_of_ascending(front);
        assert(segment == input[n]);
        assert(parts_segments(front, segment.id, n)) by {
            assert forall|i: int| 0 <= i < n implies (#[trigger] front[i]).id < segment.id by {
                assert(front[i] == input[i]);
                assert(input[i].id < input[n].id);
            }
        }
        if has_segment(front, segment.id) {
            let i = segment_place(front, segment.id);
            assert(front[i].id < segment.id);
        }
        lemma_placed(front, segment, n);
        assert(front.insert(n, segment) =~= input);
    }
}

/// The files that a list of segments stands for: each segment is the file
/// of its id; of two with the same id, the later one counts.
pub open spec fn files_given(input: Seq<SegmentView>) -> Map<u64, Seq<u8>>
    decreases input.len(),
{
    if input.len() == 0 {
        Map::empty()
    } else {
        files_given(input.drop_last()).insert(input.last().id, input.last().data)
    }
}

/// Normalizing keeps the files.
pub proof fn lemma_normalized_files(input: Seq<SegmentView>)
    ensures
        files_of(normalized(input)) == files_given(input),
    decreases input.len(),
{
    if input.len() == 0 {
        assert(files_of(normalized(input)) =~= files_given(input));
    } else {
        let table = normalized(input.drop_last());
        let segment = input.last();
        lemma_normalized_files(input.drop_last());
        lemma_normalized_ascending(input.drop_last());
        lemma_id_slot_parts(table, segment.id);
        if has_segment(table, segment.id) {
            lemma_placed(table, segment, segment_place(table, segment.id));
        } else {
            lemma_placed(table, segment, id_slot(table, segment.id));
        }
    }
}

/// Two ascending lists of segments that are the same files are the same
/// list.
pub proof fn lemma_segments_unique(a: Seq<SegmentView>, b: Seq<SegmentView>)
    requires
        ascending(a),
        ascending(b),
        files_of(a) == files_of(b),
    ensures
        a == b,
    decreases a.len(),
{
    if a.len() == 0 {
        if b.len() > 0 {
            lemma_place_unique(b, 0);
            assert(files_of(b).contains_key(b[0].id));
            assert(files_of(a).contains_key(b[0].id));
        }
        assert(a =~= b);
    } else {
        let last_a = a.len() - 1;
        let top = a[last_a].id;
        lemma_place_unique(a, last_a);
        assert(files_of(a).contains_key(top));
        assert(files_of(b).contains_key(top));
        let at = segment_place(b, top);
        let last_b = b.len() - 1;
        lemma_place_unique(b, last_b);
        if at < last_b {
            let other = b[last_b].id;
            assert(files_of(b).contains_key(other));
            assert(files_of(a).contains_key(other));
            let back = segment_place(a, other);
            assert(b[at].id < b[last_b].id);
            assert(back < last_a);
            assert(a[back].id < a[last_a].id);
        }
        assert(files_of(a)[top] == a[last_a].data);
        assert(files_of(b)[top] == b[last_b].data);
        assert(a[last_a] == b[last_b]);
        let front_a = a.drop_last();
        let front_b = b.drop_last();
        assert(front_a =~= a.take(last_a));
        assert(front_b =~= b.take(last_b));
        lemma_ascending_front(a, last_a);
        lemma_ascending_front(b, last_b);
        assert forall|id: u64| has_segment(front_a, id) == (has_segment(a, id) && id != top) by {
            if has_segment(front_a, id) {
                let i = segment_place(front_a, id);
                assert(a[i].id == id);
                assert(a[i].id < a[last_a].id);
            }
            if has_segment(a, id) && id != top {
                let i = segment_place(a, id);
                assert(front_a[i].id == id);
            }
        }
        assert forall|id: u64| has_segment(front_b, id) == (has_segment(b, id) && id != top) by {
            if has_segment(front_b, id) {
                let i = segment_place(front_b, id);
                assert(b[i].id == id);
                assert(b[i].id < b[last_b].id);
            }
            if has_segment(b, id) && id != top {
                let i = segment_place(b, id);
                assert(front_b[i].id == id);
            }
        }
        assert forall|id: u64| has_segment(front_a, id) implies data_of(front_a, id) == data_of(
            front_b,
            id,
        ) by {
            let i = segment_place(front_a, id);
            lemma_place_unique(front_a, i);
            assert(a[i].id == id);
            lemma_place_unique(a, i);
            assert(has_segment(a, id) && id != top);
            assert(files_of(a).contains_key(id));
            assert(files_of(b).contains_key(id));
            assert(has_segment(b, id));
            assert(has_segment(front_b, id));
            let j = segment_place(front_b, id);
            lemma_place_unique(front_b, j);
            assert(b[j].id == id);
            lemma_place_unique(b, j);
            assert(files_of(a)[id] == a[i].data);
            assert(files_of(b)[id] == b[j].data);
        }
        assert forall|id: u64| has_segment(front_a, id) == has_segment(front_b, id) by {
            assert(files_of(a).contains_key(id) == has_segment(a, id));
            assert(files_of(b).contains_key(id) == has_segment(b, id));
        }
        assert(files_of(front_a) =~= files_of(front_b));
        lemma_segments_unique(front_a, front_b);
        assert(a =~= front_a.push(a[last_a]));
        assert(b =~= front_b.push(b[last_b]));
    }
}

} // verus!

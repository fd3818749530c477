//! The index of the store: for each live key, where its latest record lies.
//!
//! The entries are kept in the order of their keys' bytes, so that a key is
//! found by bisection and the entries can be walked in a fixed order: the
//! order in which an ordered map of strings would hand them out.
//!
//! The ordered map of the standard library would not do. Verus has no
//! model of how strings compare, so of a map with such keys it proves
//! nothing, not even that one insertion leaves one entry. The order here
//! is this module's own, with its laws proved.

use crate::command::LogPointer;
use vstd::prelude::*;
use vstd::utf8::encode_utf8;

verus! {

/// One entry of the index.
pub struct EntryView {
    pub key: Seq<char>,
    pub pointer: LogPointer,
}

/// Whether `a` and `b` agree before `i` and `a` is the smaller one at `i`:
/// it ends there, or holds the smaller byte.
pub open spec fn parts_at(a: Seq<u8>, b: Seq<u8>, i: int) -> bool {
    &&& 0 <= i <= a.len()
    &&& i < b.len()
    &&& forall|j: int| 0 <= j < i ==> a[j] == b[j]
    &&& (i == a.len() || a[i] < b[i])
}

/// Whether `a` comes before `b` in the order of the dictionary.
pub open spec fn bytes_before(a: Seq<u8>, b: Seq<u8>) -> bool {
    exists|i: int| parts_at(a, b, i)
}

/// Whether the key `a` comes before the key `b`: by their bytes in UTF-8.
pub open spec fn key_before(a: Seq<char>, b: Seq<char>) -> bool {
    bytes_before(encode_utf8(a), encode_utf8(b))
}

/// No sequence of bytes comes before itself, and of two, at most one comes
/// before the other.
pub proof fn lemma_bytes_before_asymmetric(a: Seq<u8>, b: Seq<u8>)
    requires
        bytes_before(a, b),
    ensures
        !bytes_before(b, a),
        a != b,
{
    let i = choose|i: int| parts_at(a, b, i);
    if bytes_before(b, a) {
        let j = choose|j: int| parts_at(b, a, j);
        if i < j {
            assert(b[i] == a[i]);
        } else if j < i {
            assert(a[j] == b[j]);
        }
    }
}

/// The order of byte sequences is transitive.
pub proof fn lemma_bytes_before_transitive(a: Seq<u8>, b: Seq<u8>, c: Seq<u8>)
    requires
        bytes_before(a, b),
        bytes_before(b, c),
    ensures
        bytes_before(a, c),
{
    let i = choose|i: int| parts_at(a, b, i);
    let j = choose|j: int| parts_at(b, c, j);
    if i <= j {
        assert(parts_at(a, c, i));
    } else {
        assert(a[j] == b[j]);
        assert(parts_at(a, c, j));
    }
}

/// Two keys with the same bytes are the same key.
pub proof fn lemma_key_bytes_injective(a: Seq<char>, b: Seq<char>)
    requires
        encode_utf8(a) == encode_utf8(b),
    ensures
        a == b,
{
    vstd::utf8::encode_utf8_decode_utf8(a);
    vstd::utf8::encode_utf8_decode_utf8(b);
}

/// A key does not come before itself.
pub proof fn lemma_key_before_asymmetric(a: Seq<char>, b: Seq<char>)
    requires
        key_before(a, b),
    ensures
        !key_before(b, a),
        a != b,
{
    lemma_bytes_before_asymmetric(encode_utf8(a), encode_utf8(b));
}

/// The order of keys is transitive.
pub proof fn lemma_key_before_transitive(a: Seq<char>, b: Seq<char>, c: Seq<char>)
    requires
        key_before(a, b),
        key_before(b, c),
    ensures
        key_before(a, c),
{
    lemma_bytes_before_transitive(encode_utf8(a), encode_utf8(b), encode_utf8(c));
}

/// Of two sequences of bytes that agree before `i` and are not the same, one
/// comes before the other.
proof fn lemma_first_difference(a: Seq<u8>, b: Seq<u8>, i: int)
    requires
        a != b,
        0 <= i <= a.len(),
        i <= b.len(),
        forall|j: int| 0 <= j < i ==> a[j] == b[j],
    ensures
        bytes_before(a, b) || bytes_before(b, a),
    decreases a.len() - i,
{
    if i == a.len() {
        if i == b.len() {
            assert(a =~= b);
        } else {
            assert(parts_at(a, b, i));
        }
    } else if i == b.len() {
        assert(parts_at(b, a, i));
    } else if a[i] < b[i] {
        assert(parts_at(a, b, i));
    } else if a[i] > b[i] {
        assert(parts_at(b, a, i));
    } else {
        lemma_first_difference(a, b, i + 1);
    }
}

/// Of two different keys, one comes before the other.
pub proof fn lemma_key_before_total(a: Seq<char>, b: Seq<char>)
    requires
        a != b,
    ensures
        key_before(a, b) || key_before(b, a),
{
    if encode_utf8(a) == encode_utf8(b) {
        lemma_key_bytes_injective(a, b);
    } else {
        lemma_first_difference(encode_utf8(a), encode_utf8(b), 0);
    }
}

/// Whether the entries stand in the strict order of their keys.
pub open spec fn sorted(entries: Seq<EntryView>) -> bool {
    forall|i: int, j: int|
        0 <= i < j < entries.len() ==> key_before(
            (#[trigger] entries[i]).key,
            (#[trigger] entries[j]).key,
        )
}

/// Whether some entry has the key `key`.
pub open spec fn holds(entries: Seq<EntryView>, key: Seq<char>) -> bool {
    exists|i: int| 0 <= i < entries.len() && (#[trigger] entries[i]).key == key
}

/// The place of the entry with the key `key`.
pub open spec fn position(entries: Seq<EntryView>, key: Seq<char>) -> int {
    choose|i: int| 0 <= i < entries.len() && (#[trigger] entries[i]).key == key
}

/// The number of entries whose key comes before `key`: in sorted entries,
/// the place at which an entry with that key belongs.
pub open spec fn slot(entries: Seq<EntryView>, key: Seq<char>) -> int
    decreases entries.len(),
{
    if entries.len() == 0 {
        0
    } else {
        slot(entries.drop_last(), key) + if key_before(entries.last().key, key) {
            1int
        } else {
            0int
        }
    }
}

/// The pointer that the entries hold for `key`.
pub open spec fn lookup(entries: Seq<EntryView>, key: Seq<char>) -> Option<LogPointer> {
    if holds(entries, key) {
        Some(entries[position(entries, key)].pointer)
    } else {
        None
    }
}

/// The entries as a map from keys to pointers.
pub open spec fn index_map(entries: Seq<EntryView>) -> Map<Seq<char>, LogPointer> {
    Map::new(|key: Seq<char>| holds(entries, key), |key: Seq<char>| entries[position(entries, key)].pointer)
}

/// The entries after `key` was given `pointer`.
pub open spec fn put_entry(entries: Seq<EntryView>, key: Seq<char>, pointer: LogPointer) -> Seq<
    EntryView,
> {
    if holds(entries, key) {
        entries.update(position(entries, key), EntryView { key, pointer })
    } else {
        entries.insert(slot(entries, key), EntryView { key, pointer })
    }
}

/// The entries without the one for `key`.
pub open spec fn drop_entry(entries: Seq<EntryView>, key: Seq<char>) -> Seq<EntryView> {
    if holds(entries, key) {
        entries.remove(position(entries, key))
    } else {
        entries
    }
}

/// Whether `at` parts the entries into those before `key` and the rest.
pub open spec fn parts_entries(entries: Seq<EntryView>, key: Seq<char>, at: int) -> bool {
    &&& 0 <= at <= entries.len()
    &&& forall|i: int| 0 <= i < at ==> key_before((#[trigger] entries[i]).key, key)
    &&& forall|i: int| at <= i < entries.len() ==> !key_before((#[trigger] entries[i]).key, key)
}

/// The place that parts the entries at `key` is the key's slot.
pub proof fn lemma_slot_is_part(entries: Seq<EntryView>, key: Seq<char>, at: int)
    requires
        parts_entries(entries, key, at),
    ensures
        slot(entries, key) == at,
    decreases entries.len(),
{
    if entries.len() > 0 {
        let front = entries.drop_last();
        assert(entries.last() == entries[entries.len() - 1]);
        if at == entries.len() {
            assert forall|i: int| 0 <= i < at - 1 implies key_before(
                (#[trigger] front[i]).key,
                key,
            ) by {
                assert(front[i] == entries[i]);
            }
            lemma_slot_is_part(front, key, at - 1);
        } else {
            assert forall|i: int| 0 <= i < at implies key_before((#[trigger] front[i]).key, key) by {
                assert(front[i] == entries[i]);
            }
            assert forall|i: int| at <= i < front.len() implies !key_before(
                (#[trigger] front[i]).key,
                key,
            ) by {
                assert(front[i] == entries[i]);
            }
            lemma_slot_is_part(front, key, at);
        }
    }
}

/// A part of sorted entries is sorted.
pub proof fn lemma_sorted_front(entries: Seq<EntryView>, n: int)
    requires
        sorted(entries),
        0 <= n <= entries.len(),
    ensures
        sorted(entries.take(n)),
{
    let front = entries.take(n);
    assert forall|i: int, j: int| 0 <= i < j < front.len() implies key_before(
        (#[trigger] front[i]).key,
        (#[trigger] front[j]).key,
    ) by {
        assert(front[i] == entries[i]);
        assert(front[j] == entries[j]);
    }
}

/// In sorted entries, the slot of a key parts the entries at that key; and
/// where no entry has the key, the key comes before all that follow.
pub proof fn lemma_slot_parts(entries: Seq<EntryView>, key: Seq<char>)
    requires
        sorted(entries),
    ensures
        parts_entries(entries, key, slot(entries, key)),
        !holds(entries, key) ==> forall|i: int|
            slot(entries, key) <= i < entries.len() ==> key_before(
                key,
                (#[trigger] entries[i]).key,
            ),
    decreases entries.len(),
{
    if entries.len() > 0 {
        let n = entries.len() - 1;
        let front = entries.drop_last();
        assert(front =~= entries.take(n));
        lemma_sorted_front(entries, n);
        lemma_slot_parts(front, key);
        assert(entries.last() == entries[n]);
        assert forall|i: int| 0 <= i < n implies front[i] == entries[i] by {}
        if key_before(entries[n].key, key) {
            assert forall|i: int| 0 <= i < n implies key_before((#[trigger] front[i]).key, key) by {
                assert(front[i] == entries[i]);
                lemma_key_before_transitive(entries[i].key, entries[n].key, key);
            }
            assert(parts_entries(front, key, n));
            lemma_slot_is_part(front, key, n);
            assert forall|i: int| 0 <= i < slot(entries, key) implies key_before(
                (#[trigger] entries[i]).key,
                key,
            ) by {
                if i < n {
                    assert(front[i] == entries[i]);
                }
            }
        } else {
            let at = slot(front, key);
            assert forall|i: int| 0 <= i < at implies key_before((#[trigger] entries[i]).key, key) by {
                assert(front[i] == entries[i]);
            }
            assert forall|i: int| at <= i < entries.len() implies !key_before(
                (#[trigger] entries[i]).key,
                key,
            ) by {
                if i < n {
                    assert(front[i] == entries[i]);
                }
            }
        }
        if !holds(entries, key) {
            assert forall|i: int| slot(entries, key) <= i < entries.len() implies key_before(
                key,
                (#[trigger] entries[i]).key,
            ) by {
                lemma_key_before_total(key, entries[i].key);
            }
        }
    }
}

/// What `put_entry` leaves: sorted entries, whose map is the old one with
/// `key` set to `pointer`.
pub proof fn lemma_put_entry_map(entries: Seq<EntryView>, key: Seq<char>, pointer: LogPointer)
    requires
        sorted(entries),
    ensures
        sorted(put_entry(entries, key, pointer)),
        index_map(put_entry(entries, key, pointer)) == index_map(entries).insert(key, pointer),
{
    lemma_slot_parts(entries, key);
    if holds(entries, key) {
        lemma_put_entry(entries, key, pointer, position(entries, key));
    } else {
        lemma_put_entry(entries, key, pointer, slot(entries, key));
    }
}

/// In sorted entries, the place of a key is the only entry with that key.
pub proof fn lemma_position_unique(entries: Seq<EntryView>, at: int)
    requires
        sorted(entries),
        0 <= at < entries.len(),
    ensures
        holds(entries, entries[at].key),
        position(entries, entries[at].key) == at,
{
    let key = entries[at].key;
    let found = position(entries, key);
    if found < at {
        lemma_key_before_asymmetric(entries[found].key, entries[at].key);
    } else if at < found {
        lemma_key_before_asymmetric(entries[at].key, entries[found].key);
    }
}

/// What `put_entry` leaves: sorted entries, whose map is the old one with
/// `key` set to `pointer`.
pub proof fn lemma_put_entry(entries: Seq<EntryView>, key: Seq<char>, pointer: LogPointer, at: int)
    requires
        sorted(entries),
        holds(entries, key) ==> at == position(entries, key),
        !holds(entries, key) ==> parts_entries(entries, key, at) && forall|i: int|
            at <= i < entries.len() ==> key_before(key, (#[trigger] entries[i]).key),
    ensures
        sorted(put_entry(entries, key, pointer)),
        index_map(put_entry(entries, key, pointer)) == index_map(entries).insert(key, pointer),
        holds(entries, key) ==> put_entry(entries, key, pointer) == entries.update(
            at,
            EntryView { key, pointer },
        ),
        !holds(entries, key) ==> put_entry(entries, key, pointer) == entries.insert(
            at,
            EntryView { key, pointer },
        ),
{
    let after = put_entry(entries, key, pointer);
    let entry = EntryView { key, pointer };
    if holds(entries, key) {
        assert(after == entries.update(at, entry));
        assert forall|i: int, j: int| 0 <= i < j < after.len() implies key_before(
            (#[trigger] after[i]).key,
            (#[trigger] after[j]).key,
        ) by {
            assert(after[i].key == entries[i].key);
            assert(after[j].key == entries[j].key);
        }
        assert forall|other: Seq<char>| holds(after, other) == holds(entries, other) by {
            if holds(entries, other) {
                let i = position(entries, other);
                assert(after[i].key == other);
            }
            if holds(after, other) {
                let i = position(after, other);
                assert(entries[i].key == other);
            }
        }
        assert forall|other: Seq<char>| holds(after, other) implies index_map(after)[other]
            == index_map(entries).insert(key, pointer)[other] by {
            let i = position(after, other);
            assert(entries[i].key == other);
            lemma_position_unique(entries, i);
        }
    } else {
        lemma_slot_is_part(entries, key, at);
        assert(after == entries.insert(at, entry));
        assert forall|i: int, j: int| 0 <= i < j < after.len() implies key_before(
            (#[trigger] after[i]).key,
            (#[trigger] after[j]).key,
        ) by {
            if i < at {
                assert(after[i] == entries[i]);
            } else if i > at {
                assert(after[i] == entries[i - 1]);
            }
            if j < at {
                assert(after[j] == entries[j]);
            } else if j > at {
                assert(after[j] == entries[j - 1]);
            }
        }
        assert forall|other: Seq<char>| holds(after, other) == (other == key || holds(
            entries,
            other,
        )) by {
            if holds(entries, other) {
                let i = position(entries, other);
                if i < at {
                    assert(after[i].key == other);
                } else {
                    assert(after[i + 1].key == other);
                }
            }
            if other == key {
                assert(after[at].key == other);
            }
            if holds(after, other) {
                let i = position(after, other);
                if i < at {
                    assert(entries[i].key == other);
                } else if i > at {
                    assert(entries[i - 1].key == other);
                }
            }
        }
        assert forall|other: Seq<char>| holds(after, other) implies index_map(after)[other]
            == index_map(entries).insert(key, pointer)[other] by {
            let i = position(after, other);
            if i < at {
                assert(entries[i].key == other);
                lemma_position_unique(entries, i);
            } else if i > at {
                assert(entries[i - 1].key == other);
                lemma_position_unique(entries, i - 1);
            }
        }
    }
    assert(index_map(after) =~= index_map(entries).insert(key, pointer));
}

/// What `drop_entry` leaves: sorted entries, whose map is the old one
/// without `key`.
pub proof fn lemma_drop_entry(entries: Seq<EntryView>, key: Seq<char>)
    requires
        sorted(entries),
    ensures
        sorted(drop_entry(entries, key)),
        index_map(drop_entry(entries, key)) == index_map(entries).remove(key),
{
    let after = drop_entry(entries, key);
    if holds(entries, key) {
        let at = position(entries, key);
        assert forall|i: int, j: int| 0 <= i < j < after.len() implies key_before(
            (#[trigger] after[i]).key,
            (#[trigger] after[j]).key,
        ) by {
            if i < at {
                assert(after[i] == entries[i]);
            } else {
                assert(after[i] == entries[i + 1]);
            }
            if j < at {
                assert(after[j] == entries[j]);
            } else {
                assert(after[j] == entries[j + 1]);
            }
        }
        lemma_position_unique(entries, at);
        assert forall|other: Seq<char>| holds(after, other) == (other != key && holds(
            entries,
            other,
        )) by {
            if holds(entries, other) && other != key {
                let i = position(entries, other);
                if i < at {
                    assert(after[i].key == other);
                } else {
                    assert(after[i - 1].key == other);
                }
            }
            if holds(after, other) {
                let i = position(after, other);
                if i < at {
                    assert(entries[i].key == other);
                } else {
                    assert(entries[i + 1].key == other);
                    lemma_position_unique(entries, i + 1);
                }
            }
        }
        assert forall|other: Seq<char>| holds(after, other) implies index_map(after)[other]
            == index_map(entries).remove(key)[other] by {
            let i = position(after, other);
            if i < at {
                assert(entries[i].key == other);
                lemma_position_unique(entries, i);
            } else {
                assert(entries[i + 1].key == other);
                lemma_position_unique(entries, i + 1);
            }
        }
    }
    assert(index_map(after) =~= index_map(entries).remove(key));
}

/// How two sequences of bytes stand to each other.
pub enum Rank {
    /// The first comes before the second.
    Before,
    /// The two are the same.
    Same,
    /// The first comes after the second.
    After,
}

/// Compares two sequences of bytes in the order of the dictionary.
pub fn rank_bytes(a: &[u8], b: &[u8]) -> (rank: Rank)
    ensures
        match rank {
            Rank::Before => bytes_before(a@, b@),
            Rank::Same => a@ == b@,
            Rank::After => bytes_before(b@, a@),
        },
{
    let mut k: usize = 0;
    while k < a.len() && k < b.len()
        invariant
            k <= a.len(),
            k <= b.len(),
            forall|j: int| 0 <= j < k ==> a@[j] == b@[j],
        decreases a.len() - k,
    {
        if a[k] < b[k] {
            assert(parts_at(a@, b@, k as int));
            return Rank::Before;
        }
        if a[k] > b[k] {
            assert(parts_at(b@, a@, k as int));
            return Rank::After;
        }
        k += 1;
    }
    if a.len() < b.len() {
        assert(parts_at(a@, b@, k as int));
        Rank::Before
    } else if a.len() > b.len() {
        assert(parts_at(b@, a@, k as int));
        Rank::After
    } else {
        assert(a@ =~= b@);
        Rank::Same
    }
}

/// The index: the live keys, each with the pointer to its latest record.
pub struct Index {
    keys: Vec<String>,
    pointers: Vec<LogPointer>,
}

impl Index {
    /// The entries, in the order of their keys.
    pub closed spec fn entries(&self) -> Seq<EntryView> {
        Seq::new(
            self.keys@.len(),
            |i: int| EntryView { key: self.keys@[i]@, pointer: self.pointers@[i] },
        )
    }

    /// Whether the index is consistent: no key twice, the keys in order.
    pub closed spec fn wf(&self) -> bool {
        &&& self.keys@.len() == self.pointers@.len()
        &&& sorted(self.entries())
    }

    /// A well-formed index has sorted entries.
    pub proof fn lemma_wf_sorted(&self)
        requires
            self.wf(),
        ensures
            sorted(self.entries()),
    {
    }

    /// The empty index.
    pub fn new() -> (index: Index)
        ensures
            index.wf(),
            index.entries() == Seq::<EntryView>::empty(),
    {
        let index = Index { keys: Vec::new(), pointers: Vec::new() };
        assert(index.entries() =~= Seq::<EntryView>::empty());
        index
    }

    /// The number of entries.
    pub fn len(&self) -> (n: usize)
        requires
            self.wf(),
        ensures
            n == self.entries().len(),
    {
        self.keys.len()
    }

    /// The key of the entry at `at`.
    pub fn key_at(&self, at: usize) -> (key: &String)
        requires
            self.wf(),
            at < self.entries().len(),
        ensures
            key@ == self.entries()[at as int].key,
    {
        &self.keys[at]
    }

    /// The pointer of the entry at `at`.
    pub fn pointer_at(&self, at: usize) -> (pointer: LogPointer)
        requires
            self.wf(),
            at < self.entries().len(),
        ensures
            pointer == self.entries()[at as int].pointer,
    {
        self.pointers[at]
    }

    /// Gives the entry at `at` the pointer `pointer`.
    pub fn set_pointer(&mut self, at: usize, pointer: LogPointer)
        requires
            old(self).wf(),
            at < old(self).entries().len(),
        ensures
            final(self).wf(),
            final(self).entries() == old(self).entries().update(
                at as int,
                EntryView { key: old(self).entries()[at as int].key, pointer },
            ),
    {
        self.pointers.set(at, pointer);
        let ghost before = old(self).entries();
        let ghost after = self.entries();
        assert(after =~= before.update(at as int, EntryView { key: before[at as int].key, pointer }));
        assert forall|i: int, j: int| 0 <= i < j < after.len() implies key_before(
            (#[trigger] after[i]).key,
            (#[trigger] after[j]).key,
        ) by {
            assert(after[i].key == before[i].key);
            assert(after[j].key == before[j].key);
        }
    }

    /// Bisects for `key`: whether an entry has it, and the place where that
    /// entry stands or would belong.
    pub fn find(&self, key: &str) -> (found: (bool, usize))
        requires
            self.wf(),
        ensures
            found.0 == holds(self.entries(), key@),
            found.0 ==> found.1 == position(self.entries(), key@),
            !found.0 ==> parts_entries(self.entries(), key@, found.1 as int) && forall|i: int|
                found.1 <= i < self.entries().len() ==> key_before(
                    key@,
                    (#[trigger] self.entries()[i]).key,
                ),
    {
        let ghost entries = self.entries();
        let wanted = key.as_bytes();
        let mut low: usize = 0;
        let mut high: usize = self.keys.len();
        while low < high
            invariant
                self.wf(),
                entries == self.entries(),
                wanted@ == encode_utf8(key@),
                low <= high <= entries.len(),
                forall|i: int| 0 <= i < low ==> key_before((#[trigger] entries[i]).key, key@),
                forall|i: int|
                    high <= i < entries.len() ==> key_before(key@, (#[trigger] entries[i]).key),
            decreases high - low,
        {
            let mid = low + (high - low) / 2;
            let here = self.keys[mid].as_str().as_bytes();
            assert(here@ == encode_utf8(entries[mid as int].key));
            match rank_bytes(here, wanted) {
                Rank::Before => {
                    assert forall|i: int| 0 <= i < mid + 1 implies key_before(
                        (#[trigger] entries[i]).key,
                        key@,
                    ) by {
                        if i < mid {
                            lemma_key_before_transitive(
                                entries[i].key,
                                entries[mid as int].key,
                                key@,
                            );
                        }
                    }
                    low = mid + 1;
                },
                Rank::After => {
                    assert forall|i: int| mid <= i < entries.len() implies key_before(
                        key@,
                        (#[trigger] entries[i]).key,
                    ) by {
                        if i > mid {
                            lemma_key_before_transitive(
                                key@,
                                entries[mid as int].key,
                                entries[i].key,
                            );
                        }
                    }
                    high = mid;
                },
                Rank::Same => {
                    proof {
                        lemma_key_bytes_injective(entries[mid as int].key, key@);
                        lemma_position_unique(entries, mid as int);
                    }
                    return (true, mid);
                },
            }
        }
        proof {
            assert forall|i: int| low <= i < entries.len() implies !key_before(
                (#[trigger] entries[i]).key,
                key@,
            ) by {
                lemma_key_before_asymmetric(key@, entries[i].key);
            }
            if holds(entries, key@) {
                let i = position(entries, key@);
                if i < low {
                    lemma_key_before_asymmetric(entries[i].key, key@);
                } else {
                    lemma_key_before_asymmetric(key@, entries[i].key);
                }
            }
        }
        (false, low)
    }

    /// The pointer that the index holds for `key`.
    pub fn get(&self, key: &str) -> (pointer: Option<LogPointer>)
        requires
            self.wf(),
        ensures
            pointer == lookup(self.entries(), key@),
    {
        let (found, at) = self.find(key);
        if found {
            Some(self.pointers[at])
        } else {
            None
        }
    }

    /// Gives `key` the pointer `pointer`, and returns the pointer that it
    /// had before.
    pub fn insert(&mut self, key: String, pointer: LogPointer) -> (before: Option<LogPointer>)
        requires
            old(self).wf(),
        ensures
            final(self).wf(),
            final(self).entries() == put_entry(old(self).entries(), key@, pointer),
            before == lookup(old(self).entries(), key@),
    {
        let ghost entries = self.entries();
        let (found, at) = self.find(key.as_str());
        proof {
            lemma_put_entry(entries, key@, pointer, at as int);
        }
        if found {
            let before = self.pointers[at];
            self.pointers.set(at, pointer);
            assert(self.entries() =~= entries.update(at as int, EntryView { key: key@, pointer }));
            Some(before)
        } else {
            self.keys.insert(at, key);
            self.pointers.insert(at, pointer);
            assert(self.entries() =~= entries.insert(at as int, EntryView { key: key@, pointer }));
            None
        }
    }

    /// Takes the entry for `key` out, and returns the pointer that it had.
    pub fn remove(&mut self, key: &str) -> (before: Option<LogPointer>)
        requires
            old(self).wf(),
        ensures
            final(self).wf(),
            final(self).entries() == drop_entry(old(self).entries(), key@),
            before == lookup(old(self).entries(), key@),
    {
        let ghost entries = self.entries();
        let (found, at) = self.find(key);
        proof {
            lemma_drop_entry(entries, key@);
        }
        if found {
            let _ = self.keys.remove(at);
            let before = self.pointers.remove(at);
            assert(self.entries() =~= entries.remove(at as int));
            Some(before)
        } else {
            None
        }
    }
}

} // verus!

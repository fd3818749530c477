//! The text of a record in the log, and how it is read back.
//!
//! A record is one JSON object without white space. For a key `k` and a value
//! `v`, with `K` and `V` the JSON texts of the two strings:
//!
//! ```text
//! {"Set":{"key":K,"value":V}}
//! {"Remove":{"key":K}}
//! ```
//!
//! The frame around the strings is this module's own; the text of a string is
//! `serde_json`'s. Reading finds the end of each string by its closing quote,
//! so a record can be read from the middle of a segment without looking at
//! its neighbours.
//!
//! Writing goes in two steps: `serde_json` gives the texts of the strings,
//! and `build_put` or `build_remove` sets the frame around them. Reading
//! goes in two steps too: `scan` finds where the texts of the strings lie,
//! and `serde_json` reads the strings from them.

use crate::command::{Command, CommandView};
use crate::error::KvsError;
use crate::json::{json_string, json_text, read_string, write_string};
use vstd::prelude::*;
use vstd::slice::slice_subrange;
use vstd::string::StringSliceAdditionalSpecFns;

verus! {

/// The bytes of the text `s`.
pub open spec fn text_bytes(s: &str) -> Seq<u8> {
    s.spec_bytes()
}

/// What stands before the key of a record that sets a key.
pub open spec fn put_head() -> Seq<u8> {
    text_bytes("{\"Set\":{\"key\":")
}

/// What stands between the key and the value.
pub open spec fn value_label() -> Seq<u8> {
    text_bytes(",\"value\":")
}

/// What stands before the key of a record that removes a key.
pub open spec fn remove_head() -> Seq<u8> {
    text_bytes("{\"Remove\":{\"key\":")
}

/// What closes a record.
pub open spec fn record_tail() -> Seq<u8> {
    text_bytes("}}")
}

/// The record that sets a key, given the JSON texts of key and value.
pub open spec fn frame_put(key_text: Seq<u8>, value_text: Seq<u8>) -> Seq<u8> {
    put_head() + key_text + value_label() + value_text + record_tail()
}

/// The record that removes a key, given the JSON text of the key.
pub open spec fn frame_remove(key_text: Seq<u8>) -> Seq<u8> {
    remove_head() + key_text + record_tail()
}

/// The record of a command; `None` where a string of it has no JSON text.
pub open spec fn record_of(command: CommandView) -> Option<Seq<u8>> {
    match command {
        CommandView::Put { key, value } => match (json_text(key), json_text(value)) {
            (Some(key_text), Some(value_text)) => Some(frame_put(key_text, value_text)),
            _ => None,
        },
        CommandView::Remove { key } => match json_text(key) {
            Some(key_text) => Some(frame_remove(key_text)),
            None => None,
        },
    }
}

/// Whether `literal` stands in `data` at `pos`.
pub open spec fn has_at(data: Seq<u8>, pos: int, literal: Seq<u8>) -> bool {
    &&& 0 <= pos
    &&& pos + literal.len() <= data.len()
    &&& data.subrange(pos, pos + literal.len()) == literal
}

/// The byte `"`.
pub const QUOTE: u8 = 0x22;

/// The byte `\`.
pub const BACKSLASH: u8 = 0x5c;

/// Scanning inside a JSON string from `i`: the index just behind the quote
/// that closes it. A backslash takes the byte after it along.
pub open spec fn literal_close(data: Seq<u8>, i: int) -> Option<int>
    decreases data.len() - i,
{
    if i < 0 || i >= data.len() {
        None
    } else if data[i] == QUOTE {
        Some(i + 1)
    } else if data[i] == BACKSLASH {
        if i + 1 < data.len() {
            literal_close(data, i + 2)
        } else {
            None
        }
    } else {
        literal_close(data, i + 1)
    }
}

/// The end of the JSON string that opens at `pos`.
pub open spec fn literal_end(data: Seq<u8>, pos: int) -> Option<int> {
    if 0 <= pos < data.len() && data[pos] == QUOTE {
        literal_close(data, pos + 1)
    } else {
        None
    }
}

/// A stretch of bytes: from `start` up to, not including, `end`.
pub struct SpanView {
    pub start: int,
    pub end: int,
}

/// Where the parts of a record lie.
pub enum LayoutView {
    /// A record that sets a key: the texts of key and value, and the
    /// offset at which the next record starts.
    Put { key: SpanView, value: SpanView, next: int },
    /// A record that removes a key: the text of the key, and the offset at
    /// which the next record starts.
    Remove { key: SpanView, next: int },
}

impl LayoutView {
    /// The offset at which the next record starts.
    pub open spec fn next(self) -> int {
        match self {
            LayoutView::Put { next, .. } => next,
            LayoutView::Remove { next, .. } => next,
        }
    }

    /// The layout, moved on by `shift` bytes.
    pub open spec fn shifted(self, shift: int) -> LayoutView {
        match self {
            LayoutView::Put { key, value, next } => LayoutView::Put {
                key: SpanView { start: key.start + shift, end: key.end + shift },
                value: SpanView { start: value.start + shift, end: value.end + shift },
                next: next + shift,
            },
            LayoutView::Remove { key, next } => LayoutView::Remove {
                key: SpanView { start: key.start + shift, end: key.end + shift },
                next: next + shift,
            },
        }
    }
}

/// The bytes of a stretch.
pub open spec fn text_in(data: Seq<u8>, span: SpanView) -> Seq<u8> {
    data.subrange(span.start, span.end)
}

/// The layout of the record that starts at `pos` in `data`; `None` where
/// the bytes there are not framed as a record.
pub open spec fn layout_at(data: Seq<u8>, pos: int) -> Option<LayoutView> {
    if has_at(data, pos, put_head()) {
        let key_start = pos + put_head().len();
        match literal_end(data, key_start) {
            Some(key_end) => if has_at(data, key_end, value_label()) {
                let value_start = key_end + value_label().len();
                match literal_end(data, value_start) {
                    Some(value_end) => if has_at(data, value_end, record_tail()) {
                        Some(
                            LayoutView::Put {
                                key: SpanView { start: key_start, end: key_end },
                                value: SpanView { start: value_start, end: value_end },
                                next: value_end + record_tail().len(),
                            },
                        )
                    } else {
                        None
                    },
                    None => None,
                }
            } else {
                None
            },
            None => None,
        }
    } else if has_at(data, pos, remove_head()) {
        let key_start = pos + remove_head().len();
        match literal_end(data, key_start) {
            Some(key_end) => if has_at(data, key_end, record_tail()) {
                Some(
                    LayoutView::Remove {
                        key: SpanView { start: key_start, end: key_end },
                        next: key_end + record_tail().len(),
                    },
                )
            } else {
                None
            },
            None => None,
        }
    } else {
        None
    }
}

/// A record read from the log, and the offset at which the next one starts.
pub struct ReadRecord {
    pub command: CommandView,
    pub next: int,
}

/// The record with the layout `layout`, given the strings that the texts of
/// key and value are read as; `None` where one of them is not read.
pub open spec fn assembled(
    layout: LayoutView,
    key: Option<Seq<char>>,
    value: Option<Seq<char>>,
) -> Option<ReadRecord> {
    match layout {
        LayoutView::Put { next, .. } => match (key, value) {
            (Some(key), Some(value)) => Some(
                ReadRecord { command: CommandView::Put { key, value }, next },
            ),
            _ => None,
        },
        LayoutView::Remove { next, .. } => match key {
            Some(key) => Some(ReadRecord { command: CommandView::Remove { key }, next }),
            None => None,
        },
    }
}

/// The strings that the texts of key and value of a record are read as;
/// for a record that removes a key the second is `None`.
pub open spec fn strings_in(data: Seq<u8>, layout: LayoutView) -> (
    Option<Seq<char>>,
    Option<Seq<char>>,
) {
    match layout {
        LayoutView::Put { key, value, .. } => (
            json_string(text_in(data, key)),
            json_string(text_in(data, value)),
        ),
        LayoutView::Remove { key, .. } => (json_string(text_in(data, key)), None),
    }
}

/// The record that starts at `pos` in `data`, and the offset at which the
/// next one starts; `None` where no well-formed record starts there.
pub open spec fn decode_at(data: Seq<u8>, pos: int) -> Option<ReadRecord> {
    match layout_at(data, pos) {
        Some(layout) => {
            let strings = strings_in(data, layout);
            assembled(layout, strings.0, strings.1)
        },
        None => None,
    }
}

/// Whether `data`, taken whole, is the record of `command`.
pub open spec fn is_record_of(data: Seq<u8>, command: CommandView) -> bool {
    decode_at(data, 0) == Some(ReadRecord { command, next: data.len() as int })
}

/// The value that `data`, taken as a record, sets; the empty string where
/// it sets none.
pub open spec fn value_set_by(data: Seq<u8>) -> Seq<char> {
    match decode_at(data, 0) {
        Some(ReadRecord { command: CommandView::Put { value, .. }, .. }) => value,
        _ => Seq::empty(),
    }
}

/// Whether `data`, taken whole, is a record that sets `key`.
pub open spec fn is_put_record(data: Seq<u8>, key: Seq<char>) -> bool {
    is_record_of(data, CommandView::Put { key, value: value_set_by(data) })
}

/// Whether the record of `command` reads back as `command`, whole.
pub open spec fn faithful(command: CommandView) -> bool {
    match record_of(command) {
        Some(record) => is_record_of(record, command),
        None => false,
    }
}

/// The head of a record that sets a key is no longer than the other head.
proof fn lemma_head_lengths()
    ensures
        put_head().len() == 14,
        remove_head().len() == 17,
{
    reveal_strlit("{\"Set\":{\"key\":");
    reveal_strlit("{\"Remove\":{\"key\":");
    vstd::utf8::is_ascii_chars_encode_utf8("{\"Set\":{\"key\":"@);
    vstd::utf8::is_ascii_chars_encode_utf8("{\"Remove\":{\"key\":"@);
}

/// A closing quote lies behind the place where the scan began, and inside
/// the data.
pub proof fn lemma_close_bounds(data: Seq<u8>, i: int)
    requires
        literal_close(data, i) is Some,
    ensures
        i < literal_close(data, i)->0 <= data.len(),
    decreases data.len() - i,
{
    if data[i] == QUOTE {
    } else if data[i] == BACKSLASH {
        lemma_close_bounds(data, i + 2);
    } else {
        lemma_close_bounds(data, i + 1);
    }
}

/// A record has at least one byte and ends inside the data, and the texts
/// of its strings lie inside the record, one behind the other.
pub proof fn lemma_layout_bounds(data: Seq<u8>, pos: int)
    requires
        layout_at(data, pos) is Some,
    ensures
        0 <= pos < layout_at(data, pos)->0.next() <= data.len(),
        match layout_at(data, pos)->0 {
            LayoutView::Put { key, value, next } => pos <= key.start < key.end <= value.start
                < value.end <= next,
            LayoutView::Remove { key, next } => pos <= key.start < key.end <= next,
        },
{
    if has_at(data, pos, put_head()) {
        let key_start = pos + put_head().len();
        lemma_close_bounds(data, key_start + 1);
        let key_end = literal_end(data, key_start)->0;
        lemma_close_bounds(data, key_end + value_label().len() + 1);
    } else {
        let key_start = pos + remove_head().len();
        lemma_close_bounds(data, key_start + 1);
    }
}

/// A record has at least one byte and ends inside the data.
pub proof fn lemma_decode_bounds(data: Seq<u8>, pos: int)
    requires
        decode_at(data, pos) is Some,
    ensures
        0 <= pos < decode_at(data, pos)->0.next <= data.len(),
{
    lemma_layout_bounds(data, pos);
}

/// The scan for a closing quote sees only the bytes up to that quote: where
/// `b` holds, `shift` further on, the bytes that `a` holds from `i` to
/// `limit`, the scan ends at the same place, `shift` further on.
proof fn lemma_close_relocates(a: Seq<u8>, i: int, b: Seq<u8>, shift: int, limit: int)
    requires
        literal_close(a, i) is Some,
        literal_close(a, i)->0 <= limit <= a.len(),
        0 <= i + shift,
        limit + shift <= b.len(),
        forall|j: int| i <= j < limit ==> a[j] == #[trigger] b[j + shift],
    ensures
        literal_close(b, i + shift) == Some(literal_close(a, i)->0 + shift),
    decreases a.len() - i,
{
    lemma_close_bounds(a, i);
    assert(a[i] == b[i + shift]);
    if a[i] == QUOTE {
    } else if a[i] == BACKSLASH {
        lemma_close_relocates(a, i + 2, b, shift, limit);
    } else {
        lemma_close_relocates(a, i + 1, b, shift, limit);
    }
}

/// As `lemma_close_relocates`, for a literal that stands at `pos`.
proof fn lemma_has_at_relocates(
    a: Seq<u8>,
    pos: int,
    b: Seq<u8>,
    shift: int,
    limit: int,
    low: int,
    literal: Seq<u8>,
)
    requires
        has_at(a, pos, literal),
        0 <= low <= pos,
        pos + literal.len() <= limit <= a.len(),
        0 <= low + shift,
        limit + shift <= b.len(),
        forall|j: int| low <= j < limit ==> a[j] == #[trigger] b[j + shift],
    ensures
        has_at(b, pos + shift, literal),
{
    let there = b.subrange(pos + shift, pos + shift + literal.len());
    assert forall|k: int| 0 <= k < literal.len() implies there[k] == literal[k] by {
        assert(a.subrange(pos, pos + literal.len())[k] == a[pos + k]);
        assert(b[(pos + k) + shift] == a[pos + k]);
    }
    assert(there =~= literal);
}

/// As `lemma_close_relocates`, for the string that opens at `pos`.
proof fn lemma_literal_relocates(
    a: Seq<u8>,
    pos: int,
    b: Seq<u8>,
    shift: int,
    limit: int,
    low: int,
)
    requires
        literal_end(a, pos) is Some,
        0 <= low <= pos,
        literal_end(a, pos)->0 <= limit <= a.len(),
        0 <= low + shift,
        limit + shift <= b.len(),
        forall|j: int| low <= j < limit ==> a[j] == #[trigger] b[j + shift],
    ensures
        literal_end(b, pos + shift) == Some(literal_end(a, pos)->0 + shift),
        b.subrange(pos + shift, literal_end(a, pos)->0 + shift) == a.subrange(
            pos,
            literal_end(a, pos)->0,
        ),
{
    let end = literal_end(a, pos)->0;
    lemma_close_bounds(a, pos + 1);
    assert(a[pos] == b[pos + shift]);
    lemma_close_relocates(a, pos + 1, b, shift, limit);
    let here = a.subrange(pos, end);
    let there = b.subrange(pos + shift, end + shift);
    assert forall|k: int| 0 <= k < here.len() implies here[k] == there[k] by {
        assert(b[(pos + k) + shift] == a[pos + k]);
    }
    assert(here =~= there);
}

/// Scanning a record sees only the bytes of that record: where `b` holds at
/// `pb` the bytes that `a` holds from `pa` to the record's end, `b` has at
/// `pb` the layout that `a` has at `pa`, moved along, and the same texts in
/// it.
pub proof fn lemma_layout_relocates(a: Seq<u8>, pa: int, b: Seq<u8>, pb: int)
    requires
        layout_at(a, pa) is Some,
        0 <= pb,
        pb + (layout_at(a, pa)->0.next() - pa) <= b.len(),
        a.subrange(pa, layout_at(a, pa)->0.next()) == b.subrange(
            pb,
            pb + (layout_at(a, pa)->0.next() - pa),
        ),
    ensures
        layout_at(b, pb) == Some(layout_at(a, pa)->0.shifted(pb - pa)),
        strings_in(b, layout_at(a, pa)->0.shifted(pb - pa)) == strings_in(
            a,
            layout_at(a, pa)->0,
        ),
{
    lemma_layout_bounds(a, pa);
    let next = layout_at(a, pa)->0.next();
    let shift = pb - pa;
    assert forall|j: int| pa <= j < next implies a[j] == #[trigger] b[j + shift] by {
        assert(a.subrange(pa, next)[j - pa] == a[j]);
        assert(b.subrange(pb, pb + (next - pa))[j - pa] == b[j + shift]);
    }
    if has_at(a, pa, put_head()) {
        let key_start = pa + put_head().len();
        lemma_close_bounds(a, key_start + 1);
        let key_end = literal_end(a, key_start)->0;
        let value_start = key_end + value_label().len();
        lemma_close_bounds(a, value_start + 1);
        let value_end = literal_end(a, value_start)->0;
        lemma_has_at_relocates(a, pa, b, shift, next, pa, put_head());
        lemma_literal_relocates(a, key_start, b, shift, next, pa);
        lemma_has_at_relocates(a, key_end, b, shift, next, pa, value_label());
        lemma_literal_relocates(a, value_start, b, shift, next, pa);
        lemma_has_at_relocates(a, value_end, b, shift, next, pa, record_tail());
    } else {
        let key_start = pa + remove_head().len();
        lemma_close_bounds(a, key_start + 1);
        let key_end = literal_end(a, key_start)->0;
        if has_at(b, pb, put_head()) {
            // The shorter head would lie inside the record, and so in `a` too.
            lemma_head_lengths();
            let limit = pb + put_head().len();
            assert forall|j: int| pb <= j < limit implies b[j] == #[trigger] a[j + (-shift)] by {
                assert(a[j - shift] == b[(j - shift) + shift]);
            }
            lemma_has_at_relocates(b, pb, a, -shift, limit, pb, put_head());
        }
        lemma_has_at_relocates(a, pa, b, shift, next, pa, remove_head());
        lemma_literal_relocates(a, key_start, b, shift, next, pa);
        lemma_has_at_relocates(a, key_end, b, shift, next, pa, record_tail());
    }
}

/// Reading a record sees only the bytes of that record: where `b` holds at
/// `pb` the bytes that `a` holds from `pa` to the record's end, the same
/// record is read from `b` at `pb`.
pub proof fn lemma_decode_relocates(a: Seq<u8>, pa: int, b: Seq<u8>, pb: int)
    requires
        decode_at(a, pa) is Some,
        0 <= pb,
        pb + (decode_at(a, pa)->0.next - pa) <= b.len(),
        a.subrange(pa, decode_at(a, pa)->0.next) == b.subrange(
            pb,
            pb + (decode_at(a, pa)->0.next - pa),
        ),
    ensures
        decode_at(b, pb) == Some(
            ReadRecord {
                command: decode_at(a, pa)->0.command,
                next: pb + (decode_at(a, pa)->0.next - pa),
            },
        ),
{
    lemma_layout_relocates(a, pa, b, pb);
}

/// A stretch of bytes: from `start` up to, not including, `end`.
#[derive(Clone, Copy, Debug, PartialEq, Eq, Structural)]
pub struct Span {
    /// The index of the first byte.
    pub start: usize,
    /// The index behind the last byte.
    pub end: usize,
}

impl View for Span {
    type V = SpanView;

    open spec fn view(&self) -> SpanView {
        SpanView { start: self.start as int, end: self.end as int }
    }
}

/// Where the parts of a record lie.
#[derive(Clone, Copy, Debug, PartialEq, Eq, Structural)]
pub enum Layout {
    /// A record that sets a key.
    Put {
        /// Where the JSON text of the key lies.
        key: Span,
        /// Where the JSON text of the value lies.
        value: Span,
        /// The offset at which the next record starts.
        next: usize,
    },
    /// A record that removes a key.
    Remove {
        /// Where the JSON text of the key lies.
        key: Span,
        /// The offset at which the next record starts.
        next: usize,
    },
}

impl View for Layout {
    type V = LayoutView;

    open spec fn view(&self) -> LayoutView {
        match self {
            Layout::Put { key, value, next } => LayoutView::Put {
                key: key@,
                value: value@,
                next: *next as int,
            },
            Layout::Remove { key, next } => LayoutView::Remove { key: key@, next: *next as int },
        }
    }
}

/// Appends `bytes` to `out`.
pub fn append_bytes(out: &mut Vec<u8>, bytes: &[u8])
    ensures
        final(out)@ == old(out)@ + bytes@,
{
    out.extend_from_slice(bytes);
    assert(out@ =~= old(out)@ + bytes@);
}

/// Sets the frame of a record that sets a key around the JSON texts of key
/// and value.
pub fn build_put(key_text: &[u8], value_text: &[u8]) -> (record: Vec<u8>)
    ensures
        record@ == frame_put(key_text@, value_text@),
{
    let mut record: Vec<u8> = Vec::new();
    append_bytes(&mut record, "{\"Set\":{\"key\":".as_bytes());
    append_bytes(&mut record, key_text);
    append_bytes(&mut record, ",\"value\":".as_bytes());
    append_bytes(&mut record, value_text);
    append_bytes(&mut record, "}}".as_bytes());
    assert(record@ =~= frame_put(key_text@, value_text@));
    record
}

/// Sets the frame of a record that removes a key around the JSON text of
/// the key.
pub fn build_remove(key_text: &[u8]) -> (record: Vec<u8>)
    ensures
        record@ == frame_remove(key_text@),
{
    let mut record: Vec<u8> = Vec::new();
    append_bytes(&mut record, "{\"Remove\":{\"key\":".as_bytes());
    append_bytes(&mut record, key_text);
    append_bytes(&mut record, "}}".as_bytes());
    assert(record@ =~= frame_remove(key_text@));
    record
}

/// Where the bytes of `text` end, if they stand in `data` at `pos`.
fn skip_text(data: &[u8], pos: usize, text: &str) -> (end: Option<usize>)
    ensures
        match end {
            Some(e) => has_at(data@, pos as int, text_bytes(text)) && e == pos + text_bytes(
                text,
            ).len(),
            None => !has_at(data@, pos as int, text_bytes(text)),
        },
{
    let literal = text.as_bytes();
    if pos > data.len() || literal.len() > data.len() - pos {
        return None;
    }
    let mut k: usize = 0;
    while k < literal.len()
        invariant
            k <= literal.len(),
            pos + literal.len() <= data.len(),
            literal@ == text_bytes(text),
            forall|j: int| 0 <= j < k ==> data@[pos + j] == literal@[j],
        decreases literal.len() - k,
    {
        if data[pos + k] != literal[k] {
            proof {
                let there = data@.subrange(pos as int, pos + literal.len());
                assert(there[k as int] == data@[pos + k]);
            }
            return None;
        }
        k += 1;
    }
    assert(data@.subrange(pos as int, pos + literal.len()) =~= literal@);
    Some(pos + literal.len())
}

/// Scans inside a JSON string from `start` for the quote that closes it.
fn close_of(data: &[u8], start: usize) -> (end: Option<usize>)
    ensures
        match end {
            Some(e) => literal_close(data@, start as int) == Some(e as int),
            None => literal_close(data@, start as int) is None,
        },
{
    let mut i: usize = start;
    while i < data.len()
        invariant
            start <= i,
            literal_close(data@, start as int) == literal_close(data@, i as int),
        decreases data.len() - i,
    {
        let byte = data[i];
        if byte == QUOTE {
            return Some(i + 1);
        } else if byte == BACKSLASH {
            if data.len() - i < 2 {
                return None;
            }
            i += 2;
        } else {
            i += 1;
        }
    }
    None
}

/// The stretch of the JSON string that opens at `pos`.
fn literal_at(data: &[u8], pos: usize) -> (span: Option<Span>)
    ensures
        match span {
            Some(found) => found.start == pos && literal_end(data@, pos as int) == Some(
                found.end as int,
            ),
            None => literal_end(data@, pos as int) is None,
        },
{
    if pos >= data.len() || data[pos] != QUOTE {
        return None;
    }
    match close_of(data, pos + 1) {
        Some(end) => Some(Span { start: pos, end }),
        None => None,
    }
}

/// Finds the parts of the record that starts at `pos` in `data`: where the
/// JSON texts of its strings lie, and where the next record starts.
///
/// Gives `None` exactly where the bytes at `pos` are not framed as a
/// record. Whether the texts can be read as strings is not looked at.
pub fn scan(data: &[u8], pos: usize) -> (layout: Option<Layout>)
    ensures
        match layout {
            Some(found) => layout_at(data@, pos as int) == Some(found@),
            None => layout_at(data@, pos as int) is None,
        },
{
    if let Some(key_start) = skip_text(data, pos, "{\"Set\":{\"key\":") {
        let key = match literal_at(data, key_start) {
            Some(span) => span,
            None => {
                return None;
            },
        };
        let value_start = match skip_text(data, key.end, ",\"value\":") {
            Some(end) => end,
            None => {
                return None;
            },
        };
        let value = match literal_at(data, value_start) {
            Some(span) => span,
            None => {
                return None;
            },
        };
        match skip_text(data, value.end, "}}") {
            Some(next) => Some(Layout::Put { key, value, next }),
            None => None,
        }
    } else if let Some(key_start) = skip_text(data, pos, "{\"Remove\":{\"key\":") {
        let key = match literal_at(data, key_start) {
            Some(span) => span,
            None => {
                return None;
            },
        };
        match skip_text(data, key.end, "}}") {
            Some(next) => Some(Layout::Remove { key, next }),
            None => None,
        }
    } else {
        None
    }
}

/// The error for bytes that are no well-formed record: a `Serde` with a
/// fixed text.
fn malformed() -> (e: KvsError)
    ensures
        e matches KvsError::Serde(text) && text@ == "malformed record in the log"@,
{
    KvsError::Serde(String::from_str("malformed record in the log"))
}

/// Reads the string whose JSON text lies at `span`.
fn read_span(data: &[u8], span: Span) -> (out: Result<String, KvsError>)
    requires
        span.start <= span.end <= data@.len(),
    ensures
        match out {
            Ok(string) => json_string(text_in(data@, span@)) == Some(string@),
            Err(e) => json_string(text_in(data@, span@)) is None && e is Serde,
        },
{
    match read_string(slice_subrange(data, span.start, span.end)) {
        Ok(string) => Ok(string),
        Err(e) => Err(KvsError::from_json(e)),
    }
}

/// Reads the record that starts at `pos` in `data`, and says where the next
/// one starts.
///
/// Fails with `Serde` exactly where no well-formed record starts at `pos`:
/// where the bytes are not framed as a record, or a text in the frame is
/// not read as a string.
pub fn decode(data: &[u8], pos: usize) -> (out: Result<(Command, usize), KvsError>)
    ensures
        match out {
            Ok((command, next)) => decode_at(data@, pos as int) == Some(
                ReadRecord { command: command@, next: next as int },
            ),
            Err(e) => decode_at(data@, pos as int) is None && e is Serde,
        },
{
    let layout = match scan(data, pos) {
        Some(layout) => layout,
        None => {
            return Err(malformed());
        },
    };
    proof {
        lemma_layout_bounds(data@, pos as int);
    }
    match layout {
        Layout::Put { key, value, next } => {
            let key = match read_span(data, key) {
                Ok(string) => string,
                Err(e) => {
                    return Err(e);
                },
            };
            let value = match read_span(data, value) {
                Ok(string) => string,
                Err(e) => {
                    return Err(e);
                },
            };
            Ok((Command::Put { key, value }, next))
        },
        Layout::Remove { key, next } => {
            let key = match read_span(data, key) {
                Ok(string) => string,
                Err(e) => {
                    return Err(e);
                },
            };
            Ok((Command::Remove { key }, next))
        },
    }
}

/// Writes the record of `command`.
///
/// Fails with `Serde` exactly where a string of the command has no JSON text.
pub fn encode(command: &Command) -> (out: Result<Vec<u8>, KvsError>)
    ensures
        match out {
            Ok(record) => record_of(command@) == Some(record@),
            Err(e) => record_of(command@) is None && e is Serde,
        },
{
    match command {
        Command::Put { key, value } => {
            let key_text = match write_string(key.as_str()) {
                Ok(text) => text,
                Err(e) => {
                    return Err(KvsError::from_json(e));
                },
            };
            let value_text = match write_string(value.as_str()) {
                Ok(text) => text,
                Err(e) => {
                    return Err(KvsError::from_json(e));
                },
            };
            Ok(build_put(key_text.as_slice(), value_text.as_slice()))
        },
        Command::Remove { key } => {
            let key_text = match write_string(key.as_str()) {
                Ok(text) => text,
                Err(e) => {
                    return Err(KvsError::from_json(e));
                },
            };
            Ok(build_remove(key_text.as_slice()))
        },
    }
}

/// Whether two commands are the same.
fn same_command(a: &Command, b: &Command) -> (same: bool)
    ensures
        same == (a@ == b@),
{
    match (a, b) {
        (Command::Put { key: ka, value: va }, Command::Put { key: kb, value: vb }) => {
            *ka == *kb && *va == *vb
        },
        (Command::Remove { key: ka }, Command::Remove { key: kb }) => *ka == *kb,
        _ => false,
    }
}

/// Writes the record of `command` and reads it back.
///
/// Succeeds exactly where the record reads back as `command`, whole; so a
/// record that this function hands out is one that `decode` will give
/// `command` for, wherever in a segment it comes to lie.
pub fn encode_checked(command: &Command) -> (out: Result<Vec<u8>, KvsError>)
    ensures
        match out {
            Ok(record) => faithful(command@) && record_of(command@) == Some(record@),
            Err(e) => !faithful(command@) && e is Serde,
        },
{
    let record = match encode(command) {
        Ok(record) => record,
        Err(e) => {
            return Err(e);
        },
    };
    match decode(record.as_slice(), 0) {
        Ok((read, next)) => {
            if next == record.len() && same_command(&read, command) {
                Ok(record)
            } else {
                Err(malformed())
            }
        },
        Err(e) => Err(e),
    }
}

/// What is made of a record that a pointer of the index led to, once it
/// was read: the value that it sets. A record that removes a key is an
/// `UnexpectedCommandType`.
pub fn value_of_command(command: Command) -> (out: Result<String, KvsError>)
    ensures
        match command {
            Command::Put { value, .. } => out == Ok::<String, KvsError>(value),
            Command::Remove { .. } => out == Err::<String, KvsError>(
                KvsError::UnexpectedCommandType,
            ),
        },
{
    match command {
        Command::Put { value, .. } => Ok(value),
        Command::Remove { .. } => Err(KvsError::UnexpectedCommandType),
    }
}

/// The value that the record `record` sets.
///
/// `record` is taken whole: bytes behind the record make it malformed.
pub fn read_value(record: &[u8]) -> (out: Result<String, KvsError>)
    ensures
        match decode_at(record@, 0) {
            Some(read) if read.next == record@.len() => match read.command {
                CommandView::Put { value, .. } => out matches Ok(found) && found@ == value,
                CommandView::Remove { .. } => out matches Err(KvsError::UnexpectedCommandType),
            },
            _ => out matches Err(KvsError::Serde(_)),
        },
{
    match decode(record, 0) {
        Ok((command, next)) => {
            if next != record.len() {
                return Err(malformed());
            }
            value_of_command(command)
        },
        Err(e) => Err(e),
    }
}

} // verus!

//! The names of the segment files: `<id>.log`, the id in decimal.

use vstd::prelude::*;
use vstd::seq_lib::{to_multiset_build, to_multiset_remove};
use vstd::string::StringSliceAdditionalSpecFns;
use vstd::utf8::encode_utf8;

verus! {

/// The digit for `d`.
pub open spec fn digit_char(d: nat) -> char {
    if d == 0 {
        '0'
    } else if d == 1 {
        '1'
    } else if d == 2 {
        '2'
    } else if d == 3 {
        '3'
    } else if d == 4 {
        '4'
    } else if d == 5 {
        '5'
    } else if d == 6 {
        '6'
    } else if d == 7 {
        '7'
    } else if d == 8 {
        '8'
    } else {
        '9'
    }
}

/// The decimal numeral of `n`, without leading zeros.
pub open spec fn decimal(n: nat) -> Seq<char>
    decreases n,
{
    if n < 10 {
        seq![digit_char(n)]
    } else {
        decimal(n / 10).push(digit_char(n % 10))
    }
}

/// The name of the file of the segment `file_id`.
pub open spec fn log_file_name(file_id: u64) -> Seq<char> {
    decimal(file_id as nat) + ".log"@
}

/// The value of a byte that is a decimal digit.
pub open spec fn digit_value(byte: u8) -> Option<nat> {
    if 0x30 <= byte <= 0x39 {
        Some((byte - 0x30) as nat)
    } else {
        None
    }
}

/// The number that a non-empty sequence of decimal digits stands for.
pub open spec fn number_of(digits: Seq<u8>) -> Option<nat>
    decreases digits.len(),
{
    if digits.len() == 0 {
        None
    } else if digits.len() == 1 {
        digit_value(digits[0])
    } else {
        match (number_of(digits.drop_last()), digit_value(digits.last())) {
            (Some(n), Some(d)) => Some(n * 10 + d),
            _ => None,
        }
    }
}

/// The byte `+`.
pub const PLUS: u8 = 0x2b;

/// The number that a text stands for: decimal digits, which a `+` may
/// precede and zeros may lead, for a number that a `u64` can hold.
pub open spec fn parsed_u64(text: Seq<u8>) -> Option<u64> {
    let digits = if text.len() > 0 && text[0] == PLUS {
        text.skip(1)
    } else {
        text
    };
    match number_of(digits) {
        Some(n) => if n <= u64::MAX {
            Some(n as u64)
        } else {
            None
        },
        None => None,
    }
}

/// The id of the segment whose file has the name `name`; `None` where the
/// name is not a number and then `.log`.
pub open spec fn file_id_named(name: Seq<char>) -> Option<u64> {
    let bytes = encode_utf8(name);
    let ending = ".log".spec_bytes();
    if bytes.len() >= ending.len() && bytes.skip(bytes.len() - ending.len()) == ending {
        parsed_u64(bytes.take(bytes.len() - ending.len()))
    } else {
        None
    }
}

/// The ids that the names of segment files among `names` give, in the
/// order of the names.
pub open spec fn ids_named(names: Seq<String>) -> Seq<u64>
    decreases names.len(),
{
    if names.len() == 0 {
        Seq::empty()
    } else {
        match file_id_named(names.last()@) {
            Some(id) => ids_named(names.drop_last()).push(id),
            None => ids_named(names.drop_last()),
        }
    }
}

/// Whether the ids stand in ascending order.
pub open spec fn ids_sorted(ids: Seq<u64>) -> bool {
    forall|i: int, j: int| 0 <= i < j < ids.len() ==> ids[i] <= ids[j]
}

/// The text of one digit.
fn digit_text(d: u64) -> (text: &'static str)
    requires
        d < 10,
    ensures
        text@ == seq![digit_char(d as nat)],
{
    proof {
        reveal_strlit("0");
        reveal_strlit("1");
        reveal_strlit("2");
        reveal_strlit("3");
        reveal_strlit("4");
        reveal_strlit("5");
        reveal_strlit("6");
        reveal_strlit("7");
        reveal_strlit("8");
        reveal_strlit("9");
    }
    let text = if d == 0 {
        "0"
    } else if d == 1 {
        "1"
    } else if d == 2 {
        "2"
    } else if d == 3 {
        "3"
    } else if d == 4 {
        "4"
    } else if d == 5 {
        "5"
    } else if d == 6 {
        "6"
    } else if d == 7 {
        "7"
    } else if d == 8 {
        "8"
    } else {
        "9"
    };
    assert(text@ =~= seq![digit_char(d as nat)]);
    text
}

/// Appends the decimal numeral of `n` to `text`.
fn push_decimal(text: &mut String, n: u64)
    ensures
        final(text)@ == old(text)@ + decimal(n as nat),
    decreases n,
{
    if n >= 10 {
        push_decimal(text, n / 10);
    }
    text.append(digit_text(n % 10));
    assert(text@ =~= old(text)@ + decimal(n as nat));
}

/// The name of the file of the segment `file_id`: the id in decimal, and
/// then `.log`.
pub fn log_path(file_id: u64) -> (name: String)
    ensures
        name@ == log_file_name(file_id),
{
    let mut name = String::new();
    push_decimal(&mut name, file_id);
    name.append(".log");
    assert(name@ =~= log_file_name(file_id));
    name
}

/// A number grows with each digit that is written behind it.
proof fn lemma_number_grows(digits: Seq<u8>, n: int)
    requires
        0 < n <= digits.len(),
        number_of(digits) is Some,
    ensures
        number_of(digits.take(n)) is Some,
        number_of(digits.take(n))->0 <= number_of(digits)->0,
    decreases digits.len(),
{
    if n == digits.len() {
        assert(digits.take(n) =~= digits);
    } else {
        let front = digits.drop_last();
        assert(front.take(n) =~= digits.take(n));
        lemma_number_grows(front, n);
    }
}

/// Reads a number as `parsed_u64` describes.
fn parse_number(text: &[u8]) -> (number: Option<u64>)
    ensures
        number == parsed_u64(text@),
{
    let start: usize = if text.len() > 0 && text[0] == PLUS {
        1
    } else {
        0
    };
    let ghost digits = text@.skip(start as int);
    proof {
        assert(text@.skip(0) =~= text@);
    }
    if start == text.len() {
        return None;
    }
    let mut value: u64 = 0;
    let mut at: usize = start;
    while at < text.len()
        invariant
            start <= at <= text@.len(),
            start < text@.len(),
            digits == text@.skip(start as int),
            digits == if text@.len() > 0 && text@[0] == PLUS {
                text@.skip(1)
            } else {
                text@
            },
            at == start ==> value == 0,
            at > start ==> number_of(digits.take(at - start)) == Some(value as nat),
        decreases text@.len() - at,
    {
        let byte = text[at];
        let ghost seen = digits.take(at - start + 1);
        proof {
            assert(seen.drop_last() =~= digits.take(at - start));
            assert(seen.last() == byte);
        }
        if byte < 0x30 || byte > 0x39 {
            proof {
                if number_of(digits) is Some {
                    lemma_number_grows(digits, at - start + 1);
                }
            }
            return None;
        }
        let digit = (byte - 0x30) as u64;
        let grown = match value.checked_mul(10) {
            Some(tens) => tens.checked_add(digit),
            None => None,
        };
        match grown {
            Some(next) => {
                value = next;
            },
            None => {
                proof {
                    if number_of(digits) is Some {
                        lemma_number_grows(digits, at - start + 1);
                    }
                }
                return None;
            },
        }
        at += 1;
    }
    proof {
        assert(digits.take(at - start) =~= digits);
    }
    Some(value)
}

/// The id of the segment whose file has the name `name`, if the name is
/// that of a segment file.
pub fn parse_log_name(name: &str) -> (id: Option<u64>)
    ensures
        id == file_id_named(name@),
{
    let bytes = name.as_bytes();
    let ending = ".log".as_bytes();
    if bytes.len() < ending.len() {
        return None;
    }
    let split = bytes.len() - ending.len();
    let mut at: usize = 0;
    while at < ending.len()
        invariant
            at <= ending@.len(),
            split + ending@.len() == bytes@.len(),
            bytes@.len() <= usize::MAX,
            bytes@ == encode_utf8(name@),
            ending@ == ".log".spec_bytes(),
            forall|i: int| 0 <= i < at ==> bytes@[split + i] == ending@[i],
        decreases ending@.len() - at,
    {
        if bytes[split + at] != ending[at] {
            proof {
                assert(bytes@.skip(split as int)[at as int] == bytes@[split + at]);
            }
            return None;
        }
        at += 1;
    }
    assert(bytes@.skip(split as int) =~= ending@);
    parse_number(vstd::slice::slice_subrange(bytes, 0, split))
}

/// The bytes of a text of ASCII characters.
pub open spec fn ascii_bytes(text: Seq<char>) -> Seq<u8> {
    Seq::new(text.len(), |i: int| text[i] as u8)
}

/// The decimal numeral of a number is made of digits only.
proof fn lemma_decimal_is_digits(n: nat)
    ensures
        decimal(n).len() > 0,
        forall|i: int|
            0 <= i < decimal(n).len() ==> exists|d: nat|
                d < 10 && #[trigger] decimal(n)[i] == digit_char(d),
    decreases n,
{
    if n >= 10 {
        lemma_decimal_is_digits(n / 10);
        let front = decimal(n / 10);
        assert forall|i: int| 0 <= i < decimal(n).len() implies exists|d: nat|
            d < 10 && #[trigger] decimal(n)[i] == digit_char(d) by {
            if i < front.len() {
                assert(decimal(n)[i] == front[i]);
            } else {
                assert(decimal(n)[i] == digit_char(n % 10));
            }
        }
    } else {
        assert(decimal(n)[0] == digit_char(n));
    }
}

/// The digit for `d` is an ASCII character whose byte has the value `d`.
proof fn lemma_digit_byte(d: nat)
    requires
        d < 10,
    ensures
        '\0' <= digit_char(d) <= '\u{7f}',
        digit_value(digit_char(d) as u8) == Some(d),
        digit_char(d) as u8 != PLUS,
{
}

/// The decimal numeral of a number stands for that number.
proof fn lemma_number_of_decimal(n: nat)
    ensures
        number_of(ascii_bytes(decimal(n))) == Some(n),
    decreases n,
{
    let bytes = ascii_bytes(decimal(n));
    if n < 10 {
        lemma_digit_byte(n);
        assert(bytes[0] == digit_char(n) as u8);
    } else {
        lemma_number_of_decimal(n / 10);
        lemma_decimal_is_digits(n / 10);
        lemma_digit_byte(n % 10);
        assert(bytes.drop_last() =~= ascii_bytes(decimal(n / 10)));
        assert(bytes.last() == digit_char(n % 10) as u8);
    }
}

/// The name that `log_path` gives to the file of a segment is read back as
/// the id of that segment.
pub proof fn law_log_name_is_read(file_id: u64)
    ensures
        file_id_named(log_file_name(file_id)) == Some(file_id),
{
    let numeral = decimal(file_id as nat);
    let name = log_file_name(file_id);
    reveal_strlit(".log");
    lemma_decimal_is_digits(file_id as nat);
    assert forall|i: int| 0 <= i < name.len() implies '\0' <= #[trigger] name[i] <= '\u{7f}' by {
        if i < numeral.len() {
            let d = choose|d: nat| d < 10 && numeral[i] == digit_char(d);
            lemma_digit_byte(d);
        }
    }
    vstd::utf8::is_ascii_chars_encode_utf8(name);
    vstd::utf8::is_ascii_chars_encode_utf8(".log"@);
    let bytes = encode_utf8(name);
    let ending = ".log".spec_bytes();
    assert(bytes.skip(bytes.len() - ending.len()) =~= ending) by {
        assert forall|k: int| 0 <= k < ending.len() implies bytes[numeral.len() + k]
            == ending[k] by {
            assert(name[numeral.len() + k] == ".log"@[k]);
        }
    }
    let stem = bytes.take(bytes.len() - ending.len());
    assert(stem =~= ascii_bytes(numeral)) by {
        assert forall|k: int| 0 <= k < numeral.len() implies stem[k] == numeral[k] as u8 by {
            assert(name[k] == numeral[k]);
        }
    }
    lemma_number_of_decimal(file_id as nat);
    let d = choose|d: nat| d < 10 && numeral[0] == digit_char(d);
    lemma_digit_byte(d);
    assert(stem[0] == numeral[0] as u8);
}

/// A new element in a sequence is one more element in its multiset.
proof fn lemma_insert_multiset(ids: Seq<u64>, at: int, id: u64)
    requires
        0 <= at <= ids.len(),
    ensures
        ids.insert(at, id).to_multiset() == ids.to_multiset().insert(id),
{
    let longer = ids.insert(at, id);
    assert(longer.remove(at) =~= ids);
    to_multiset_remove(longer, at);
    longer.to_multiset_ensures();
    assert(longer.contains(id)) by {
        assert(longer[at] == id);
    }
    assert(longer.to_multiset() =~= ids.to_multiset().insert(id));
}

/// The ids of the segment files among the files with the names `names`, in
/// ascending order.
///
/// A name that is no number and then `.log` is passed over.
pub fn sorted_file_ids(names: &Vec<String>) -> (ids: Vec<u64>)
    ensures
        ids_sorted(ids@),
        ids@.to_multiset() == ids_named(names@).to_multiset(),
{
    let mut ids: Vec<u64> = Vec::new();
    let mut done: usize = 0;
    assert(names@.take(0) =~= Seq::<String>::empty());
    while done < names.len()
        invariant
            done <= names@.len(),
            ids_sorted(ids@),
            ids@.to_multiset() == ids_named(names@.take(done as int)).to_multiset(),
        decreases names@.len() - done,
    {
        proof {
            let more = names@.take(done + 1);
            assert(more.drop_last() =~= names@.take(done as int));
            assert(more.last() == names@[done as int]);
        }
        if let Some(id) = parse_log_name(names[done].as_str()) {
            let mut at = ids.len();
            while at > 0 && ids[at - 1] > id
                invariant
                    at <= ids@.len(),
                    forall|i: int| at <= i < ids@.len() ==> ids@[i] > id,
                decreases at,
            {
                at -= 1;
            }
            proof {
                lemma_insert_multiset(ids@, at as int, id);
                to_multiset_build(ids_named(names@.take(done as int)), id);
                let longer = ids@.insert(at as int, id);
                assert forall|i: int, j: int| 0 <= i < j < longer.len() implies longer[i]
                    <= longer[j] by {
                    if i < at && j > at {
                        assert(ids@[i] <= ids@[j - 1]);
                    }
                    if i < at && j == at && at > 0 {
                        assert(ids@[i] <= ids@[at - 1]);
                    }
                }
            }
            ids.insert(at, id);
        }
        done += 1;
    }
    assert(names@.take(done as int) =~= names@);
    ids
}

} // verus!

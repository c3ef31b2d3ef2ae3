//! JSON values and their canonical bytes.

use vstd::prelude::*;
use vstd::utf8::encode_utf8;
use crate::collections::TextMap;

verus! {

/// Largest integer that canonical JSON admits: `2^53 - 1`.
pub const MAX_CANONICAL_INT: i64 = 9_007_199_254_740_991;

/// Smallest integer that canonical JSON admits.
pub const MIN_CANONICAL_INT: i64 = -9_007_199_254_740_991;

/// A JSON value. Objects keep their members in ascending key order.
#[derive(Debug, PartialEq, Eq)]
pub enum Json {
    Null,
    Bool(bool),
    /// An integer that fits in 64 bits with a sign.
    Integer(i64),
    /// An integer that fits in 64 bits without a sign.
    Unsigned(u64),
    /// A number that is no integer.
    Fraction,
    Text(String),
    Array(Vec<Json>),
    Object(TextMap<Json>),
}

/// Why a value has no canonical form.
#[derive(Debug, Clone, Copy, PartialEq, Eq, Structural)]
pub enum JsonFault {
    /// An integer is outside the exactly representable range.
    IntegerRange,
    /// A number is no integer.
    UnsupportedNumber,
}

/// How many members a value has.
pub open spec fn members(value: Json) -> nat {
    match value {
        Json::Array(items) => items@.len(),
        Json::Object(object) => object.entries@.len(),
        _ => 0,
    }
}

/// The decimal digits of a number, as bytes.
pub open spec fn digits(n: nat) -> Seq<u8>
    decreases n,
{
    if n < 10 {
        seq![(48 + n) as u8]
    } else {
        digits(n / 10).push((48 + n % 10) as u8)
    }
}

/// The decimal form of an integer, as bytes.
pub open spec fn integer_bytes(n: int) -> Seq<u8> {
    if n < 0 {
        seq![0x2du8] + digits((-n) as nat)
    } else {
        digits(n as nat)
    }
}

/// The lower-case hexadecimal digit of a number below sixteen.
pub open spec fn hex_digit(n: int) -> u8 {
    if n < 10 {
        (48 + n) as u8
    } else {
        (87 + n) as u8
    }
}

/// The bytes that stand for a byte in a JSON string.
pub open spec fn escaped(byte: u8) -> Seq<u8> {
    if byte == 0x22 || byte == 0x5c {
        seq![0x5cu8, byte]
    } else if byte == 0x08 {
        seq![0x5cu8, 0x62u8]
    } else if byte == 0x0c {
        seq![0x5cu8, 0x66u8]
    } else if byte == 0x0a {
        seq![0x5cu8, 0x6eu8]
    } else if byte == 0x0d {
        seq![0x5cu8, 0x72u8]
    } else if byte == 0x09 {
        seq![0x5cu8, 0x74u8]
    } else if byte < 0x20 {
        seq![0x5cu8, 0x75u8, 0x30u8, 0x30u8, hex_digit(byte as int / 16), hex_digit(
            byte as int % 16,
        )]
    } else {
        seq![byte]
    }
}

/// The bytes that stand for a byte string in a JSON string.
pub open spec fn all_escaped(bytes: Seq<u8>) -> Seq<u8>
    decreases bytes.len(),
{
    if bytes.len() == 0 {
        Seq::empty()
    } else {
        all_escaped(bytes.drop_last()) + escaped(bytes.last())
    }
}

/// A text as a JSON string.
pub open spec fn string_bytes(text: Seq<char>) -> Seq<u8> {
    seq![0x22u8] + all_escaped(encode_utf8(text)) + seq![0x22u8]
}

/// Texts as JSON strings, separated by commas.
pub open spec fn comma_separated(texts: Seq<Seq<char>>) -> Seq<u8>
    decreases texts.len(),
{
    if texts.len() == 0 {
        Seq::empty()
    } else if texts.len() == 1 {
        string_bytes(texts[0])
    } else {
        comma_separated(texts.drop_last()) + seq![0x2cu8] + string_bytes(texts.last())
    }
}

/// The compact JSON text of an array of strings, as bytes.
pub open spec fn string_array_bytes(texts: Seq<Seq<char>>) -> Seq<u8> {
    seq![0x5bu8] + comma_separated(texts) + seq![0x5du8]
}

/// What comes before the members of a value.
pub open spec fn opening(value: Json) -> Seq<u8> {
    match value {
        Json::Null => seq![0x6eu8, 0x75u8, 0x6cu8, 0x6cu8],
        Json::Bool(true) => seq![0x74u8, 0x72u8, 0x75u8, 0x65u8],
        Json::Bool(false) => seq![0x66u8, 0x61u8, 0x6cu8, 0x73u8, 0x65u8],
        Json::Integer(n) => integer_bytes(n as int),
        Json::Unsigned(n) => integer_bytes(n as int),
        Json::Fraction => Seq::empty(),
        Json::Text(text) => string_bytes(text@),
        Json::Array(_) => seq![0x5bu8],
        Json::Object(_) => seq![0x7bu8],
    }
}

/// What comes behind the members of a value.
pub open spec fn closing(value: Json) -> Seq<u8> {
    match value {
        Json::Array(_) => seq![0x5du8],
        Json::Object(_) => seq![0x7du8],
        _ => Seq::empty(),
    }
}

/// The bytes of the first members of a value, separated by commas.
pub open spec fn member_bytes(value: Json, n: nat) -> Seq<u8>
    decreases value, n,
{
    if n == 0 || n > members(value) {
        Seq::empty()
    } else {
        let before = member_bytes(value, (n - 1) as nat) + if n > 1 {
            seq![0x2cu8]
        } else {
            Seq::empty()
        };
        match value {
            Json::Array(items) => {
                let item = items@[n - 1];
                before + opening(item) + member_bytes(item, members(item)) + closing(item)
            },
            Json::Object(object) => {
                let entry = object.entries@[n - 1];
                before + string_bytes(entry.0@) + seq![0x3au8] + opening(entry.1) + member_bytes(
                    entry.1,
                    members(entry.1),
                ) + closing(entry.1)
            },
            _ => Seq::empty(),
        }
    }
}

/// The canonical bytes of a value.
pub open spec fn json_bytes(value: Json) -> Seq<u8> {
    opening(value) + member_bytes(value, members(value)) + closing(value)
}

/// What is wrong with a number.
pub open spec fn number_fault(value: Json) -> Option<JsonFault> {
    match value {
        Json::Integer(n) => if MIN_CANONICAL_INT <= n <= MAX_CANONICAL_INT {
            None
        } else {
            Some(JsonFault::IntegerRange)
        },
        Json::Unsigned(n) => if n <= MAX_CANONICAL_INT {
            None
        } else {
            Some(JsonFault::IntegerRange)
        },
        Json::Fraction => Some(JsonFault::UnsupportedNumber),
        _ => None,
    }
}

/// What is first wrong with the first members of a value.
pub open spec fn member_fault(value: Json, n: nat) -> Option<JsonFault>
    decreases value, n,
{
    if n == 0 || n > members(value) {
        None
    } else {
        let before = member_fault(value, (n - 1) as nat);
        if before is Some {
            before
        } else {
            match value {
                Json::Array(items) => {
                    let item = items@[n - 1];
                    if number_fault(item) is Some {
                        number_fault(item)
                    } else {
                        member_fault(item, members(item))
                    }
                },
                Json::Object(object) => {
                    let item = object.entries@[n - 1].1;
                    if number_fault(item) is Some {
                        number_fault(item)
                    } else {
                        member_fault(item, members(item))
                    }
                },
                _ => None,
            }
        }
    }
}

/// What is first wrong with a value.
pub open spec fn json_fault(value: Json) -> Option<JsonFault> {
    if number_fault(value) is Some {
        number_fault(value)
    } else {
        member_fault(value, members(value))
    }
}

/// A fault among the first members stays the first one.
proof fn fault_stays(value: Json, n: nat, m: nat)
    requires
        n <= m <= members(value),
        member_fault(value, n) is Some,
    ensures
        member_fault(value, m) == member_fault(value, n),
    decreases m,
{
    if n < m {
        fault_stays(value, n, (m - 1) as nat);
    }
}

fn push_digits(out: &mut Vec<u8>, n: u64)
    ensures
        final(out)@ == old(out)@ + digits(n as nat),
    decreases n,
{
    let ghost start = out@;
    if n >= 10 {
        push_digits(out, n / 10);
    }
    out.push((48 + n % 10) as u8);
    proof {
        assert(out@ =~= start + digits(n as nat));
    }
}

fn push_integer(out: &mut Vec<u8>, n: i64)
    requires
        n > i64::MIN,
    ensures
        final(out)@ == old(out)@ + integer_bytes(n as int),
{
    let ghost start = out@;
    if n < 0 {
        out.push(0x2d);
        push_digits(out, (-n) as u64);
    } else {
        push_digits(out, n as u64);
    }
    proof {
        assert(out@ =~= start + integer_bytes(n as int));
    }
}

fn hex(n: u8) -> (digit: u8)
    requires
        n < 16,
    ensures
        digit == hex_digit(n as int),
{
    if n < 10 {
        48 + n
    } else {
        87 + n
    }
}

fn push_escaped(out: &mut Vec<u8>, byte: u8)
    ensures
        final(out)@ == old(out)@ + escaped(byte),
{
    let ghost start = out@;
    if byte == 0x22 || byte == 0x5c {
        out.push(0x5c);
        out.push(byte);
    } else if byte == 0x08 {
        out.push(0x5c);
        out.push(0x62);
    } else if byte == 0x0c {
        out.push(0x5c);
        out.push(0x66);
    } else if byte == 0x0a {
        out.push(0x5c);
        out.push(0x6e);
    } else if byte == 0x0d {
        out.push(0x5c);
        out.push(0x72);
    } else if byte == 0x09 {
        out.push(0x5c);
        out.push(0x74);
    } else if byte < 0x20 {
        out.push(0x5c);
        out.push(0x75);
        out.push(0x30);
        out.push(0x30);
        out.push(hex(byte / 16));
        out.push(hex(byte % 16));
    } else {
        out.push(byte);
    }
    proof {
        assert(out@ =~= start + escaped(byte));
    }
}

fn push_string(out: &mut Vec<u8>, text: &str)
    ensures
        final(out)@ == old(out)@ + string_bytes(text@),
{
    let ghost start = out@;
    let bytes: &[u8] = text.as_bytes();
    out.push(0x22);
    let ghost open = out@;
    let mut index: usize = 0;
    proof {
        assert(bytes@.take(0).len() == 0);
        assert(all_escaped(bytes@.take(0)) =~= Seq::<u8>::empty());
    }
    while index < bytes.len()
        invariant
            index <= bytes.len(),
            out@ =~= open + all_escaped(bytes@.take(index as int)),
        decreases bytes.len() - index,
    {
        push_escaped(out, bytes[index]);
        proof {
            let next = bytes@.take(index + 1);
            assert(next.drop_last() =~= bytes@.take(index as int));
            assert(next.last() == bytes@[index as int]);
        }
        index = index + 1;
    }
    proof {
        assert(bytes@.take(index as int) =~= bytes@);
    }
    out.push(0x22);
    proof {
        assert(out@ =~= start + string_bytes(text@));
    }
}

/// What stands before a member.
pub open spec fn separator(n: nat) -> Seq<u8> {
    if n > 0 {
        seq![0x2cu8]
    } else {
        Seq::empty()
    }
}

/// The bytes of one more item of an array.
proof fn next_item(value: Json, n: nat)
    requires
        value is Array,
        n < members(value),
    ensures
        member_bytes(value, n + 1) == member_bytes(value, n) + separator(n) + json_bytes(
            value->Array_0@[n as int],
        ),
        member_fault(value, n) is None ==> member_fault(value, n + 1) == json_fault(
            value->Array_0@[n as int],
        ),
{
    let item = value->Array_0@[n as int];
    assert(member_bytes(value, n + 1) =~= member_bytes(value, n) + separator(n) + (opening(item)
        + member_bytes(item, members(item)) + closing(item)));
}

/// The bytes of one more entry of an object.
proof fn next_entry(value: Json, n: nat)
    requires
        value is Object,
        n < members(value),
    ensures
        member_bytes(value, n + 1) == member_bytes(value, n) + separator(n) + string_bytes(
            value->Object_0.entries@[n as int].0@,
        ) + seq![0x3au8] + json_bytes(value->Object_0.entries@[n as int].1),
        member_fault(value, n) is None ==> member_fault(value, n + 1) == json_fault(
            value->Object_0.entries@[n as int].1,
        ),
{
    let entry = value->Object_0.entries@[n as int];
    assert(member_bytes(value, n + 1) =~= member_bytes(value, n) + separator(n) + string_bytes(
        entry.0@,
    ) + seq![0x3au8] + (opening(entry.1) + member_bytes(entry.1, members(entry.1)) + closing(
        entry.1,
    )));
}

/// Appends the canonical bytes of a value.
fn append_canonical_value(out: &mut Vec<u8>, value: &Json) -> (result: Result<(), JsonFault>)
    ensures
        match result {
            Ok(_) => {
                &&& json_fault(*value) is None
                &&& final(out)@ == old(out)@ + json_bytes(*value)
            },
            Err(fault) => json_fault(*value) == Some(fault),
        },
    decreases value,
{
    let ghost start = out@;
    match value {
        Json::Null => {
            out.push(0x6e);
            out.push(0x75);
            out.push(0x6c);
            out.push(0x6c);
        },
        Json::Bool(flag) => {
            if *flag {
                out.push(0x74);
                out.push(0x72);
                out.push(0x75);
                out.push(0x65);
            } else {
                out.push(0x66);
                out.push(0x61);
                out.push(0x6c);
                out.push(0x73);
                out.push(0x65);
            }
        },
        Json::Integer(n) => {
            if *n < MIN_CANONICAL_INT || *n > MAX_CANONICAL_INT {
                return Err(JsonFault::IntegerRange);
            }
            push_integer(out, *n);
        },
        Json::Unsigned(n) => {
            if *n > MAX_CANONICAL_INT as u64 {
                return Err(JsonFault::IntegerRange);
            }
            push_digits(out, *n);
        },
        Json::Fraction => {
            return Err(JsonFault::UnsupportedNumber);
        },
        Json::Text(text) => {
            push_string(out, text.as_str());
        },
        Json::Array(items) => {
            out.push(0x5b);
            let mut index: usize = 0;
            while index < items.len()
                invariant
                    *value == Json::Array(*items),
                    index <= items.len(),
                    member_fault(*value, index as nat) is None,
                    out@ =~= start + opening(*value) + member_bytes(*value, index as nat),
                decreases items.len() - index,
            {
                let ghost before = out@;
                proof {
                    next_item(*value, index as nat);
                }
                if index > 0 {
                    out.push(0x2c);
                }
                proof {
                    assert(out@ =~= before + separator(index as nat));
                }
                match append_canonical_value(out, &items[index]) {
                    Ok(_) => {},
                    Err(fault) => {
                        proof {
                            fault_stays(*value, (index + 1) as nat, members(*value));
                        }
                        return Err(fault);
                    },
                }
                index = index + 1;
            }
            out.push(0x5d);
        },
        Json::Object(object) => {
            out.push(0x7b);
            let mut index: usize = 0;
            while index < object.entries.len()
                invariant
                    *value == Json::Object(*object),
                    index <= object.entries.len(),
                    member_fault(*value, index as nat) is None,
                    out@ =~= start + opening(*value) + member_bytes(*value, index as nat),
                decreases object.entries.len() - index,
            {
                let ghost before = out@;
                proof {
                    next_entry(*value, index as nat);
                }
                if index > 0 {
                    out.push(0x2c);
                }
                let entry: &(String, Json) = &object.entries[index];
                push_string(out, entry.0.as_str());
                out.push(0x3a);
                proof {
                    assert(out@ =~= before + separator(index as nat) + string_bytes(entry.0@)
                        + seq![0x3au8]);
                }
                match append_canonical_value(out, &entry.1) {
                    Ok(_) => {},
                    Err(fault) => {
                        proof {
                            fault_stays(*value, (index + 1) as nat, members(*value));
                        }
                        return Err(fault);
                    },
                }
                index = index + 1;
            }
            out.push(0x7d);
        },
    }
    proof {
        assert(out@ =~= start + json_bytes(*value));
    }
    Ok(())
}

/// The canonical bytes of a value.
///
/// # Errors
/// Returns the first fault, where some number has no canonical form.
pub fn canonical_bytes(value: &Json) -> (result: Result<Vec<u8>, JsonFault>)
    ensures
        match result {
            Ok(bytes) => json_fault(*value) is None && bytes@ == json_bytes(*value),
            Err(fault) => json_fault(*value) == Some(fault),
        },
{
    let mut out: Vec<u8> = Vec::new();
    match append_canonical_value(&mut out, value) {
        Ok(_) => {
            proof {
                assert(out@ =~= json_bytes(*value));
            }
            Ok(out)
        },
        Err(fault) => Err(fault),
    }
}

} // verus!

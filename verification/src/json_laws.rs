//! Canonical bytes tell values apart.

use vstd::prelude::*;
use vstd::utf8::encode_utf8;
use crate::bytes::encode_utf8_injective;
use crate::json::{
    all_escaped, digits, escaped, hex_digit, integer_bytes, json_bytes, json_fault, string_bytes,
    Json, JsonFault,
};

verus! {

proof fn escaped_first(bytes: Seq<u8>)
    requires
        bytes.len() > 0,
    ensures
        all_escaped(bytes) == escaped(bytes[0]) + all_escaped(bytes.drop_first()),
    decreases bytes.len(),
{
    if bytes.len() == 1 {
        assert(bytes.drop_last() =~= Seq::<u8>::empty());
        assert(bytes.drop_first() =~= Seq::<u8>::empty());
        assert(all_escaped(bytes) =~= escaped(bytes[0]) + all_escaped(bytes.drop_first()));
    } else {
        escaped_first(bytes.drop_last());
        assert(bytes.drop_last().drop_first() =~= bytes.drop_first().drop_last());
        assert(bytes.drop_first().last() == bytes.last());
        assert(all_escaped(bytes) =~= escaped(bytes[0]) + all_escaped(bytes.drop_first()));
    }
}

/// The bytes that stand for a byte begin in no other one's.
proof fn escaped_prefix(x: u8, y: u8, s: Seq<u8>, t: Seq<u8>)
    requires
        escaped(x) + s == escaped(y) + t,
    ensures
        x == y,
        s == t,
{
    let (p, q) = (escaped(x), escaped(y));
    let (v, w) = (p + s, q + t);
    assert(v[0] == p[0] && w[0] == q[0]);
    if p.len() > 1 && q.len() > 1 {
        assert(v[1] == p[1] && w[1] == q[1]);
        if p.len() == 6 && q.len() == 6 {
            assert(v[4] == p[4] && w[4] == q[4]);
            assert(v[5] == p[5] && w[5] == q[5]);
            assert(hex_digit(x as int / 16) == hex_digit(y as int / 16));
            assert(hex_digit(x as int % 16) == hex_digit(y as int % 16));
        }
    }
    assert(x == y);
    assert(s =~= v.skip(p.len() as int));
    assert(t =~= w.skip(q.len() as int));
}

proof fn all_escaped_injective(a: Seq<u8>, b: Seq<u8>)
    requires
        all_escaped(a) == all_escaped(b),
    ensures
        a == b,
    decreases a.len(),
{
    if a.len() > 0 {
        escaped_first(a);
    }
    if b.len() > 0 {
        escaped_first(b);
    }
    if a.len() == 0 || b.len() == 0 {
        assert(a =~= b);
    } else {
        escaped_prefix(
            a[0],
            b[0],
            all_escaped(a.drop_first()),
            all_escaped(b.drop_first()),
        );
        all_escaped_injective(a.drop_first(), b.drop_first());
        assert(a =~= seq![a[0]] + a.drop_first());
        assert(b =~= seq![b[0]] + b.drop_first());
    }
}

/// Different texts have different JSON strings. A JSON string is in quotes.
pub proof fn string_bytes_injective(a: Seq<char>, b: Seq<char>)
    ensures
        string_bytes(a) == string_bytes(b) ==> a == b,
        string_bytes(a).len() >= 2,
        string_bytes(a)[0] == 0x22u8,
        string_bytes(a).last() == 0x22u8,
{
    if string_bytes(a) == string_bytes(b) {
        let (p, q) = (all_escaped(encode_utf8(a)), all_escaped(encode_utf8(b)));
        assert(p =~= string_bytes(a).subrange(1, string_bytes(a).len() - 1));
        assert(q =~= string_bytes(b).subrange(1, string_bytes(b).len() - 1));
        all_escaped_injective(encode_utf8(a), encode_utf8(b));
        encode_utf8_injective(a, b);
    }
}

/// The number that decimal digits stand for.
pub open spec fn decimal_value(digits: Seq<u8>) -> int
    decreases digits.len(),
{
    if digits.len() == 0 {
        0
    } else {
        10 * decimal_value(digits.drop_last()) + (digits.last() - 48)
    }
}

/// The digits of a number stand for it, and have no leading zero but for zero itself.
pub proof fn digits_stand_for(n: nat)
    ensures
        decimal_value(digits(n)) == n,
        digits(n).len() > 0,
        forall|i: int| 0 <= i < digits(n).len() ==> 48 <= #[trigger] digits(n)[i] <= 57,
        n > 0 ==> digits(n)[0] != 48,
        n == 0 ==> digits(n) == seq![48u8],
    decreases n,
{
    if n < 10 {
        assert(digits(n).drop_last() =~= Seq::<u8>::empty());
        assert(decimal_value(Seq::<u8>::empty()) == 0);
    } else {
        digits_stand_for(n / 10);
        assert(digits(n).drop_last() =~= digits(n / 10));
    }
}

/// An integer's bytes are its decimal digits, behind a minus sign where it is below
/// zero. So different integers have different bytes.
pub proof fn integer_bytes_stand_for(n: int, m: int)
    ensures
        n >= 0 ==> integer_bytes(n)[0] != 0x2du8 && decimal_value(integer_bytes(n)) == n,
        n < 0 ==> integer_bytes(n)[0] == 0x2du8 && decimal_value(integer_bytes(n).skip(1)) == -n,
        integer_bytes(n)[0] != 0x22u8,
        integer_bytes(n)[0] != 0x6eu8,
        integer_bytes(n).len() > 0,
        integer_bytes(n) == integer_bytes(m) ==> n == m,
{
    one_integer(n);
    one_integer(m);
}

proof fn one_integer(n: int)
    ensures
        n >= 0 ==> integer_bytes(n)[0] != 0x2du8 && decimal_value(integer_bytes(n)) == n,
        n < 0 ==> integer_bytes(n)[0] == 0x2du8 && decimal_value(integer_bytes(n).skip(1)) == -n,
        integer_bytes(n)[0] != 0x22u8,
        integer_bytes(n)[0] != 0x6eu8,
        integer_bytes(n).len() > 0,
{
    if n < 0 {
        digits_stand_for((-n) as nat);
        assert(integer_bytes(n).skip(1) =~= digits((-n) as nat));
    } else {
        digits_stand_for(n as nat);
        assert(48 <= digits(n as nat)[0] <= 57);
    }
}

/// A number has a canonical form exactly where it is an integer of at most 53 bits.
pub proof fn numbers_within_range(n: i64, m: u64)
    ensures
        json_fault(Json::Integer(n)) is None <==> -9_007_199_254_740_991 <= n
            <= 9_007_199_254_740_991,
        json_fault(Json::Integer(n)) is Some ==> json_fault(Json::Integer(n)) == Some(
            JsonFault::IntegerRange,
        ),
        json_fault(Json::Unsigned(m)) is None <==> m <= 9_007_199_254_740_991,
        json_fault(Json::Unsigned(m)) is Some ==> json_fault(Json::Unsigned(m)) == Some(
            JsonFault::IntegerRange,
        ),
        json_fault(Json::Fraction) == Some(JsonFault::UnsupportedNumber),
        json_fault(Json::Null) is None,
{
    reveal_with_fuel(crate::json::member_fault, 2);
}

/// The canonical bytes of a text, of an integer and of nothing.
pub proof fn scalar_bytes(text: String, n: i64)
    ensures
        json_bytes(Json::Text(text)) == string_bytes(text@),
        json_bytes(Json::Integer(n)) == integer_bytes(n as int),
        json_bytes(Json::Null) == seq![0x6eu8, 0x75u8, 0x6cu8, 0x6cu8],
        json_fault(Json::Text(text)) is None,
{
    reveal_with_fuel(crate::json::member_bytes, 2);
    reveal_with_fuel(crate::json::member_fault, 2);
    assert(json_bytes(Json::Text(text)) =~= string_bytes(text@));
    assert(json_bytes(Json::Integer(n)) =~= integer_bytes(n as int));
    assert(json_bytes(Json::Null) =~= seq![0x6eu8, 0x75u8, 0x6cu8, 0x6cu8]);
}

/// The number that a lower-case hexadecimal digit stands for.
pub open spec fn hex_value(digit: u8) -> int {
    if 0x30 <= digit <= 0x39 {
        digit - 0x30
    } else {
        digit - 0x61 + 10
    }
}

/// A byte of a JSON string stands for itself, but for the quote and the backslash, which
/// have a backslash in front, and for control characters: five have a letter behind the
/// backslash, and the others their number in lower-case hexadecimal digits.
pub proof fn escape_by_byte(byte: u8)
    ensures
        byte >= 0x20 && byte != 0x22 && byte != 0x5c ==> escaped(byte) == seq![byte],
        byte == 0x22 || byte == 0x5c ==> escaped(byte) == seq![0x5cu8, byte],
        byte == 0x08 ==> escaped(byte) == seq![0x5cu8, 0x62u8],
        byte == 0x09 ==> escaped(byte) == seq![0x5cu8, 0x74u8],
        byte == 0x0a ==> escaped(byte) == seq![0x5cu8, 0x6eu8],
        byte == 0x0c ==> escaped(byte) == seq![0x5cu8, 0x66u8],
        byte == 0x0d ==> escaped(byte) == seq![0x5cu8, 0x72u8],
        byte < 0x20 && !(0x08 <= byte <= 0x0a) && byte != 0x0c && byte != 0x0d ==> {
            let written = escaped(byte);
            &&& written.len() == 6
            &&& written.take(4) == seq![0x5cu8, 0x75u8, 0x30u8, 0x30u8]
            &&& forall|i: int|
                4 <= i < 6 ==> (0x30 <= #[trigger] written[i] <= 0x39 || 0x61 <= written[i] <= 0x66)
            &&& 16 * hex_value(written[4]) + hex_value(written[5]) == byte
        },
{
    let written = escaped(byte);
    if byte < 0x20 && !(0x08 <= byte <= 0x0a) && byte != 0x0c && byte != 0x0d {
        assert(written.take(4) =~= seq![0x5cu8, 0x75u8, 0x30u8, 0x30u8]);
    }
}

} // verus!

//! Dense binary encoding of trie payloads and of persisted trie nodes.

use vstd::prelude::*;
use vstd::utf8::{decode_utf8, encode_utf8, encode_utf8_valid_utf8, valid_utf8};
use crate::bytes::{
    be_range_monotone, be_value_bound, byte_range, byte_range_values, bytes_equal, le_bytes,
    le_bytes_of_value, le_value, le_value_of_bytes, push_le,
};
use crate::primitives::text_from_utf8;

verus! {

/// Custom binary codec for trie payloads.
///
/// The encoding of a value is its identity: two values are the same key, or
/// the same value, exactly where their encodings agree.
pub trait HamtCodec: Sized {
    /// The value is short enough to be encoded.
    spec fn encodable(&self) -> bool;

    /// The bytes of the value.
    spec fn encoding(&self) -> Seq<u8>;

    /// Where reading from a cursor ends, and what is wrong with the bytes.
    spec fn parse(input: Seq<u8>, cursor: nat) -> (nat, Option<Seq<char>>);

    /// Encodes the value into the provided buffer.
    fn encode_hamt(&self, out: &mut Vec<u8>)
        requires
            self.encodable(),
        ensures
            final(out)@ == old(out)@ + self.encoding(),
    ;

    /// Decodes the value from the provided buffer cursor.
    ///
    /// # Errors
    /// Returns an error if the input buffer is too short or the encoded
    /// payload is malformed.
    fn decode_hamt(input: &[u8], cursor: &mut usize) -> (result: Result<Self, &'static str>)
        ensures
            *final(cursor) == Self::parse(input@, *old(cursor) as nat).0,
            match result {
                Ok(value) => {
                    &&& Self::parse(input@, *old(cursor) as nat).1 is None
                    &&& *old(cursor) <= *final(cursor) <= input@.len()
                    &&& value.encodable()
                    &&& value.encoding() == input@.subrange(
                        *old(cursor) as int,
                        *final(cursor) as int,
                    )
                },
                Err(message) => Self::parse(input@, *old(cursor) as nat).1 == Some(message@),
            },
    ;

    /// An encoded value is read back from wherever it stands.
    proof fn parse_encoding(&self, before: Seq<u8>, after: Seq<u8>)
        requires
            self.encodable(),
            (before + self.encoding() + after).len() <= usize::MAX,
        ensures
            Self::parse(before + self.encoding() + after, before.len()) == (
                before.len() + self.encoding().len(),
                None::<Seq<char>>,
            ),
    ;

    /// Whether two values have the same encoding.
    fn same_encoding(&self, other: &Self) -> (result: bool)
        requires
            self.encodable(),
            other.encodable(),
        ensures
            result == (self.encoding() == other.encoding()),
    {
        let mut ours: Vec<u8> = Vec::new();
        let mut theirs: Vec<u8> = Vec::new();
        self.encode_hamt(&mut ours);
        other.encode_hamt(&mut theirs);
        proof {
            assert(ours@ =~= self.encoding());
            assert(theirs@ =~= other.encoding());
        }
        bytes_equal(ours.as_slice(), theirs.as_slice())
    }
}

/// A key, with the bytes that its routing hash runs over.
pub trait HamtKey: HamtCodec {
    /// The routing bytes of the key with an encoding.
    spec fn routing_of(encoding: Seq<u8>) -> Seq<u8>;

    /// Appends the routing bytes.
    fn push_routing(&self, out: &mut Vec<u8>)
        requires
            self.encodable(),
        ensures
            final(out)@ == old(out)@ + Self::routing_of(self.encoding()),
    ;
}

/// Reading a fixed number of bytes.
pub open spec fn parse_fixed(input: Seq<u8>, cursor: nat, width: nat) -> (nat, Option<Seq<char>>) {
    if cursor + width > usize::MAX {
        (cursor, Some("HAMT codec cursor overflow"@))
    } else if cursor + width > input.len() {
        (cursor, Some("HAMT codec buffer too short"@))
    } else {
        (cursor + width, None)
    }
}

/// Moves the cursor over a fixed number of bytes.
fn take_bytes(input: &[u8], cursor: &mut usize, width: usize) -> (result: Result<
    usize,
    &'static str,
>)
    ensures
        *final(cursor) == parse_fixed(input@, *old(cursor) as nat, width as nat).0,
        match result {
            Ok(start) => {
                &&& parse_fixed(input@, *old(cursor) as nat, width as nat).1 is None
                &&& start == *old(cursor)
                &&& *final(cursor) == start + width
                &&& start + width <= input@.len()
            },
            Err(message) => parse_fixed(input@, *old(cursor) as nat, width as nat).1 == Some(
                message@,
            ),
        },
{
    let start: usize = *cursor;
    let end: usize = match start.checked_add(width) {
        Some(end) => end,
        None => return Err("HAMT codec cursor overflow"),
    };
    if end > input.len() {
        return Err("HAMT codec buffer too short");
    }
    *cursor = end;
    Ok(start)
}

/// Reads up to sixteen bytes, least significant first.
fn read_le(input: &[u8], start: usize, width: usize) -> (result: u128)
    requires
        width <= 16,
        start + width <= input.len(),
    ensures
        result == le_value(input@.subrange(start as int, start + width)),
        result < byte_range(width as nat),
{
    let mut result: u128 = 0;
    let mut left: usize = width;
    proof {
        assert(input@.subrange(start + width, start + width).reverse() =~= Seq::<u8>::empty());
    }
    while left > 0
        invariant
            left <= width <= 16,
            start + width <= input.len(),
            result == le_value(input@.subrange(start + left, start + width)),
        decreases left,
    {
        proof {
            let now = input@.subrange(start + left, start + width);
            let next = input@.subrange(start + left - 1, start + width);
            assert(next.reverse().drop_last() =~= now.reverse());
            be_value_bound(next.reverse());
            be_range_monotone(next.len(), 16);
            byte_range_values();
        }
        left = left - 1;
        result = result * 256 + input[start + left] as u128;
    }
    proof {
        be_value_bound(input@.subrange(start as int, start + width).reverse());
    }
    result
}

proof fn byte_range_one()
    ensures
        byte_range(1) == 256,
{
    reveal_with_fuel(byte_range, 2);
}

proof fn subrange_of_middle(before: Seq<u8>, middle: Seq<u8>, after: Seq<u8>)
    ensures
        (before + middle + after).subrange(
            before.len() as int,
            (before.len() + middle.len()) as int,
        ) =~= middle,
{
}

impl HamtCodec for u8 {
    open spec fn encodable(&self) -> bool {
        true
    }

    open spec fn encoding(&self) -> Seq<u8> {
        le_bytes(*self as nat, 1)
    }

    open spec fn parse(input: Seq<u8>, cursor: nat) -> (nat, Option<Seq<char>>) {
        parse_fixed(input, cursor, 1)
    }

    fn encode_hamt(&self, out: &mut Vec<u8>) {
        push_le(out, *self as u128, 1);
    }

    fn decode_hamt(input: &[u8], cursor: &mut usize) -> (result: Result<Self, &'static str>) {
        let start: usize = match take_bytes(input, cursor, 1) {
            Ok(start) => start,
            Err(message) => return Err(message),
        };
        let value: u128 = read_le(input, start, 1);
        proof {
            byte_range_values();
            byte_range_one();
            le_bytes_of_value(input@.subrange(start as int, start + 1));
        }
        Ok(value as u8)
    }

    proof fn parse_encoding(&self, before: Seq<u8>, after: Seq<u8>) {
        byte_range_values();
        byte_range_one();
        le_value_of_bytes(*self as nat, 1);
    }
}

impl HamtKey for u8 {
    open spec fn routing_of(encoding: Seq<u8>) -> Seq<u8> {
        encoding
    }

    fn push_routing(&self, out: &mut Vec<u8>) {
        self.encode_hamt(out);
    }
}

impl HamtCodec for u16 {
    open spec fn encodable(&self) -> bool {
        true
    }

    open spec fn encoding(&self) -> Seq<u8> {
        le_bytes(*self as nat, 2)
    }

    open spec fn parse(input: Seq<u8>, cursor: nat) -> (nat, Option<Seq<char>>) {
        parse_fixed(input, cursor, 2)
    }

    fn encode_hamt(&self, out: &mut Vec<u8>) {
        push_le(out, *self as u128, 2);
    }

    fn decode_hamt(input: &[u8], cursor: &mut usize) -> (result: Result<Self, &'static str>) {
        let start: usize = match take_bytes(input, cursor, 2) {
            Ok(start) => start,
            Err(message) => return Err(message),
        };
        let value: u128 = read_le(input, start, 2);
        proof {
            byte_range_values();
            byte_range_one();
            le_bytes_of_value(input@.subrange(start as int, start + 2));
        }
        Ok(value as u16)
    }

    proof fn parse_encoding(&self, before: Seq<u8>, after: Seq<u8>) {
        byte_range_values();
        byte_range_one();
        le_value_of_bytes(*self as nat, 2);
    }
}

impl HamtKey for u16 {
    open spec fn routing_of(encoding: Seq<u8>) -> Seq<u8> {
        encoding
    }

    fn push_routing(&self, out: &mut Vec<u8>) {
        self.encode_hamt(out);
    }
}

impl HamtCodec for u32 {
    open spec fn encodable(&self) -> bool {
        true
    }

    open spec fn encoding(&self) -> Seq<u8> {
        le_bytes(*self as nat, 4)
    }

    open spec fn parse(input: Seq<u8>, cursor: nat) -> (nat, Option<Seq<char>>) {
        parse_fixed(input, cursor, 4)
    }

    fn encode_hamt(&self, out: &mut Vec<u8>) {
        push_le(out, *self as u128, 4);
    }

    fn decode_hamt(input: &[u8], cursor: &mut usize) -> (result: Result<Self, &'static str>) {
        let start: usize = match take_bytes(input, cursor, 4) {
            Ok(start) => start,
            Err(message) => return Err(message),
        };
        let value: u128 = read_le(input, start, 4);
        proof {
            byte_range_values();
            byte_range_one();
            le_bytes_of_value(input@.subrange(start as int, start + 4));
        }
        Ok(value as u32)
    }

    proof fn parse_encoding(&self, before: Seq<u8>, after: Seq<u8>) {
        byte_range_values();
        byte_range_one();
        le_value_of_bytes(*self as nat, 4);
    }
}

impl HamtKey for u32 {
    open spec fn routing_of(encoding: Seq<u8>) -> Seq<u8> {
        encoding
    }

    fn push_routing(&self, out: &mut Vec<u8>) {
        self.encode_hamt(out);
    }
}

impl HamtCodec for u64 {
    open spec fn encodable(&self) -> bool {
        true
    }

    open spec fn encoding(&self) -> Seq<u8> {
        le_bytes(*self as nat, 8)
    }

    open spec fn parse(input: Seq<u8>, cursor: nat) -> (nat, Option<Seq<char>>) {
        parse_fixed(input, cursor, 8)
    }

    fn encode_hamt(&self, out: &mut Vec<u8>) {
        push_le(out, *self as u128, 8);
    }

    fn decode_hamt(input: &[u8], cursor: &mut usize) -> (result: Result<Self, &'static str>) {
        let start: usize = match take_bytes(input, cursor, 8) {
            Ok(start) => start,
            Err(message) => return Err(message),
        };
        let value: u128 = read_le(input, start, 8);
        proof {
            byte_range_values();
            byte_range_one();
            le_bytes_of_value(input@.subrange(start as int, start + 8));
        }
        Ok(value as u64)
    }

    proof fn parse_encoding(&self, before: Seq<u8>, after: Seq<u8>) {
        byte_range_values();
        byte_range_one();
        le_value_of_bytes(*self as nat, 8);
    }
}

impl HamtKey for u64 {
    open spec fn routing_of(encoding: Seq<u8>) -> Seq<u8> {
        encoding
    }

    fn push_routing(&self, out: &mut Vec<u8>) {
        self.encode_hamt(out);
    }
}

impl HamtCodec for u128 {
    open spec fn encodable(&self) -> bool {
        true
    }

    open spec fn encoding(&self) -> Seq<u8> {
        le_bytes(*self as nat, 16)
    }

    open spec fn parse(input: Seq<u8>, cursor: nat) -> (nat, Option<Seq<char>>) {
        parse_fixed(input, cursor, 16)
    }

    fn encode_hamt(&self, out: &mut Vec<u8>) {
        push_le(out, *self as u128, 16);
    }

    fn decode_hamt(input: &[u8], cursor: &mut usize) -> (result: Result<Self, &'static str>) {
        let start: usize = match take_bytes(input, cursor, 16) {
            Ok(start) => start,
            Err(message) => return Err(message),
        };
        let value: u128 = read_le(input, start, 16);
        proof {
            byte_range_values();
            byte_range_one();
            le_bytes_of_value(input@.subrange(start as int, start + 16));
        }
        Ok(value as u128)
    }

    proof fn parse_encoding(&self, before: Seq<u8>, after: Seq<u8>) {
        byte_range_values();
        byte_range_one();
        le_value_of_bytes(*self as nat, 16);
    }
}

impl HamtKey for u128 {
    open spec fn routing_of(encoding: Seq<u8>) -> Seq<u8> {
        encoding
    }

    fn push_routing(&self, out: &mut Vec<u8>) {
        self.encode_hamt(out);
    }
}

impl HamtCodec for i8 {
    open spec fn encodable(&self) -> bool {
        true
    }

    open spec fn encoding(&self) -> Seq<u8> {
        le_bytes(
            (if *self >= 0 {
                *self as int
            } else {
                *self as int + byte_range(1)
            }) as nat,
            1,
        )
    }

    open spec fn parse(input: Seq<u8>, cursor: nat) -> (nat, Option<Seq<char>>) {
        parse_fixed(input, cursor, 1)
    }

    fn encode_hamt(&self, out: &mut Vec<u8>) {
        proof {
            byte_range_values();
            byte_range_one();
        }
        let value: u128 = if *self >= 0 {
            *self as u128
        } else {
            (*self - i8::MIN) as u128 + 0x80
        };
        push_le(out, value, 1);
    }

    fn decode_hamt(input: &[u8], cursor: &mut usize) -> (result: Result<Self, &'static str>) {
        let start: usize = match take_bytes(input, cursor, 1) {
            Ok(start) => start,
            Err(message) => return Err(message),
        };
        let value: u128 = read_le(input, start, 1);
        proof {
            byte_range_values();
            byte_range_one();
            le_bytes_of_value(input@.subrange(start as int, start + 1));
        }
        if value < 0x80 {
            Ok(value as i8)
        } else {
            Ok((value - 0x80) as i8 + i8::MIN)
        }
    }

    proof fn parse_encoding(&self, before: Seq<u8>, after: Seq<u8>) {
        byte_range_values();
        byte_range_one();
        let value: nat = (if *self >= 0 {
            *self as int
        } else {
            *self as int + byte_range(1)
        }) as nat;
        le_value_of_bytes(value, 1);
    }
}

impl HamtKey for i8 {
    open spec fn routing_of(encoding: Seq<u8>) -> Seq<u8> {
        encoding
    }

    fn push_routing(&self, out: &mut Vec<u8>) {
        self.encode_hamt(out);
    }
}

impl HamtCodec for i16 {
    open spec fn encodable(&self) -> bool {
        true
    }

    open spec fn encoding(&self) -> Seq<u8> {
        le_bytes(
            (if *self >= 0 {
                *self as int
            } else {
                *self as int + byte_range(2)
            }) as nat,
            2,
        )
    }

    open spec fn parse(input: Seq<u8>, cursor: nat) -> (nat, Option<Seq<char>>) {
        parse_fixed(input, cursor, 2)
    }

    fn encode_hamt(&self, out: &mut Vec<u8>) {
        proof {
            byte_range_values();
            byte_range_one();
        }
        let value: u128 = if *self >= 0 {
            *self as u128
        } else {
            (*self - i16::MIN) as u128 + 0x8000
        };
        push_le(out, value, 2);
    }

    fn decode_hamt(input: &[u8], cursor: &mut usize) -> (result: Result<Self, &'static str>) {
        let start: usize = match take_bytes(input, cursor, 2) {
            Ok(start) => start,
            Err(message) => return Err(message),
        };
        let value: u128 = read_le(input, start, 2);
        proof {
            byte_range_values();
            byte_range_one();
            le_bytes_of_value(input@.subrange(start as int, start + 2));
        }
        if value < 0x8000 {
            Ok(value as i16)
        } else {
            Ok((value - 0x8000) as i16 + i16::MIN)
        }
    }

    proof fn parse_encoding(&self, before: Seq<u8>, after: Seq<u8>) {
        byte_range_values();
        byte_range_one();
        let value: nat = (if *self >= 0 {
            *self as int
        } else {
            *self as int + byte_range(2)
        }) as nat;
        le_value_of_bytes(value, 2);
    }
}

impl HamtKey for i16 {
    open spec fn routing_of(encoding: Seq<u8>) -> Seq<u8> {
        encoding
    }

    fn push_routing(&self, out: &mut Vec<u8>) {
        self.encode_hamt(out);
    }
}

impl HamtCodec for i32 {
    open spec fn encodable(&self) -> bool {
        true
    }

    open spec fn encoding(&self) -> Seq<u8> {
        le_bytes(
            (if *self >= 0 {
                *self as int
            } else {
                *self as int + byte_range(4)
            }) as nat,
            4,
        )
    }

    open spec fn parse(input: Seq<u8>, cursor: nat) -> (nat, Option<Seq<char>>) {
        parse_fixed(input, cursor, 4)
    }

    fn encode_hamt(&self, out: &mut Vec<u8>) {
        proof {
            byte_range_values();
            byte_range_one();
        }
        let value: u128 = if *self >= 0 {
            *self as u128
        } else {
            (*self - i32::MIN) as u128 + 0x80000000
        };
        push_le(out, value, 4);
    }

    fn decode_hamt(input: &[u8], cursor: &mut usize) -> (result: Result<Self, &'static str>) {
        let start: usize = match take_bytes(input, cursor, 4) {
            Ok(start) => start,
            Err(message) => return Err(message),
        };
        let value: u128 = read_le(input, start, 4);
        proof {
            byte_range_values();
            byte_range_one();
            le_bytes_of_value(input@.subrange(start as int, start + 4));
        }
        if value < 0x80000000 {
            Ok(value as i32)
        } else {
            Ok((value - 0x80000000) as i32 + i32::MIN)
        }
    }

    proof fn parse_encoding(&self, before: Seq<u8>, after: Seq<u8>) {
        byte_range_values();
        byte_range_one();
        let value: nat = (if *self >= 0 {
            *self as int
        } else {
            *self as int + byte_range(4)
        }) as nat;
        le_value_of_bytes(value, 4);
    }
}

impl HamtKey for i32 {
    open spec fn routing_of(encoding: Seq<u8>) -> Seq<u8> {
        encoding
    }

    fn push_routing(&self, out: &mut Vec<u8>) {
        self.encode_hamt(out);
    }
}

impl HamtCodec for i64 {
    open spec fn encodable(&self) -> bool {
        true
    }

    open spec fn encoding(&self) -> Seq<u8> {
        le_bytes(
            (if *self >= 0 {
                *self as int
            } else {
                *self as int + byte_range(8)
            }) as nat,
            8,
        )
    }

    open spec fn parse(input: Seq<u8>, cursor: nat) -> (nat, Option<Seq<char>>) {
        parse_fixed(input, cursor, 8)
    }

    fn encode_hamt(&self, out: &mut Vec<u8>) {
        proof {
            byte_range_values();
            byte_range_one();
        }
        let value: u128 = if *self >= 0 {
            *self as u128
        } else {
            (*self - i64::MIN) as u128 + 0x8000000000000000
        };
        push_le(out, value, 8);
    }

    fn decode_hamt(input: &[u8], cursor: &mut usize) -> (result: Result<Self, &'static str>) {
        let start: usize = match take_bytes(input, cursor, 8) {
            Ok(start) => start,
            Err(message) => return Err(message),
        };
        let value: u128 = read_le(input, start, 8);
        proof {
            byte_range_values();
            byte_range_one();
            le_bytes_of_value(input@.subrange(start as int, start + 8));
        }
        if value < 0x8000000000000000 {
            Ok(value as i64)
        } else {
            Ok((value - 0x8000000000000000) as i64 + i64::MIN)
        }
    }

    proof fn parse_encoding(&self, before: Seq<u8>, after: Seq<u8>) {
        byte_range_values();
        byte_range_one();
        let value: nat = (if *self >= 0 {
            *self as int
        } else {
            *self as int + byte_range(8)
        }) as nat;
        le_value_of_bytes(value, 8);
    }
}

impl HamtKey for i64 {
    open spec fn routing_of(encoding: Seq<u8>) -> Seq<u8> {
        encoding
    }

    fn push_routing(&self, out: &mut Vec<u8>) {
        self.encode_hamt(out);
    }
}

impl HamtCodec for i128 {
    open spec fn encodable(&self) -> bool {
        true
    }

    open spec fn encoding(&self) -> Seq<u8> {
        le_bytes(
            (if *self >= 0 {
                *self as int
            } else {
                *self as int + byte_range(16)
            }) as nat,
            16,
        )
    }

    open spec fn parse(input: Seq<u8>, cursor: nat) -> (nat, Option<Seq<char>>) {
        parse_fixed(input, cursor, 16)
    }

    fn encode_hamt(&self, out: &mut Vec<u8>) {
        proof {
            byte_range_values();
            byte_range_one();
        }
        let value: u128 = if *self >= 0 {
            *self as u128
        } else {
            (*self - i128::MIN) as u128 + 0x80000000000000000000000000000000
        };
        push_le(out, value, 16);
    }

    fn decode_hamt(input: &[u8], cursor: &mut usize) -> (result: Result<Self, &'static str>) {
        let start: usize = match take_bytes(input, cursor, 16) {
            Ok(start) => start,
            Err(message) => return Err(message),
        };
        let value: u128 = read_le(input, start, 16);
        proof {
            byte_range_values();
            byte_range_one();
            le_bytes_of_value(input@.subrange(start as int, start + 16));
        }
        if value < 0x80000000000000000000000000000000 {
            Ok(value as i128)
        } else {
            Ok((value - 0x80000000000000000000000000000000) as i128 + i128::MIN)
        }
    }

    proof fn parse_encoding(&self, before: Seq<u8>, after: Seq<u8>) {
        byte_range_values();
        byte_range_one();
        let value: nat = (if *self >= 0 {
            *self as int
        } else {
            *self as int + byte_range(16)
        }) as nat;
        le_value_of_bytes(value, 16);
    }
}

impl HamtKey for i128 {
    open spec fn routing_of(encoding: Seq<u8>) -> Seq<u8> {
        encoding
    }

    fn push_routing(&self, out: &mut Vec<u8>) {
        self.encode_hamt(out);
    }
}

impl HamtCodec for usize {
    open spec fn encodable(&self) -> bool {
        true
    }

    open spec fn encoding(&self) -> Seq<u8> {
        le_bytes(*self as nat, 8)
    }

    open spec fn parse(input: Seq<u8>, cursor: nat) -> (nat, Option<Seq<char>>) {
        let (end, error) = parse_fixed(input, cursor, 8);
        if error is None && le_value(input.subrange(cursor as int, end as int)) > usize::MAX {
            (end, Some("HAMT codec usize out of range"@))
        } else {
            (end, error)
        }
    }

    fn encode_hamt(&self, out: &mut Vec<u8>) {
        push_le(out, *self as u128, 8);
    }

    fn decode_hamt(input: &[u8], cursor: &mut usize) -> (result: Result<Self, &'static str>) {
        let start: usize = match take_bytes(input, cursor, 8) {
            Ok(start) => start,
            Err(message) => return Err(message),
        };
        let value: u128 = read_le(input, start, 8);
        proof {
            le_bytes_of_value(input@.subrange(start as int, start + 8));
        }
        if value > usize::MAX as u128 {
            return Err("HAMT codec usize out of range");
        }
        Ok(value as usize)
    }

    proof fn parse_encoding(&self, before: Seq<u8>, after: Seq<u8>) {
        byte_range_values();
        le_value_of_bytes(*self as nat, 8);
        subrange_of_middle(before, self.encoding(), after);
    }
}

impl HamtKey for usize {
    open spec fn routing_of(encoding: Seq<u8>) -> Seq<u8> {
        encoding
    }

    fn push_routing(&self, out: &mut Vec<u8>) {
        self.encode_hamt(out);
    }
}

impl HamtCodec for isize {
    open spec fn encodable(&self) -> bool {
        true
    }

    open spec fn encoding(&self) -> Seq<u8> {
        le_bytes(
            (if *self >= 0 {
                *self as int
            } else {
                *self as int + byte_range(8)
            }) as nat,
            8,
        )
    }

    open spec fn parse(input: Seq<u8>, cursor: nat) -> (nat, Option<Seq<char>>) {
        let (end, error) = parse_fixed(input, cursor, 8);
        let value = le_value(input.subrange(cursor as int, end as int));
        if error is None && isize::MAX < value && value - byte_range(8) < isize::MIN {
            (end, Some("HAMT codec isize out of range"@))
        } else {
            (end, error)
        }
    }

    fn encode_hamt(&self, out: &mut Vec<u8>) {
        proof {
            byte_range_values();
        }
        let wide: i128 = *self as i128;
        let value: u128 = if wide >= 0 {
            wide as u128
        } else {
            (wide + 0x1_0000_0000_0000_0000) as u128
        };
        push_le(out, value, 8);
    }

    fn decode_hamt(input: &[u8], cursor: &mut usize) -> (result: Result<Self, &'static str>) {
        let start: usize = match take_bytes(input, cursor, 8) {
            Ok(start) => start,
            Err(message) => return Err(message),
        };
        let value: u128 = read_le(input, start, 8);
        proof {
            byte_range_values();
            le_bytes_of_value(input@.subrange(start as int, start + 8));
        }
        if value <= isize::MAX as u128 {
            return Ok(value as isize);
        }
        let wide: i128 = value as i128 - 0x1_0000_0000_0000_0000;
        if wide < isize::MIN as i128 {
            return Err("HAMT codec isize out of range");
        }
        Ok(wide as isize)
    }

    proof fn parse_encoding(&self, before: Seq<u8>, after: Seq<u8>) {
        byte_range_values();
        let value: nat = (if *self >= 0 {
            *self as int
        } else {
            *self as int + byte_range(8)
        }) as nat;
        le_value_of_bytes(value, 8);
        subrange_of_middle(before, self.encoding(), after);
    }
}

impl HamtKey for isize {
    open spec fn routing_of(encoding: Seq<u8>) -> Seq<u8> {
        encoding
    }

    fn push_routing(&self, out: &mut Vec<u8>) {
        self.encode_hamt(out);
    }
}

impl HamtCodec for bool {
    open spec fn encodable(&self) -> bool {
        true
    }

    open spec fn encoding(&self) -> Seq<u8> {
        seq![if *self { 1u8 } else { 0u8 }]
    }

    open spec fn parse(input: Seq<u8>, cursor: nat) -> (nat, Option<Seq<char>>) {
        let (end, error) = parse_fixed(input, cursor, 1);
        if error is None && input[cursor as int] > 1 {
            (end, Some("HAMT codec invalid bool encoding"@))
        } else {
            (end, error)
        }
    }

    fn encode_hamt(&self, out: &mut Vec<u8>) {
        let byte: u8 = if *self {
            1
        } else {
            0
        };
        out.push(byte);
        proof {
            assert(out@ =~= old(out)@ + self.encoding());
        }
    }

    fn decode_hamt(input: &[u8], cursor: &mut usize) -> (result: Result<Self, &'static str>) {
        let start: usize = match take_bytes(input, cursor, 1) {
            Ok(start) => start,
            Err(message) => return Err(message),
        };
        let byte: u8 = input[start];
        proof {
            assert(input@.subrange(start as int, start + 1) =~= seq![byte]);
        }
        if byte == 0 {
            Ok(false)
        } else if byte == 1 {
            Ok(true)
        } else {
            Err("HAMT codec invalid bool encoding")
        }
    }

    proof fn parse_encoding(&self, before: Seq<u8>, after: Seq<u8>) {
        assert((before + self.encoding() + after)[before.len() as int] == self.encoding()[0]);
    }
}

impl HamtKey for bool {
    open spec fn routing_of(encoding: Seq<u8>) -> Seq<u8> {
        encoding
    }

    fn push_routing(&self, out: &mut Vec<u8>) {
        self.encode_hamt(out);
    }
}

/// Bytes with their length in front.
pub open spec fn prefixed(bytes: Seq<u8>) -> Seq<u8> {
    le_bytes(bytes.len(), 4) + bytes
}

/// Reading bytes with their length in front.
pub open spec fn parse_prefixed(input: Seq<u8>, cursor: nat) -> (nat, Option<Seq<char>>) {
    let (start, error) = parse_fixed(input, cursor, 4);
    if error is Some {
        (start, error)
    } else {
        parse_fixed(input, start, le_value(input.subrange(cursor as int, start as int)))
    }
}

/// Appends bytes with their length in front.
fn push_prefixed(out: &mut Vec<u8>, bytes: &[u8])
    requires
        bytes@.len() <= u32::MAX,
    ensures
        final(out)@ == old(out)@ + prefixed(bytes@),
{
    let ghost start = out@;
    push_le(out, bytes.len() as u128, 4);
    out.extend_from_slice(bytes);
    proof {
        assert(out@ =~= start + prefixed(bytes@));
    }
}

/// Moves the cursor over bytes with their length in front, and returns where
/// the bytes start.
fn take_prefixed(input: &[u8], cursor: &mut usize) -> (result: Result<usize, &'static str>)
    ensures
        *final(cursor) == parse_prefixed(input@, *old(cursor) as nat).0,
        match result {
            Ok(start) => {
                &&& parse_prefixed(input@, *old(cursor) as nat).1 is None
                &&& start == *old(cursor) + 4
                &&& start <= *final(cursor) <= input@.len()
                &&& *final(cursor) - start <= u32::MAX
                &&& input@.subrange(*old(cursor) as int, *final(cursor) as int) == prefixed(
                    input@.subrange(start as int, *final(cursor) as int),
                )
            },
            Err(message) => parse_prefixed(input@, *old(cursor) as nat).1 == Some(message@),
        },
{
    let first: usize = match take_bytes(input, cursor, 4) {
        Ok(first) => first,
        Err(message) => return Err(message),
    };
    let length: u128 = read_le(input, first, 4);
    proof {
        byte_range_values();
    }
    let width: usize = length as usize;
    let start: usize = match take_bytes(input, cursor, width) {
        Ok(start) => start,
        Err(message) => return Err(message),
    };
    proof {
        let head = input@.subrange(first as int, first + 4);
        le_bytes_of_value(head);
        let body = input@.subrange(start as int, start + width);
        assert(input@.subrange(first as int, start + width) =~= head + body);
    }
    Ok(start)
}

proof fn parse_prefixed_middle(before: Seq<u8>, bytes: Seq<u8>, after: Seq<u8>)
    requires
        bytes.len() <= u32::MAX,
        (before + prefixed(bytes) + after).len() <= usize::MAX,
    ensures
        parse_prefixed(before + prefixed(bytes) + after, before.len()) == (
            before.len() + prefixed(bytes).len(),
            None::<Seq<char>>,
        ),
        prefixed(bytes).len() == 4 + bytes.len(),
        (before + prefixed(bytes) + after).subrange(
            (before.len() + 4) as int,
            (before.len() + 4 + bytes.len()) as int,
        ) =~= bytes,
{
    byte_range_values();
    le_value_of_bytes(bytes.len(), 4);
    let all = before + prefixed(bytes) + after;
    assert(all.subrange(before.len() as int, (before.len() + 4) as int) =~= le_bytes(bytes.len(), 4));
}

impl HamtCodec for String {
    open spec fn encodable(&self) -> bool {
        encode_utf8(self@).len() <= u32::MAX
    }

    open spec fn encoding(&self) -> Seq<u8> {
        prefixed(encode_utf8(self@))
    }

    open spec fn parse(input: Seq<u8>, cursor: nat) -> (nat, Option<Seq<char>>) {
        let (end, error) = parse_prefixed(input, cursor);
        if error is None && !valid_utf8(input.subrange(cursor as int + 4, end as int)) {
            (end, Some("HAMT codec invalid UTF-8"@))
        } else {
            (end, error)
        }
    }

    fn encode_hamt(&self, out: &mut Vec<u8>) {
        push_prefixed(out, self.as_str().as_bytes());
    }

    fn decode_hamt(input: &[u8], cursor: &mut usize) -> (result: Result<Self, &'static str>) {
        let start: usize = match take_prefixed(input, cursor) {
            Ok(start) => start,
            Err(message) => return Err(message),
        };
        let bytes: &[u8] = vstd::slice::slice_subrange(input, start, *cursor);
        match text_from_utf8(bytes) {
            Some(text) => Ok(text),
            None => Err("HAMT codec invalid UTF-8"),
        }
    }

    proof fn parse_encoding(&self, before: Seq<u8>, after: Seq<u8>) {
        parse_prefixed_middle(before, encode_utf8(self@), after);
        encode_utf8_valid_utf8(self@);
    }
}

impl HamtKey for String {
    open spec fn routing_of(encoding: Seq<u8>) -> Seq<u8> {
        encoding.skip(4).push(0xff)
    }

    fn push_routing(&self, out: &mut Vec<u8>) {
        let ghost start = out@;
        let bytes: &[u8] = self.as_str().as_bytes();
        out.extend_from_slice(bytes);
        out.push(0xff);
        proof {
            byte_range_values();
            le_value_of_bytes(bytes@.len(), 4);
            assert(self.encoding().skip(4) =~= bytes@);
            assert(out@ =~= start + Self::routing_of(self.encoding()));
        }
    }
}

impl HamtCodec for Vec<u8> {
    open spec fn encodable(&self) -> bool {
        self@.len() <= u32::MAX
    }

    open spec fn encoding(&self) -> Seq<u8> {
        prefixed(self@)
    }

    open spec fn parse(input: Seq<u8>, cursor: nat) -> (nat, Option<Seq<char>>) {
        parse_prefixed(input, cursor)
    }

    fn encode_hamt(&self, out: &mut Vec<u8>) {
        push_prefixed(out, self.as_slice());
    }

    fn decode_hamt(input: &[u8], cursor: &mut usize) -> (result: Result<Self, &'static str>) {
        let start: usize = match take_prefixed(input, cursor) {
            Ok(start) => start,
            Err(message) => return Err(message),
        };
        let bytes: &[u8] = vstd::slice::slice_subrange(input, start, *cursor);
        let mut value: Vec<u8> = Vec::new();
        value.extend_from_slice(bytes);
        proof {
            assert(value@ =~= bytes@);
        }
        Ok(value)
    }

    proof fn parse_encoding(&self, before: Seq<u8>, after: Seq<u8>) {
        parse_prefixed_middle(before, self@, after);
    }
}

impl HamtKey for Vec<u8> {
    open spec fn routing_of(encoding: Seq<u8>) -> Seq<u8> {
        le_bytes((encoding.len() - 4) as nat, 8) + encoding.skip(4)
    }

    fn push_routing(&self, out: &mut Vec<u8>) {
        let ghost start = out@;
        push_le(out, self.len() as u128, 8);
        out.extend_from_slice(self.as_slice());
        proof {
            byte_range_values();
            le_value_of_bytes(self@.len(), 4);
            assert(self.encoding().skip(4) =~= self@);
            assert(out@ =~= start + Self::routing_of(self.encoding()));
        }
    }
}

impl<A: HamtCodec, B: HamtCodec> HamtCodec for (A, B) {
    open spec fn encodable(&self) -> bool {
        &&& self.0.encodable()
        &&& self.1.encodable()
        &&& self.0.encoding().len() + self.1.encoding().len() <= usize::MAX
    }

    open spec fn encoding(&self) -> Seq<u8> {
        self.0.encoding() + self.1.encoding()
    }

    open spec fn parse(input: Seq<u8>, cursor: nat) -> (nat, Option<Seq<char>>) {
        let (middle, error) = A::parse(input, cursor);
        if error is Some {
            (middle, error)
        } else {
            B::parse(input, middle)
        }
    }

    fn encode_hamt(&self, out: &mut Vec<u8>) {
        let ghost start = out@;
        self.0.encode_hamt(out);
        self.1.encode_hamt(out);
        proof {
            assert(out@ =~= start + self.encoding());
        }
    }

    fn decode_hamt(input: &[u8], cursor: &mut usize) -> (result: Result<Self, &'static str>) {
        let ghost start = *cursor as int;
        let a: A = match A::decode_hamt(input, cursor) {
            Ok(a) => a,
            Err(message) => return Err(message),
        };
        let ghost middle = *cursor as int;
        let b: B = match B::decode_hamt(input, cursor) {
            Ok(b) => b,
            Err(message) => return Err(message),
        };
        proof {
            let end = *cursor as int;
            assert(input@.len() <= usize::MAX) by {
                assert(input.len() == input@.len());
            }
            assert(input@.subrange(start, end) =~= input@.subrange(start, middle) + input@.subrange(
                middle,
                end,
            ));
        }
        Ok((a, b))
    }

    proof fn parse_encoding(&self, before: Seq<u8>, after: Seq<u8>) {
        let a = self.0.encoding();
        let b = self.1.encoding();
        let all = before + self.encoding() + after;
        assert(all =~= before + a + (b + after));
        assert(all =~= (before + a) + b + after);
        self.0.parse_encoding(before, b + after);
        self.1.parse_encoding(before + a, after);
    }
}

impl<A: HamtKey, B: HamtKey> HamtKey for (A, B) {
    open spec fn routing_of(encoding: Seq<u8>) -> Seq<u8> {
        let middle = A::parse(encoding, 0).0 as int;
        A::routing_of(encoding.take(middle)) + B::routing_of(encoding.skip(middle))
    }

    fn push_routing(&self, out: &mut Vec<u8>) {
        let ghost start = out@;
        self.0.push_routing(out);
        self.1.push_routing(out);
        proof {
            let a = self.0.encoding();
            let b = self.1.encoding();
            pair_splits(self.0, self.1);
            assert((a + b).take(a.len() as int) =~= a);
            assert((a + b).skip(a.len() as int) =~= b);
            assert(out@ =~= start + Self::routing_of(self.encoding()));
        }
    }
}

/// Reading the first part of a pair's encoding ends where the second starts,
/// whatever the length of the second.
proof fn pair_splits<A: HamtCodec, B: HamtCodec>(a: A, b: B)
    requires
        a.encodable(),
        a.encoding().len() + b.encoding().len() <= usize::MAX,
    ensures
        A::parse(a.encoding() + b.encoding(), 0).0 == a.encoding().len(),
{
    let none = Seq::<u8>::empty();
    assert(none + a.encoding() + b.encoding() =~= a.encoding() + b.encoding());
    a.parse_encoding(none, b.encoding());
}

} // verus!

//! Byte strings: fixed-width integers and lexicographic order.

use vstd::prelude::*;
use vstd::relations::{sorted_by, total_ordering};
use vstd::seq_lib::{lemma_sorted_unique, to_multiset_build, to_multiset_insert};
use vstd::utf8::{encode_utf8, encode_utf8_decode_utf8};

verus! {

/// The number that bytes denote, most significant byte first.
pub open spec fn be_value(s: Seq<u8>) -> nat
    decreases s.len(),
{
    if s.len() == 0 {
        0
    } else {
        be_value(s.drop_last()) * 256 + s.last() as nat
    }
}

/// The `n` low bytes of a number, most significant byte first.
pub open spec fn be_bytes(x: nat, n: nat) -> Seq<u8>
    decreases n,
{
    if n == 0 {
        Seq::empty()
    } else {
        be_bytes(x / 256, (n - 1) as nat).push((x % 256) as u8)
    }
}

/// The number that bytes denote, least significant byte first.
pub open spec fn le_value(s: Seq<u8>) -> nat {
    be_value(s.reverse())
}

/// The `n` low bytes of a number, least significant byte first.
pub open spec fn le_bytes(x: nat, n: nat) -> Seq<u8> {
    be_bytes(x, n).reverse()
}

/// `256^n`.
pub open spec fn byte_range(n: nat) -> nat
    decreases n,
{
    if n == 0 {
        1
    } else {
        256 * byte_range((n - 1) as nat)
    }
}

/// The values of the byte ranges in use.
pub proof fn byte_range_values()
    ensures
        byte_range(2) == 0x1_0000,
        byte_range(4) == 0x1_0000_0000,
        byte_range(8) == 0x1_0000_0000_0000_0000,
        byte_range(16) == 0x1_0000_0000_0000_0000_0000_0000_0000_0000,
{
    reveal_with_fuel(byte_range, 17);
}

/// A big-endian value stays below the range of its length.
pub proof fn be_value_bound(s: Seq<u8>)
    ensures
        be_value(s) < byte_range(s.len()),
    decreases s.len(),
{
    if s.len() > 0 {
        be_value_bound(s.drop_last());
    }
}

/// Big-endian bytes have the width that was asked for.
pub proof fn be_bytes_len(x: nat, n: nat)
    ensures
        be_bytes(x, n).len() == n,
    decreases n,
{
    if n > 0 {
        be_bytes_len(x / 256, (n - 1) as nat);
    }
}

/// Writing a number and reading it back.
pub proof fn be_value_of_bytes(x: nat, n: nat)
    requires
        x < byte_range(n),
    ensures
        be_value(be_bytes(x, n)) == x,
        be_bytes(x, n).len() == n,
    decreases n,
{
    if n > 0 {
        be_value_of_bytes(x / 256, (n - 1) as nat);
        assert(be_bytes(x, n).drop_last() =~= be_bytes(x / 256, (n - 1) as nat));
    }
}

/// Reading bytes and writing them back.
pub proof fn be_bytes_of_value(s: Seq<u8>)
    ensures
        be_bytes(be_value(s), s.len()) == s,
    decreases s.len(),
{
    if s.len() > 0 {
        let v = be_value(s.drop_last());
        be_bytes_of_value(s.drop_last());
        assert((v * 256 + s.last() as nat) / 256 == v);
        assert((v * 256 + s.last() as nat) % 256 == s.last() as nat);
        assert(s.drop_last().push(s.last()) =~= s);
    } else {
        assert(s =~= Seq::<u8>::empty());
    }
}

/// Little-endian bytes give their value back.
pub proof fn le_value_of_bytes(x: nat, n: nat)
    requires
        x < byte_range(n),
    ensures
        le_value(le_bytes(x, n)) == x,
        le_bytes(x, n).len() == n,
{
    be_value_of_bytes(x, n);
    assert(le_bytes(x, n).reverse() =~= be_bytes(x, n));
}

/// A little-endian value gives its bytes back.
pub proof fn le_bytes_of_value(s: Seq<u8>)
    ensures
        le_bytes(le_value(s), s.len()) == s,
        le_value(s) < byte_range(s.len()),
{
    be_bytes_of_value(s.reverse());
    be_value_bound(s.reverse());
    assert(s.reverse().reverse() =~= s);
}

/// Reads eight bytes, most significant first.
pub fn read_be_u64(input: &[u8], start: usize) -> (result: u64)
    requires
        start + 8 <= input.len(),
    ensures
        result == be_value(input@.subrange(start as int, start + 8)),
{
    let mut result: u64 = 0;
    let mut index: usize = 0;
    while index < 8
        invariant
            index <= 8,
            start + 8 <= input.len(),
            result == be_value(input@.subrange(start as int, start + index)),
        decreases 8 - index,
    {
        proof {
            let now = input@.subrange(start as int, start + index);
            let next = input@.subrange(start as int, start + index + 1);
            assert(next.drop_last() =~= now);
            be_value_bound(next);
            be_range_monotone((index + 1) as nat, 8);
            byte_range_values();
        }
        result = result * 256 + input[start + index] as u64;
        index = index + 1;
    }
    result
}

/// Reads sixteen bytes, most significant first.
pub fn read_be_u128(input: &[u8], start: usize) -> (result: u128)
    requires
        start + 16 <= input.len(),
    ensures
        result == be_value(input@.subrange(start as int, start + 16)),
{
    let mut result: u128 = 0;
    let mut index: usize = 0;
    while index < 16
        invariant
            index <= 16,
            start + 16 <= input.len(),
            result == be_value(input@.subrange(start as int, start + index)),
        decreases 16 - index,
    {
        proof {
            let now = input@.subrange(start as int, start + index);
            let next = input@.subrange(start as int, start + index + 1);
            assert(next.drop_last() =~= now);
            be_value_bound(next);
            be_range_monotone((index + 1) as nat, 16);
            byte_range_values();
        }
        result = result * 256 + input[start + index] as u128;
        index = index + 1;
    }
    result
}

/// Reads up to eight bytes, least significant first.
pub fn read_le_u64(input: &[u8], start: usize, width: usize) -> (result: u64)
    requires
        width <= 8,
        start + width <= input.len(),
    ensures
        result == le_value(input@.subrange(start as int, start + width)),
{
    let mut result: u64 = 0;
    let mut left: usize = width;
    proof {
        assert(input@.subrange(start + width, start + width).reverse() =~= Seq::<u8>::empty());
    }
    while left > 0
        invariant
            left <= width <= 8,
            start + width <= input.len(),
            result == le_value(input@.subrange(start + left, start + width)),
        decreases left,
    {
        proof {
            let now = input@.subrange(start + left, start + width);
            let next = input@.subrange(start + left - 1, start + width);
            assert(next.reverse().drop_last() =~= now.reverse());
            be_value_bound(next.reverse());
            be_range_monotone(next.len(), 8);
            byte_range_values();
        }
        left = left - 1;
        result = result * 256 + input[start + left] as u64;
    }
    result
}

/// Longer byte strings have larger ranges.
pub proof fn be_range_monotone(a: nat, b: nat)
    requires
        a <= b,
    ensures
        1 <= byte_range(a) <= byte_range(b),
    decreases b,
{
    if a < b {
        be_range_monotone(a, (b - 1) as nat);
    } else if a > 0 {
        be_range_monotone((a - 1) as nat, (b - 1) as nat);
    }
}

/// Appends the low bytes of a number, most significant first.
pub fn push_be(out: &mut Vec<u8>, value: u128, width: usize)
    requires
        width <= 16,
    ensures
        final(out)@ == old(out)@ + be_bytes(value as nat, width as nat),
{
    let ghost start = out@;
    let mut digits: Vec<u8> = Vec::new();
    push_le(&mut digits, value, width);
    let mut left: usize = width;
    proof {
        be_bytes_len(value as nat, width as nat);
        assert(out@ =~= start + be_bytes(value as nat, width as nat).take(0));
    }
    while left > 0
        invariant
            left <= width,
            digits@ == le_bytes(value as nat, width as nat),
            digits.len() == width,
            out@ =~= start + be_bytes(value as nat, width as nat).take(width - left),
        decreases left,
    {
        left = left - 1;
        proof {
            be_bytes_len(value as nat, width as nat);
        }
        out.push(digits[left]);
    }
    proof {
        be_bytes_len(value as nat, width as nat);
    }
}

/// Appends the low bytes of a number, least significant first.
pub fn push_le(out: &mut Vec<u8>, value: u128, width: usize)
    ensures
        final(out)@ == old(out)@ + le_bytes(value as nat, width as nat),
        le_bytes(value as nat, width as nat).len() == width,
{
    let ghost start = out@;
    let mut rest: u128 = value;
    let mut index: usize = 0;
    let ghost whole = le_bytes(value as nat, width as nat);
    proof {
        assert(le_bytes(value as nat, 0) =~= Seq::<u8>::empty());
        be_bytes_len(value as nat, width as nat);
    }
    while index < width
        invariant
            index <= width,
            whole.len() == width,
            whole == le_bytes(value as nat, width as nat),
            out@ =~= start + whole.take(index as int),
            whole.skip(index as int) == le_bytes(rest as nat, (width - index) as nat),
        decreases width - index,
    {
        let digit: u8 = (rest % 256) as u8;
        proof {
            let n = (width - index) as nat;
            let tail = le_bytes(rest as nat, n);
            let next = le_bytes((rest / 256) as nat, (n - 1) as nat);
            be_bytes_len((rest / 256) as nat, (n - 1) as nat);
            assert(tail =~= seq![digit] + next);
            assert(whole.skip(index + 1) =~= next) by {
                assert forall|i: int| 0 <= i < next.len() implies whole.skip(index + 1)[i]
                    == next[i] by {
                    assert(whole.skip(index as int)[i + 1] == tail[i + 1]);
                }
            }
            assert(whole[index as int] == digit) by {
                assert(whole.skip(index as int)[0] == tail[0]);
            }
            assert(whole.take(index + 1) =~= whole.take(index as int).push(digit));
        }
        out.push(digit);
        rest = rest / 256;
        index = index + 1;
    }
    proof {
        assert(whole.take(width as int) =~= whole);
    }
}

/// Lexicographic order on byte strings.
pub open spec fn bytes_le(a: Seq<u8>, b: Seq<u8>) -> bool
    decreases a.len(),
{
    if a.len() == 0 {
        true
    } else if b.len() == 0 {
        false
    } else if a[0] != b[0] {
        a[0] < b[0]
    } else {
        bytes_le(a.drop_first(), b.drop_first())
    }
}

/// Lexicographic order on the encoded bytes of two texts.
pub open spec fn text_le(a: Seq<char>, b: Seq<char>) -> bool {
    bytes_le(encode_utf8(a), encode_utf8(b))
}

/// Any two byte strings are ordered one way or the other.
pub proof fn bytes_le_total(a: Seq<u8>, b: Seq<u8>)
    ensures
        bytes_le(a, b) || bytes_le(b, a),
        bytes_le(a, a),
    decreases a.len(),
{
    if a.len() > 0 {
        bytes_le_total(a.drop_first(), a.drop_first());
        if b.len() > 0 {
            bytes_le_total(a.drop_first(), b.drop_first());
        }
    }
}

/// Byte strings ordered both ways are equal.
pub proof fn bytes_le_antisymmetric(a: Seq<u8>, b: Seq<u8>)
    requires
        bytes_le(a, b),
        bytes_le(b, a),
    ensures
        a == b,
    decreases a.len(),
{
    if a.len() > 0 && b.len() > 0 {
        bytes_le_antisymmetric(a.drop_first(), b.drop_first());
        assert(a =~= seq![a[0]] + a.drop_first());
        assert(b =~= seq![b[0]] + b.drop_first());
    } else {
        assert(a =~= b);
    }
}

/// The order on byte strings is transitive.
pub proof fn bytes_le_transitive(a: Seq<u8>, b: Seq<u8>, c: Seq<u8>)
    requires
        bytes_le(a, b),
        bytes_le(b, c),
    ensures
        bytes_le(a, c),
    decreases a.len(),
{
    if a.len() > 0 && b.len() > 0 && c.len() > 0 && a[0] == b[0] && b[0] == c[0] {
        bytes_le_transitive(a.drop_first(), b.drop_first(), c.drop_first());
    }
}

/// Texts with the same encoding are equal.
pub proof fn encode_utf8_injective(a: Seq<char>, b: Seq<char>)
    requires
        encode_utf8(a) == encode_utf8(b),
    ensures
        a == b,
{
    encode_utf8_decode_utf8(a);
    encode_utf8_decode_utf8(b);
}

/// Texts ordered both ways are equal.
pub proof fn text_le_antisymmetric(a: Seq<char>, b: Seq<char>)
    requires
        text_le(a, b),
        text_le(b, a),
    ensures
        a == b,
{
    bytes_le_antisymmetric(encode_utf8(a), encode_utf8(b));
    encode_utf8_injective(a, b);
}

/// The first byte in which two byte strings differ decides their order, and a byte
/// string comes before what continues it.
pub proof fn first_difference_decides(a: Seq<u8>, b: Seq<u8>, i: int)
    requires
        0 <= i <= a.len(),
        i < b.len(),
        a.take(i) == b.take(i),
        i == a.len() || a[i] < b[i],
    ensures
        bytes_le(a, b),
        !bytes_le(b, a),
    decreases i,
{
    if i > 0 {
        assert(a[0] == a.take(i)[0] && b[0] == b.take(i)[0]);
        let (s, t) = (a.drop_first(), b.drop_first());
        assert(s.take(i - 1) =~= a.take(i).drop_first());
        assert(t.take(i - 1) =~= b.take(i).drop_first());
        if i < a.len() {
            assert(s[i - 1] == a[i] && t[i - 1] == b[i]);
        }
        first_difference_decides(s, t, i - 1);
    }
}

/// Whether one byte string comes before or equals another.
pub fn bytes_at_most(a: &[u8], b: &[u8]) -> (result: bool)
    ensures
        result == bytes_le(a@, b@),
{
    let mut index: usize = 0;
    proof {
        assert(a@.skip(0) =~= a@);
        assert(b@.skip(0) =~= b@);
    }
    while index < a.len() && index < b.len()
        invariant
            index <= a.len(),
            index <= b.len(),
            bytes_le(a@, b@) == bytes_le(a@.skip(index as int), b@.skip(index as int)),
        decreases a.len() - index,
    {
        if a[index] != b[index] {
            return a[index] < b[index];
        }
        proof {
            assert(a@.skip(index as int).drop_first() =~= a@.skip(index + 1));
            assert(b@.skip(index as int).drop_first() =~= b@.skip(index + 1));
        }
        index = index + 1;
    }
    index == a.len()
}

/// Whether one text comes before or equals another in byte order.
pub fn text_at_most(a: &str, b: &str) -> (result: bool)
    ensures
        result == text_le(a@, b@),
{
    bytes_at_most(a.as_bytes(), b.as_bytes())
}

/// Whether two byte strings are equal.
pub fn bytes_equal(a: &[u8], b: &[u8]) -> (result: bool)
    ensures
        result == (a@ == b@),
{
    if a.len() != b.len() {
        return false;
    }
    let mut index: usize = 0;
    while index < a.len()
        invariant
            a.len() == b.len(),
            index <= a.len(),
            forall|i: int| 0 <= i < index ==> a@[i] == b@[i],
        decreases a.len() - index,
    {
        if a[index] != b[index] {
            return false;
        }
        index = index + 1;
    }
    proof {
        assert(a@ =~= b@);
    }
    true
}

/// Whether two texts are equal.
pub fn text_equal(a: &str, b: &str) -> (result: bool)
    ensures
        result == (a@ == b@),
{
    let result: bool = bytes_equal(a.as_bytes(), b.as_bytes());
    proof {
        if result {
            encode_utf8_injective(a@, b@);
        }
    }
    result
}

/// The order on texts, as a relation.
pub open spec fn text_order() -> spec_fn(Seq<char>, Seq<char>) -> bool {
    |a: Seq<char>, b: Seq<char>| text_le(a, b)
}

/// Text order is a total order.
pub proof fn text_order_total()
    ensures
        total_ordering(text_order()),
{
    let leq = text_order();
    assert forall|a: Seq<char>| #[trigger] leq(a, a) by {
        bytes_le_total(encode_utf8(a), encode_utf8(a));
    }
    assert forall|a: Seq<char>, b: Seq<char>| #[trigger] leq(a, b) && #[trigger] leq(
        b,
        a,
    ) implies a == b by {
        text_le_antisymmetric(a, b);
    }
    assert forall|a: Seq<char>, b: Seq<char>, c: Seq<char>| #[trigger] leq(a, b) && #[trigger] leq(
        b,
        c,
    ) implies leq(a, c) by {
        bytes_le_transitive(encode_utf8(a), encode_utf8(b), encode_utf8(c));
    }
    assert forall|a: Seq<char>, b: Seq<char>| #[trigger] leq(a, b) || #[trigger] leq(b, a) by {
        bytes_le_total(encode_utf8(a), encode_utf8(b));
    }
}

/// Texts in ascending byte order.
pub open spec fn sorted_texts(texts: Seq<Seq<char>>) -> Seq<Seq<char>> {
    texts.sort_by(text_order())
}

/// The contents of a list of texts.
pub open spec fn contents(texts: Seq<&str>) -> Seq<Seq<char>> {
    Seq::new(texts.len(), |i: int| texts[i]@)
}

/// A sorted rearrangement of texts is their sorted sequence.
pub proof fn sorted_texts_unique(texts: Seq<Seq<char>>, sorted: Seq<Seq<char>>)
    requires
        sorted.to_multiset() == texts.to_multiset(),
        sorted_by(sorted, text_order()),
    ensures
        sorted == sorted_texts(texts),
{
    text_order_total();
    texts.lemma_sort_by_ensures(text_order());
    lemma_sorted_unique(sorted, sorted_texts(texts), text_order());
}

/// Texts in ascending byte order.
pub fn sort_texts<'a>(texts: &[&'a str]) -> (sorted: Vec<&'a str>)
    ensures
        contents(sorted@) == sorted_texts(contents(texts@)),
{
    let mut sorted: Vec<&'a str> = Vec::new();
    let mut index: usize = 0;
    proof {
        assert(contents(sorted@) =~= Seq::<Seq<char>>::empty());
        assert(contents(texts@).take(0) =~= Seq::<Seq<char>>::empty());
    }
    while index < texts.len()
        invariant
            index <= texts.len(),
            sorted.len() == index,
            sorted_by(contents(sorted@), text_order()),
            contents(sorted@).to_multiset() == contents(texts@).take(index as int).to_multiset(),
        decreases texts.len() - index,
    {
        let text: &'a str = texts[index];
        let ghost before = contents(sorted@);
        let mut slot: usize = 0;
        while slot < sorted.len() && text_at_most(sorted[slot], text)
            invariant
                slot <= sorted.len(),
                before == contents(sorted@),
                forall|i: int| 0 <= i < slot ==> text_le(#[trigger] before[i], text@),
            decreases sorted.len() - slot,
        {
            slot = slot + 1;
        }
        let ghost at = slot as int;
        sorted.insert(slot, text);
        proof {
            let after = contents(sorted@);
            assert(after =~= before.insert(at, text@));
            text_order_total();
            let leq = text_order();
            if at < before.len() {
                assert(!leq(before[at], text@));
                assert(leq(text@, before[at])) by {
                    bytes_le_total(encode_utf8(text@), encode_utf8(before[at]));
                }
            }
            assert forall|i: int, j: int| 0 <= i < j < after.len() implies leq(
                #[trigger] after[i],
                #[trigger] after[j],
            ) by {
                if i < at && j == at {
                    assert(text_le(before[i], text@));
                } else if i == at && j > at {
                    if j - 1 > at {
                        assert(leq(before[at], before[j - 1]));
                        bytes_le_transitive(
                            encode_utf8(text@),
                            encode_utf8(before[at]),
                            encode_utf8(before[j - 1]),
                        );
                    }
                } else if i < at && j < at {
                    assert(leq(before[i], before[j]));
                } else if i < at && j > at {
                    assert(leq(before[i], before[j - 1]));
                } else {
                    assert(leq(before[i - 1], before[j - 1]));
                }
            }
            to_multiset_insert(before, at, text@);
            assert(contents(texts@).take(index + 1) =~= contents(texts@).take(index as int).push(
                text@,
            ));
            to_multiset_build(contents(texts@).take(index as int), text@);
        }
        index = index + 1;
    }
    proof {
        assert(contents(texts@).take(index as int) =~= contents(texts@));
        sorted_texts_unique(contents(texts@), contents(sorted@));
    }
    sorted
}

} // verus!

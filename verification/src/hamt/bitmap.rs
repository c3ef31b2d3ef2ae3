//! Bitmaps of 32 slots and the compressed positions that they give.

use vstd::prelude::*;

verus! {

/// The slot is marked in the bitmap.
pub open spec fn slot_set(bitmap: u32, slot: int) -> bool {
    bitmap & (1u32 << (slot as u32)) != 0
}

/// The number of marked slots below `n`.
pub open spec fn rank(bitmap: u32, n: int) -> nat
    decreases n,
{
    if n <= 0 {
        0
    } else {
        rank(bitmap, n - 1) + if slot_set(bitmap, n - 1) {
            1nat
        } else {
            0
        }
    }
}

/// The bitmap with a slot marked.
pub open spec fn with_slot(bitmap: u32, slot: int) -> u32 {
    bitmap | (1u32 << (slot as u32))
}

/// The bitmap with a slot cleared.
pub open spec fn without_slot(bitmap: u32, slot: int) -> u32 {
    bitmap & !(1u32 << (slot as u32))
}

proof fn slot_bits(a: u32, b: u32, s: u32, i: u32)
    by (bit_vector)
    requires
        s < 32,
        i < 32,
    ensures
        (a | (1u32 << s)) & (1u32 << i) != 0 <==> a & (1u32 << i) != 0 || i == s,
        (a & !(1u32 << s)) & (1u32 << i) != 0 <==> a & (1u32 << i) != 0 && i != s,
        0u32 & (1u32 << i) == 0,
        a & b == 0 ==> !(a & (1u32 << i) != 0 && b & (1u32 << i) != 0),
        a & b == 0 ==> (a & !(1u32 << s)) & (b | (1u32 << s)) == 0,
        a & b == 0 ==> (a | (1u32 << s)) & (b & !(1u32 << s)) == 0,
        a & b == 0 ==> (a & !(1u32 << s)) & b == 0,
        a & b == 0 ==> a & (b & !(1u32 << s)) == 0,
        a & b == 0 && b & (1u32 << s) == 0 ==> (a | (1u32 << s)) & b == 0,
        a & b == 0 && a & (1u32 << s) == 0 ==> a & (b | (1u32 << s)) == 0,
        0u32 & b == 0,
        (1u32 << s) & (1u32 << i) != 0 <==> i == s,
{
}

/// Marking and clearing a slot changes that slot alone.
pub proof fn slot_updates(bitmap: u32, slot: int, i: int)
    requires
        0 <= slot < 32,
        0 <= i < 32,
    ensures
        slot_set(with_slot(bitmap, slot), i) <==> slot_set(bitmap, i) || i == slot,
        slot_set(without_slot(bitmap, slot), i) <==> slot_set(bitmap, i) && i != slot,
        !slot_set(0, i),
        slot_set(1u32 << (slot as u32), i) <==> i == slot,
{
    slot_bits(bitmap, 0, slot as u32, i as u32);
}

/// Disjoint bitmaps mark no slot in common.
pub proof fn disjoint_slots(a: u32, b: u32, i: int)
    requires
        a & b == 0,
        0 <= i < 32,
    ensures
        !(slot_set(a, i) && slot_set(b, i)),
{
    slot_bits(a, b, 0, i as u32);
}

/// Moving, marking or clearing a slot keeps two bitmaps disjoint.
pub proof fn disjoint_updates(a: u32, b: u32, slot: int)
    requires
        a & b == 0,
        0 <= slot < 32,
    ensures
        without_slot(a, slot) & with_slot(b, slot) == 0,
        with_slot(a, slot) & without_slot(b, slot) == 0,
        without_slot(a, slot) & b == 0,
        a & without_slot(b, slot) == 0,
        !slot_set(b, slot) ==> with_slot(a, slot) & b == 0,
        !slot_set(a, slot) ==> a & with_slot(b, slot) == 0,
{
    slot_bits(a, b, slot as u32, slot as u32);
}

proof fn equal_bits(a: u32, b: u32)
    by (bit_vector)
    requires
        (a & (1u32 << 0u32) != 0) == (b & (1u32 << 0u32) != 0),
        (a & (1u32 << 1u32) != 0) == (b & (1u32 << 1u32) != 0),
        (a & (1u32 << 2u32) != 0) == (b & (1u32 << 2u32) != 0),
        (a & (1u32 << 3u32) != 0) == (b & (1u32 << 3u32) != 0),
        (a & (1u32 << 4u32) != 0) == (b & (1u32 << 4u32) != 0),
        (a & (1u32 << 5u32) != 0) == (b & (1u32 << 5u32) != 0),
        (a & (1u32 << 6u32) != 0) == (b & (1u32 << 6u32) != 0),
        (a & (1u32 << 7u32) != 0) == (b & (1u32 << 7u32) != 0),
        (a & (1u32 << 8u32) != 0) == (b & (1u32 << 8u32) != 0),
        (a & (1u32 << 9u32) != 0) == (b & (1u32 << 9u32) != 0),
        (a & (1u32 << 10u32) != 0) == (b & (1u32 << 10u32) != 0),
        (a & (1u32 << 11u32) != 0) == (b & (1u32 << 11u32) != 0),
        (a & (1u32 << 12u32) != 0) == (b & (1u32 << 12u32) != 0),
        (a & (1u32 << 13u32) != 0) == (b & (1u32 << 13u32) != 0),
        (a & (1u32 << 14u32) != 0) == (b & (1u32 << 14u32) != 0),
        (a & (1u32 << 15u32) != 0) == (b & (1u32 << 15u32) != 0),
        (a & (1u32 << 16u32) != 0) == (b & (1u32 << 16u32) != 0),
        (a & (1u32 << 17u32) != 0) == (b & (1u32 << 17u32) != 0),
        (a & (1u32 << 18u32) != 0) == (b & (1u32 << 18u32) != 0),
        (a & (1u32 << 19u32) != 0) == (b & (1u32 << 19u32) != 0),
        (a & (1u32 << 20u32) != 0) == (b & (1u32 << 20u32) != 0),
        (a & (1u32 << 21u32) != 0) == (b & (1u32 << 21u32) != 0),
        (a & (1u32 << 22u32) != 0) == (b & (1u32 << 22u32) != 0),
        (a & (1u32 << 23u32) != 0) == (b & (1u32 << 23u32) != 0),
        (a & (1u32 << 24u32) != 0) == (b & (1u32 << 24u32) != 0),
        (a & (1u32 << 25u32) != 0) == (b & (1u32 << 25u32) != 0),
        (a & (1u32 << 26u32) != 0) == (b & (1u32 << 26u32) != 0),
        (a & (1u32 << 27u32) != 0) == (b & (1u32 << 27u32) != 0),
        (a & (1u32 << 28u32) != 0) == (b & (1u32 << 28u32) != 0),
        (a & (1u32 << 29u32) != 0) == (b & (1u32 << 29u32) != 0),
        (a & (1u32 << 30u32) != 0) == (b & (1u32 << 30u32) != 0),
        (a & (1u32 << 31u32) != 0) == (b & (1u32 << 31u32) != 0),
    ensures
        a == b,
{
}

/// Bitmaps that mark the same slots are equal.
pub proof fn same_slots(a: u32, b: u32)
    requires
        forall|i: int| 0 <= i < 32 ==> #[trigger] slot_set(a, i) == slot_set(b, i),
    ensures
        a == b,
{
    assert(slot_set(a, 0) == slot_set(b, 0));
    assert(slot_set(a, 1) == slot_set(b, 1));
    assert(slot_set(a, 2) == slot_set(b, 2));
    assert(slot_set(a, 3) == slot_set(b, 3));
    assert(slot_set(a, 4) == slot_set(b, 4));
    assert(slot_set(a, 5) == slot_set(b, 5));
    assert(slot_set(a, 6) == slot_set(b, 6));
    assert(slot_set(a, 7) == slot_set(b, 7));
    assert(slot_set(a, 8) == slot_set(b, 8));
    assert(slot_set(a, 9) == slot_set(b, 9));
    assert(slot_set(a, 10) == slot_set(b, 10));
    assert(slot_set(a, 11) == slot_set(b, 11));
    assert(slot_set(a, 12) == slot_set(b, 12));
    assert(slot_set(a, 13) == slot_set(b, 13));
    assert(slot_set(a, 14) == slot_set(b, 14));
    assert(slot_set(a, 15) == slot_set(b, 15));
    assert(slot_set(a, 16) == slot_set(b, 16));
    assert(slot_set(a, 17) == slot_set(b, 17));
    assert(slot_set(a, 18) == slot_set(b, 18));
    assert(slot_set(a, 19) == slot_set(b, 19));
    assert(slot_set(a, 20) == slot_set(b, 20));
    assert(slot_set(a, 21) == slot_set(b, 21));
    assert(slot_set(a, 22) == slot_set(b, 22));
    assert(slot_set(a, 23) == slot_set(b, 23));
    assert(slot_set(a, 24) == slot_set(b, 24));
    assert(slot_set(a, 25) == slot_set(b, 25));
    assert(slot_set(a, 26) == slot_set(b, 26));
    assert(slot_set(a, 27) == slot_set(b, 27));
    assert(slot_set(a, 28) == slot_set(b, 28));
    assert(slot_set(a, 29) == slot_set(b, 29));
    assert(slot_set(a, 30) == slot_set(b, 30));
    assert(slot_set(a, 31) == slot_set(b, 31));
    equal_bits(a, b);
}

/// Ranks grow with the slot, and strictly past a marked one.
pub proof fn rank_monotone(bitmap: u32, m: int, n: int)
    requires
        m <= n,
    ensures
        rank(bitmap, m) <= rank(bitmap, n),
        0 <= m < n && slot_set(bitmap, m) ==> rank(bitmap, m) < rank(bitmap, n),
    decreases n - m,
{
    if m < n {
        rank_monotone(bitmap, m, n - 1);
    }
}

/// There are no more marks below a slot than slots.
pub proof fn rank_bound(bitmap: u32, n: int)
    requires
        0 <= n,
    ensures
        rank(bitmap, n) <= n,
    decreases n,
{
    if n > 0 {
        rank_bound(bitmap, n - 1);
    }
}

/// The slot of the `j`-th mark.
pub open spec fn select_slot(bitmap: u32, j: int) -> int {
    choose|slot: int| 0 <= slot < 32 && slot_set(bitmap, slot) && rank(bitmap, slot) == j
}

/// Every position below the rank has a marked slot.
pub proof fn select_exists(bitmap: u32, j: int, n: int)
    requires
        0 <= j < rank(bitmap, n),
        n <= 32,
    ensures
        exists|slot: int|
            0 <= slot < n && #[trigger] slot_set(bitmap, slot) && rank(bitmap, slot) == j,
    decreases n,
{
    if n > 0 {
        if j < rank(bitmap, n - 1) {
            select_exists(bitmap, j, n - 1);
        } else {
            assert(slot_set(bitmap, n - 1));
        }
    }
}

/// Every position has its slot.
pub proof fn select_facts(bitmap: u32, j: int)
    requires
        0 <= j < rank(bitmap, 32),
    ensures
        0 <= select_slot(bitmap, j) < 32,
        slot_set(bitmap, select_slot(bitmap, j)),
        rank(bitmap, select_slot(bitmap, j)) == j,
{
    select_exists(bitmap, j, 32);
}

/// Marked slots have distinct positions, in order.
pub proof fn rank_injective(bitmap: u32, a: int, b: int)
    requires
        0 <= a < 32,
        0 <= b < 32,
        slot_set(bitmap, a),
        slot_set(bitmap, b),
    ensures
        a < b ==> rank(bitmap, a) < rank(bitmap, b),
        rank(bitmap, a) == rank(bitmap, b) ==> a == b,
        rank(bitmap, a) < rank(bitmap, 32),
{
    rank_monotone(bitmap, a, 32);
    if a < b {
        rank_monotone(bitmap, a, b);
    } else if b < a {
        rank_monotone(bitmap, b, a);
    }
}

/// Marking a clear slot moves the positions after it up by one.
pub proof fn rank_with_slot(bitmap: u32, slot: int, n: int)
    requires
        0 <= slot < 32,
        0 <= n <= 32,
        !slot_set(bitmap, slot),
    ensures
        rank(with_slot(bitmap, slot), n) == rank(bitmap, n) + if n > slot {
            1nat
        } else {
            0
        },
    decreases n,
{
    if n > 0 {
        rank_with_slot(bitmap, slot, n - 1);
        slot_updates(bitmap, slot, n - 1);
    }
}

/// Clearing a marked slot moves the positions after it down by one.
pub proof fn rank_without_slot(bitmap: u32, slot: int, n: int)
    requires
        0 <= slot < 32,
        0 <= n <= 32,
        slot_set(bitmap, slot),
    ensures
        rank(bitmap, n) == rank(without_slot(bitmap, slot), n) + if n > slot {
            1nat
        } else {
            0
        },
    decreases n,
{
    if n > 0 {
        rank_without_slot(bitmap, slot, n - 1);
        slot_updates(bitmap, slot, n - 1);
    }
}

/// The empty bitmap has no marks.
pub proof fn rank_zero(n: int)
    requires
        n <= 32,
    ensures
        rank(0, n) == 0,
    decreases n,
{
    if n > 0 {
        rank_zero(n - 1);
        slot_updates(0, n - 1, n - 1);
    }
}

/// A bitmap without marks is zero.
pub proof fn rank_zero_only(bitmap: u32)
    requires
        rank(bitmap, 32) == 0,
    ensures
        bitmap == 0,
{
    assert forall|i: int| 0 <= i < 32 implies #[trigger] slot_set(bitmap, i) == slot_set(0, i) by {
        rank_monotone(bitmap, i, 32);
        slot_updates(0, i, i);
    }
    same_slots(bitmap, 0);
}

/// The number of marked slots below a slot: the compressed position of what
/// the slot holds.
pub fn map_index(bitmap: u32, slot: usize) -> (index: usize)
    requires
        slot <= 32,
    ensures
        index == rank(bitmap, slot as int),
        index <= slot,
{
    let mut index: usize = 0;
    let mut i: usize = 0;
    while i < slot
        invariant
            i <= slot <= 32,
            index == rank(bitmap, i as int),
            index <= i,
        decreases slot - i,
    {
        if bitmap & (1u32 << (i as u32)) != 0 {
            index = index + 1;
        }
        i = i + 1;
    }
    index
}

/// Whether a slot is marked.
pub fn has_slot(bitmap: u32, slot: usize) -> (result: bool)
    requires
        slot < 32,
    ensures
        result == slot_set(bitmap, slot as int),
{
    bitmap & (1u32 << (slot as u32)) != 0
}

} // verus!

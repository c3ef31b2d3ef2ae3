//! Compressed sets of 32-bit numbers, held by an outside crate.

use vstd::prelude::*;

verus! {

/// `roaring::RoaringBitmap`, a set of 32-bit numbers.
#[verifier::external_type_specification]
#[verifier::external_body]
pub struct ExRoaringBitmap(roaring::RoaringBitmap);

/// The numbers that a bitmap holds.
pub uninterp spec fn bitmap_set(bitmap: roaring::RoaringBitmap) -> Set<u32>;

/// `RoaringBitmap::new`: an empty set.
#[verifier::external_body]
pub(crate) fn bitmap_new() -> (bitmap: roaring::RoaringBitmap)
    ensures
        bitmap_set(bitmap) == Set::<u32>::empty(),
{
    roaring::RoaringBitmap::new()
}

/// `RoaringBitmap::insert`: adds a number and tells whether it was absent.
#[verifier::external_body]
pub(crate) fn bitmap_insert(bitmap: &mut roaring::RoaringBitmap, value: u32) -> (absent: bool)
    ensures
        bitmap_set(*final(bitmap)) == bitmap_set(*old(bitmap)).insert(value),
        absent == !bitmap_set(*old(bitmap)).contains(value),
{
    bitmap.insert(value)
}

/// `|=` on bitmaps: the union of two sets.
#[verifier::external_body]
pub(crate) fn bitmap_unite(bitmap: &mut roaring::RoaringBitmap, other: &roaring::RoaringBitmap)
    ensures
        bitmap_set(*final(bitmap)) == bitmap_set(*old(bitmap)).union(bitmap_set(*other)),
{
    *bitmap |= other;
}

/// `&=` on bitmaps: the intersection of two sets.
#[verifier::external_body]
pub(crate) fn bitmap_intersect(bitmap: &mut roaring::RoaringBitmap, other: &roaring::RoaringBitmap)
    ensures
        bitmap_set(*final(bitmap)) == bitmap_set(*old(bitmap)).intersect(bitmap_set(*other)),
{
    *bitmap &= other;
}

/// `-=` on bitmaps: the difference of two sets.
#[verifier::external_body]
pub(crate) fn bitmap_subtract(bitmap: &mut roaring::RoaringBitmap, other: &roaring::RoaringBitmap)
    ensures
        bitmap_set(*final(bitmap)) == bitmap_set(*old(bitmap)).difference(bitmap_set(*other)),
{
    *bitmap -= other;
}

/// `RoaringBitmap::iter`: the numbers of the set in ascending order, each once.
#[verifier::external_body]
pub(crate) fn bitmap_values(bitmap: &roaring::RoaringBitmap) -> (values: Vec<u32>)
    ensures
        forall|i: int, j: int|
            0 <= i < j < values@.len() ==> #[trigger] values@[i] < #[trigger] values@[j],
        forall|value: u32| #[trigger]
            values@.contains(value) <==> bitmap_set(*bitmap).contains(value),
{
    bitmap.iter().collect()
}

} // verus!

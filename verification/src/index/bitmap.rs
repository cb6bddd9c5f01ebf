//! Sets of row ordinals as Roaring bitmaps.

use roaring::RoaringBitmap;
use vstd::prelude::*;

verus! {

/// `roaring::RoaringBitmap`: a compressed set of 32-bit numbers.
#[verifier::external_type_specification]
#[verifier::external_body]
pub struct ExRoaringBitmap(RoaringBitmap);

/// The numbers that a bitmap holds.
pub uninterp spec fn bitmap_rows(bitmap: RoaringBitmap) -> Set<u32>;

/// There are finitely many row ordinals.
pub proof fn lemma_rows_finite(rows: Set<u32>)
    ensures
        rows.finite(),
{
    let numbers = vstd::set_lib::set_int_range(0, u32::MAX as int + 1);
    vstd::set_lib::lemma_int_range(0, u32::MAX as int + 1);
    let all = numbers.map(|number: int| number as u32);
    numbers.lemma_map_finite(|number: int| number as u32);
    assert(rows.subset_of(all)) by {
        assert forall|row: u32| rows.contains(row) implies all.contains(row) by {
            assert(numbers.contains(row as int));
            assert((row as int) as u32 == row);
        }
    }
    vstd::set_lib::lemma_set_subset_finite(all, rows);
}

/// `RoaringBitmap::new`: a bitmap that holds nothing.
#[verifier::external_body]
pub(crate) fn empty_bitmap() -> (bitmap: RoaringBitmap)
    ensures
        bitmap_rows(bitmap) == Set::<u32>::empty(),
{
    RoaringBitmap::new()
}

/// `RoaringBitmap::insert`: adds a number; says whether it was absent.
#[verifier::external_body]
pub(crate) fn add_row(bitmap: &mut RoaringBitmap, row: u32) -> (added: bool)
    ensures
        bitmap_rows(*final(bitmap)) == bitmap_rows(*old(bitmap)).insert(row),
        added == !bitmap_rows(*old(bitmap)).contains(row),
{
    bitmap.insert(row)
}

/// `RoaringBitmap::remove`: takes a number away; says whether it was present.
#[verifier::external_body]
pub(crate) fn drop_row(bitmap: &mut RoaringBitmap, row: u32) -> (dropped: bool)
    ensures
        bitmap_rows(*final(bitmap)) == bitmap_rows(*old(bitmap)).remove(row),
        dropped == bitmap_rows(*old(bitmap)).contains(row),
{
    bitmap.remove(row)
}

/// `RoaringBitmap::contains`: whether the bitmap holds a number.
#[verifier::external_body]
pub(crate) fn holds_row(bitmap: &RoaringBitmap, row: u32) -> (held: bool)
    ensures
        held == bitmap_rows(*bitmap).contains(row),
{
    bitmap.contains(row)
}

/// `RoaringBitmap::len`: how many numbers the bitmap holds.
#[verifier::external_body]
pub(crate) fn row_total(bitmap: &RoaringBitmap) -> (total: u64)
    ensures
        total == bitmap_rows(*bitmap).len(),
{
    bitmap.len()
}

/// `RoaringBitmap::iter`: every number of the bitmap, in ascending order.
#[verifier::external_body]
pub(crate) fn rows_of_bitmap(bitmap: &RoaringBitmap) -> (rows: Vec<u32>)
    ensures
        forall|i: int, j: int|
            0 <= i < j < rows@.len() ==> (#[trigger] rows@[i]) < (#[trigger] rows@[j]),
        forall|row: u32| #[trigger] rows@.contains(row) <==> bitmap_rows(*bitmap).contains(row),
{
    bitmap.iter().collect()
}

/// The first numbers of the bitmap in ascending order, at most `count`.
pub(crate) fn first_rows(bitmap: &RoaringBitmap, count: usize) -> (rows: Vec<u32>)
    ensures
        rows@.len() <= count,
        forall|i: int, j: int|
            0 <= i < j < rows@.len() ==> (#[trigger] rows@[i]) < (#[trigger] rows@[j]),
        forall|i: int| 0 <= i < rows@.len() ==> bitmap_rows(*bitmap).contains(#[trigger] rows@[i]),
        forall|row: u32|
            bitmap_rows(*bitmap).contains(row) ==> (#[trigger] rows@.contains(row)) || (rows@.len()
                == count && forall|i: int| 0 <= i < rows@.len() ==> (#[trigger] rows@[i]) < row),
{
    let all = rows_of_bitmap(bitmap);
    let total: usize = if all.len() < count {
        all.len()
    } else {
        count
    };
    let mut rows: Vec<u32> = Vec::with_capacity(total);
    for index in 0..total
        invariant
            total <= all@.len(),
            rows@ == all@.take(index as int),
    {
        rows.push(all[index]);
        assert(rows@ =~= all@.take(index + 1));
    }
    proof {
        assert forall|i: int| 0 <= i < rows@.len() implies bitmap_rows(*bitmap).contains(
            #[trigger] rows@[i],
        ) by {
            assert(all@.contains(all@[i]));
        }
        assert forall|row: u32| bitmap_rows(*bitmap).contains(row) implies (
        #[trigger] rows@.contains(row)) || (rows@.len() == count && forall|i: int|
            0 <= i < rows@.len() ==> (#[trigger] rows@[i]) < row) by {
            assert(all@.contains(row));
            let k = choose|k: int| 0 <= k < all@.len() && all@[k] == row;
            if k < total {
                assert(rows@[k] == row);
            } else {
                assert forall|i: int| 0 <= i < rows@.len() implies (#[trigger] rows@[i]) < row by {
                    assert(all@[i] < all@[k]);
                }
            }
        }
    }
    rows
}

/// `RoaringBitmap::clone`: a bitmap that holds the same numbers.
#[verifier::external_body]
pub(crate) fn copy_bitmap(bitmap: &RoaringBitmap) -> (copy: RoaringBitmap)
    ensures
        bitmap_rows(copy) == bitmap_rows(*bitmap),
{
    bitmap.clone()
}

/// `RoaringBitmap::bitor_assign`: adds the numbers of another bitmap.
#[verifier::external_body]
pub(crate) fn unite(bitmap: &mut RoaringBitmap, other: &RoaringBitmap)
    ensures
        bitmap_rows(*final(bitmap)) == bitmap_rows(*old(bitmap)).union(bitmap_rows(*other)),
{
    *bitmap |= other;
}

/// `RoaringBitmap::bitand_assign`: keeps the numbers that another bitmap holds too.
#[verifier::external_body]
pub(crate) fn intersect(bitmap: &mut RoaringBitmap, other: &RoaringBitmap)
    ensures
        bitmap_rows(*final(bitmap)) == bitmap_rows(*old(bitmap)).intersect(bitmap_rows(*other)),
{
    *bitmap &= other;
}

} // verus!

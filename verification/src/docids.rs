//! Sets of document ids, held in compact bitmaps.

use roaring::RoaringBitmap;
use vstd::prelude::*;

verus! {

/// `roaring::RoaringBitmap`: a compressed set of 32-bit integers. Nothing of
/// its inside is known here.
#[verifier::external_type_specification]
#[verifier::external_body]
pub struct ExRoaringBitmap(RoaringBitmap);

/// The integers that a bitmap holds.
pub uninterp spec fn bitmap_set(bitmap: RoaringBitmap) -> Set<u32>;

/// `RoaringBitmap::new`: a bitmap that holds nothing.
#[verifier::external_body]
fn bitmap_new() -> (bitmap: RoaringBitmap)
    ensures
        bitmap_set(bitmap) == Set::<u32>::empty(),
{
    RoaringBitmap::new()
}

/// `RoaringBitmap::insert`: adds `value` and tells whether it was absent.
#[verifier::external_body]
fn bitmap_insert(bitmap: &mut RoaringBitmap, value: u32) -> (added: bool)
    ensures
        bitmap_set(*final(bitmap)) == bitmap_set(*old(bitmap)).insert(value),
        added == !bitmap_set(*old(bitmap)).contains(value),
{
    bitmap.insert(value)
}

/// `RoaringBitmap::remove`: takes `value` out and tells whether it was present.
#[verifier::external_body]
fn bitmap_remove(bitmap: &mut RoaringBitmap, value: u32) -> (removed: bool)
    ensures
        bitmap_set(*final(bitmap)) == bitmap_set(*old(bitmap)).remove(value),
        removed == bitmap_set(*old(bitmap)).contains(value),
{
    bitmap.remove(value)
}

/// `RoaringBitmap::contains`: membership.
#[verifier::external_body]
fn bitmap_contains(bitmap: &RoaringBitmap, value: u32) -> (present: bool)
    ensures
        present == bitmap_set(*bitmap).contains(value),
{
    bitmap.contains(value)
}

/// `RoaringBitmap::is_empty`: whether the bitmap holds no integer.
#[verifier::external_body]
fn bitmap_is_empty(bitmap: &RoaringBitmap) -> (empty: bool)
    ensures
        empty == (bitmap_set(*bitmap) == Set::<u32>::empty()),
{
    bitmap.is_empty()
}

/// `BitOr` of two bitmap references: the union.
#[verifier::external_body]
fn bitmap_union(left: &RoaringBitmap, right: &RoaringBitmap) -> (both: RoaringBitmap)
    ensures
        bitmap_set(both) == bitmap_set(*left).union(bitmap_set(*right)),
{
    left | right
}

/// `Sub` of two bitmap references: what `left` holds and `right` does not.
#[verifier::external_body]
fn bitmap_difference(left: &RoaringBitmap, right: &RoaringBitmap) -> (rest: RoaringBitmap)
    ensures
        bitmap_set(rest) == bitmap_set(*left).difference(bitmap_set(*right)),
{
    left - right
}

/// `RoaringBitmap::iter`, collected: every integer held, once, in ascending
/// order.
#[verifier::external_body]
fn bitmap_to_vec(bitmap: &RoaringBitmap) -> (values: Vec<u32>)
    ensures
        strictly_increasing(values@),
        values@.to_set() == bitmap_set(*bitmap),
{
    bitmap.iter().collect()
}

/// Each item is smaller than the next.
pub open spec fn strictly_increasing(ids: Seq<u32>) -> bool {
    forall|i: int, j: int| 0 <= i < j < ids.len() ==> ids[i] < ids[j]
}

/// A set of document ids.
pub struct DocIds {
    bitmap: RoaringBitmap,
}

impl View for DocIds {
    type V = Set<u32>;

    closed spec fn view(&self) -> Set<u32> {
        bitmap_set(self.bitmap)
    }
}

impl DocIds {
    /// The empty set.
    pub fn new() -> (ids: DocIds)
        ensures
            ids@ == Set::<u32>::empty(),
    {
        DocIds { bitmap: bitmap_new() }
    }

    /// The set of the items of `values`, in any order and with repetitions.
    pub fn from_slice(values: &[u32]) -> (ids: DocIds)
        ensures
            ids@ == values@.to_set(),
    {
        let mut bitmap = bitmap_new();
        let mut i: usize = 0;
        while i < values.len()
            invariant
                i <= values@.len(),
                bitmap_set(bitmap) == values@.subrange(0, i as int).to_set(),
            decreases values@.len() - i,
        {
            bitmap_insert(&mut bitmap, values[i]);
            proof {
                let before = values@.subrange(0, i as int);
                let after = values@.subrange(0, i + 1);
                assert(after =~= before.push(values@[i as int]));
                assert(after.to_set() =~= before.to_set().insert(values@[i as int])) by {
                    assert forall|v: u32| after.to_set().contains(v) implies before.to_set().insert(
                        values@[i as int],
                    ).contains(v) by {
                        let k = choose|k: int| 0 <= k < after.len() && after[k] == v;
                        if k < i {
                            assert(before[k] == v);
                        }
                    }
                    assert forall|v: u32|
                        before.to_set().insert(values@[i as int]).contains(v) implies after.to_set().contains(
                        v,
                    ) by {
                        if v == values@[i as int] {
                            assert(after[i as int] == v);
                        } else {
                            let k = choose|k: int| 0 <= k < before.len() && before[k] == v;
                            assert(after[k] == v);
                        }
                    }
                }
            }
            i += 1;
        }
        proof {
            assert(values@.subrange(0, i as int) =~= values@);
        }
        DocIds { bitmap }
    }

    /// Adds `docid`; tells whether it was absent.
    pub fn insert(&mut self, docid: u32) -> (added: bool)
        ensures
            final(self)@ == old(self)@.insert(docid),
            added == !old(self)@.contains(docid),
    {
        bitmap_insert(&mut self.bitmap, docid)
    }

    /// Takes `docid` out; tells whether it was present.
    pub fn remove(&mut self, docid: u32) -> (removed: bool)
        ensures
            final(self)@ == old(self)@.remove(docid),
            removed == old(self)@.contains(docid),
    {
        bitmap_remove(&mut self.bitmap, docid)
    }

    /// Whether `docid` is in the set.
    pub fn contains(&self, docid: u32) -> (present: bool)
        ensures
            present == self@.contains(docid),
    {
        bitmap_contains(&self.bitmap, docid)
    }

    /// Whether the set holds nothing.
    pub fn is_empty(&self) -> (empty: bool)
        ensures
            empty == (self@ == Set::<u32>::empty()),
    {
        bitmap_is_empty(&self.bitmap)
    }

    /// The ids that are in either set.
    pub fn union(&self, other: &DocIds) -> (both: DocIds)
        ensures
            both@ == self@.union(other@),
    {
        DocIds { bitmap: bitmap_union(&self.bitmap, &other.bitmap) }
    }

    /// The ids of this set that are not in `other`.
    pub fn difference(&self, other: &DocIds) -> (rest: DocIds)
        ensures
            rest@ == self@.difference(other@),
    {
        DocIds { bitmap: bitmap_difference(&self.bitmap, &other.bitmap) }
    }

    /// The ids in ascending order.
    pub fn to_vec(&self) -> (values: Vec<u32>)
        ensures
            strictly_increasing(values@),
            values@.to_set() == self@,
    {
        bitmap_to_vec(&self.bitmap)
    }
}

} // verus!

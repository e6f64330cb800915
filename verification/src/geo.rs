//! Committing geo points: deletions take a point out of the spatial index and
//! out of the set of documents with a position, additions put it into both.

use vstd::prelude::*;

use crate::be::{read_u32_be, u32_from_be};
use crate::del_add::{decode_delta_spec, payload_view, DeltaValue};
use crate::docids::DocIds;
use crate::error::Error;
use crate::helpers::try_split_array_at;
use crate::sorted_run::SortedRun;

verus! {

/// A latitude and a longitude, each as the eight bytes of its number.
#[derive(Clone, Copy, Debug, PartialEq, Eq)]
pub struct RawGeoPoint {
    pub lat: [u8; 8],
    pub lng: [u8; 8],
}

/// An operation on the spatial index.
#[derive(Clone, Copy, Debug, PartialEq, Eq)]
pub enum GeoOp {
    /// The point of the document is taken out.
    Remove { docid: u32, point: RawGeoPoint },
    /// The point of the document is put in.
    Insert { docid: u32, point: RawGeoPoint },
}

/// A geo operation as mathematics sees it: whether it inserts, the document,
/// and the bytes of the latitude and of the longitude.
pub struct GeoOpView {
    pub insert: bool,
    pub docid: u32,
    pub lat: Seq<u8>,
    pub lng: Seq<u8>,
}

impl View for GeoOp {
    type V = GeoOpView;

    open spec fn view(&self) -> GeoOpView {
        match self {
            GeoOp::Remove { docid, point } => GeoOpView {
                insert: false,
                docid: *docid,
                lat: point.lat@,
                lng: point.lng@,
            },
            GeoOp::Insert { docid, point } => GeoOpView {
                insert: true,
                docid: *docid,
                lat: point.lat@,
                lng: point.lng@,
            },
        }
    }
}

/// The operations of a vector of operations.
pub open spec fn geo_ops_view(ops: Seq<GeoOp>) -> Seq<GeoOpView> {
    ops.map_values(|op: GeoOp| op@)
}

/// Whether `value` holds a point: sixteen bytes at least, eight for the
/// latitude and eight for the longitude.
pub open spec fn is_point(value: Seq<u8>) -> bool {
    value.len() >= 16
}

/// Splits the value of a geo point into the bytes of its latitude and those
/// of its longitude.
pub fn extract_geo_point(value: &[u8]) -> (point: Option<RawGeoPoint>)
    ensures
        point is Some <==> is_point(value@),
        point matches Some(p) ==> p.lat@ == value@.subrange(0, 8) && p.lng@ == value@.subrange(
            8,
            16,
        ),
{
    let (lat, tail) = match try_split_array_at::<u8, 8>(value) {
        Some(parts) => parts,
        None => {
            return None;
        },
    };
    let (lng, _) = match try_split_array_at::<u8, 8>(tail) {
        Some(parts) => parts,
        None => {
            return None;
        },
    };
    proof {
        assert(tail@.subrange(0, 8) =~= value@.subrange(8, 16));
    }
    Some(RawGeoPoint { lat, lng })
}

/// The operations that one side of a delta asks for: none where the side is
/// absent. Nothing where the side holds no point.
pub open spec fn side_ops(side: Option<Seq<u8>>, insert: bool, docid: u32) -> Option<Seq<GeoOpView>> {
    match side {
        None => Some(Seq::empty()),
        Some(value) => if is_point(value) {
            Some(
                seq![
                    GeoOpView {
                        insert,
                        docid,
                        lat: value.subrange(0, 8),
                        lng: value.subrange(8, 16),
                    },
                ],
            )
        } else {
            None
        },
    }
}

/// The operations that the merged entry `value` under `key` asks for: the
/// removal of the point of the deletion side, then the insertion of the point
/// of the addition side. The key is the id of the document, four bytes
/// big-endian.
pub open spec fn geo_entry_spec(key: Seq<u8>, value: Seq<u8>) -> Result<Seq<GeoOpView>, Error> {
    if key.len() != 4 {
        Err(Error::Decoding)
    } else {
        match decode_delta_spec(value) {
            None => Err(Error::Decoding),
            Some(delta) => match (
                side_ops(delta.deletion, false, u32_from_be(key)),
                side_ops(delta.addition, true, u32_from_be(key)),
            ) {
                (Some(removals), Some(insertions)) => Ok(removals + insertions),
                _ => Err(Error::Decoding),
            },
        }
    }
}

/// The operations that a merged stream of geo points asks for, in key order.
/// Fails with the failure of the first entry that fails.
pub open spec fn geo_ops_spec(entries: Seq<(Seq<u8>, Seq<u8>)>) -> Result<Seq<GeoOpView>, Error>
    decreases entries.len(),
{
    if entries.len() == 0 {
        Ok(Seq::empty())
    } else {
        match geo_ops_spec(entries.drop_last()) {
            Err(e) => Err(e),
            Ok(before) => match geo_entry_spec(entries.last().0, entries.last().1) {
                Err(e) => Err(e),
                Ok(ops) => Ok(before + ops),
            },
        }
    }
}

/// The documents with a position after one operation.
pub open spec fn faceted_after_op(docids: Set<u32>, op: GeoOpView) -> Set<u32> {
    if op.insert {
        docids.insert(op.docid)
    } else {
        docids.remove(op.docid)
    }
}

/// The documents with a position after a sequence of operations.
pub open spec fn faceted_after(docids: Set<u32>, ops: Seq<GeoOpView>) -> Set<u32>
    decreases ops.len(),
{
    if ops.len() == 0 {
        docids
    } else {
        faceted_after_op(faceted_after(docids, ops.drop_last()), ops.last())
    }
}

/// Ids taken out and put in one after the other are ids taken out and put in
/// in one go.
proof fn lemma_faceted_after_concat(docids: Set<u32>, first: Seq<GeoOpView>, second: Seq<GeoOpView>)
    ensures
        faceted_after(docids, first + second) == faceted_after(
            faceted_after(docids, first),
            second,
        ),
    decreases second.len(),
{
    if second.len() == 0 {
        assert(first + second =~= first);
    } else {
        lemma_faceted_after_concat(docids, first, second.drop_last());
        assert((first + second).drop_last() =~= first + second.drop_last());
        assert((first + second).last() == second.last());
    }
}

/// A stream that fails on its first `n` entries fails in the same way as a
/// whole.
proof fn lemma_geo_failure_stays(entries: Seq<(Seq<u8>, Seq<u8>)>, n: int)
    requires
        0 <= n <= entries.len(),
        geo_ops_spec(entries.take(n)) is Err,
    ensures
        geo_ops_spec(entries) == geo_ops_spec(entries.take(n)),
    decreases entries.len() - n,
{
    if n == entries.len() {
        assert(entries.take(n) =~= entries);
    } else {
        assert(entries.take(n + 1).drop_last() =~= entries.take(n));
        lemma_geo_failure_stays(entries, n + 1);
    }
}

/// What the commit of the geo points of a batch does.
pub struct GeoPlan {
    /// The operations on the spatial index, in key order.
    pub ops: Vec<GeoOp>,
    /// The documents with a position after the commit.
    pub geo_faceted_docids: DocIds,
}

/// The operations that one side of a delta asks for.
fn push_side(
    ops: &mut Vec<GeoOp>,
    faceted: &mut DocIds,
    side: &Option<Vec<u8>>,
    insert: bool,
    docid: u32,
) -> (done: bool)
    ensures
        done == side_ops(payload_view(*side), insert, docid) is Some,
        done ==> geo_ops_view(final(ops)@) == geo_ops_view(old(ops)@) + side_ops(
            payload_view(*side),
            insert,
            docid,
        ).unwrap(),
        done ==> final(faceted)@ == faceted_after(
            old(faceted)@,
            side_ops(payload_view(*side), insert, docid).unwrap(),
        ),
{
    match side {
        None => {
            assert(geo_ops_view(ops@) + Seq::<GeoOpView>::empty() =~= geo_ops_view(ops@));
            true
        },
        Some(value) => {
            match extract_geo_point(value.as_slice()) {
                Some(point) => {
                    let op = if insert {
                        GeoOp::Insert { docid, point }
                    } else {
                        GeoOp::Remove { docid, point }
                    };
                    proof {
                        assert(geo_ops_view(ops@.push(op)) =~= geo_ops_view(ops@) + seq![op@]);
                        let one = seq![op@];
                        assert(one.drop_last() =~= Seq::<GeoOpView>::empty());
                        assert(faceted_after(faceted@, one.drop_last()) == faceted@);
                        assert(faceted_after(faceted@, one) == faceted_after_op(faceted@, op@));
                    }
                    ops.push(op);
                    if insert {
                        faceted.insert(docid);
                    } else {
                        faceted.remove(docid);
                    }
                    true
                },
                None => false,
            }
        },
    }
}

/// Commits the geo points of a batch, merged so that the first value of a
/// document wins: for each document the point of the deletion side is taken
/// out of the spatial index and the document out of the documents with a
/// position, then the point of the addition side and the document are put in.
/// Nothing is to be written if any entry fails.
pub fn write_geo_points(merged: &SortedRun, geo_faceted_docids: DocIds) -> (plan: Result<
    GeoPlan,
    Error,
>)
    ensures
        plan matches Ok(p) ==> geo_ops_spec(merged@) is Ok && geo_ops_view(p.ops@) == geo_ops_spec(
            merged@,
        ).unwrap() && p.geo_faceted_docids@ == faceted_after(
            geo_faceted_docids@,
            geo_ops_spec(merged@).unwrap(),
        ),
        plan matches Err(e) ==> geo_ops_spec(merged@) == Err::<Seq<GeoOpView>, Error>(e),
{
    let ghost entries = merged@;
    let ghost start = geo_faceted_docids@;
    let mut ops: Vec<GeoOp> = Vec::new();
    let mut faceted = geo_faceted_docids;
    let mut i: usize = 0;
    assert(geo_ops_view(ops@) =~= Seq::<GeoOpView>::empty());
    while i < merged.len()
        invariant
            i <= merged@.len(),
            entries == merged@,
            geo_ops_spec(entries.take(i as int)) is Ok,
            geo_ops_view(ops@) == geo_ops_spec(entries.take(i as int)).unwrap(),
            faceted@ == faceted_after(start, geo_ops_spec(entries.take(i as int)).unwrap()),
        decreases merged@.len() - i,
    {
        proof {
            assert(entries.take(i + 1).drop_last() =~= entries.take(i as int));
            assert(entries.take(i + 1).last() == entries[i as int]);
        }
        let key = merged.key(i);
        if key.len() != 4 {
            proof {
                lemma_geo_failure_stays(entries, i + 1);
            }
            return Err(Error::Decoding);
        }
        let docid = read_u32_be(key, 0);
        assert(key@.subrange(0, 4) =~= key@);
        let delta = match DeltaValue::decode(merged.value(i)) {
            Ok(delta) => delta,
            Err(e) => {
                proof {
                    lemma_geo_failure_stays(entries, i + 1);
                }
                return Err(e);
            },
        };
        let ghost before = geo_ops_spec(entries.take(i as int)).unwrap();
        let ghost removals = side_ops(delta@.deletion, false, docid);
        let ghost insertions = side_ops(delta@.addition, true, docid);
        if !push_side(&mut ops, &mut faceted, &delta.deletion, false, docid) {
            proof {
                lemma_geo_failure_stays(entries, i + 1);
            }
            return Err(Error::Decoding);
        }
        if !push_side(&mut ops, &mut faceted, &delta.addition, true, docid) {
            proof {
                lemma_geo_failure_stays(entries, i + 1);
            }
            return Err(Error::Decoding);
        }
        proof {
            let both = removals.unwrap() + insertions.unwrap();
            assert((before + removals.unwrap()) + insertions.unwrap() =~= before + both);
            lemma_faceted_after_concat(start, before, removals.unwrap());
            lemma_faceted_after_concat(start, before + removals.unwrap(), insertions.unwrap());
        }
        i += 1;
    }
    proof {
        assert(entries.take(i as int) =~= entries);
    }
    Ok(GeoPlan { ops, geo_faceted_docids: faceted })
}

} // verus!

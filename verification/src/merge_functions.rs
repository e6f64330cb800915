//! The conflict-resolution functions of the merge: how the values that
//! several runs hold under one key become one value.

use vstd::prelude::*;
use vstd::slice::slice_to_vec;

use crate::del_add::{decode_delta_spec, encode_delta_spec, DelAdd, DeltaValue, DeltaView};
use crate::docids::DocIds;
use crate::error::Error;
use crate::key_set::{decode_key_set, decode_key_set_spec, encode_key_set, encode_keys_spec, insert_key, keys_view, lemma_ascending_unique, strictly_ascending};
use crate::postings::{decode_docids, decode_docids_spec, encode_docids, encode_docids_spec};

verus! {

/// Which conflict-resolution function a merge applies.
#[derive(Clone, Copy, Debug, PartialEq, Eq, Structural)]
pub enum MergeKind {
    /// The value of the first run that holds the key.
    KeepFirst,
    /// The value of the last run that holds the key.
    KeepLatest,
    /// The empty value: only the keys matter.
    IgnoreValues,
    /// The values are stored sets of document ids; the result is the stored
    /// form of their union.
    BitmapUnion,
    /// The values are deltas whose sides are stored sets of document ids; the
    /// result is the delta of the union of the deletion sides and the union of
    /// the addition sides.
    DelAddBitmapUnion,
    /// The values are deltas whose sides are sets of keys; the result is the
    /// delta of the union of the deletion sides and the union of the addition
    /// sides.
    DelAddKeySetUnion,
}

/// The byte strings of a vector of blobs.
pub open spec fn blobs_view(blobs: Seq<Vec<u8>>) -> Seq<Seq<u8>> {
    blobs.map_values(|blob: Vec<u8>| blob@)
}

/// Every value is the stored form of a set of document ids.
pub open spec fn all_docids(values: Seq<Seq<u8>>) -> bool {
    forall|i: int| 0 <= i < values.len() ==> decode_docids_spec(#[trigger] values[i]) is Some
}

/// The ids that at least one of the values stores.
pub open spec fn docids_union(values: Seq<Seq<u8>>) -> Set<u32> {
    Set::new(
        |id: u32|
            exists|i: int|
                0 <= i < values.len() && decode_docids_spec(#[trigger] values[i]) is Some
                    && decode_docids_spec(values[i]).unwrap().contains(id),
    )
}

/// The payload of one side of a delta.
pub open spec fn side_of(delta: DeltaView, side: DelAdd) -> Option<Seq<u8>> {
    match side {
        DelAdd::Deletion => delta.deletion,
        DelAdd::Addition => delta.addition,
    }
}

/// `blob` is a well-formed delta, and each side that it has is the stored form
/// of a set of document ids.
pub open spec fn is_docids_delta(blob: Seq<u8>) -> bool {
    &&& decode_delta_spec(blob) matches Some(delta)
    &&& (delta.deletion matches Some(payload) ==> decode_docids_spec(payload) is Some)
    &&& (delta.addition matches Some(payload) ==> decode_docids_spec(payload) is Some)
}

/// The ids that one side of the delta `blob` stores; none where the side is
/// absent.
pub open spec fn delta_side_set(blob: Seq<u8>, side: DelAdd) -> Set<u32> {
    match decode_delta_spec(blob) {
        Some(delta) => match side_of(delta, side) {
            Some(payload) => match decode_docids_spec(payload) {
                Some(set) => set,
                None => Set::empty(),
            },
            None => Set::empty(),
        },
        None => Set::empty(),
    }
}

/// Every value is a delta of stored sets of document ids.
pub open spec fn all_docids_deltas(values: Seq<Seq<u8>>) -> bool {
    forall|i: int| 0 <= i < values.len() ==> is_docids_delta(#[trigger] values[i])
}

/// The ids that the given side of at least one of the deltas stores.
pub open spec fn side_union(values: Seq<Seq<u8>>, side: DelAdd) -> Set<u32> {
    Set::new(
        |id: u32|
            exists|i: int|
                0 <= i < values.len() && delta_side_set(#[trigger] values[i], side).contains(id),
    )
}

/// `blob` is a well-formed delta, and each side that it has is the blob of a
/// set of keys.
pub open spec fn is_key_set_delta(blob: Seq<u8>) -> bool {
    &&& decode_delta_spec(blob) matches Some(delta)
    &&& (delta.deletion matches Some(payload) ==> decode_key_set_spec(payload) is Some)
    &&& (delta.addition matches Some(payload) ==> decode_key_set_spec(payload) is Some)
}

/// Every value is a delta of sets of keys.
pub open spec fn all_key_set_deltas(values: Seq<Seq<u8>>) -> bool {
    forall|i: int| 0 <= i < values.len() ==> is_key_set_delta(#[trigger] values[i])
}

/// The keys that one side of the delta `blob` holds; none where the side is
/// absent.
pub open spec fn side_key_set(blob: Seq<u8>, side: DelAdd) -> Seq<Seq<u8>> {
    match decode_delta_spec(blob) {
        Some(delta) => match side_of(delta, side) {
            Some(payload) => match decode_key_set_spec(payload) {
                Some(keys) => keys,
                None => Seq::empty(),
            },
            None => Seq::empty(),
        },
        None => Seq::empty(),
    }
}

/// Whether some of the deltas holds `key` on the given side.
pub open spec fn side_holds_key(values: Seq<Seq<u8>>, side: DelAdd, key: Seq<u8>) -> bool {
    exists|i: int| 0 <= i < values.len() && side_key_set(#[trigger] values[i], side).contains(key)
}

/// `keys` is the union of the given side of the deltas: the keys that some
/// of the deltas holds on that side, in ascending order.
pub open spec fn is_side_key_union(keys: Seq<Seq<u8>>, values: Seq<Seq<u8>>, side: DelAdd) -> bool {
    &&& strictly_ascending(keys)
    &&& forall|key: Seq<u8>| keys.contains(key) <==> #[trigger] side_holds_key(values, side, key)
}

/// The union of the given side of the deltas.
pub open spec fn side_key_union(values: Seq<Seq<u8>>, side: DelAdd) -> Seq<Seq<u8>> {
    choose|keys: Seq<Seq<u8>>| is_side_key_union(keys, values, side)
}

/// What a merge of the given kind makes of the values that the runs hold
/// under one key, listed in the order of the runs. A single value is handed
/// on as it is.
pub open spec fn merge_values_spec(kind: MergeKind, values: Seq<Seq<u8>>) -> Result<Seq<u8>, Error>
    recommends
        values.len() > 0,
{
    if values.len() == 1 {
        Ok(values[0])
    } else {
        match kind {
            MergeKind::KeepFirst => Ok(values.first()),
            MergeKind::KeepLatest => Ok(values.last()),
            MergeKind::IgnoreValues => Ok(Seq::empty()),
            MergeKind::BitmapUnion => if all_docids(values) {
                Ok(encode_docids_spec(docids_union(values)))
            } else {
                Err(Error::Decoding)
            },
            MergeKind::DelAddBitmapUnion => if all_docids_deltas(values) {
                Ok(
                    encode_delta_spec(
                        DeltaView {
                            deletion: Some(
                                encode_docids_spec(side_union(values, DelAdd::Deletion)),
                            ),
                            addition: Some(
                                encode_docids_spec(side_union(values, DelAdd::Addition)),
                            ),
                        },
                    ),
                )
            } else {
                Err(Error::Decoding)
            },
            MergeKind::DelAddKeySetUnion => if all_key_set_deltas(values) {
                Ok(
                    encode_delta_spec(
                        DeltaView {
                            deletion: Some(
                                encode_keys_spec(side_key_union(values, DelAdd::Deletion)),
                            ),
                            addition: Some(
                                encode_keys_spec(side_key_union(values, DelAdd::Addition)),
                            ),
                        },
                    ),
                )
            } else {
                Err(Error::Decoding)
            },
        }
    }
}

/// The union grows by the ids of one more value.
proof fn lemma_docids_union_step(values: Seq<Seq<u8>>, n: int)
    requires
        0 <= n < values.len(),
        decode_docids_spec(values[n]) is Some,
    ensures
        docids_union(values.take(n + 1)) == docids_union(values.take(n)).union(
            decode_docids_spec(values[n]).unwrap(),
        ),
{
    let before = values.take(n);
    let after = values.take(n + 1);
    let added = decode_docids_spec(values[n]).unwrap();
    assert forall|id: u32| docids_union(after).contains(id) implies docids_union(before).union(
        added,
    ).contains(id) by {
        let i = choose|i: int|
            0 <= i < after.len() && decode_docids_spec(#[trigger] after[i]) is Some
                && decode_docids_spec(after[i]).unwrap().contains(id);
        if i < n {
            assert(before[i] == after[i]);
        }
    }
    assert forall|id: u32| docids_union(before).union(added).contains(id) implies docids_union(
        after,
    ).contains(id) by {
        if added.contains(id) {
            assert(after[n] == values[n]);
        } else {
            let i = choose|i: int|
                0 <= i < before.len() && decode_docids_spec(#[trigger] before[i]) is Some
                    && decode_docids_spec(before[i]).unwrap().contains(id);
            assert(after[i] == before[i]);
        }
    }
    assert(docids_union(after) =~= docids_union(before).union(added));
}

/// The union of one side grows by that side of one more delta.
proof fn lemma_side_union_step(values: Seq<Seq<u8>>, side: DelAdd, n: int)
    requires
        0 <= n < values.len(),
    ensures
        side_union(values.take(n + 1), side) == side_union(values.take(n), side).union(
            delta_side_set(values[n], side),
        ),
{
    let before = values.take(n);
    let after = values.take(n + 1);
    let added = delta_side_set(values[n], side);
    assert forall|id: u32| side_union(after, side).contains(id) implies side_union(
        before,
        side,
    ).union(added).contains(id) by {
        let i = choose|i: int|
            0 <= i < after.len() && delta_side_set(#[trigger] after[i], side).contains(id);
        if i < n {
            assert(before[i] == after[i]);
        }
    }
    assert forall|id: u32| side_union(before, side).union(added).contains(id) implies side_union(
        after,
        side,
    ).contains(id) by {
        if added.contains(id) {
            assert(after[n] == values[n]);
        } else {
            let i = choose|i: int|
                0 <= i < before.len() && delta_side_set(#[trigger] before[i], side).contains(id);
            assert(after[i] == before[i]);
        }
    }
    assert(side_union(after, side) =~= side_union(before, side).union(added));
}

/// The union of the stored sets in `values`; fails on a value that is no
/// stored set.
fn union_docids(values: &Vec<Vec<u8>>) -> (union: Result<DocIds, Error>)
    ensures
        union matches Ok(set) ==> all_docids(blobs_view(values@)) && set@ == docids_union(
            blobs_view(values@),
        ),
        union matches Err(e) ==> !all_docids(blobs_view(values@)) && e == Error::Decoding,
{
    let ghost all = blobs_view(values@);
    let mut union = DocIds::new();
    let mut i: usize = 0;
    assert(docids_union(all.take(0)) =~= Set::<u32>::empty());
    while i < values.len()
        invariant
            i <= values@.len(),
            all == blobs_view(values@),
            all_docids(all.take(i as int)),
            union@ == docids_union(all.take(i as int)),
        decreases values@.len() - i,
    {
        match decode_docids(values[i].as_slice()) {
            Ok(set) => {
                proof {
                    lemma_docids_union_step(all, i as int);
                    assert forall|k: int| 0 <= k < i + 1 implies decode_docids_spec(
                        #[trigger] all.take(i + 1)[k],
                    ) is Some by {
                        if k < i {
                            assert(all.take(i as int)[k] == all[k]);
                        }
                    }
                }
                union = union.union(&set);
            },
            Err(e) => {
                assert(decode_docids_spec(all[i as int]) is None);
                return Err(e);
            },
        }
        i += 1;
    }
    assert(all.take(i as int) =~= all);
    Ok(union)
}

/// The ids of one side of a delta; none where the side is absent. Fails on a
/// side that is no stored set.
fn side_docids(delta: &DeltaValue, side: DelAdd) -> (ids: Result<DocIds, Error>)
    ensures
        ids matches Ok(set) ==> (side_of(delta@, side) matches Some(payload) ==> decode_docids_spec(
            payload,
        ) is Some) && set@ == (match side_of(delta@, side) {
            Some(payload) => decode_docids_spec(payload).unwrap(),
            None => Set::empty(),
        }),
        ids matches Err(e) ==> e == Error::Decoding && side_of(delta@, side) is Some
            && decode_docids_spec(side_of(delta@, side).unwrap()) is None,
{
    assert(delta.get_spec(side) == side_of(delta@, side));
    match delta.get(side) {
        Some(payload) => decode_docids(payload.as_slice()),
        None => Ok(DocIds::new()),
    }
}

/// The delta of the unions of the two sides of the deltas in `values`.
fn union_deltas(values: &Vec<Vec<u8>>) -> (merged: Result<DeltaValue, Error>)
    ensures
        merged matches Ok(delta) ==> all_docids_deltas(blobs_view(values@)) && delta@ == (DeltaView {
            deletion: Some(
                encode_docids_spec(side_union(blobs_view(values@), DelAdd::Deletion)),
            ),
            addition: Some(
                encode_docids_spec(side_union(blobs_view(values@), DelAdd::Addition)),
            ),
        }),
        merged matches Err(e) ==> !all_docids_deltas(blobs_view(values@)) && e == Error::Decoding,
{
    let ghost all = blobs_view(values@);
    let mut deleted = DocIds::new();
    let mut added = DocIds::new();
    let mut i: usize = 0;
    assert(side_union(all.take(0), DelAdd::Deletion) =~= Set::<u32>::empty());
    assert(side_union(all.take(0), DelAdd::Addition) =~= Set::<u32>::empty());
    while i < values.len()
        invariant
            i <= values@.len(),
            all == blobs_view(values@),
            all_docids_deltas(all.take(i as int)),
            deleted@ == side_union(all.take(i as int), DelAdd::Deletion),
            added@ == side_union(all.take(i as int), DelAdd::Addition),
        decreases values@.len() - i,
    {
        let delta = match DeltaValue::decode(values[i].as_slice()) {
            Ok(delta) => delta,
            Err(e) => {
                assert(!is_docids_delta(all[i as int]));
                return Err(e);
            },
        };
        let deletion = match side_docids(&delta, DelAdd::Deletion) {
            Ok(set) => set,
            Err(e) => {
                assert(!is_docids_delta(all[i as int]));
                return Err(e);
            },
        };
        let addition = match side_docids(&delta, DelAdd::Addition) {
            Ok(set) => set,
            Err(e) => {
                assert(!is_docids_delta(all[i as int]));
                return Err(e);
            },
        };
        proof {
            lemma_side_union_step(all, DelAdd::Deletion, i as int);
            lemma_side_union_step(all, DelAdd::Addition, i as int);
            assert(is_docids_delta(all[i as int]));
            assert forall|k: int| 0 <= k < i + 1 implies is_docids_delta(
                #[trigger] all.take(i + 1)[k],
            ) by {
                if k < i {
                    assert(all.take(i as int)[k] == all[k]);
                }
            }
        }
        deleted = deleted.union(&deletion);
        added = added.union(&addition);
        i += 1;
    }
    assert(all.take(i as int) =~= all);
    Ok(DeltaValue::new(Some(encode_docids(&deleted)), Some(encode_docids(&added))))
}

/// Puts the keys of one side of a delta into the keys gathered so far. Fails
/// on a side that is no set of keys.
fn gather_side_keys(gathered: &mut Vec<Vec<u8>>, delta: &DeltaValue, side: DelAdd) -> (done: Result<
    (),
    Error,
>)
    requires
        strictly_ascending(keys_view(old(gathered)@)),
    ensures
        strictly_ascending(keys_view(final(gathered)@)),
        done is Ok ==> (side_of(delta@, side) matches Some(payload) ==> decode_key_set_spec(payload)
            is Some) && forall|key: Seq<u8>|
            keys_view(final(gathered)@).contains(key) <==> keys_view(old(gathered)@).contains(key)
                || (match side_of(delta@, side) {
                Some(payload) => decode_key_set_spec(payload).unwrap().contains(key),
                None => false,
            }),
        done matches Err(e) ==> e == Error::Decoding && side_of(delta@, side) is Some
            && decode_key_set_spec(side_of(delta@, side).unwrap()) is None,
{
    assert(delta.get_spec(side) == side_of(delta@, side));
    let keys = match delta.get(side) {
        Some(payload) => match decode_key_set(payload.as_slice()) {
            Ok(keys) => keys,
            Err(e) => {
                return Err(e);
            },
        },
        None => {
            return Ok(());
        },
    };
    let ghost set = keys_view(keys@);
    let ghost start = keys_view(gathered@);
    let mut i: usize = 0;
    while i < keys.len()
        invariant
            i <= keys@.len(),
            set == keys_view(keys@),
            strictly_ascending(keys_view(gathered@)),
            forall|key: Seq<u8>|
                #![trigger keys_view(gathered@).contains(key)]
                keys_view(gathered@).contains(key) <==> start.contains(key) || set.take(
                    i as int,
                ).contains(key),
        decreases keys@.len() - i,
    {
        let ghost before = keys_view(gathered@);
        let next = slice_to_vec(keys[i].as_slice());
        assert(next@ == set[i as int]);
        insert_key(gathered, next);
        proof {
            let longer = set.take(i + 1);
            let shorter = set.take(i as int);
            assert(longer =~= shorter.push(set[i as int]));
            assert forall|key: Seq<u8>|
                #![trigger keys_view(gathered@).contains(key)]
                keys_view(gathered@).contains(key) <==> start.contains(key) || longer.contains(
                    key,
                ) by {
                assert(keys_view(gathered@).contains(key) <==> before.contains(key) || key
                    == set[i as int]);
                assert(before.contains(key) <==> start.contains(key) || shorter.contains(key));
                if longer.contains(key) {
                    let k = choose|k: int| 0 <= k < longer.len() && longer[k] == key;
                    if k < i {
                        assert(shorter[k] == key);
                        assert(shorter.contains(key));
                    }
                }
                if shorter.contains(key) {
                    let k = choose|k: int| 0 <= k < shorter.len() && shorter[k] == key;
                    assert(longer[k] == key);
                }
                if key == set[i as int] {
                    assert(longer[i as int] == key);
                }
            }
        }
        i += 1;
    }
    proof {
        assert(set.take(i as int) =~= set);
        assert(decode_key_set_spec(side_of(delta@, side).unwrap()) == Some(set));
        assert forall|key: Seq<u8>|
            keys_view(gathered@).contains(key) <==> start.contains(key) || set.contains(key) by {
            assert(keys_view(gathered@).contains(key) <==> start.contains(key) || set.take(
                i as int,
            ).contains(key));
        }
    }
    Ok(())
}

/// The keys that one of the deltas holds on a side are those that the deltas
/// before it hold and those that it holds.
pub proof fn lemma_side_holds_step(values: Seq<Seq<u8>>, side: DelAdd, n: int, key: Seq<u8>)
    requires
        0 <= n < values.len(),
    ensures
        side_holds_key(values.take(n + 1), side, key) <==> side_holds_key(
            values.take(n),
            side,
            key,
        ) || side_key_set(values[n], side).contains(key),
{
    let before = values.take(n);
    let after = values.take(n + 1);
    if side_holds_key(after, side, key) {
        let i = choose|i: int|
            0 <= i < after.len() && side_key_set(#[trigger] after[i], side).contains(key);
        if i < n {
            assert(before[i] == after[i]);
        }
    }
    if side_holds_key(before, side, key) {
        let i = choose|i: int|
            0 <= i < before.len() && side_key_set(#[trigger] before[i], side).contains(key);
        assert(after[i] == before[i]);
    }
    if side_key_set(values[n], side).contains(key) {
        assert(after[n] == values[n]);
    }
}

/// The delta of the unions of the two sides of the deltas in `values`, whose
/// sides are sets of keys.
fn union_key_deltas(values: &Vec<Vec<u8>>) -> (merged: Result<DeltaValue, Error>)
    ensures
        merged matches Ok(delta) ==> all_key_set_deltas(blobs_view(values@)) && delta@
            == (DeltaView {
            deletion: Some(
                encode_keys_spec(side_key_union(blobs_view(values@), DelAdd::Deletion)),
            ),
            addition: Some(
                encode_keys_spec(side_key_union(blobs_view(values@), DelAdd::Addition)),
            ),
        }),
        merged matches Err(e) ==> !all_key_set_deltas(blobs_view(values@)) && e == Error::Decoding,
{
    let ghost all = blobs_view(values@);
    let mut deleted: Vec<Vec<u8>> = Vec::new();
    let mut added: Vec<Vec<u8>> = Vec::new();
    let mut i: usize = 0;
    proof {
        assert forall|key: Seq<u8>| !keys_view(deleted@).contains(key) by {
            if keys_view(deleted@).contains(key) {
                let k = choose|k: int| 0 <= k < keys_view(deleted@).len() && keys_view(
                    deleted@,
                )[k] == key;
            }
        }
    }
    while i < values.len()
        invariant
            i <= values@.len(),
            all == blobs_view(values@),
            all_key_set_deltas(all.take(i as int)),
            is_side_key_union(keys_view(deleted@), all.take(i as int), DelAdd::Deletion),
            is_side_key_union(keys_view(added@), all.take(i as int), DelAdd::Addition),
        decreases values@.len() - i,
    {
        let delta = match DeltaValue::decode(values[i].as_slice()) {
            Ok(delta) => delta,
            Err(e) => {
                assert(!is_key_set_delta(all[i as int]));
                return Err(e);
            },
        };
        let ghost deleted_before = keys_view(deleted@);
        let ghost added_before = keys_view(added@);
        match gather_side_keys(&mut deleted, &delta, DelAdd::Deletion) {
            Ok(()) => {},
            Err(e) => {
                assert(!is_key_set_delta(all[i as int]));
                return Err(e);
            },
        }
        match gather_side_keys(&mut added, &delta, DelAdd::Addition) {
            Ok(()) => {},
            Err(e) => {
                assert(!is_key_set_delta(all[i as int]));
                return Err(e);
            },
        }
        proof {
            assert(is_key_set_delta(all[i as int]));
            assert forall|k: int| 0 <= k < i + 1 implies is_key_set_delta(
                #[trigger] all.take(i + 1)[k],
            ) by {
                if k < i {
                    assert(all.take(i as int)[k] == all[k]);
                }
            }
            assert forall|key: Seq<u8>|
                keys_view(deleted@).contains(key) <==> #[trigger] side_holds_key(
                    all.take(i + 1),
                    DelAdd::Deletion,
                    key,
                ) by {
                lemma_side_holds_step(all, DelAdd::Deletion, i as int, key);
                assert(deleted_before.contains(key) <==> side_holds_key(
                    all.take(i as int),
                    DelAdd::Deletion,
                    key,
                ));
            }
            assert forall|key: Seq<u8>|
                keys_view(added@).contains(key) <==> #[trigger] side_holds_key(
                    all.take(i + 1),
                    DelAdd::Addition,
                    key,
                ) by {
                lemma_side_holds_step(all, DelAdd::Addition, i as int, key);
                assert(added_before.contains(key) <==> side_holds_key(
                    all.take(i as int),
                    DelAdd::Addition,
                    key,
                ));
            }
        }
        i += 1;
    }
    proof {
        assert(all.take(i as int) =~= all);
        lemma_side_key_union(keys_view(deleted@), all, DelAdd::Deletion);
        lemma_side_key_union(keys_view(added@), all, DelAdd::Addition);
    }
    Ok(DeltaValue::new(Some(encode_key_set(&deleted)), Some(encode_key_set(&added))))
}

/// The union of one side of the deltas is the only ascending list of the
/// keys that the deltas hold on that side.
pub proof fn lemma_side_key_union(keys: Seq<Seq<u8>>, values: Seq<Seq<u8>>, side: DelAdd)
    requires
        is_side_key_union(keys, values, side),
    ensures
        side_key_union(values, side) == keys,
{
    let chosen = side_key_union(values, side);
    assert(is_side_key_union(chosen, values, side));
    assert forall|key: Seq<u8>| chosen.contains(key) <==> keys.contains(key) by {
        assert(chosen.contains(key) <==> side_holds_key(values, side, key));
        assert(keys.contains(key) <==> side_holds_key(values, side, key));
    }
    lemma_ascending_unique(chosen, keys);
}

/// Merges the values that the runs hold under one key, listed in the order of
/// the runs.
pub fn merge_values(kind: MergeKind, values: &Vec<Vec<u8>>) -> (merged: Result<Vec<u8>, Error>)
    requires
        values@.len() > 0,
    ensures
        merged matches Ok(value) ==> merge_values_spec(kind, blobs_view(values@)) == Ok::<
            Seq<u8>,
            Error,
        >(value@),
        merged matches Err(e) ==> merge_values_spec(kind, blobs_view(values@)) == Err::<
            Seq<u8>,
            Error,
        >(e),
{
    if values.len() == 1 {
        return Ok(slice_to_vec(values[0].as_slice()));
    }
    match kind {
        MergeKind::KeepFirst => Ok(slice_to_vec(values[0].as_slice())),
        MergeKind::KeepLatest => Ok(slice_to_vec(values[values.len() - 1].as_slice())),
        MergeKind::IgnoreValues => Ok(Vec::new()),
        MergeKind::BitmapUnion => match union_docids(values) {
            Ok(set) => Ok(encode_docids(&set)),
            Err(e) => Err(e),
        },
        MergeKind::DelAddBitmapUnion => match union_deltas(values) {
            Ok(delta) => Ok(delta.encode()),
            Err(e) => Err(e),
        },
        MergeKind::DelAddKeySetUnion => match union_key_deltas(values) {
            Ok(delta) => Ok(delta.encode()),
            Err(e) => Err(e),
        },
    }
}

} // verus!

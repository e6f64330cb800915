//! The stored form of a set of document ids: its ids in ascending order,
//! four big-endian bytes each. One set has one stored form.

use vstd::prelude::*;

use crate::be::{lemma_u32_be_bytes, lemma_u32_be_roundtrip, push_u32_be, read_u32_be, u32_from_be, u32_to_be};
use crate::docids::{strictly_increasing, DocIds};
use crate::error::Error;

verus! {

/// The bytes of a sequence of ids, four per id.
pub open spec fn ids_to_bytes(ids: Seq<u32>) -> Seq<u8> {
    Seq::new(4 * ids.len(), |i: int| u32_to_be(ids[i / 4])[i % 4])
}

/// The ids that stand in `bytes`, four bytes per id; trailing bytes that do
/// not make up an id are left out.
pub open spec fn bytes_to_ids(bytes: Seq<u8>) -> Seq<u32> {
    Seq::new(bytes.len() / 4, |i: int| u32_from_be(bytes.subrange(4 * i, 4 * i + 4)))
}

/// The ids of `set` that are below `bound`, in ascending order.
pub open spec fn ids_below(set: Set<u32>, bound: nat) -> Seq<u32>
    decreases bound,
{
    if bound == 0 {
        Seq::empty()
    } else {
        let before = ids_below(set, (bound - 1) as nat);
        if bound - 1 <= u32::MAX && set.contains((bound - 1) as u32) {
            before.push((bound - 1) as u32)
        } else {
            before
        }
    }
}

/// The ids of `set` in ascending order.
pub open spec fn sorted_ids(set: Set<u32>) -> Seq<u32> {
    ids_below(set, 0x1_0000_0000)
}

/// The stored form of `set`.
pub open spec fn encode_docids_spec(set: Set<u32>) -> Seq<u8> {
    ids_to_bytes(sorted_ids(set))
}

/// The set that `bytes` stores, if `bytes` is the stored form of one: a whole
/// number of ids, each greater than the one before.
pub open spec fn decode_docids_spec(bytes: Seq<u8>) -> Option<Set<u32>> {
    if bytes.len() % 4 == 0 && strictly_increasing(bytes_to_ids(bytes)) {
        Some(bytes_to_ids(bytes).to_set())
    } else {
        None
    }
}

/// Ids written and read again are the same ids.
pub proof fn lemma_ids_bytes_roundtrip(ids: Seq<u32>)
    ensures
        ids_to_bytes(ids).len() == 4 * ids.len(),
        bytes_to_ids(ids_to_bytes(ids)) == ids,
{
    let bytes = ids_to_bytes(ids);
    assert forall|i: int| 0 <= i < ids.len() implies #[trigger] bytes_to_ids(bytes)[i] == ids[i] by {
        assert(bytes.subrange(4 * i, 4 * i + 4) =~= u32_to_be(ids[i]));
        lemma_u32_be_roundtrip(ids[i]);
    }
    assert(bytes_to_ids(bytes) =~= ids);
}

/// Bytes read as ids and written again are the same bytes, when they hold a
/// whole number of ids.
pub proof fn lemma_bytes_ids_roundtrip(bytes: Seq<u8>)
    requires
        bytes.len() % 4 == 0,
    ensures
        ids_to_bytes(bytes_to_ids(bytes)) == bytes,
{
    let ids = bytes_to_ids(bytes);
    assert forall|k: int| 0 <= k < bytes.len() implies #[trigger] ids_to_bytes(ids)[k] == bytes[k] by {
        let i = k / 4;
        lemma_u32_be_bytes(bytes.subrange(4 * i, 4 * i + 4));
        assert(bytes.subrange(4 * i, 4 * i + 4)[k % 4] == bytes[k]);
    }
    assert(ids_to_bytes(ids) =~= bytes);
}

/// Two ascending sequences with the same items are the same sequence.
pub proof fn lemma_sorted_ids_unique(a: Seq<u32>, b: Seq<u32>)
    requires
        strictly_increasing(a),
        strictly_increasing(b),
        a.to_set() == b.to_set(),
    ensures
        a == b,
    decreases a.len(),
{
    if a.len() == 0 {
        if b.len() > 0 {
            assert(b.to_set().contains(b[0]));
            assert(a.to_set().contains(b[0]));
        }
        assert(a =~= b);
    } else {
        let top = a.last();
        assert(a.to_set().contains(top));
        assert(b.to_set().contains(top));
        let kb = choose|k: int| 0 <= k < b.len() && b[k] == top;
        assert(b.to_set().contains(b.last()));
        assert(a.to_set().contains(b.last()));
        let ka = choose|k: int| 0 <= k < a.len() && a[k] == b.last();
        assert(b.last() == top);
        let a0 = a.drop_last();
        let b0 = b.drop_last();
        assert forall|v: u32| a0.to_set().contains(v) == b0.to_set().contains(v) by {
            if a0.to_set().contains(v) {
                let i = choose|i: int| 0 <= i < a0.len() && a0[i] == v;
                assert(a[i] == v);
                assert(a.to_set().contains(v));
                assert(b.to_set().contains(v));
                let j = choose|j: int| 0 <= j < b.len() && b[j] == v;
                assert(j < b.len() - 1);
                assert(b0[j] == v);
            }
            if b0.to_set().contains(v) {
                let j = choose|j: int| 0 <= j < b0.len() && b0[j] == v;
                assert(b[j] == v);
                assert(b.to_set().contains(v));
                assert(a.to_set().contains(v));
                let i = choose|i: int| 0 <= i < a.len() && a[i] == v;
                assert(i < a.len() - 1);
                assert(a0[i] == v);
            }
        }
        assert(a0.to_set() =~= b0.to_set());
        lemma_sorted_ids_unique(a0, b0);
        assert(a =~= a0.push(top));
        assert(b =~= b0.push(top));
    }
}

/// The ids below a bound ascend, and they are the ids of the set that are
/// below the bound.
pub proof fn lemma_ids_below(set: Set<u32>, bound: nat)
    requires
        bound <= 0x1_0000_0000,
    ensures
        strictly_increasing(ids_below(set, bound)),
        forall|i: int| 0 <= i < ids_below(set, bound).len() ==> ids_below(set, bound)[i] < bound,
        forall|id: u32| ids_below(set, bound).to_set().contains(id) <==> set.contains(id) && id < bound,
    decreases bound,
{
    if bound > 0 {
        let before = ids_below(set, (bound - 1) as nat);
        let after = ids_below(set, bound);
        let top = (bound - 1) as u32;
        lemma_ids_below(set, (bound - 1) as nat);
        assert forall|id: u32| after.to_set().contains(id) <==> set.contains(id) && id < bound by {
            if after.to_set().contains(id) {
                let i = choose|i: int| 0 <= i < after.len() && after[i] == id;
                if i < before.len() {
                    assert(before[i] == id);
                    assert(before.to_set().contains(id));
                }
            }
            if set.contains(id) && id < bound {
                if id == top {
                    assert(after[after.len() - 1] == id);
                } else {
                    assert(before.to_set().contains(id));
                    let i = choose|i: int| 0 <= i < before.len() && before[i] == id;
                    assert(after[i] == id);
                }
            }
        }
    } else {
        assert forall|id: u32| !ids_below(set, bound).to_set().contains(id) by {
            if ids_below(set, bound).to_set().contains(id) {
                let i = choose|i: int|
                    0 <= i < ids_below(set, bound).len() && ids_below(set, bound)[i] == id;
            }
        }
    }
}

/// The ascending sequence of a set ascends and holds the ids of the set.
pub proof fn lemma_sorted_ids(set: Set<u32>)
    ensures
        strictly_increasing(sorted_ids(set)),
        sorted_ids(set).to_set() == set,
{
    lemma_ids_below(set, 0x1_0000_0000);
    assert(sorted_ids(set).to_set() =~= set);
}

/// An ascending sequence is the ascending sequence of its own items.
pub proof fn lemma_sorted_ids_of(ids: Seq<u32>)
    requires
        strictly_increasing(ids),
    ensures
        sorted_ids(ids.to_set()) == ids,
{
    lemma_sorted_ids(ids.to_set());
    lemma_sorted_ids_unique(sorted_ids(ids.to_set()), ids);
}

/// Every set is read back from its stored form.
pub proof fn lemma_docids_encode_decode(set: Set<u32>)
    ensures
        decode_docids_spec(encode_docids_spec(set)) == Some(set),
{
    lemma_sorted_ids(set);
    lemma_ids_bytes_roundtrip(sorted_ids(set));
}

/// A stored form is read back as the set it stores, and no other bytes store
/// that set.
pub proof fn lemma_docids_canonical(bytes: Seq<u8>)
    requires
        decode_docids_spec(bytes) is Some,
    ensures
        encode_docids_spec(decode_docids_spec(bytes).unwrap()) == bytes,
{
    let ids = bytes_to_ids(bytes);
    lemma_sorted_ids_of(ids);
    lemma_bytes_ids_roundtrip(bytes);
}

/// The stored form of the ids of an ascending sequence is read back as the
/// set of those ids.
pub proof fn lemma_docids_roundtrip(ids: Seq<u32>)
    requires
        strictly_increasing(ids),
    ensures
        encode_docids_spec(ids.to_set()) == ids_to_bytes(ids),
        decode_docids_spec(ids_to_bytes(ids)) == Some(ids.to_set()),
{
    lemma_sorted_ids_of(ids);
    lemma_ids_bytes_roundtrip(ids);
}

/// Writes a set of document ids in its stored form.
pub fn encode_docids(ids: &DocIds) -> (bytes: Vec<u8>)
    ensures
        bytes@ == encode_docids_spec(ids@),
        decode_docids_spec(bytes@) == Some(ids@),
{
    let values = ids.to_vec();
    let mut bytes: Vec<u8> = Vec::new();
    let mut i: usize = 0;
    while i < values.len()
        invariant
            i <= values@.len(),
            bytes@ == ids_to_bytes(values@.subrange(0, i as int)),
        decreases values@.len() - i,
    {
        push_u32_be(&mut bytes, values[i]);
        proof {
            let before = values@.subrange(0, i as int);
            let after = values@.subrange(0, i + 1);
            assert(bytes@ =~= ids_to_bytes(after)) by {
                assert forall|k: int| 0 <= k < 4 * after.len() implies #[trigger] bytes@[k]
                    == ids_to_bytes(after)[k] by {
                    if k < 4 * i {
                        assert(before[k / 4] == after[k / 4]);
                    } else {
                        assert(k / 4 == i);
                        assert(k % 4 == k - 4 * i);
                    }
                }
            }
        }
        i += 1;
    }
    proof {
        assert(values@.subrange(0, i as int) =~= values@);
        lemma_docids_roundtrip(values@);
    }
    bytes
}

/// Reads a set of document ids from its stored form.
pub fn decode_docids(bytes: &[u8]) -> (ids: Result<DocIds, Error>)
    ensures
        ids matches Ok(set) ==> decode_docids_spec(bytes@) == Some(set@),
        ids matches Err(e) ==> decode_docids_spec(bytes@) is None && e == Error::Decoding,
{
    if bytes.len() % 4 != 0 {
        return Err(Error::Decoding);
    }
    let count = bytes.len() / 4;
    let mut set = DocIds::new();
    let mut previous: u32 = 0;
    let mut i: usize = 0;
    let ghost all = bytes_to_ids(bytes@);
    while i < count
        invariant
            i <= count,
            4 * count == bytes@.len(),
            bytes@.len() <= usize::MAX,
            all == bytes_to_ids(bytes@),
            strictly_increasing(all.subrange(0, i as int)),
            set@ == all.subrange(0, i as int).to_set(),
            i > 0 ==> previous == all[i - 1],
        decreases count - i,
    {
        let id = read_u32_be(bytes, 4 * i);
        assert(id == all[i as int]);
        if i > 0 && id <= previous {
            proof {
                assert(!(all[i - 1] < all[i as int]));
            }
            return Err(Error::Decoding);
        }
        set.insert(id);
        proof {
            let before = all.subrange(0, i as int);
            let after = all.subrange(0, i + 1);
            assert(after =~= before.push(id));
            assert forall|a: int, b: int| 0 <= a < b < after.len() implies after[a] < after[b] by {
                if b < i {
                    assert(before[a] < before[b]);
                } else if a < i - 1 {
                    assert(before[a] < before[i - 1]);
                }
            }
            assert(after.to_set() =~= before.to_set().insert(id)) by {
                assert forall|v: u32| after.to_set().contains(v) implies before.to_set().insert(
                    id,
                ).contains(v) by {
                    let k = choose|k: int| 0 <= k < after.len() && after[k] == v;
                    if k < i {
                        assert(before[k] == v);
                    }
                }
                assert forall|v: u32| before.to_set().insert(id).contains(v) implies after.to_set().contains(
                    v,
                ) by {
                    if v == id {
                        assert(after[i as int] == v);
                    } else {
                        let k = choose|k: int| 0 <= k < before.len() && before[k] == v;
                        assert(after[k] == v);
                    }
                }
            }
        }
        previous = id;
        i += 1;
    }
    proof {
        assert(all.subrange(0, i as int) =~= all);
    }
    Ok(set)
}

} // verus!

//! Sets of keys in one blob: the keys in strictly ascending order, each with
//! its length before it, eight bytes big-endian. One set has one blob.
//!
//! The normalized forms of the facet strings are kept this way: each
//! normalized string with the set of the strings as they were written.

use vstd::prelude::*;
use vstd::slice::{slice_subrange, slice_to_vec};

use crate::be::{lemma_u64_be_roundtrip, push_u64_be, read_u64_be, u64_from_be, u64_to_be};
use crate::error::Error;
use crate::helpers::append_bytes;
use crate::lex::{compare_keys, lemma_lex_asymmetric, lemma_lex_irreflexive, lemma_lex_transitive, lex_lt, KeyOrder};

verus! {

/// The byte strings of a vector of keys.
pub open spec fn keys_view(keys: Seq<Vec<u8>>) -> Seq<Seq<u8>> {
    keys.map_values(|key: Vec<u8>| key@)
}

/// Each key comes before the next.
pub open spec fn strictly_ascending(keys: Seq<Seq<u8>>) -> bool {
    forall|i: int, j: int| 0 <= i < j < keys.len() ==> lex_lt(keys[i], keys[j])
}

/// The bytes of one key.
pub open spec fn encode_key_spec(key: Seq<u8>) -> Seq<u8> {
    u64_to_be(key.len() as u64) + key
}

/// The bytes of a sequence of keys.
pub open spec fn encode_keys_spec(keys: Seq<Seq<u8>>) -> Seq<u8>
    decreases keys.len(),
{
    if keys.len() == 0 {
        Seq::empty()
    } else {
        encode_keys_spec(keys.drop_last()) + encode_key_spec(keys.last())
    }
}

/// The key at the start of `bytes` and the number of bytes it takes; nothing
/// where `bytes` is too short for a key.
pub open spec fn first_key(bytes: Seq<u8>) -> Option<(Seq<u8>, int)> {
    if bytes.len() < 8 {
        None
    } else {
        let length = u64_from_be(bytes.subrange(0, 8)) as int;
        if bytes.len() - 8 < length {
            None
        } else {
            Some((bytes.subrange(8, 8 + length), 8 + length))
        }
    }
}

/// The keys that stand in `bytes` one after the other; nothing where `bytes`
/// ends in the middle of a key.
pub open spec fn decode_keys_spec(bytes: Seq<u8>) -> Option<Seq<Seq<u8>>>
    decreases bytes.len(),
{
    if bytes.len() == 0 {
        Some(Seq::empty())
    } else {
        match first_key(bytes) {
            None => None,
            Some((key, taken)) => match decode_keys_spec(bytes.skip(taken)) {
                None => None,
                Some(rest) => Some(seq![key] + rest),
            },
        }
    }
}

/// The set of keys that `bytes` holds, if `bytes` is the blob of one: keys in
/// strictly ascending order.
pub open spec fn decode_key_set_spec(bytes: Seq<u8>) -> Option<Seq<Seq<u8>>> {
    match decode_keys_spec(bytes) {
        Some(keys) => if strictly_ascending(keys) {
            Some(keys)
        } else {
            None
        },
        None => None,
    }
}

/// A key written in front of other keys is read back in front of them.
proof fn lemma_decode_cons(key: Seq<u8>, rest: Seq<u8>)
    requires
        key.len() <= u64::MAX,
    ensures
        decode_keys_spec(encode_key_spec(key) + rest) == (match decode_keys_spec(rest) {
            Some(keys) => Some(seq![key] + keys),
            None => None,
        }),
{
    let bytes = encode_key_spec(key) + rest;
    lemma_u64_be_roundtrip(key.len() as u64);
    let end = 8 + key.len() as int;
    assert(bytes.subrange(0, 8) =~= u64_to_be(key.len() as u64));
    assert(bytes.subrange(8, end) =~= key);
    assert(bytes.skip(end) =~= rest);
}

/// Keys written in front of other keys are read back with them.
proof fn lemma_decode_after(keys: Seq<Seq<u8>>, rest: Seq<u8>)
    requires
        forall|i: int| 0 <= i < keys.len() ==> (#[trigger] keys[i]).len() <= u64::MAX,
        decode_keys_spec(rest) is Some,
    ensures
        decode_keys_spec(encode_keys_spec(keys) + rest) == Some(
            keys + decode_keys_spec(rest).unwrap(),
        ),
    decreases keys.len(),
{
    let read = decode_keys_spec(rest).unwrap();
    if keys.len() == 0 {
        assert(encode_keys_spec(keys) + rest =~= rest);
        assert(keys + read =~= read);
    } else {
        let last = keys.last();
        let front = keys.drop_last();
        let tail = encode_key_spec(last) + rest;
        assert(last.len() <= u64::MAX) by {
            assert(keys[keys.len() - 1].len() <= u64::MAX);
        }
        lemma_decode_cons(last, rest);
        assert forall|i: int| 0 <= i < front.len() implies (#[trigger] front[i]).len()
            <= u64::MAX by {
            assert(keys[i].len() <= u64::MAX);
        }
        lemma_decode_after(front, tail);
        assert(encode_keys_spec(keys) + rest == encode_keys_spec(front) + tail) by {
            assert(encode_keys_spec(keys) == encode_keys_spec(front) + encode_key_spec(last));
            assert((encode_keys_spec(front) + encode_key_spec(last)) + rest =~= encode_keys_spec(
                front,
            ) + (encode_key_spec(last) + rest));
        }
        assert(keys + read == front + (seq![last] + read)) by {
            assert(keys =~= front.push(last));
            assert(front.push(last) + read =~= front + (seq![last] + read));
        }
    }
}

/// A set of keys that was written is read back key for key.
pub proof fn lemma_key_set_roundtrip(keys: Seq<Seq<u8>>)
    requires
        strictly_ascending(keys),
        forall|i: int| 0 <= i < keys.len() ==> (#[trigger] keys[i]).len() <= u64::MAX,
    ensures
        decode_key_set_spec(encode_keys_spec(keys)) == Some(keys),
{
    lemma_decode_after(keys, Seq::empty());
    assert(encode_keys_spec(keys) + Seq::<u8>::empty() =~= encode_keys_spec(keys));
    assert(keys + Seq::<Seq<u8>>::empty() =~= keys);
}

/// Writes a list of keys as one blob. Keys in strictly ascending order are
/// read back from it.
pub fn encode_key_set(keys: &Vec<Vec<u8>>) -> (bytes: Vec<u8>)
    ensures
        bytes@ == encode_keys_spec(keys_view(keys@)),
        strictly_ascending(keys_view(keys@)) ==> decode_key_set_spec(bytes@) == Some(
            keys_view(keys@),
        ),
{
    let ghost all = keys_view(keys@);
    let mut bytes: Vec<u8> = Vec::new();
    let mut i: usize = 0;
    assert(all.take(0) =~= Seq::<Seq<u8>>::empty());
    while i < keys.len()
        invariant
            i <= keys@.len(),
            all == keys_view(keys@),
            bytes@ == encode_keys_spec(all.take(i as int)),
            forall|k: int| 0 <= k < i ==> (#[trigger] all[k]).len() <= u64::MAX,
        decreases keys@.len() - i,
    {
        let ghost before = bytes@;
        push_u64_be(&mut bytes, keys[i].len() as u64);
        append_bytes(&mut bytes, keys[i].as_slice());
        proof {
            assert(all.take(i + 1).drop_last() =~= all.take(i as int));
            assert(all.take(i + 1).last() == all[i as int]);
            assert(bytes@ =~= before + encode_key_spec(all[i as int]));
        }
        i += 1;
    }
    proof {
        assert(all.take(i as int) =~= all);
        if strictly_ascending(all) {
            lemma_key_set_roundtrip(all);
        }
    }
    bytes
}

/// What was read so far, in front of what the rest of the bytes holds.
spec fn joined(read: Seq<Seq<u8>>, rest: Option<Seq<Seq<u8>>>) -> Option<Seq<Seq<u8>>> {
    match rest {
        Some(rest) => Some(read + rest),
        None => None,
    }
}

/// Reads the keys that stand in `bytes` one after the other.
pub fn decode_keys(bytes: &[u8]) -> (keys: Result<Vec<Vec<u8>>, Error>)
    ensures
        keys matches Ok(read) ==> decode_keys_spec(bytes@) == Some(keys_view(read@)),
        keys matches Err(e) ==> decode_keys_spec(bytes@) is None && e == Error::Decoding,
{
    let len = bytes.len();
    let mut keys: Vec<Vec<u8>> = Vec::new();
    let mut at: usize = 0;
    proof {
        assert(bytes@.skip(0) =~= bytes@);
        if decode_keys_spec(bytes@) is Some {
            assert(keys_view(keys@) + decode_keys_spec(bytes@).unwrap() =~= decode_keys_spec(
                bytes@,
            ).unwrap());
        }
    }
    while at < len
        invariant
            at <= len,
            len == bytes@.len(),
            decode_keys_spec(bytes@) == joined(
                keys_view(keys@),
                decode_keys_spec(bytes@.skip(at as int)),
            ),
        decreases len - at,
    {
        let ghost rest = bytes@.skip(at as int);
        let ghost read = keys_view(keys@);
        if len - at < 8 {
            return Err(Error::Decoding);
        }
        let length = read_u64_be(bytes, at);
        proof {
            assert(rest.subrange(0, 8) =~= bytes@.subrange(at as int, at + 8));
        }
        if ((len - at - 8) as u64) < length {
            return Err(Error::Decoding);
        }
        let start = at + 8;
        let end = start + length as usize;
        let key = slice_to_vec(slice_subrange(bytes, start, end));
        proof {
            let after = decode_keys_spec(bytes@.skip(end as int));
            assert(rest.subrange(8, 8 + length) =~= bytes@.subrange(start as int, end as int));
            assert(rest.skip(8 + length) =~= bytes@.skip(end as int));
            assert(keys_view(keys@.push(key)) =~= read.push(key@));
            if after is Some {
                assert(read + (seq![key@] + after.unwrap()) =~= read.push(key@) + after.unwrap());
            }
        }
        keys.push(key);
        at = end;
    }
    proof {
        assert(bytes@.skip(at as int) =~= Seq::<u8>::empty());
        assert(keys_view(keys@) + Seq::<Seq<u8>>::empty() =~= keys_view(keys@));
    }
    Ok(keys)
}

/// Whether each key comes before the next.
pub fn keys_in_order(keys: &Vec<Vec<u8>>) -> (ordered: bool)
    ensures
        ordered == strictly_ascending(keys_view(keys@)),
{
    let ghost all = keys_view(keys@);
    let mut i: usize = 1;
    while i < keys.len()
        invariant
            1 <= i,
            all == keys_view(keys@),
            forall|a: int, b: int| 0 <= a < b < i && b < all.len() ==> lex_lt(all[a], all[b]),
        decreases keys@.len() - i,
    {
        if compare_keys(keys[i - 1].as_slice(), keys[i].as_slice()) != KeyOrder::Before {
            assert(!lex_lt(all[i - 1], all[i as int]));
            return false;
        }
        proof {
            assert forall|a: int, b: int| 0 <= a < b < i + 1 && b < all.len() implies lex_lt(
                all[a],
                all[b],
            ) by {
                if b == i && a < i - 1 {
                    assert(lex_lt(all[a], all[i - 1]));
                    lemma_lex_transitive(all[a], all[i - 1], all[i as int]);
                }
            }
        }
        i += 1;
    }
    true
}

/// Reads the blob of a set of keys.
pub fn decode_key_set(bytes: &[u8]) -> (keys: Result<Vec<Vec<u8>>, Error>)
    ensures
        keys matches Ok(read) ==> decode_key_set_spec(bytes@) == Some(keys_view(read@)),
        keys matches Err(e) ==> decode_key_set_spec(bytes@) is None && e == Error::Decoding,
{
    let keys = match decode_keys(bytes) {
        Ok(keys) => keys,
        Err(e) => {
            return Err(e);
        },
    };
    if keys_in_order(&keys) {
        Ok(keys)
    } else {
        Err(Error::Decoding)
    }
}

/// Two ascending sequences that hold the same keys are the same sequence.
pub proof fn lemma_ascending_unique(a: Seq<Seq<u8>>, b: Seq<Seq<u8>>)
    requires
        strictly_ascending(a),
        strictly_ascending(b),
        forall|key: Seq<u8>| a.contains(key) <==> b.contains(key),
    ensures
        a == b,
    decreases a.len(),
{
    if a.len() == 0 {
        if b.len() > 0 {
            assert(b.contains(b[0]));
        }
        assert(a =~= b);
    } else {
        let top = a.last();
        assert(a.contains(top)) by {
            assert(a[a.len() - 1] == top);
        }
        let kb = choose|k: int| 0 <= k < b.len() && b[k] == top;
        assert(b.contains(b.last())) by {
            assert(b[b.len() - 1] == b.last());
        }
        let ka = choose|k: int| 0 <= k < a.len() && a[k] == b.last();
        assert(b.last() == top) by {
            if kb < b.len() - 1 {
                assert(lex_lt(b[kb], b[b.len() - 1]));
                if ka < a.len() - 1 {
                    assert(lex_lt(a[ka], a[a.len() - 1]));
                    lemma_lex_asymmetric(top, b.last());
                }
            }
        }
        let a0 = a.drop_last();
        let b0 = b.drop_last();
        lemma_lex_irreflexive(top);
        assert forall|key: Seq<u8>| a0.contains(key) <==> b0.contains(key) by {
            if a0.contains(key) {
                let i = choose|i: int| 0 <= i < a0.len() && a0[i] == key;
                assert(a[i] == key);
                assert(a.contains(key));
                assert(lex_lt(a[i], a[a.len() - 1]));
                let j = choose|j: int| 0 <= j < b.len() && b[j] == key;
                assert(b0[j] == key);
            }
            if b0.contains(key) {
                let j = choose|j: int| 0 <= j < b0.len() && b0[j] == key;
                assert(b[j] == key);
                assert(b.contains(key));
                assert(lex_lt(b[j], b[b.len() - 1]));
                let i = choose|i: int| 0 <= i < a.len() && a[i] == key;
                assert(a0[i] == key);
            }
        }
        assert(strictly_ascending(a0)) by {
            assert forall|i: int, j: int| 0 <= i < j < a0.len() implies lex_lt(a0[i], a0[j]) by {
                assert(lex_lt(a[i], a[j]));
            }
        }
        assert(strictly_ascending(b0)) by {
            assert forall|i: int, j: int| 0 <= i < j < b0.len() implies lex_lt(b0[i], b0[j]) by {
                assert(lex_lt(b[i], b[j]));
            }
        }
        lemma_ascending_unique(a0, b0);
        assert(a =~= a0.push(top));
        assert(b =~= b0.push(top));
    }
}

/// Puts a key into an ascending list of keys, at its place. A key that the
/// list holds already is not put in again.
pub fn insert_key(keys: &mut Vec<Vec<u8>>, key: Vec<u8>)
    requires
        strictly_ascending(keys_view(old(keys)@)),
    ensures
        strictly_ascending(keys_view(final(keys)@)),
        forall|other: Seq<u8>|
            #![trigger keys_view(final(keys)@).contains(other)]
            keys_view(final(keys)@).contains(other) <==> keys_view(old(keys)@).contains(other)
                || other == key@,
{
    let ghost before = keys_view(keys@);
    let mut at: usize = 0;
    while at < keys.len()
        invariant
            at <= keys@.len(),
            keys@ == old(keys)@,
            before == keys_view(keys@),
            strictly_ascending(before),
            forall|k: int| 0 <= k < at ==> lex_lt(before[k], key@),
        ensures
            at < before.len() ==> lex_lt(key@, before[at as int]),
        decreases keys@.len() - at,
    {
        match compare_keys(keys[at].as_slice(), key.as_slice()) {
            KeyOrder::Before => {},
            KeyOrder::Same => {
                proof {
                    assert(before[at as int] == key@);
                    assert forall|other: Seq<u8>| before.contains(other) <==> before.contains(
                        other,
                    ) || other == key@ by {}
                }
                return ;
            },
            KeyOrder::After => {
                break ;
            },
        }
        at += 1;
    }
    proof {
        let after = before.insert(at as int, key@);
        assert(keys_view(keys@.insert(at as int, key)) =~= after);
        assert forall|i: int, j: int| 0 <= i < j < after.len() implies lex_lt(after[i], after[j]) by {
            if j < at {
                assert(lex_lt(before[i], before[j]));
            } else if j == at {
                assert(lex_lt(before[i], key@));
            } else if i == at {
                if j - 1 > at {
                    assert(lex_lt(before[at as int], before[j - 1]));
                    lemma_lex_transitive(key@, before[at as int], before[j - 1]);
                }
            } else if i < at {
                assert(lex_lt(before[i], before[j - 1]));
            } else {
                assert(lex_lt(before[i - 1], before[j - 1]));
            }
        }
        assert forall|other: Seq<u8>| after.contains(other) <==> before.contains(other) || other
            == key@ by {
            if after.contains(other) {
                let k = choose|k: int| 0 <= k < after.len() && after[k] == other;
                if k < at {
                    assert(before[k] == other);
                } else if k > at {
                    assert(before[k - 1] == other);
                }
            }
            if before.contains(other) {
                let k = choose|k: int| 0 <= k < before.len() && before[k] == other;
                if k < at {
                    assert(after[k] == other);
                } else {
                    assert(after[k + 1] == other);
                }
            }
            if other == key@ {
                assert(after[at as int] == other);
            }
        }
    }
    keys.insert(at, key);
}

} // verus!

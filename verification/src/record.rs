//! Document records: the fields of a document as a map from field id to raw
//! value, in one blob.
//!
//! A record is its fields in ascending order of their ids. A field is its id
//! in two bytes, the length of its value in eight, both big-endian, and the
//! value.

use vstd::prelude::*;
use vstd::slice::{slice_subrange, slice_to_vec};

use crate::be::{lemma_u16_be_roundtrip, lemma_u64_be_roundtrip, push_u16_be, push_u64_be, read_u16_be, read_u64_be, u16_from_be, u16_to_be, u64_from_be, u64_to_be};
use crate::error::Error;
use crate::helpers::append_bytes;

verus! {

/// One field of a document.
#[derive(Debug, PartialEq, Eq)]
pub struct Field {
    pub id: u16,
    pub value: Vec<u8>,
}

impl View for Field {
    type V = (u16, Seq<u8>);

    open spec fn view(&self) -> (u16, Seq<u8>) {
        (self.id, self.value@)
    }
}

/// The fields of a vector of fields.
pub open spec fn fields_view(fields: Seq<Field>) -> Seq<(u16, Seq<u8>)> {
    fields.map_values(|field: Field| field@)
}

/// Each field id is smaller than the next, so that no field stands twice.
pub open spec fn ids_ascending(fields: Seq<(u16, Seq<u8>)>) -> bool {
    forall|i: int, j: int| 0 <= i < j < fields.len() ==> fields[i].0 < fields[j].0
}

/// The bytes of one field.
pub open spec fn encode_field_spec(field: (u16, Seq<u8>)) -> Seq<u8> {
    u16_to_be(field.0) + u64_to_be(field.1.len() as u64) + field.1
}

/// The bytes of a sequence of fields.
pub open spec fn encode_fields_spec(fields: Seq<(u16, Seq<u8>)>) -> Seq<u8>
    decreases fields.len(),
{
    if fields.len() == 0 {
        Seq::empty()
    } else {
        encode_fields_spec(fields.drop_last()) + encode_field_spec(fields.last())
    }
}

/// The field at the start of `bytes` and the number of bytes it takes;
/// nothing where `bytes` is too short for a field.
pub open spec fn first_field(bytes: Seq<u8>) -> Option<((u16, Seq<u8>), int)> {
    if bytes.len() < 10 {
        None
    } else {
        let length = u64_from_be(bytes.subrange(2, 10)) as int;
        if bytes.len() - 10 < length {
            None
        } else {
            Some(((u16_from_be(bytes.subrange(0, 2)), bytes.subrange(10, 10 + length)), 10 + length))
        }
    }
}

/// The fields that stand in `bytes` one after the other; nothing where
/// `bytes` ends in the middle of a field.
pub open spec fn decode_fields_spec(bytes: Seq<u8>) -> Option<Seq<(u16, Seq<u8>)>>
    decreases bytes.len(),
{
    if bytes.len() == 0 {
        Some(Seq::empty())
    } else {
        match first_field(bytes) {
            None => None,
            Some((field, taken)) => match decode_fields_spec(bytes.skip(taken)) {
                None => None,
                Some(rest) => Some(seq![field] + rest),
            },
        }
    }
}

/// The record that `bytes` holds, if `bytes` is a record: a sequence of
/// fields with ascending ids.
pub open spec fn decode_record_spec(bytes: Seq<u8>) -> Option<Seq<(u16, Seq<u8>)>> {
    match decode_fields_spec(bytes) {
        Some(fields) => if ids_ascending(fields) {
            Some(fields)
        } else {
            None
        },
        None => None,
    }
}

/// A field written in front of other bytes is read back from them.
proof fn lemma_first_field(field: (u16, Seq<u8>), rest: Seq<u8>)
    requires
        field.1.len() <= u64::MAX,
    ensures
        first_field(encode_field_spec(field) + rest) == Some(
            (field, encode_field_spec(field).len() as int),
        ),
        (encode_field_spec(field) + rest).skip(encode_field_spec(field).len() as int) == rest,
        encode_field_spec(field).len() == 10 + field.1.len(),
{
    let bytes = encode_field_spec(field) + rest;
    lemma_u16_be_roundtrip(field.0);
    lemma_u64_be_roundtrip(field.1.len() as u64);
    assert(bytes.subrange(0, 2) =~= u16_to_be(field.0));
    assert(bytes.subrange(2, 10) =~= u64_to_be(field.1.len() as u64));
    let end = 10 + field.1.len() as int;
    assert(bytes.subrange(10, end) =~= field.1);
    assert(bytes.skip(end) =~= rest);
}

/// A field written in front of other fields is read back in front of them.
proof fn lemma_decode_cons(field: (u16, Seq<u8>), rest: Seq<u8>)
    requires
        field.1.len() <= u64::MAX,
    ensures
        decode_fields_spec(encode_field_spec(field) + rest) == (match decode_fields_spec(rest) {
            Some(fields) => Some(seq![field] + fields),
            None => None,
        }),
{
    lemma_first_field(field, rest);
}

/// Fields written in front of other fields are read back with them.
proof fn lemma_decode_after(fields: Seq<(u16, Seq<u8>)>, rest: Seq<u8>)
    requires
        forall|i: int| 0 <= i < fields.len() ==> (#[trigger] fields[i]).1.len() <= u64::MAX,
        decode_fields_spec(rest) is Some,
    ensures
        decode_fields_spec(encode_fields_spec(fields) + rest) == Some(
            fields + decode_fields_spec(rest).unwrap(),
        ),
    decreases fields.len(),
{
    let read = decode_fields_spec(rest).unwrap();
    if fields.len() == 0 {
        assert(encode_fields_spec(fields) + rest =~= rest);
        assert(fields + read =~= read);
    } else {
        let last = fields.last();
        let front = fields.drop_last();
        let tail = encode_field_spec(last) + rest;
        assert(last.1.len() <= u64::MAX) by {
            assert(fields[fields.len() - 1].1.len() <= u64::MAX);
        }
        lemma_decode_cons(last, rest);
        assert forall|i: int| 0 <= i < front.len() implies (#[trigger] front[i]).1.len()
            <= u64::MAX by {
            assert(fields[i].1.len() <= u64::MAX);
        }
        lemma_decode_after(front, tail);
        assert(encode_fields_spec(fields) + rest == encode_fields_spec(front) + tail) by {
            assert(encode_fields_spec(fields) == encode_fields_spec(front) + encode_field_spec(
                last,
            ));
            assert((encode_fields_spec(front) + encode_field_spec(last)) + rest
                =~= encode_fields_spec(front) + (encode_field_spec(last) + rest));
        }
        assert(fields + read == front + (seq![last] + read)) by {
            assert(fields =~= front.push(last));
            assert(front.push(last) + read =~= front + (seq![last] + read));
        }
    }
}

/// A record that was written is read back field for field.
pub proof fn lemma_record_roundtrip(fields: Seq<(u16, Seq<u8>)>)
    requires
        ids_ascending(fields),
        forall|i: int| 0 <= i < fields.len() ==> (#[trigger] fields[i]).1.len() <= u64::MAX,
    ensures
        decode_record_spec(encode_fields_spec(fields)) == Some(fields),
{
    lemma_decode_after(fields, Seq::empty());
    assert(encode_fields_spec(fields) + Seq::<u8>::empty() =~= encode_fields_spec(fields));
    assert(fields + Seq::<(u16, Seq<u8>)>::empty() =~= fields);
}

/// Writes the fields one after the other.
pub fn encode_fields(fields: &Vec<Field>) -> (bytes: Vec<u8>)
    ensures
        bytes@ == encode_fields_spec(fields_view(fields@)),
        ids_ascending(fields_view(fields@)) ==> decode_record_spec(bytes@) == Some(
            fields_view(fields@),
        ),
{
    let ghost all = fields_view(fields@);
    let mut bytes: Vec<u8> = Vec::new();
    let mut i: usize = 0;
    assert(all.take(0) =~= Seq::<(u16, Seq<u8>)>::empty());
    while i < fields.len()
        invariant
            i <= fields@.len(),
            all == fields_view(fields@),
            bytes@ == encode_fields_spec(all.take(i as int)),
            forall|k: int| 0 <= k < i ==> (#[trigger] all[k]).1.len() <= u64::MAX,
        decreases fields@.len() - i,
    {
        let ghost before = bytes@;
        push_u16_be(&mut bytes, fields[i].id);
        push_u64_be(&mut bytes, fields[i].value.len() as u64);
        append_bytes(&mut bytes, fields[i].value.as_slice());
        proof {
            assert(all.take(i + 1).drop_last() =~= all.take(i as int));
            assert(all.take(i + 1).last() == all[i as int]);
            assert(bytes@ =~= before + encode_field_spec(all[i as int]));
        }
        i += 1;
    }
    proof {
        assert(all.take(i as int) =~= all);
        if ids_ascending(all) {
            lemma_record_roundtrip(all);
        }
    }
    bytes
}

/// What was read so far, in front of what the rest of the bytes holds.
spec fn joined(read: Seq<(u16, Seq<u8>)>, rest: Option<Seq<(u16, Seq<u8>)>>) -> Option<
    Seq<(u16, Seq<u8>)>,
> {
    match rest {
        Some(rest) => Some(read + rest),
        None => None,
    }
}

/// Reads the fields that stand in `bytes` one after the other.
pub fn decode_fields(bytes: &[u8]) -> (fields: Result<Vec<Field>, Error>)
    ensures
        fields matches Ok(read) ==> decode_fields_spec(bytes@) == Some(fields_view(read@)),
        fields matches Err(e) ==> decode_fields_spec(bytes@) is None && e == Error::Decoding,
{
    let len = bytes.len();
    let mut fields: Vec<Field> = Vec::new();
    let mut at: usize = 0;
    proof {
        assert(bytes@.skip(0) =~= bytes@);
        assert(fields_view(fields@) + decode_fields_spec(bytes@).unwrap() =~= decode_fields_spec(
            bytes@,
        ).unwrap());
    }
    while at < len
        invariant
            at <= len,
            len == bytes@.len(),
            decode_fields_spec(bytes@) == joined(
                fields_view(fields@),
                decode_fields_spec(bytes@.skip(at as int)),
            ),
        decreases len - at,
    {
        let ghost rest = bytes@.skip(at as int);
        if len - at < 10 {
            return Err(Error::Decoding);
        }
        let id = read_u16_be(bytes, at);
        let length = read_u64_be(bytes, at + 2);
        proof {
            assert(rest.subrange(0, 2) =~= bytes@.subrange(at as int, at + 2));
            assert(rest.subrange(2, 10) =~= bytes@.subrange(at + 2, at + 10));
        }
        if ((len - at - 10) as u64) < length {
            return Err(Error::Decoding);
        }
        let start = at + 10;
        let end = start + length as usize;
        let value = slice_to_vec(slice_subrange(bytes, start, end));
        proof {
            assert(rest.subrange(10, 10 + length) =~= bytes@.subrange(start as int, end as int));
            assert(rest.skip(10 + length) =~= bytes@.skip(end as int));
            let field = (id, value@);
            let after = decode_fields_spec(bytes@.skip(end as int));
            assert(fields_view(fields@.push(Field { id, value })) =~= fields_view(fields@).push(
                field,
            ));
            if after is Some {
                assert(fields_view(fields@) + (seq![field] + after.unwrap()) =~= fields_view(
                    fields@,
                ).push(field) + after.unwrap());
            }
        }
        fields.push(Field { id, value });
        at = end;
    }
    proof {
        assert(bytes@.skip(at as int) =~= Seq::<u8>::empty());
        assert(fields_view(fields@) + Seq::<(u16, Seq<u8>)>::empty() =~= fields_view(fields@));
    }
    Ok(fields)
}

/// Whether no field stands twice and the fields are in the order of their
/// ids.
pub fn fields_in_order(fields: &Vec<Field>) -> (ordered: bool)
    ensures
        ordered == ids_ascending(fields_view(fields@)),
{
    let ghost all = fields_view(fields@);
    let mut i: usize = 1;
    while i < fields.len()
        invariant
            1 <= i,
            all == fields_view(fields@),
            forall|a: int, b: int| 0 <= a < b < i && b < all.len() ==> all[a].0 < all[b].0,
        decreases fields@.len() - i,
    {
        if fields[i - 1].id >= fields[i].id {
            assert(!(all[i - 1].0 < all[i as int].0));
            return false;
        }
        proof {
            assert forall|a: int, b: int| 0 <= a < b < i + 1 && b < all.len() implies all[a].0
                < all[b].0 by {
                if b == i && a < i - 1 {
                    assert(all[a].0 < all[i - 1].0);
                }
            }
        }
        i += 1;
    }
    true
}

/// Reads a record: the fields of a document, in the order of their ids.
pub fn decode_record(bytes: &[u8]) -> (fields: Result<Vec<Field>, Error>)
    ensures
        fields matches Ok(read) ==> decode_record_spec(bytes@) == Some(fields_view(read@)),
        fields matches Err(e) ==> decode_record_spec(bytes@) is None && e == Error::Decoding,
{
    let fields = match decode_fields(bytes) {
        Ok(fields) => fields,
        Err(e) => {
            return Err(e);
        },
    };
    if fields_in_order(&fields) {
        Ok(fields)
    } else {
        Err(Error::Decoding)
    }
}

} // verus!

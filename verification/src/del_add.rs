//! Delta values: what an incremental update removes from a key and what it
//! adds to it, as one value blob.
//!
//! A blob starts with one byte that says which sides are present: 1 for the
//! deletion side, 2 for the addition side, 3 for both, 0 for neither. A
//! deletion payload follows with its length before it, eight bytes big-endian.
//! An addition payload takes the rest of the blob.

use vstd::prelude::*;
use vstd::slice::{slice_subrange, slice_to_vec};

use crate::be::{lemma_u64_be_bytes, lemma_u64_be_roundtrip, push_u64_be, read_u64_be, u64_from_be, u64_to_be};
use crate::error::Error;
use crate::helpers::append_bytes;

verus! {

/// The two sides of a delta.
#[derive(Clone, Copy, Debug, PartialEq, Eq, Structural)]
pub enum DelAdd {
    Deletion,
    Addition,
}

/// A decoded delta value.
///
/// With neither side it changes nothing; with a deletion only it removes what
/// was stored; with an addition only it inserts; with both it replaces.
#[derive(Debug, PartialEq, Eq)]
pub struct DeltaValue {
    pub deletion: Option<Vec<u8>>,
    pub addition: Option<Vec<u8>>,
}

/// A delta value as mathematics sees it.
pub struct DeltaView {
    pub deletion: Option<Seq<u8>>,
    pub addition: Option<Seq<u8>>,
}

/// The bytes of an optional payload.
pub open spec fn payload_view(payload: Option<Vec<u8>>) -> Option<Seq<u8>> {
    match payload {
        Some(bytes) => Some(bytes@),
        None => None,
    }
}

impl View for DeltaValue {
    type V = DeltaView;

    open spec fn view(&self) -> DeltaView {
        DeltaView { deletion: payload_view(self.deletion), addition: payload_view(self.addition) }
    }
}

/// The first byte of a blob that holds `delta`.
pub open spec fn delta_tag(delta: DeltaView) -> u8 {
    ((if delta.deletion is Some {
        1int
    } else {
        0int
    }) + (if delta.addition is Some {
        2int
    } else {
        0int
    })) as u8
}

/// The blob that holds `delta`.
pub open spec fn encode_delta_spec(delta: DeltaView) -> Seq<u8> {
    seq![delta_tag(delta)] + (match delta.deletion {
        Some(payload) => u64_to_be(payload.len() as u64) + payload,
        None => Seq::empty(),
    }) + (match delta.addition {
        Some(payload) => payload,
        None => Seq::empty(),
    })
}

/// The deletion side of a blob whose first byte announces one, with what
/// follows it; `None` where the blob is too short for what it announces.
pub open spec fn split_deletion(rest: Seq<u8>) -> Option<(Seq<u8>, Seq<u8>)> {
    if rest.len() < 8 {
        None
    } else {
        let length = u64_from_be(rest.subrange(0, 8)) as int;
        if rest.len() - 8 < length {
            None
        } else {
            Some((rest.subrange(8, 8 + length), rest.skip(8 + length)))
        }
    }
}

/// The delta that `bytes` holds, if `bytes` is a well-formed blob.
pub open spec fn decode_delta_spec(bytes: Seq<u8>) -> Option<DeltaView> {
    if bytes.len() == 0 || bytes[0] > 3 {
        None
    } else {
        let has_deletion = bytes[0] % 2 == 1;
        let has_addition = bytes[0] >= 2;
        let rest = bytes.skip(1);
        if has_deletion && split_deletion(rest) is None {
            None
        } else {
            let deletion = if has_deletion {
                Some(split_deletion(rest).unwrap().0)
            } else {
                None
            };
            let tail = if has_deletion {
                split_deletion(rest).unwrap().1
            } else {
                rest
            };
            if has_addition {
                Some(DeltaView { deletion, addition: Some(tail) })
            } else if tail.len() == 0 {
                Some(DeltaView { deletion, addition: None })
            } else {
                None
            }
        }
    }
}

/// Encoding then decoding a delta value recovers exactly the original pair of
/// sides, whichever of them are present.
pub proof fn lemma_delta_roundtrip(delta: DeltaView)
    requires
        delta.deletion matches Some(payload) ==> payload.len() <= u64::MAX,
    ensures
        decode_delta_spec(encode_delta_spec(delta)) == Some(delta),
{
    let bytes = encode_delta_spec(delta);
    let rest = bytes.skip(1);
    assert(bytes[0] == delta_tag(delta));
    match delta.deletion {
        Some(payload) => {
            lemma_u64_be_roundtrip(payload.len() as u64);
            assert(rest.subrange(0, 8) =~= u64_to_be(payload.len() as u64));
            let length = payload.len() as int;
            assert(rest.subrange(8, 8 + length) =~= payload);
            match delta.addition {
                Some(added) => {
                    assert(rest.skip(8 + length) =~= added);
                },
                None => {
                    assert(rest.skip(8 + length) =~= Seq::<u8>::empty());
                },
            }
        },
        None => {
            match delta.addition {
                Some(added) => {
                    assert(rest =~= added);
                },
                None => {
                    assert(rest =~= Seq::<u8>::empty());
                },
            }
        },
    }
    let decoded = decode_delta_spec(bytes).unwrap();
    assert(decoded.deletion == delta.deletion);
    assert(decoded.addition == delta.addition);
}

/// A well-formed blob is the only blob that holds its delta.
pub proof fn lemma_delta_canonical(bytes: Seq<u8>)
    requires
        decode_delta_spec(bytes) is Some,
    ensures
        encode_delta_spec(decode_delta_spec(bytes).unwrap()) == bytes,
{
    let delta = decode_delta_spec(bytes).unwrap();
    let rest = bytes.skip(1);
    assert(bytes[0] == delta_tag(delta));
    if bytes[0] % 2 == 1 {
        let length = u64_from_be(rest.subrange(0, 8));
        lemma_u64_be_bytes(rest.subrange(0, 8));
        assert(delta.deletion.unwrap().len() == length);
    }
    assert(encode_delta_spec(delta) =~= bytes);
}

impl DeltaValue {
    /// The delta with the given sides.
    pub fn new(deletion: Option<Vec<u8>>, addition: Option<Vec<u8>>) -> (delta: DeltaValue)
        ensures
            delta.deletion == deletion,
            delta.addition == addition,
    {
        DeltaValue { deletion, addition }
    }

    /// The payload of one side, if that side is present.
    pub open spec fn get_spec(&self, side: DelAdd) -> Option<Seq<u8>> {
        match side {
            DelAdd::Deletion => self@.deletion,
            DelAdd::Addition => self@.addition,
        }
    }

    /// The payload of one side, if that side is present.
    pub fn get(&self, side: DelAdd) -> (payload: Option<&Vec<u8>>)
        ensures
            payload is Some <==> self.get_spec(side) is Some,
            payload matches Some(bytes) ==> self.get_spec(side) == Some(bytes@),
    {
        match side {
            DelAdd::Deletion => self.deletion.as_ref(),
            DelAdd::Addition => self.addition.as_ref(),
        }
    }

    /// Writes the delta as one blob.
    pub fn encode(&self) -> (bytes: Vec<u8>)
        ensures
            bytes@ == encode_delta_spec(self@),
            decode_delta_spec(bytes@) == Some(self@),
    {
        let mut bytes: Vec<u8> = Vec::new();
        let tag: u8 = (if self.deletion.is_some() {
            1u8
        } else {
            0u8
        }) + (if self.addition.is_some() {
            2u8
        } else {
            0u8
        });
        bytes.push(tag);
        match &self.deletion {
            Some(payload) => {
                push_u64_be(&mut bytes, payload.len() as u64);
                append_bytes(&mut bytes, payload.as_slice());
            },
            None => {},
        }
        match &self.addition {
            Some(payload) => {
                append_bytes(&mut bytes, payload.as_slice());
            },
            None => {},
        }
        proof {
            assert(bytes@ =~= encode_delta_spec(self@));
            lemma_delta_roundtrip(self@);
        }
        bytes
    }

    /// Reads a delta from its blob.
    pub fn decode(bytes: &[u8]) -> (delta: Result<DeltaValue, Error>)
        ensures
            delta matches Ok(value) ==> decode_delta_spec(bytes@) == Some(value@),
            delta matches Err(e) ==> decode_delta_spec(bytes@) is None && e == Error::Decoding,
    {
        let len = bytes.len();
        if len == 0 {
            return Err(Error::Decoding);
        }
        let tag = bytes[0];
        if tag > 3 {
            return Err(Error::Decoding);
        }
        let has_deletion = tag % 2 == 1;
        let has_addition = tag >= 2;
        let ghost rest = bytes@.skip(1);
        let mut at: usize = 1;
        let mut deletion: Option<Vec<u8>> = None;
        if has_deletion {
            if len - 1 < 8 {
                return Err(Error::Decoding);
            }
            let length = read_u64_be(bytes, 1);
            proof {
                assert(bytes@.subrange(1, 9) =~= rest.subrange(0, 8));
            }
            if ((len - 9) as u64) < length {
                return Err(Error::Decoding);
            }
            let end = 9 + length as usize;
            deletion = Some(slice_to_vec(slice_subrange(bytes, 9, end)));
            proof {
                assert(bytes@.subrange(9, end as int) =~= rest.subrange(8, 8 + length));
            }
            at = end;
        }
        proof {
            assert(bytes@.skip(at as int) =~= if has_deletion {
                split_deletion(rest).unwrap().1
            } else {
                rest
            });
        }
        if has_addition {
            let addition = slice_to_vec(slice_subrange(bytes, at, len));
            proof {
                assert(bytes@.subrange(at as int, len as int) =~= bytes@.skip(at as int));
            }
            Ok(DeltaValue { deletion, addition: Some(addition) })
        } else if at == len {
            Ok(DeltaValue { deletion, addition: None })
        } else {
            Err(Error::Decoding)
        }
    }
}

} // verus!

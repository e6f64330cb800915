//! The keys that pair a word with a position or a field id: the bytes of the
//! word, then the number in big-endian form, so that the keys of one word
//! stand together and in the order of the number.

use vstd::prelude::*;
use vstd::slice::slice_subrange;
use vstd::string::StringSliceAdditionalSpecFns;
use vstd::utf8::{encode_utf8, encode_utf8_decode_utf8, encode_utf8_valid_utf8, valid_utf8};

use crate::be::{lemma_u16_be_roundtrip, lemma_u32_be_roundtrip, push_u16_be, push_u32_be, read_u16_be, read_u32_be, u16_from_be, u16_to_be, u32_from_be, u32_to_be};
use crate::helpers::{append_bytes, str_from_utf8};

verus! {

/// The key of a word and a 32-bit number: the word, then the four bytes of
/// the number.
pub struct StrBEU32Codec;

/// The key of a word and a 16-bit number: the word, a zero byte, then the two
/// bytes of the number.
pub struct StrBEU16Codec;

/// The key that `StrBEU32Codec` writes.
pub open spec fn str_beu32_spec(word: Seq<u8>, number: u32) -> Seq<u8> {
    word + u32_to_be(number)
}

/// The key that `StrBEU16Codec` writes.
pub open spec fn str_beu16_spec(word: Seq<u8>, number: u16) -> Seq<u8> {
    word + seq![0u8] + u16_to_be(number)
}

/// A text is known by its bytes.
pub proof fn lemma_text_of_bytes(one: &str, other: &str)
    requires
        one.spec_bytes() == other.spec_bytes(),
    ensures
        one@ == other@,
{
    encode_utf8_decode_utf8(one@);
    encode_utf8_decode_utf8(other@);
}

impl StrBEU32Codec {
    /// Reads a key: its last four bytes are the number, what stands before
    /// them is the word. Nothing for a key of fewer than four bytes or with a
    /// word that is no valid UTF-8.
    pub fn bytes_decode(bytes: &[u8]) -> (item: Option<(&str, u32)>)
        ensures
            item is Some <==> bytes@.len() >= 4 && valid_utf8(
                bytes@.subrange(0, bytes@.len() - 4),
            ),
            item matches Some((word, number)) ==> word.spec_bytes() == bytes@.subrange(
                0,
                bytes@.len() - 4,
            ) && number == u32_from_be(bytes@.subrange(bytes@.len() - 4, bytes@.len() as int)),
    {
        let footer_len: usize = 4;
        if bytes.len() < footer_len {
            return None;
        }
        let at = bytes.len() - footer_len;
        let word = match str_from_utf8(slice_subrange(bytes, 0, at)) {
            Some(word) => word,
            None => {
                return None;
            },
        };
        let number = read_u32_be(bytes, at);
        Some((word, number))
    }

    /// Writes the key of a word and a number.
    pub fn bytes_encode(word: &str, number: u32) -> (bytes: Option<Vec<u8>>)
        ensures
            bytes matches Some(key) && key@ == str_beu32_spec(word.spec_bytes(), number),
    {
        let mut bytes: Vec<u8> = Vec::new();
        append_bytes(&mut bytes, word.as_bytes());
        push_u32_be(&mut bytes, number);
        assert(bytes@ =~= str_beu32_spec(word.spec_bytes(), number));
        Some(bytes)
    }
}

impl StrBEU16Codec {
    /// Reads a key: its last two bytes are the number, the byte before them
    /// parts the word from the number, and what stands before that byte is
    /// the word. Nothing for a key of fewer than three bytes or with a word
    /// that is no valid UTF-8.
    pub fn bytes_decode(bytes: &[u8]) -> (item: Option<(&str, u16)>)
        ensures
            item is Some <==> bytes@.len() >= 3 && valid_utf8(
                bytes@.subrange(0, bytes@.len() - 3),
            ),
            item matches Some((word, number)) ==> word.spec_bytes() == bytes@.subrange(
                0,
                bytes@.len() - 3,
            ) && number == u16_from_be(bytes@.subrange(bytes@.len() - 2, bytes@.len() as int)),
    {
        let footer_len: usize = 2;
        if bytes.len() < footer_len + 1 {
            return None;
        }
        let at = bytes.len() - footer_len;
        let word = match str_from_utf8(slice_subrange(bytes, 0, at - 1)) {
            Some(word) => word,
            None => {
                return None;
            },
        };
        let number = read_u16_be(bytes, at);
        Some((word, number))
    }

    /// Writes the key of a word and a number.
    pub fn bytes_encode(word: &str, number: u16) -> (bytes: Option<Vec<u8>>)
        ensures
            bytes matches Some(key) && key@ == str_beu16_spec(word.spec_bytes(), number),
    {
        let mut bytes: Vec<u8> = Vec::new();
        append_bytes(&mut bytes, word.as_bytes());
        bytes.push(0);
        push_u16_be(&mut bytes, number);
        assert(bytes@ =~= str_beu16_spec(word.spec_bytes(), number));
        Some(bytes)
    }
}

/// A key that `StrBEU32Codec` wrote is read back as the word and the number.
pub proof fn lemma_str_beu32_roundtrip(word: Seq<char>, number: u32)
    ensures
        ({
            let key = str_beu32_spec(encode_utf8(word), number);
            &&& key.len() >= 4
            &&& key.subrange(0, key.len() - 4) == encode_utf8(word)
            &&& valid_utf8(key.subrange(0, key.len() - 4))
            &&& u32_from_be(key.subrange(key.len() - 4, key.len() as int)) == number
        }),
{
    let key = str_beu32_spec(encode_utf8(word), number);
    lemma_u32_be_roundtrip(number);
    encode_utf8_valid_utf8(word);
    assert(key.subrange(0, key.len() - 4) =~= encode_utf8(word));
    assert(key.subrange(key.len() - 4, key.len() as int) =~= u32_to_be(number));
}

/// A key that `StrBEU16Codec` wrote is read back as the word and the number.
pub proof fn lemma_str_beu16_roundtrip(word: Seq<char>, number: u16)
    ensures
        ({
            let key = str_beu16_spec(encode_utf8(word), number);
            &&& key.len() >= 3
            &&& key.subrange(0, key.len() - 3) == encode_utf8(word)
            &&& valid_utf8(key.subrange(0, key.len() - 3))
            &&& u16_from_be(key.subrange(key.len() - 2, key.len() as int)) == number
        }),
{
    let key = str_beu16_spec(encode_utf8(word), number);
    lemma_u16_be_roundtrip(number);
    encode_utf8_valid_utf8(word);
    assert(key.subrange(0, key.len() - 3) =~= encode_utf8(word));
    assert(key.subrange(key.len() - 2, key.len() as int) =~= u16_to_be(number));
}

} // verus!

//! Small byte-slice helpers shared by the indexing pipeline.

use vstd::prelude::*;
use vstd::string::StringSliceAdditionalSpecFns;
use vstd::utf8::valid_utf8;

verus! {

/// Longest word, in bytes, that the index accepts.
pub const MAX_WORD_LENGTH: usize = 250;

/// Whether `key` can be stored: a key is neither empty nor longer than twice
/// the longest word.
pub open spec fn spec_valid_lmdb_key(key: Seq<u8>) -> bool {
    0 < key.len() <= MAX_WORD_LENGTH * 2
}

/// Tells whether `key` can be used as a key of the persisted store.
pub fn valid_lmdb_key(key: &[u8]) -> (valid: bool)
    ensures
        valid == spec_valid_lmdb_key(key@),
{
    key.len() <= MAX_WORD_LENGTH * 2 && key.len() != 0
}

/// Divides one slice into two at an index, returns `None` if `mid` is out of
/// bounds.
pub fn try_split_at<T>(slice: &[T], mid: usize) -> (parts: Option<(&[T], &[T])>)
    ensures
        parts is Some <==> mid <= slice@.len(),
        parts matches Some((head, tail)) ==> head@ == slice@.subrange(0, mid as int) && tail@
            == slice@.subrange(mid as int, slice@.len() as int),
{
    if mid <= slice.len() {
        Some(slice.split_at(mid))
    } else {
        None
    }
}

/// `<[T; N] as TryFrom<&[T]>>::try_from` of std: copies a slice of exactly
/// `N` items into an array, and fails on any other length.
#[verifier::external_body]
fn array_from_slice<T: Copy, const N: usize>(slice: &[T]) -> (array: Option<[T; N]>)
    ensures
        array is Some <==> slice@.len() == N,
        array matches Some(a) ==> a@ == slice@,
{
    <[T; N]>::try_from(slice).ok()
}

/// Divides one slice into an array of its first `N` items and the tail,
/// returns `None` if the slice holds fewer than `N` items.
pub fn try_split_array_at<T: Copy, const N: usize>(slice: &[T]) -> (parts: Option<([T; N], &[T])>)
    ensures
        parts is Some <==> N <= slice@.len(),
        parts matches Some((head, tail)) ==> head@ == slice@.subrange(0, N as int) && tail@
            == slice@.subrange(N as int, slice@.len() as int),
{
    match try_split_at(slice, N) {
        Some((head, tail)) => {
            match array_from_slice::<T, N>(head) {
                Some(head) => Some((head, tail)),
                None => None,
            }
        },
        None => None,
    }
}

/// `std::str::from_utf8`: the text that the bytes encode, if they are valid
/// UTF-8, and nothing if they are not.
#[verifier::external_body]
pub(crate) fn str_from_utf8(bytes: &[u8]) -> (text: Option<&str>)
    ensures
        text is Some <==> valid_utf8(bytes@),
        text matches Some(s) ==> s.spec_bytes() == bytes@,
{
    std::str::from_utf8(bytes).ok()
}

/// Appends the bytes of `source` to `out`.
pub fn append_bytes(out: &mut Vec<u8>, source: &[u8])
    ensures
        final(out)@ == old(out)@ + source@,
{
    let mut i: usize = 0;
    while i < source.len()
        invariant
            i <= source@.len(),
            out@ == old(out)@ + source@.subrange(0, i as int),
        decreases source@.len() - i,
    {
        out.push(source[i]);
        assert(source@.subrange(0, i + 1) =~= source@.subrange(0, i as int).push(source@[i as int]));
        i += 1;
    }
    assert(source@.subrange(0, i as int) =~= source@);
}

} // verus!

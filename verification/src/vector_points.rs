//! Committing vector points: the merged streams of a batch become operations
//! on the embeddings of the documents, in the order in which they are to be
//! done.

use vstd::prelude::*;
use vstd::slice::{slice_subrange, slice_to_vec};
use vstd::string::StringExecFns;

use crate::be::{read_u32_be, u32_from_be};
use crate::del_add::{decode_delta_spec, DeltaValue};
use crate::error::Error;
use crate::sorted_run::SortedRun;
use crate::text::{decimal_spec, push_decimal};
use crate::vector_slots::{vectors_view, VectorOp, VectorOpView};

verus! {

/// An operation on the embeddings of one document.
pub struct DocumentVectorOp {
    pub docid: u32,
    pub op: VectorOp,
}

impl View for DocumentVectorOp {
    type V = (u32, VectorOpView);

    open spec fn view(&self) -> (u32, VectorOpView) {
        (self.docid, self.op@)
    }
}

/// The operations of a vector of operations.
pub open spec fn vector_ops_view(ops: Seq<DocumentVectorOp>) -> Seq<(u32, VectorOpView)> {
    ops.map_values(|op: DocumentVectorOp| op@)
}

/// The vectors of `width` bytes each that stand in `value` one after the
/// other; nothing where `value` does not end with a whole vector, or where
/// the width is zero.
pub open spec fn split_vectors(value: Seq<u8>, width: int) -> Option<Seq<Seq<u8>>>
    decreases value.len(),
{
    if width <= 0 {
        None
    } else if value.len() == 0 {
        Some(Seq::empty())
    } else if value.len() < width {
        None
    } else {
        match split_vectors(value.skip(width), width) {
            Some(rest) => Some(seq![value.subrange(0, width)] + rest),
            None => None,
        }
    }
}

/// The operations that one entry of the stream of removals asks for: every
/// embedding of the document goes. The key is the id of the document.
pub open spec fn removal_spec(key: Seq<u8>) -> Result<Seq<(u32, VectorOpView)>, Error> {
    if key.len() != 4 {
        Err(Error::Decoding)
    } else {
        Ok(seq![(u32_from_be(key), VectorOpView::RemoveAll)])
    }
}

/// The operations that one entry of the stream of generated embeddings asks
/// for: the embeddings in the value, each of `dimension` numbers of four
/// bytes, are written for the document.
pub open spec fn embeddings_spec(key: Seq<u8>, value: Seq<u8>, dimension: usize) -> Result<
    Seq<(u32, VectorOpView)>,
    Error,
> {
    if key.len() != 4 {
        Err(Error::Decoding)
    } else {
        match split_vectors(value, 4 * dimension) {
            None => Err(Error::Decoding),
            Some(embeddings) => Ok(
                seq![(u32_from_be(key), VectorOpView::SetEmbeddings(embeddings))],
            ),
        }
    }
}

/// The operations that one entry of the stream of vectors given by the user
/// asks for: the vector of the deletion side is deleted, then the vector of
/// the addition side added. The key starts with the id of the document.
pub open spec fn manual_spec(key: Seq<u8>, value: Seq<u8>) -> Result<Seq<(u32, VectorOpView)>, Error> {
    if key.len() < 4 {
        Err(Error::Decoding)
    } else {
        match decode_delta_spec(value) {
            None => Err(Error::Decoding),
            Some(delta) => Ok(
                (match delta.deletion {
                    Some(vector) => seq![
                        (u32_from_be(key.subrange(0, 4)), VectorOpView::Delete(vector)),
                    ],
                    None => Seq::empty(),
                }) + (match delta.addition {
                    Some(vector) => seq![
                        (u32_from_be(key.subrange(0, 4)), VectorOpView::Add(vector)),
                    ],
                    None => Seq::empty(),
                }),
            ),
        }
    }
}

/// The streams of a group of vector chunks.
#[derive(Clone, Copy, Debug, PartialEq, Eq, Structural)]
pub enum VectorStream {
    Removals,
    Embeddings,
    Manual,
}

/// The operations that one entry of a stream asks for.
pub open spec fn entry_ops_spec(
    stream: VectorStream,
    key: Seq<u8>,
    value: Seq<u8>,
    dimension: usize,
) -> Result<Seq<(u32, VectorOpView)>, Error> {
    match stream {
        VectorStream::Removals => removal_spec(key),
        VectorStream::Embeddings => embeddings_spec(key, value, dimension),
        VectorStream::Manual => manual_spec(key, value),
    }
}

/// The operations that a merged stream asks for, in key order. Fails with
/// the failure of the first entry that fails.
pub open spec fn stream_ops_spec(
    stream: VectorStream,
    entries: Seq<(Seq<u8>, Seq<u8>)>,
    dimension: usize,
) -> Result<Seq<(u32, VectorOpView)>, Error>
    decreases entries.len(),
{
    if entries.len() == 0 {
        Ok(Seq::empty())
    } else {
        match stream_ops_spec(stream, entries.drop_last(), dimension) {
            Err(e) => Err(e),
            Ok(before) => match entry_ops_spec(
                stream,
                entries.last().0,
                entries.last().1,
                dimension,
            ) {
                Err(e) => Err(e),
                Ok(ops) => Ok(before + ops),
            },
        }
    }
}

/// The operations of a group of vector chunks: first those of the removals,
/// then those of the generated embeddings, then those of the vectors given by
/// the user.
pub open spec fn vector_operations_spec(
    removals: Seq<(Seq<u8>, Seq<u8>)>,
    embeddings: Seq<(Seq<u8>, Seq<u8>)>,
    manual: Seq<(Seq<u8>, Seq<u8>)>,
    dimension: usize,
) -> Result<Seq<(u32, VectorOpView)>, Error> {
    match stream_ops_spec(VectorStream::Removals, removals, dimension) {
        Err(e) => Err(e),
        Ok(first) => match stream_ops_spec(VectorStream::Embeddings, embeddings, dimension) {
            Err(e) => Err(e),
            Ok(second) => match stream_ops_spec(VectorStream::Manual, manual, dimension) {
                Err(e) => Err(e),
                Ok(third) => Ok(first + second + third),
            },
        }
    }
}

/// What was split off so far, in front of what the rest of the value holds.
spec fn joined(read: Seq<Seq<u8>>, rest: Option<Seq<Seq<u8>>>) -> Option<Seq<Seq<u8>>> {
    match rest {
        Some(rest) => Some(read + rest),
        None => None,
    }
}

/// Splits a value into the vectors of `dimension` numbers of four bytes each
/// that it holds.
pub fn split_embeddings(value: &[u8], dimension: usize) -> (embeddings: Option<Vec<Vec<u8>>>)
    ensures
        embeddings matches Some(vectors) ==> split_vectors(value@, 4 * dimension) == Some(
            vectors_view(vectors@),
        ),
        embeddings is None ==> split_vectors(value@, 4 * dimension) is None,
{
    let len = value.len();
    if dimension == 0 || dimension > usize::MAX / 4 {
        proof {
            if dimension > usize::MAX / 4 {
                lemma_split_too_wide(value@, 4 * dimension);
            }
        }
        if dimension != 0 && len == 0 {
            let none: Vec<Vec<u8>> = Vec::new();
            assert(vectors_view(none@) =~= Seq::<Seq<u8>>::empty());
            return Some(none);
        }
        return None;
    }
    let width = 4 * dimension;
    let mut vectors: Vec<Vec<u8>> = Vec::new();
    let mut at: usize = 0;
    proof {
        assert(value@.skip(0) =~= value@);
        if split_vectors(value@, width as int) is Some {
            assert(vectors_view(vectors@) + split_vectors(value@, width as int).unwrap()
                =~= split_vectors(value@, width as int).unwrap());
        }
    }
    while at < len
        invariant
            at <= len,
            len == value@.len(),
            0 < width,
            width == 4 * dimension,
            split_vectors(value@, width as int) == joined(
                vectors_view(vectors@),
                split_vectors(value@.skip(at as int), width as int),
            ),
        decreases len - at,
    {
        if len - at < width {
            return None;
        }
        let vector = slice_to_vec(slice_subrange(value, at, at + width));
        proof {
            let rest = value@.skip(at as int);
            assert(rest.subrange(0, width as int) =~= value@.subrange(at as int, at + width));
            assert(rest.skip(width as int) =~= value@.skip(at + width));
            let after = split_vectors(value@.skip(at + width), width as int);
            assert(vectors_view(vectors@.push(vector)) =~= vectors_view(vectors@).push(vector@));
            if after is Some {
                assert(vectors_view(vectors@) + (seq![vector@] + after.unwrap()) =~= vectors_view(
                    vectors@,
                ).push(vector@) + after.unwrap());
            }
        }
        vectors.push(vector);
        at = at + width;
    }
    proof {
        assert(value@.skip(at as int) =~= Seq::<u8>::empty());
        assert(vectors_view(vectors@) + Seq::<Seq<u8>>::empty() =~= vectors_view(vectors@));
    }
    Some(vectors)
}

/// A value that is shorter than one vector holds no vector, unless it is
/// empty.
proof fn lemma_split_too_wide(value: Seq<u8>, width: int)
    requires
        width > value.len(),
    ensures
        split_vectors(value, width) == if value.len() == 0 {
            Some(Seq::<Seq<u8>>::empty())
        } else {
            None::<Seq<Seq<u8>>>
        },
{
}

/// Adds to `ops` the operations that one entry of a stream asks for.
fn push_entry_ops(
    ops: &mut Vec<DocumentVectorOp>,
    stream: VectorStream,
    key: &[u8],
    value: &[u8],
    dimension: usize,
) -> (done: Result<(), Error>)
    ensures
        done is Ok ==> entry_ops_spec(stream, key@, value@, dimension) is Ok && vector_ops_view(
            final(ops)@,
        ) == vector_ops_view(old(ops)@) + entry_ops_spec(stream, key@, value@, dimension).unwrap(),
        done matches Err(e) ==> entry_ops_spec(stream, key@, value@, dimension) == Err::<
            Seq<(u32, VectorOpView)>,
            Error,
        >(e),
{
    if key.len() < 4 || (stream != VectorStream::Manual && key.len() != 4) {
        return Err(Error::Decoding);
    }
    let docid = read_u32_be(key, 0);
    proof {
        if key@.len() == 4 {
            assert(key@.subrange(0, 4) =~= key@);
        }
    }
    match stream {
        VectorStream::Removals => {
            let op = DocumentVectorOp { docid, op: VectorOp::RemoveAll };
            assert(vector_ops_view(ops@.push(op)) =~= vector_ops_view(ops@) + seq![op@]);
            ops.push(op);
            Ok(())
        },
        VectorStream::Embeddings => {
            match split_embeddings(value, dimension) {
                Some(embeddings) => {
                    let op = DocumentVectorOp { docid, op: VectorOp::SetEmbeddings(embeddings) };
                    assert(vector_ops_view(ops@.push(op)) =~= vector_ops_view(ops@) + seq![op@]);
                    ops.push(op);
                    Ok(())
                },
                None => Err(Error::Decoding),
            }
        },
        VectorStream::Manual => {
            let delta = match DeltaValue::decode(value) {
                Ok(delta) => delta,
                Err(e) => {
                    return Err(e);
                },
            };
            let ghost start = vector_ops_view(ops@);
            let ghost deletions: Seq<(u32, VectorOpView)> = match delta@.deletion {
                Some(vector) => seq![(docid, VectorOpView::Delete(vector))],
                None => Seq::empty(),
            };
            let ghost additions: Seq<(u32, VectorOpView)> = match delta@.addition {
                Some(vector) => seq![(docid, VectorOpView::Add(vector))],
                None => Seq::empty(),
            };
            match delta.deletion {
                Some(vector) => {
                    let op = DocumentVectorOp { docid, op: VectorOp::Delete(vector) };
                    assert(vector_ops_view(ops@.push(op)) =~= vector_ops_view(ops@) + seq![op@]);
                    ops.push(op);
                },
                None => {
                    assert(start + deletions =~= start);
                },
            }
            assert(vector_ops_view(ops@) == start + deletions);
            match delta.addition {
                Some(vector) => {
                    let op = DocumentVectorOp { docid, op: VectorOp::Add(vector) };
                    assert(vector_ops_view(ops@.push(op)) =~= vector_ops_view(ops@) + seq![op@]);
                    ops.push(op);
                },
                None => {
                    assert((start + deletions) + additions =~= start + deletions);
                },
            }
            assert((start + deletions) + additions =~= start + (deletions + additions));
            Ok(())
        },
    }
}

/// A stream that fails on its first `n` entries fails in the same way as a
/// whole.
proof fn lemma_stream_failure_stays(
    stream: VectorStream,
    entries: Seq<(Seq<u8>, Seq<u8>)>,
    dimension: usize,
    n: int,
)
    requires
        0 <= n <= entries.len(),
        stream_ops_spec(stream, entries.take(n), dimension) is Err,
    ensures
        stream_ops_spec(stream, entries, dimension) == stream_ops_spec(
            stream,
            entries.take(n),
            dimension,
        ),
    decreases entries.len() - n,
{
    if n == entries.len() {
        assert(entries.take(n) =~= entries);
    } else {
        assert(entries.take(n + 1).drop_last() =~= entries.take(n));
        lemma_stream_failure_stays(stream, entries, dimension, n + 1);
    }
}

/// Adds to `ops` the operations that a merged stream asks for.
fn push_stream_ops(
    ops: &mut Vec<DocumentVectorOp>,
    stream: VectorStream,
    merged: &SortedRun,
    dimension: usize,
) -> (done: Result<(), Error>)
    ensures
        done is Ok ==> stream_ops_spec(stream, merged@, dimension) is Ok && vector_ops_view(
            final(ops)@,
        ) == vector_ops_view(old(ops)@) + stream_ops_spec(stream, merged@, dimension).unwrap(),
        done matches Err(e) ==> stream_ops_spec(stream, merged@, dimension) == Err::<
            Seq<(u32, VectorOpView)>,
            Error,
        >(e),
{
    let ghost entries = merged@;
    let ghost start = vector_ops_view(ops@);
    let mut i: usize = 0;
    assert(start + Seq::<(u32, VectorOpView)>::empty() =~= start);
    while i < merged.len()
        invariant
            i <= merged@.len(),
            entries == merged@,
            stream_ops_spec(stream, entries.take(i as int), dimension) is Ok,
            vector_ops_view(ops@) == start + stream_ops_spec(
                stream,
                entries.take(i as int),
                dimension,
            ).unwrap(),
        decreases merged@.len() - i,
    {
        proof {
            assert(entries.take(i + 1).drop_last() =~= entries.take(i as int));
            assert(entries.take(i + 1).last() == entries[i as int]);
        }
        let ghost before = stream_ops_spec(stream, entries.take(i as int), dimension).unwrap();
        match push_entry_ops(ops, stream, merged.key(i), merged.value(i), dimension) {
            Ok(()) => {
                proof {
                    let added = entry_ops_spec(
                        stream,
                        entries[i as int].0,
                        entries[i as int].1,
                        dimension,
                    ).unwrap();
                    assert((start + before) + added =~= start + (before + added));
                }
            },
            Err(e) => {
                proof {
                    lemma_stream_failure_stays(stream, entries, dimension, i + 1);
                }
                return Err(e);
            },
        }
        i += 1;
    }
    proof {
        assert(entries.take(i as int) =~= entries);
    }
    Ok(())
}

/// The operations on the embeddings of the documents that a group of vector
/// chunks asks for, in the order in which they are to be done: the removals,
/// the generated embeddings, the vectors given by the user. Nothing is to be
/// done if any entry fails.
pub fn vector_operations(
    remove_vectors: &SortedRun,
    embeddings: &SortedRun,
    manual_vectors: &SortedRun,
    expected_dimension: usize,
) -> (operations: Result<Vec<DocumentVectorOp>, Error>)
    ensures
        operations matches Ok(ops) ==> vector_operations_spec(
            remove_vectors@,
            embeddings@,
            manual_vectors@,
            expected_dimension,
        ) == Ok::<Seq<(u32, VectorOpView)>, Error>(vector_ops_view(ops@)),
        operations matches Err(e) ==> vector_operations_spec(
            remove_vectors@,
            embeddings@,
            manual_vectors@,
            expected_dimension,
        ) == Err::<Seq<(u32, VectorOpView)>, Error>(e),
{
    let mut ops: Vec<DocumentVectorOp> = Vec::new();
    assert(vector_ops_view(ops@) =~= Seq::<(u32, VectorOpView)>::empty());
    match push_stream_ops(&mut ops, VectorStream::Removals, remove_vectors, expected_dimension) {
        Ok(()) => {},
        Err(e) => {
            return Err(e);
        },
    }
    match push_stream_ops(&mut ops, VectorStream::Embeddings, embeddings, expected_dimension) {
        Ok(()) => {},
        Err(e) => {
            return Err(e);
        },
    }
    match push_stream_ops(&mut ops, VectorStream::Manual, manual_vectors, expected_dimension) {
        Ok(()) => {},
        Err(e) => {
            return Err(e);
        },
    }
    proof {
        let first = stream_ops_spec(VectorStream::Removals, remove_vectors@, expected_dimension).unwrap();
        assert(Seq::<(u32, VectorOpView)>::empty() + first =~= first);
    }
    Ok(ops)
}

/// The name under which the error names a document: its external id, or its
/// internal id where the external id is not known.
pub open spec fn document_name_spec(external_id: Option<Seq<char>>, docid: u32) -> Seq<char> {
    match external_id {
        Some(name) => name,
        None => "internal docid="@ + decimal_spec(docid as nat),
    }
}

/// The error for a document that brings more embeddings than it may have. It
/// names the document and says how many embeddings it brings.
pub fn too_many_vectors(external_id: Option<String>, docid: u32, count: usize) -> (error: Error)
    ensures
        error matches Error::TooManyVectors { document, count: reported } && reported == count
            && document@ == document_name_spec(
            match external_id {
                Some(name) => Some(name@),
                None => None,
            },
            docid,
        ),
{
    let document = match external_id {
        Some(name) => name,
        None => {
            let mut name = String::from_str("internal docid=");
            push_decimal(&mut name, docid as u64);
            name
        },
    };
    Error::TooManyVectors { document, count }
}

} // verus!

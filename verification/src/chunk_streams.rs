//! The streams of a group of typed chunks: for each logical database that the
//! group is destined for, the runs of its chunks, in the order of the chunks.

use vstd::prelude::*;

use crate::error::Error;
use crate::sorted_run::SortedRun;
use crate::typed_chunk::{ChunkShape, ScriptLanguageDelta, TypedChunk};

verus! {

/// The run that a chunk brings to the first stream of its group: its only
/// run, or the first of its runs.
pub open spec fn first_run(chunk: TypedChunk) -> Option<SortedRun> {
    match chunk {
        TypedChunk::FieldIdDocidFacetStrings(run) => Some(run),
        TypedChunk::FieldIdDocidFacetNumbers(run) => Some(run),
        TypedChunk::Documents(run) => Some(run),
        TypedChunk::FieldIdWordCountDocids(run) => Some(run),
        TypedChunk::WordDocids { word_docids_reader, .. } => Some(word_docids_reader),
        TypedChunk::WordPositionDocids(run) => Some(run),
        TypedChunk::WordPairProximityDocids(run) => Some(run),
        TypedChunk::FieldIdFacetStringDocids(runs) => Some(runs.0),
        TypedChunk::FieldIdFacetNumberDocids(run) => Some(run),
        TypedChunk::FieldIdFacetExistsDocids(run) => Some(run),
        TypedChunk::FieldIdFacetIsNullDocids(run) => Some(run),
        TypedChunk::FieldIdFacetIsEmptyDocids(run) => Some(run),
        TypedChunk::GeoPoints(run) => Some(run),
        TypedChunk::VectorPoints { remove_vectors, .. } => Some(remove_vectors),
        TypedChunk::ScriptLanguageDocids(_) => None,
    }
}

/// The run that a chunk brings to the second stream of its group: the exact
/// words of a chunk of words, the normalized strings of a chunk of facet
/// strings, the vectors given by the user of a chunk of vectors.
pub open spec fn second_run(chunk: TypedChunk) -> Option<SortedRun> {
    match chunk {
        TypedChunk::WordDocids { exact_word_docids_reader, .. } => Some(exact_word_docids_reader),
        TypedChunk::FieldIdFacetStringDocids(runs) => Some(runs.1),
        TypedChunk::VectorPoints { manual_vectors, .. } => Some(manual_vectors),
        _ => None,
    }
}

/// The run that a chunk brings to the third stream of its group: the words
/// by field of a chunk of words, the generated embeddings of a chunk of
/// vectors that has any.
pub open spec fn third_run(chunk: TypedChunk) -> Option<SortedRun> {
    match chunk {
        TypedChunk::WordDocids { word_fid_docids_reader, .. } => Some(word_fid_docids_reader),
        TypedChunk::VectorPoints { embeddings, .. } => embeddings,
        _ => None,
    }
}

/// The pairs of script and language that a chunk brings.
pub open spec fn script_languages(chunk: TypedChunk) -> Seq<ScriptLanguageDelta> {
    match chunk {
        TypedChunk::ScriptLanguageDocids(entries) => entries@,
        _ => Seq::empty(),
    }
}

/// The three streams of a group.
#[derive(Clone, Copy, Debug, PartialEq, Eq, Structural)]
pub enum Stream {
    First,
    Second,
    Third,
}

/// The run that a chunk brings to a stream.
pub open spec fn run_of(chunk: TypedChunk, stream: Stream) -> Option<SortedRun> {
    match stream {
        Stream::First => first_run(chunk),
        Stream::Second => second_run(chunk),
        Stream::Third => third_run(chunk),
    }
}

/// The runs that the chunks bring to a stream, in the order of the chunks.
pub open spec fn stream_runs(chunks: Seq<TypedChunk>, stream: Stream) -> Seq<SortedRun>
    decreases chunks.len(),
{
    if chunks.len() == 0 {
        Seq::empty()
    } else {
        match run_of(chunks.last(), stream) {
            Some(run) => stream_runs(chunks.drop_last(), stream).push(run),
            None => stream_runs(chunks.drop_last(), stream),
        }
    }
}

/// The pairs of script and language that the chunks bring, in the order of
/// the chunks.
pub open spec fn all_script_languages(chunks: Seq<TypedChunk>) -> Seq<ScriptLanguageDelta>
    decreases chunks.len(),
{
    if chunks.len() == 0 {
        Seq::empty()
    } else {
        all_script_languages(chunks.drop_last()) + script_languages(chunks.last())
    }
}

/// The number of entries that the chunks bring to the first stream, as far as
/// a 64-bit number can say.
pub open spec fn data_size_spec(chunks: Seq<TypedChunk>) -> int
    decreases chunks.len(),
{
    if chunks.len() == 0 {
        0
    } else {
        let before = data_size_spec(chunks.drop_last());
        let more = match first_run(chunks.last()) {
            Some(run) => run@.len() as int,
            None => 0,
        };
        if before + more > u64::MAX {
            u64::MAX as int
        } else {
            before + more
        }
    }
}

/// Every chunk is in the group of the first.
pub open spec fn one_group(chunks: Seq<TypedChunk>) -> bool {
    forall|i: int| 0 <= i < chunks.len() ==> (#[trigger] chunks[i]).group() == chunks[0].group()
}

/// The runs of the chunks of a group, stream by stream.
pub struct GroupStreams {
    pub shape: ChunkShape,
    pub first: Vec<SortedRun>,
    pub second: Vec<SortedRun>,
    pub third: Vec<SortedRun>,
    pub script_languages: Vec<ScriptLanguageDelta>,
    pub data_size: u64,
    pub expected_dimension: usize,
    pub embedder_name: String,
}

impl GroupStreams {
    /// Whether these are the streams of `chunks`.
    pub open spec fn of(&self, chunks: Seq<TypedChunk>) -> bool {
        &&& chunks.len() > 0
        &&& self.shape == chunks[0].spec_shape()
        &&& self.first@ == stream_runs(chunks, Stream::First)
        &&& self.second@ == stream_runs(chunks, Stream::Second)
        &&& self.third@ == stream_runs(chunks, Stream::Third)
        &&& self.script_languages@ == all_script_languages(chunks)
        &&& self.data_size == data_size_spec(chunks)
        &&& self.expected_dimension == chunks[0].group().dimension
        &&& self.embedder_name@ == chunks[0].group().embedder
    }

    /// Every run has ascending keys.
    pub open spec fn wf(&self) -> bool {
        &&& forall|i: int| 0 <= i < self.first@.len() ==> (#[trigger] self.first@[i]).wf()
        &&& forall|i: int| 0 <= i < self.second@.len() ==> (#[trigger] self.second@[i]).wf()
        &&& forall|i: int| 0 <= i < self.third@.len() ==> (#[trigger] self.third@[i]).wf()
    }
}

/// Every run of every chunk has ascending keys.
pub open spec fn chunks_wf(chunks: Seq<TypedChunk>) -> bool {
    forall|i: int| 0 <= i < chunks.len() ==> (#[trigger] chunks[i]).wf()
}

/// Whether every chunk can be merged with the first.
fn in_one_group(chunks: &Vec<TypedChunk>) -> (same: bool)
    ensures
        same == one_group(chunks@),
{
    let mut i: usize = 1;
    while i < chunks.len()
        invariant
            1 <= i,
            forall|k: int| 0 <= k < i && k < chunks@.len() ==> (#[trigger] chunks@[k]).group()
                == chunks@[0].group(),
        decreases chunks@.len() - i,
    {
        if !chunks[i].mergeable_with(&chunks[0]) {
            return false;
        }
        i += 1;
    }
    true
}

/// Takes the chunks of a group apart into the streams of the group. Chunks
/// that cannot all be merged together are refused, and so is an empty group.
pub fn split_group(typed_chunks: Vec<TypedChunk>) -> (streams: Result<GroupStreams, Error>)
    requires
        chunks_wf(typed_chunks@),
    ensures
        streams is Ok <==> typed_chunks@.len() > 0 && one_group(typed_chunks@),
        streams matches Ok(s) ==> s.of(typed_chunks@) && s.wf(),
        streams matches Err(e) ==> e == Error::UnmergeableChunks,
{
    if typed_chunks.len() == 0 || !in_one_group(&typed_chunks) {
        return Err(Error::UnmergeableChunks);
    }
    let ghost all = typed_chunks@;
    let mut chunks = typed_chunks;
    let mut streams = GroupStreams {
        shape: chunks[0].shape(),
        first: Vec::new(),
        second: Vec::new(),
        third: Vec::new(),
        script_languages: Vec::new(),
        data_size: 0,
        expected_dimension: 0,
        embedder_name: String::new(),
    };
    let ghost mut taken: int = 0;
    proof {
        assert(all.take(0) =~= Seq::<TypedChunk>::empty());
        assert(all.skip(0) =~= all);
    }
    while chunks.len() > 0
        invariant
            0 <= taken <= all.len(),
            all.len() > 0,
            chunks@ == all.skip(taken),
            chunks_wf(all),
            one_group(all),
            streams.shape == all[0].spec_shape(),
            streams.first@ == stream_runs(all.take(taken), Stream::First),
            streams.second@ == stream_runs(all.take(taken), Stream::Second),
            streams.third@ == stream_runs(all.take(taken), Stream::Third),
            streams.script_languages@ == all_script_languages(all.take(taken)),
            streams.data_size == data_size_spec(all.take(taken)),
            all[0].spec_shape() != ChunkShape::VectorPoints || taken > 0
                ==> streams.expected_dimension == all[0].group().dimension,
            all[0].spec_shape() != ChunkShape::VectorPoints || taken > 0 ==> streams.embedder_name@
                == all[0].group().embedder,
            streams.wf(),
        decreases chunks@.len(),
    {
        let chunk = chunks.remove(0);
        proof {
            assert(chunk == all[taken]);
            assert(all.take(taken + 1).drop_last() =~= all.take(taken));
            assert(all.take(taken + 1).last() == chunk);
            assert(chunks@ =~= all.skip(taken + 1));
            assert(chunk.wf());
            assert(chunk.group() == all[0].group());
            assert(chunk.spec_shape() == chunk.group().shape);
            assert(all[0].spec_shape() == all[0].group().shape);
        }
        let ghost before = streams;
        let more: usize = match chunk {
            TypedChunk::FieldIdDocidFacetStrings(run)
            | TypedChunk::FieldIdDocidFacetNumbers(run)
            | TypedChunk::Documents(run)
            | TypedChunk::FieldIdWordCountDocids(run)
            | TypedChunk::WordPositionDocids(run)
            | TypedChunk::WordPairProximityDocids(run)
            | TypedChunk::FieldIdFacetNumberDocids(run)
            | TypedChunk::FieldIdFacetExistsDocids(run)
            | TypedChunk::FieldIdFacetIsNullDocids(run)
            | TypedChunk::FieldIdFacetIsEmptyDocids(run)
            | TypedChunk::GeoPoints(run) => {
                let more = run.len();
                streams.first.push(run);
                more
            },
            TypedChunk::FieldIdFacetStringDocids((strings, normalized)) => {
                let more = strings.len();
                streams.first.push(strings);
                streams.second.push(normalized);
                more
            },
            TypedChunk::WordDocids {
                word_docids_reader,
                exact_word_docids_reader,
                word_fid_docids_reader,
            } => {
                let more = word_docids_reader.len();
                streams.first.push(word_docids_reader);
                streams.second.push(exact_word_docids_reader);
                streams.third.push(word_fid_docids_reader);
                more
            },
            TypedChunk::VectorPoints {
                remove_vectors,
                embeddings,
                expected_dimension,
                manual_vectors,
                embedder_name,
            } => {
                let more = remove_vectors.len();
                streams.first.push(remove_vectors);
                streams.second.push(manual_vectors);
                match embeddings {
                    Some(run) => {
                        streams.third.push(run);
                    },
                    None => {},
                }
                streams.expected_dimension = expected_dimension;
                streams.embedder_name = embedder_name;
                more
            },
            TypedChunk::ScriptLanguageDocids(entries) => {
                let mut entries = entries;
                streams.script_languages.append(&mut entries);
                0
            },
        };
        streams.data_size = if (more as u64) > u64::MAX - streams.data_size {
            u64::MAX
        } else {
            streams.data_size + more as u64
        };
        proof {
            taken = taken + 1;
        }
    }
    proof {
        assert(all.take(taken) =~= all);
    }
    Ok(streams)
}

} // verus!

//! The extraction stage: which extractions a batch of documents goes
//! through, and how the runs that the extractions of one database produce
//! become the typed chunk of that database.
//!
//! The extractions themselves run outside, one task per database, and hand
//! their runs over; nothing here touches the write transaction.

use vstd::prelude::*;

use crate::chunk_streams::{first_run, second_run, third_run};
use crate::error::Error;
use crate::merge::{all_merges_ok, is_merge_of, merge_fails_with, merge_of_kind, merge_runs, runs_view};
use crate::merge_functions::MergeKind;
use crate::sorted_run::SortedRun;
use crate::typed_chunk::{ChunkShape, TypedChunk};

verus! {

/// What a batch is indexed with.
pub struct IndexingParameters {
    /// The fields that are searched; all of them where none are named.
    pub searchable_fields: Option<Vec<u16>>,
    /// The fields that are faceted.
    pub faceted_fields: Vec<u16>,
    /// The field of the primary key.
    pub primary_key_id: u16,
    /// The fields of the latitude and of the longitude, where positions are
    /// indexed.
    pub geo_fields_ids: Option<(u16, u16)>,
    /// The field of the vectors, where vectors are indexed.
    pub vectors_field_id: Option<u16>,
    /// The most positions that are indexed per attribute.
    pub max_positions_per_attributes: Option<u32>,
    /// The fields whose words are only found as they are written.
    pub exact_attributes: Vec<u16>,
}

/// The extractions that read the documents of a batch themselves.
#[derive(Clone, Copy, Debug, PartialEq, Eq, Structural)]
pub enum BatchExtraction {
    /// The raw documents, handed on as they are.
    Documents,
    /// The vector points, from the original documents.
    VectorPoints,
    /// The geo points, from the flattened documents.
    GeoPoints,
    /// The words of each document with their positions: the intermediate
    /// that the extractions of the words read. The pairs of script and
    /// language come with it.
    DocidWordPositions,
    /// The facet values of each document: the intermediate that the
    /// extractions of the facets read.
    FidDocidFacetValues,
}

/// What the extractions of a batch hand on to the derived extractions.
#[derive(Clone, Copy, Debug, PartialEq, Eq, Structural)]
pub enum Intermediate {
    /// The words of each document with their positions.
    DocidWordPositions,
    /// The facet numbers of each document.
    DocidFidFacetNumbers,
    /// The facet strings of each document.
    DocidFidFacetStrings,
    /// The documents in which a facet exists.
    FidFacetExistsDocids,
    /// The documents in which a facet is null.
    FidFacetIsNullDocids,
    /// The documents in which a facet is empty.
    FidFacetIsEmptyDocids,
}

/// The extractions that read an intermediate instead of the documents, so
/// that the documents are scanned once.
#[derive(Clone, Copy, Debug, PartialEq, Eq, Structural)]
pub enum DerivedExtraction {
    FacetExistsDocids,
    FacetIsNullDocids,
    FacetIsEmptyDocids,
    WordPairProximityDocids,
    FieldIdWordCountDocids,
    WordDocids,
    WordPositionDocids,
    FacetStringDocids,
    FacetNumberDocids,
}

/// The extractions that a batch goes through with the given parameters: the
/// documents always, the vector points where a field holds vectors, the geo
/// points where fields hold a position, and the two intermediates always.
pub open spec fn batch_extractions_spec(geo: bool, vectors: bool) -> Seq<BatchExtraction> {
    seq![BatchExtraction::Documents] + (if vectors {
        seq![BatchExtraction::VectorPoints]
    } else {
        Seq::empty()
    }) + (if geo {
        seq![BatchExtraction::GeoPoints]
    } else {
        Seq::empty()
    }) + seq![BatchExtraction::DocidWordPositions, BatchExtraction::FidDocidFacetValues]
}

/// The extractions that a batch goes through.
pub fn batch_extractions(parameters: &IndexingParameters) -> (extractions: Vec<BatchExtraction>)
    ensures
        extractions@ == batch_extractions_spec(
            parameters.geo_fields_ids is Some,
            parameters.vectors_field_id is Some,
        ),
{
    let mut extractions: Vec<BatchExtraction> = Vec::new();
    extractions.push(BatchExtraction::Documents);
    if parameters.vectors_field_id.is_some() {
        extractions.push(BatchExtraction::VectorPoints);
    }
    if parameters.geo_fields_ids.is_some() {
        extractions.push(BatchExtraction::GeoPoints);
    }
    extractions.push(BatchExtraction::DocidWordPositions);
    extractions.push(BatchExtraction::FidDocidFacetValues);
    assert(extractions@ =~= batch_extractions_spec(
        parameters.geo_fields_ids is Some,
        parameters.vectors_field_id is Some,
    ));
    extractions
}

/// The derived extractions, in the order in which their tasks are started.
pub open spec fn derived_extractions_spec() -> Seq<DerivedExtraction> {
    seq![
        DerivedExtraction::FacetExistsDocids,
        DerivedExtraction::FacetIsNullDocids,
        DerivedExtraction::FacetIsEmptyDocids,
        DerivedExtraction::WordPairProximityDocids,
        DerivedExtraction::FieldIdWordCountDocids,
        DerivedExtraction::WordDocids,
        DerivedExtraction::WordPositionDocids,
        DerivedExtraction::FacetStringDocids,
        DerivedExtraction::FacetNumberDocids,
    ]
}

/// The derived extractions, in the order in which their tasks are started.
pub fn derived_extractions() -> (extractions: Vec<DerivedExtraction>)
    ensures
        extractions@ == derived_extractions_spec(),
{
    let mut extractions: Vec<DerivedExtraction> = Vec::new();
    extractions.push(DerivedExtraction::FacetExistsDocids);
    extractions.push(DerivedExtraction::FacetIsNullDocids);
    extractions.push(DerivedExtraction::FacetIsEmptyDocids);
    extractions.push(DerivedExtraction::WordPairProximityDocids);
    extractions.push(DerivedExtraction::FieldIdWordCountDocids);
    extractions.push(DerivedExtraction::WordDocids);
    extractions.push(DerivedExtraction::WordPositionDocids);
    extractions.push(DerivedExtraction::FacetStringDocids);
    extractions.push(DerivedExtraction::FacetNumberDocids);
    assert(extractions@ =~= derived_extractions_spec());
    extractions
}

impl DerivedExtraction {
    /// The intermediate that the extraction reads.
    pub open spec fn source_spec(self) -> Intermediate {
        match self {
            DerivedExtraction::FacetExistsDocids => Intermediate::FidFacetExistsDocids,
            DerivedExtraction::FacetIsNullDocids => Intermediate::FidFacetIsNullDocids,
            DerivedExtraction::FacetIsEmptyDocids => Intermediate::FidFacetIsEmptyDocids,
            DerivedExtraction::FacetStringDocids => Intermediate::DocidFidFacetStrings,
            DerivedExtraction::FacetNumberDocids => Intermediate::DocidFidFacetNumbers,
            _ => Intermediate::DocidWordPositions,
        }
    }

    /// Whether the runs of the intermediate are merged as they are: the
    /// extraction of the batch made them in their final form.
    pub open spec fn is_merge_only_spec(self) -> bool {
        self == DerivedExtraction::FacetExistsDocids || self == DerivedExtraction::FacetIsNullDocids
            || self == DerivedExtraction::FacetIsEmptyDocids
    }

    /// The shape of the typed chunk that the extraction ends in.
    pub open spec fn shape_spec(self) -> ChunkShape {
        match self {
            DerivedExtraction::FacetExistsDocids => ChunkShape::FieldIdFacetExistsDocids,
            DerivedExtraction::FacetIsNullDocids => ChunkShape::FieldIdFacetIsNullDocids,
            DerivedExtraction::FacetIsEmptyDocids => ChunkShape::FieldIdFacetIsEmptyDocids,
            DerivedExtraction::WordPairProximityDocids => ChunkShape::WordPairProximityDocids,
            DerivedExtraction::FieldIdWordCountDocids => ChunkShape::FieldIdWordCountDocids,
            DerivedExtraction::WordDocids => ChunkShape::WordDocids,
            DerivedExtraction::WordPositionDocids => ChunkShape::WordPositionDocids,
            DerivedExtraction::FacetStringDocids => ChunkShape::FieldIdFacetStringDocids,
            DerivedExtraction::FacetNumberDocids => ChunkShape::FieldIdFacetNumberDocids,
        }
    }

    /// The intermediate that the extraction reads.
    pub fn source(self) -> (source: Intermediate)
        ensures
            source == self.source_spec(),
    {
        match self {
            DerivedExtraction::FacetExistsDocids => Intermediate::FidFacetExistsDocids,
            DerivedExtraction::FacetIsNullDocids => Intermediate::FidFacetIsNullDocids,
            DerivedExtraction::FacetIsEmptyDocids => Intermediate::FidFacetIsEmptyDocids,
            DerivedExtraction::FacetStringDocids => Intermediate::DocidFidFacetStrings,
            DerivedExtraction::FacetNumberDocids => Intermediate::DocidFidFacetNumbers,
            _ => Intermediate::DocidWordPositions,
        }
    }

    /// Whether the runs of the intermediate are merged as they are.
    pub fn is_merge_only(self) -> (merge_only: bool)
        ensures
            merge_only == self.is_merge_only_spec(),
    {
        match self {
            DerivedExtraction::FacetExistsDocids
            | DerivedExtraction::FacetIsNullDocids
            | DerivedExtraction::FacetIsEmptyDocids => true,
            _ => false,
        }
    }

    /// The shape of the typed chunk that the extraction ends in.
    pub fn shape(self) -> (shape: ChunkShape)
        ensures
            shape == self.shape_spec(),
    {
        match self {
            DerivedExtraction::FacetExistsDocids => ChunkShape::FieldIdFacetExistsDocids,
            DerivedExtraction::FacetIsNullDocids => ChunkShape::FieldIdFacetIsNullDocids,
            DerivedExtraction::FacetIsEmptyDocids => ChunkShape::FieldIdFacetIsEmptyDocids,
            DerivedExtraction::WordPairProximityDocids => ChunkShape::WordPairProximityDocids,
            DerivedExtraction::FieldIdWordCountDocids => ChunkShape::FieldIdWordCountDocids,
            DerivedExtraction::WordDocids => ChunkShape::WordDocids,
            DerivedExtraction::WordPositionDocids => ChunkShape::WordPositionDocids,
            DerivedExtraction::FacetStringDocids => ChunkShape::FieldIdFacetStringDocids,
            DerivedExtraction::FacetNumberDocids => ChunkShape::FieldIdFacetNumberDocids,
        }
    }

    /// The name of the database in the logs.
    pub fn name(self) -> (name: &'static str)
        ensures
            name@ == self.name_spec(),
    {
        match self {
            DerivedExtraction::FacetExistsDocids => "facet-id-exists-docids",
            DerivedExtraction::FacetIsNullDocids => "facet-id-is-null-docids",
            DerivedExtraction::FacetIsEmptyDocids => "facet-id-is-empty-docids",
            DerivedExtraction::WordPairProximityDocids => "word-pair-proximity-docids",
            DerivedExtraction::FieldIdWordCountDocids => "field-id-wordcount-docids",
            DerivedExtraction::WordDocids => "word-docids",
            DerivedExtraction::WordPositionDocids => "word-position-docids",
            DerivedExtraction::FacetStringDocids => "field-id-facet-string-docids",
            DerivedExtraction::FacetNumberDocids => "field-id-facet-number-docids",
        }
    }

    /// The name of the database in the logs.
    pub open spec fn name_spec(self) -> Seq<char> {
        match self {
            DerivedExtraction::FacetExistsDocids => "facet-id-exists-docids"@,
            DerivedExtraction::FacetIsNullDocids => "facet-id-is-null-docids"@,
            DerivedExtraction::FacetIsEmptyDocids => "facet-id-is-empty-docids"@,
            DerivedExtraction::WordPairProximityDocids => "word-pair-proximity-docids"@,
            DerivedExtraction::FieldIdWordCountDocids => "field-id-wordcount-docids"@,
            DerivedExtraction::WordDocids => "word-docids"@,
            DerivedExtraction::WordPositionDocids => "word-position-docids"@,
            DerivedExtraction::FacetStringDocids => "field-id-facet-string-docids"@,
            DerivedExtraction::FacetNumberDocids => "field-id-facet-number-docids"@,
        }
    }
}

/// What the results hold: the items of the results that are no failures, in
/// their order.
pub open spec fn runs_before_failure<T>(results: Seq<Result<T, Error>>) -> Seq<T>
    decreases results.len(),
{
    if results.len() == 0 {
        Seq::empty()
    } else {
        match results.last() {
            Ok(run) => runs_before_failure(results.drop_last()).push(run),
            Err(_) => runs_before_failure(results.drop_last()),
        }
    }
}

/// The first failure among the results.
pub open spec fn first_failure<T>(results: Seq<Result<T, Error>>) -> Option<Error>
    decreases results.len(),
{
    if results.len() == 0 {
        None
    } else {
        match first_failure(results.drop_last()) {
            Some(e) => Some(e),
            None => match results.last() {
                Ok(_) => None,
                Err(e) => Some(e),
            },
        }
    }
}

/// What the extractions of the batches gave, a run or several runs for each
/// batch, or the first failure among them: one batch that fails fails the
/// whole run.
pub fn collect_runs<T>(results: Vec<Result<T, Error>>) -> (runs: Result<Vec<T>, Error>)
    ensures
        runs matches Ok(all) ==> first_failure(results@) is None && all@ == runs_before_failure(
            results@,
        ),
        runs matches Err(e) ==> first_failure(results@) == Some(e),
{
    let ghost all = results@;
    let mut pending = results;
    let mut runs: Vec<T> = Vec::new();
    let ghost mut taken: int = 0;
    proof {
        assert(all.take(0) =~= Seq::<Result<T, Error>>::empty());
        assert(all.skip(0) =~= all);
    }
    while pending.len() > 0
        invariant
            0 <= taken <= all.len(),
            all == results@,
            pending@ == all.skip(taken),
            first_failure(all.take(taken)) is None,
            runs@ == runs_before_failure(all.take(taken)),
        decreases pending@.len(),
    {
        let result = pending.remove(0);
        proof {
            assert(result == all[taken]);
            assert(all.take(taken + 1).drop_last() =~= all.take(taken));
            assert(all.take(taken + 1).last() == result);
            assert(pending@ =~= all.skip(taken + 1));
        }
        match result {
            Ok(run) => {
                runs.push(run);
            },
            Err(e) => {
                proof {
                    lemma_failure_stays(all, taken + 1);
                }
                return Err(e);
            },
        }
        proof {
            taken = taken + 1;
        }
    }
    proof {
        assert(all.take(taken) =~= all);
    }
    Ok(runs)
}

/// A failure among the first `n` results is the first failure of them all.
proof fn lemma_failure_stays<T>(results: Seq<Result<T, Error>>, n: int)
    requires
        0 <= n <= results.len(),
        first_failure(results.take(n)) is Some,
    ensures
        first_failure(results) == first_failure(results.take(n)),
    decreases results.len() - n,
{
    if n == results.len() {
        assert(results.take(n) =~= results);
    } else {
        assert(results.take(n + 1).drop_last() =~= results.take(n));
        lemma_failure_stays(results, n + 1);
    }
}

/// The typed chunk of one run of the given shape. A chunk of words, of facet
/// strings or of vectors holds more than one run and is not made this way.
pub fn into_typed_chunk(shape: ChunkShape, run: SortedRun) -> (chunk: Option<TypedChunk>)
    ensures
        chunk is Some <==> shape != ChunkShape::WordDocids && shape != ChunkShape::VectorPoints
            && shape != ChunkShape::ScriptLanguageDocids && shape
            != ChunkShape::FieldIdFacetStringDocids,
        chunk matches Some(c) ==> c.spec_shape() == shape && first_run(c)
            == Some(run),
{
    match shape {
        ChunkShape::FieldIdDocidFacetStrings => Some(TypedChunk::FieldIdDocidFacetStrings(run)),
        ChunkShape::FieldIdDocidFacetNumbers => Some(TypedChunk::FieldIdDocidFacetNumbers(run)),
        ChunkShape::Documents => Some(TypedChunk::Documents(run)),
        ChunkShape::FieldIdWordCountDocids => Some(TypedChunk::FieldIdWordCountDocids(run)),
        ChunkShape::WordPositionDocids => Some(TypedChunk::WordPositionDocids(run)),
        ChunkShape::WordPairProximityDocids => Some(TypedChunk::WordPairProximityDocids(run)),
        ChunkShape::FieldIdFacetNumberDocids => Some(TypedChunk::FieldIdFacetNumberDocids(run)),
        ChunkShape::FieldIdFacetExistsDocids => Some(TypedChunk::FieldIdFacetExistsDocids(run)),
        ChunkShape::FieldIdFacetIsNullDocids => Some(TypedChunk::FieldIdFacetIsNullDocids(run)),
        ChunkShape::FieldIdFacetIsEmptyDocids => Some(TypedChunk::FieldIdFacetIsEmptyDocids(run)),
        ChunkShape::GeoPoints => Some(TypedChunk::GeoPoints(run)),
        _ => None,
    }
}

/// Ends a derived extraction of one run per batch: the runs that the batches
/// produced are merged with the union of the deltas into the typed chunk of
/// the database. A failure of the merge is handed on in place of the chunk.
pub fn finish_extraction(extraction: DerivedExtraction, runs: &Vec<SortedRun>) -> (chunk: Result<
    TypedChunk,
    Error,
>)
    requires
        extraction != DerivedExtraction::WordDocids,
        extraction != DerivedExtraction::FacetStringDocids,
        forall|r: int| 0 <= r < runs@.len() ==> (#[trigger] runs@[r]).wf(),
    ensures
        chunk is Ok <==> all_merges_ok(
            runs_view(runs@),
            merge_of_kind(MergeKind::DelAddBitmapUnion),
        ),
        chunk matches Ok(c) ==> c.wf() && c.spec_shape() == extraction.shape_spec() && first_run(
            c,
        ) is Some && is_merge_of(
            first_run(c).unwrap()@,
            runs_view(runs@),
            merge_of_kind(MergeKind::DelAddBitmapUnion),
        ),
        chunk matches Err(e) ==> merge_fails_with(
            runs_view(runs@),
            merge_of_kind(MergeKind::DelAddBitmapUnion),
            e,
        ),
{
    let merged = match merge_runs(runs, MergeKind::DelAddBitmapUnion) {
        Ok(merged) => merged,
        Err(e) => {
            return Err(e);
        },
    };
    match into_typed_chunk(extraction.shape(), merged) {
        Some(chunk) => Ok(chunk),
        None => Err(Error::UnmergeableChunks),
    }
}

/// Ends the extraction of the facet strings: the runs of the strings that
/// the batches produced are merged with the union of the deltas of document
/// ids, those of the normalized strings with the union of the deltas of sets
/// of strings, into the typed chunk of the facet strings.
pub fn finish_facet_strings(strings: &Vec<SortedRun>, normalized: &Vec<SortedRun>) -> (chunk: Result<
    TypedChunk,
    Error,
>)
    requires
        forall|r: int| 0 <= r < strings@.len() ==> (#[trigger] strings@[r]).wf(),
        forall|r: int| 0 <= r < normalized@.len() ==> (#[trigger] normalized@[r]).wf(),
    ensures
        chunk is Ok <==> all_merges_ok(
            runs_view(strings@),
            merge_of_kind(MergeKind::DelAddBitmapUnion),
        ) && all_merges_ok(runs_view(normalized@), merge_of_kind(MergeKind::DelAddKeySetUnion)),
        chunk matches Ok(c) ==> c.wf() && c.spec_shape() == ChunkShape::FieldIdFacetStringDocids
            && is_merge_of(
            first_run(c).unwrap()@,
            runs_view(strings@),
            merge_of_kind(MergeKind::DelAddBitmapUnion),
        ) && is_merge_of(
            second_run(c).unwrap()@,
            runs_view(normalized@),
            merge_of_kind(MergeKind::DelAddKeySetUnion),
        ),
        chunk matches Err(e) ==> merge_fails_with(
            runs_view(strings@),
            merge_of_kind(MergeKind::DelAddBitmapUnion),
            e,
        ) || merge_fails_with(
            runs_view(normalized@),
            merge_of_kind(MergeKind::DelAddKeySetUnion),
            e,
        ),
{
    let merged_strings = match merge_runs(strings, MergeKind::DelAddBitmapUnion) {
        Ok(merged) => merged,
        Err(e) => {
            return Err(e);
        },
    };
    let merged_normalized = match merge_runs(normalized, MergeKind::DelAddKeySetUnion) {
        Ok(merged) => merged,
        Err(e) => {
            return Err(e);
        },
    };
    Ok(TypedChunk::FieldIdFacetStringDocids((merged_strings, merged_normalized)))
}

/// Ends the extraction of the words: the runs of the words, of the exact
/// words and of the words by field that the batches produced are merged,
/// each with the union of the deltas, into the typed chunk of the words.
pub fn finish_word_docids(
    words: &Vec<SortedRun>,
    exact_words: &Vec<SortedRun>,
    words_by_field: &Vec<SortedRun>,
) -> (chunk: Result<TypedChunk, Error>)
    requires
        forall|r: int| 0 <= r < words@.len() ==> (#[trigger] words@[r]).wf(),
        forall|r: int| 0 <= r < exact_words@.len() ==> (#[trigger] exact_words@[r]).wf(),
        forall|r: int| 0 <= r < words_by_field@.len() ==> (#[trigger] words_by_field@[r]).wf(),
    ensures
        chunk is Ok <==> all_merges_ok(
            runs_view(words@),
            merge_of_kind(MergeKind::DelAddBitmapUnion),
        ) && all_merges_ok(runs_view(exact_words@), merge_of_kind(MergeKind::DelAddBitmapUnion))
            && all_merges_ok(runs_view(words_by_field@), merge_of_kind(MergeKind::DelAddBitmapUnion)),
        chunk matches Ok(c) ==> c.wf() && c.spec_shape() == ChunkShape::WordDocids && is_merge_of(
            first_run(c).unwrap()@,
            runs_view(words@),
            merge_of_kind(MergeKind::DelAddBitmapUnion),
        ) && is_merge_of(
            second_run(c).unwrap()@,
            runs_view(exact_words@),
            merge_of_kind(MergeKind::DelAddBitmapUnion),
        ) && is_merge_of(
            third_run(c).unwrap()@,
            runs_view(words_by_field@),
            merge_of_kind(MergeKind::DelAddBitmapUnion),
        ),
        chunk matches Err(e) ==> merge_fails_with(
            runs_view(words@),
            merge_of_kind(MergeKind::DelAddBitmapUnion),
            e,
        ) || merge_fails_with(
            runs_view(exact_words@),
            merge_of_kind(MergeKind::DelAddBitmapUnion),
            e,
        ) || merge_fails_with(
            runs_view(words_by_field@),
            merge_of_kind(MergeKind::DelAddBitmapUnion),
            e,
        ),
{
    let word_docids_reader = match merge_runs(words, MergeKind::DelAddBitmapUnion) {
        Ok(merged) => merged,
        Err(e) => {
            return Err(e);
        },
    };
    let exact_word_docids_reader = match merge_runs(exact_words, MergeKind::DelAddBitmapUnion) {
        Ok(merged) => merged,
        Err(e) => {
            return Err(e);
        },
    };
    let word_fid_docids_reader = match merge_runs(words_by_field, MergeKind::DelAddBitmapUnion) {
        Ok(merged) => merged,
        Err(e) => {
            return Err(e);
        },
    };
    Ok(TypedChunk::WordDocids { word_docids_reader, exact_word_docids_reader, word_fid_docids_reader })
}

} // verus!

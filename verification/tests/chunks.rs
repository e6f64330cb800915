use indexer_core::chunk_streams::split_group;
use indexer_core::del_add::DeltaValue;
use indexer_core::postings::encode_docids;
use indexer_core::docids::DocIds;
use indexer_core::error::Error;
use indexer_core::key_set::{decode_key_set, encode_key_set};
use indexer_core::extract::{
    batch_extractions, collect_runs, derived_extractions, finish_extraction, finish_word_docids,
    finish_facet_strings, into_typed_chunk, BatchExtraction, DerivedExtraction, IndexingParameters,
    Intermediate,
};
use indexer_core::sorted_run::SortedRun;
use indexer_core::typed_chunk::{ChunkAccumulator, ChunkShape, ScriptLanguageDelta, TypedChunk};

fn run_of(len: usize) -> SortedRun {
    let mut run = SortedRun::new();
    for i in 0..len {
        run.push(vec![i as u8], vec![]).unwrap();
    }
    run
}

fn vectors(name: &str, dimension: usize) -> TypedChunk {
    TypedChunk::VectorPoints {
        remove_vectors: run_of(1),
        embeddings: None,
        expected_dimension: dimension,
        manual_vectors: run_of(2),
        embedder_name: name.to_string(),
    }
}

fn words() -> TypedChunk {
    TypedChunk::WordDocids {
        word_docids_reader: run_of(3),
        exact_word_docids_reader: run_of(1),
        word_fid_docids_reader: run_of(2),
    }
}

#[test]
fn chunks_of_one_shape_are_mergeable() {
    assert!(TypedChunk::Documents(run_of(1)).mergeable_with(&TypedChunk::Documents(run_of(3))));
    assert!(TypedChunk::GeoPoints(run_of(0)).mergeable_with(&TypedChunk::GeoPoints(run_of(0))));
    assert!(words().mergeable_with(&words()));
    assert!(TypedChunk::ScriptLanguageDocids(vec![]).mergeable_with(&TypedChunk::ScriptLanguageDocids(vec![])));
}

#[test]
fn chunks_of_two_shapes_are_not_mergeable() {
    let documents = TypedChunk::Documents(run_of(1));
    assert!(!documents.mergeable_with(&TypedChunk::GeoPoints(run_of(1))));
    assert!(!TypedChunk::FieldIdDocidFacetNumbers(run_of(1))
        .mergeable_with(&TypedChunk::FieldIdDocidFacetStrings(run_of(1))));
    assert!(!words().mergeable_with(&TypedChunk::WordPositionDocids(run_of(1))));
    assert!(!vectors("a", 3).mergeable_with(&documents));
}

#[test]
fn vector_chunks_need_the_same_embedder_and_dimension() {
    assert!(vectors("default", 3).mergeable_with(&vectors("default", 3)));
    assert!(!vectors("default", 3).mergeable_with(&vectors("other", 3)));
    assert!(!vectors("default", 3).mergeable_with(&vectors("default", 4)));
}

#[test]
fn chunk_shapes() {
    assert_eq!(TypedChunk::Documents(run_of(0)).shape(), ChunkShape::Documents);
    assert_eq!(words().shape(), ChunkShape::WordDocids);
    assert_eq!(vectors("e", 1).shape(), ChunkShape::VectorPoints);
    assert_eq!(TypedChunk::ScriptLanguageDocids(vec![]).shape(), ChunkShape::ScriptLanguageDocids);
}

#[test]
fn accumulator_groups_by_mergeability() {
    let mut accumulator = ChunkAccumulator::new();
    assert_eq!(accumulator.len(), 0);
    accumulator.insert(TypedChunk::Documents(run_of(1)));
    accumulator.insert(TypedChunk::GeoPoints(run_of(1)));
    accumulator.insert(TypedChunk::Documents(run_of(2)));
    accumulator.insert(vectors("a", 3));
    accumulator.insert(vectors("b", 3));
    accumulator.insert(vectors("a", 3));
    accumulator.insert(TypedChunk::Documents(run_of(3)));
    assert_eq!(accumulator.len(), 4);
    let longest = accumulator.pop_longest().unwrap();
    assert_eq!(longest.len(), 3);
    assert!(longest.iter().all(|chunk| chunk.shape() == ChunkShape::Documents));
    assert_eq!(longest[2].to_debug_string(), "Documents { number_of_entries: 3 }");
    let next = accumulator.pop_longest().unwrap();
    assert_eq!(next.len(), 2);
    assert!(next.iter().all(|chunk| chunk.mergeable_with(&vectors("a", 3))));
    assert_eq!(accumulator.len(), 2);
}

#[test]
fn pop_longest_breaks_ties_by_first_match() {
    let mut accumulator = ChunkAccumulator::new();
    accumulator.insert(TypedChunk::GeoPoints(run_of(1)));
    accumulator.insert(TypedChunk::Documents(run_of(1)));
    accumulator.insert(TypedChunk::WordPositionDocids(run_of(1)));
    assert_eq!(accumulator.pop_longest().unwrap()[0].shape(), ChunkShape::GeoPoints);
    assert_eq!(accumulator.pop_longest().unwrap()[0].shape(), ChunkShape::Documents);
    assert_eq!(accumulator.pop_longest().unwrap()[0].shape(), ChunkShape::WordPositionDocids);
    assert!(accumulator.pop_longest().is_none());
    assert!(accumulator.pop_longest().is_none());
}

#[test]
fn pop_longest_prefers_the_larger_group_wherever_it_stands() {
    let mut accumulator = ChunkAccumulator::new();
    accumulator.insert(TypedChunk::GeoPoints(run_of(1)));
    accumulator.insert(TypedChunk::Documents(run_of(1)));
    accumulator.insert(TypedChunk::Documents(run_of(1)));
    let longest = accumulator.pop_longest().unwrap();
    assert_eq!(longest.len(), 2);
    assert_eq!(longest[0].shape(), ChunkShape::Documents);
}

#[test]
fn debug_strings() {
    assert_eq!(
        TypedChunk::FieldIdDocidFacetStrings(run_of(2)).to_debug_string(),
        "FieldIdDocidFacetStrings { number_of_entries: 2 }"
    );
    assert_eq!(
        TypedChunk::FieldIdDocidFacetNumbers(run_of(0)).to_debug_string(),
        "FieldIdDocidFacetNumbers { number_of_entries: 0 }"
    );
    assert_eq!(
        TypedChunk::FieldIdWordCountDocids(run_of(12)).to_debug_string(),
        "FieldIdWordcountDocids { number_of_entries: 12 }"
    );
    assert_eq!(
        words().to_debug_string(),
        "WordDocids { word_docids_reader: 3, exact_word_docids_reader: 1, word_fid_docids_reader: 2 }"
    );
    assert_eq!(
        TypedChunk::WordPositionDocids(run_of(1)).to_debug_string(),
        "WordPositionDocids { number_of_entries: 1 }"
    );
    assert_eq!(
        TypedChunk::WordPairProximityDocids(run_of(1)).to_debug_string(),
        "WordPairProximityDocids { number_of_entries: 1 }"
    );
    assert_eq!(
        TypedChunk::FieldIdFacetStringDocids((run_of(1), run_of(4))).to_debug_string(),
        "FieldIdFacetStringDocids { number_of_entries: 1 }"
    );
    assert_eq!(
        TypedChunk::FieldIdFacetNumberDocids(run_of(1)).to_debug_string(),
        "FieldIdFacetNumberDocids { number_of_entries: 1 }"
    );
    assert_eq!(
        TypedChunk::FieldIdFacetExistsDocids(run_of(1)).to_debug_string(),
        "FieldIdFacetExistsDocids { number_of_entries: 1 }"
    );
    assert_eq!(
        TypedChunk::FieldIdFacetIsNullDocids(run_of(1)).to_debug_string(),
        "FieldIdFacetIsNullDocids { number_of_entries: 1 }"
    );
    assert_eq!(
        TypedChunk::FieldIdFacetIsEmptyDocids(run_of(1)).to_debug_string(),
        "FieldIdFacetIsEmptyDocids { number_of_entries: 1 }"
    );
    assert_eq!(TypedChunk::GeoPoints(run_of(1)).to_debug_string(), "GeoPoints { number_of_entries: 1 }");
    assert_eq!(
        vectors("default", 768).to_debug_string(),
        "VectorPoints { remove_vectors: 1, manual_vectors: 2, embeddings: 0, dimension: 768, embedder_name: default }"
    );
    let with_embeddings = TypedChunk::VectorPoints {
        remove_vectors: run_of(0),
        embeddings: Some(run_of(5)),
        expected_dimension: 3,
        manual_vectors: run_of(0),
        embedder_name: "e".to_string(),
    };
    assert_eq!(
        with_embeddings.to_debug_string(),
        "VectorPoints { remove_vectors: 0, manual_vectors: 0, embeddings: 5, dimension: 3, embedder_name: e }"
    );
    let pair = ScriptLanguageDelta { script: 1, language: 2, deletion: DocIds::new(), addition: DocIds::new() };
    assert_eq!(
        TypedChunk::ScriptLanguageDocids(vec![pair]).to_debug_string(),
        "ScriptLanguageDocids { number_of_entries: 1 }"
    );
}

#[test]
fn split_group_refuses_mixed_and_empty_groups() {
    assert_eq!(split_group(vec![]).err(), Some(Error::UnmergeableChunks));
    let mixed = vec![TypedChunk::Documents(run_of(1)), TypedChunk::GeoPoints(run_of(1))];
    assert_eq!(split_group(mixed).err(), Some(Error::UnmergeableChunks));
    let mixed = vec![vectors("a", 1), vectors("a", 2)];
    assert_eq!(split_group(mixed).err(), Some(Error::UnmergeableChunks));
}

#[test]
fn split_group_takes_chunks_apart_in_order() {
    let streams = split_group(vec![words(), words()]).ok().unwrap();
    assert_eq!(streams.shape, ChunkShape::WordDocids);
    assert_eq!(streams.first.len(), 2);
    assert_eq!(streams.second.len(), 2);
    assert_eq!(streams.third.len(), 2);
    assert_eq!(streams.first[0].len(), 3);
    assert_eq!(streams.second[0].len(), 1);
    assert_eq!(streams.third[0].len(), 2);
    assert_eq!(streams.data_size, 6);
    let with_embeddings = TypedChunk::VectorPoints {
        remove_vectors: run_of(0),
        embeddings: Some(run_of(5)),
        expected_dimension: 3,
        manual_vectors: run_of(1),
        embedder_name: "e".to_string(),
    };
    let streams = split_group(vec![vectors("e", 3), with_embeddings]).ok().unwrap();
    assert_eq!(streams.first.len(), 2);
    assert_eq!(streams.second.len(), 2);
    assert_eq!(streams.third.len(), 1);
    assert_eq!(streams.third[0].len(), 5);
    assert_eq!(streams.expected_dimension, 3);
    assert_eq!(streams.embedder_name, "e");
}

#[test]
fn extraction_plan_follows_the_parameters() {
    let mut parameters = IndexingParameters {
        searchable_fields: None,
        faceted_fields: vec![],
        primary_key_id: 0,
        geo_fields_ids: None,
        vectors_field_id: None,
        max_positions_per_attributes: None,
        exact_attributes: vec![],
    };
    assert_eq!(
        batch_extractions(&parameters),
        vec![
            BatchExtraction::Documents,
            BatchExtraction::DocidWordPositions,
            BatchExtraction::FidDocidFacetValues
        ]
    );
    parameters.geo_fields_ids = Some((1, 2));
    parameters.vectors_field_id = Some(3);
    assert_eq!(
        batch_extractions(&parameters),
        vec![
            BatchExtraction::Documents,
            BatchExtraction::VectorPoints,
            BatchExtraction::GeoPoints,
            BatchExtraction::DocidWordPositions,
            BatchExtraction::FidDocidFacetValues
        ]
    );
}

#[test]
fn derived_extractions_table() {
    let all = derived_extractions();
    assert_eq!(all.len(), 9);
    assert_eq!(all[0], DerivedExtraction::FacetExistsDocids);
    assert_eq!(all[8], DerivedExtraction::FacetNumberDocids);
    assert_eq!(DerivedExtraction::WordDocids.source(), Intermediate::DocidWordPositions);
    assert_eq!(DerivedExtraction::FieldIdWordCountDocids.source(), Intermediate::DocidWordPositions);
    assert_eq!(DerivedExtraction::FacetExistsDocids.source(), Intermediate::FidFacetExistsDocids);
    assert_eq!(DerivedExtraction::FacetIsNullDocids.source(), Intermediate::FidFacetIsNullDocids);
    assert_eq!(DerivedExtraction::FacetIsEmptyDocids.source(), Intermediate::FidFacetIsEmptyDocids);
    assert_eq!(DerivedExtraction::FacetStringDocids.source(), Intermediate::DocidFidFacetStrings);
    assert_eq!(DerivedExtraction::FacetNumberDocids.source(), Intermediate::DocidFidFacetNumbers);
    assert!(DerivedExtraction::FacetExistsDocids.is_merge_only());
    assert!(!DerivedExtraction::WordDocids.is_merge_only());
    assert!(!DerivedExtraction::FacetNumberDocids.is_merge_only());
    assert_eq!(DerivedExtraction::WordPairProximityDocids.shape(), ChunkShape::WordPairProximityDocids);
    assert_eq!(DerivedExtraction::FacetStringDocids.shape(), ChunkShape::FieldIdFacetStringDocids);
    assert_eq!(DerivedExtraction::FieldIdWordCountDocids.name(), "field-id-wordcount-docids");
    assert_eq!(DerivedExtraction::FacetIsNullDocids.name(), "facet-id-is-null-docids");
}

#[test]
fn collect_runs_stops_at_the_first_failure() {
    let all = collect_runs(vec![Ok(run_of(1)), Ok(run_of(2))]).unwrap();
    assert_eq!(all.len(), 2);
    assert_eq!(all[1].len(), 2);
    let failed = collect_runs(vec![Ok(run_of(1)), Err(Error::Decoding), Err(Error::UnorderedRun)]);
    assert_eq!(failed.err(), Some(Error::Decoding));
}

#[test]
fn into_typed_chunk_by_shape() {
    assert_eq!(into_typed_chunk(ChunkShape::GeoPoints, run_of(1)).unwrap().shape(), ChunkShape::GeoPoints);
    assert!(into_typed_chunk(ChunkShape::WordDocids, run_of(1)).is_none());
    assert!(into_typed_chunk(ChunkShape::VectorPoints, run_of(1)).is_none());
    assert!(into_typed_chunk(ChunkShape::ScriptLanguageDocids, run_of(1)).is_none());
    assert!(into_typed_chunk(ChunkShape::FieldIdFacetStringDocids, run_of(1)).is_none());
}

#[test]
fn finish_extraction_merges_the_runs_of_the_batches() {
    let delta = |ids: &[u32]| DeltaValue::new(None, Some(encode_docids(&DocIds::from_slice(ids)))).encode();
    let mut one = SortedRun::new();
    one.push(b"a".to_vec(), delta(&[1])).unwrap();
    let mut two = SortedRun::new();
    two.push(b"a".to_vec(), delta(&[2])).unwrap();
    two.push(b"b".to_vec(), delta(&[3])).unwrap();
    let chunk = finish_extraction(DerivedExtraction::WordPositionDocids, &vec![one, two]).ok().unwrap();
    assert_eq!(chunk.to_debug_string(), "WordPositionDocids { number_of_entries: 2 }");
    let bad = {
        let mut run = SortedRun::new();
        run.push(b"a".to_vec(), vec![9]).unwrap();
        run
    };
    let mut other = SortedRun::new();
    other.push(b"a".to_vec(), delta(&[2])).unwrap();
    assert_eq!(
        finish_extraction(DerivedExtraction::FacetExistsDocids, &vec![bad, other]).err(),
        Some(Error::Decoding)
    );
    let chunk = finish_word_docids(&vec![run_of(2)], &vec![], &vec![run_of(1)]).ok().unwrap();
    assert_eq!(
        chunk.to_debug_string(),
        "WordDocids { word_docids_reader: 2, exact_word_docids_reader: 0, word_fid_docids_reader: 1 }"
    );
}

#[test]
fn finish_facet_strings_merges_both_runs() {
    let ids = |ids: &[u32]| encode_docids(&DocIds::from_slice(ids));
    let keys = |keys: &[&[u8]]| encode_key_set(&keys.iter().map(|key| key.to_vec()).collect());
    let mut strings_one = SortedRun::new();
    strings_one.push(b"Red".to_vec(), DeltaValue::new(None, Some(ids(&[1]))).encode()).unwrap();
    let mut strings_two = SortedRun::new();
    strings_two.push(b"Red".to_vec(), DeltaValue::new(Some(ids(&[4])), Some(ids(&[2]))).encode()).unwrap();
    let mut normalized_one = SortedRun::new();
    normalized_one.push(b"red".to_vec(), DeltaValue::new(None, Some(keys(&[b"Red"]))).encode()).unwrap();
    let mut normalized_two = SortedRun::new();
    normalized_two
        .push(b"red".to_vec(), DeltaValue::new(Some(keys(&[b"RED"])), Some(keys(&[b"RED", b"rEd"]))).encode())
        .unwrap();
    let chunk = finish_facet_strings(&vec![strings_one, strings_two], &vec![normalized_one, normalized_two])
        .ok()
        .unwrap();
    let TypedChunk::FieldIdFacetStringDocids((strings, normalized)) = chunk else {
        panic!("facet strings end in a chunk of facet strings")
    };
    let merged = DeltaValue::decode(&strings.get(b"Red").unwrap()).unwrap();
    assert_eq!(merged.deletion, Some(ids(&[4])));
    assert_eq!(merged.addition, Some(ids(&[1, 2])));
    let merged = DeltaValue::decode(&normalized.get(b"red").unwrap()).unwrap();
    assert_eq!(decode_key_set(&merged.deletion.unwrap()), Ok(vec![b"RED".to_vec()]));
    assert_eq!(
        decode_key_set(&merged.addition.unwrap()),
        Ok(vec![b"RED".to_vec(), b"Red".to_vec(), b"rEd".to_vec()])
    );
}

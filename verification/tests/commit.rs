use std::cell::{Cell, RefCell};
use std::collections::BTreeMap;

use indexer_core::commit::{
    commit_postings, is_merged_database, merge_vocabulary, read_embedder_index,
    write_typed_chunk_into_index, writer_index, Commit,
};
use indexer_core::del_add::DeltaValue;
use indexer_core::docids::DocIds;
use indexer_core::documents::{document_change, write_documents, DocumentOperationKind};
use indexer_core::error::{Database, Error};
use indexer_core::geo::{extract_geo_point, write_geo_points, GeoOp};
use indexer_core::interner::Interner;
use indexer_core::key_set::{decode_key_set, encode_key_set};
use indexer_core::postings::{decode_docids, encode_docids};
use indexer_core::reconcile::{
    postings_change, reconcile_postings, reconcile_value, value_change, write_entries_into_database,
    write_values_into_database, Change, WriteOp,
};
use indexer_core::record::{decode_record, encode_fields, Field};
use indexer_core::script_language::{combine_script_languages, script_language_change, script_language_key};
use indexer_core::search_context::{SearchContext, Word};
use indexer_core::sorted_run::SortedRun;
use indexer_core::str_codec::StrBEU16Codec;
use indexer_core::typed_chunk::{ChunkAccumulator, ChunkShape, ScriptLanguageDelta, TypedChunk};
use indexer_core::vector_slots::VectorOp;
use indexer_core::words_fst::{merge_word_docids_reader_into_fst, union_words_fst};

/// The vocabulary of an index that holds no word yet.
fn no_words() -> Result<fst::Set<Vec<u8>>, Error> {
    Ok(fst::Set::default())
}

/// An in-memory stand-in for the persisted store, which counts its lookups.
struct Store {
    tables: RefCell<BTreeMap<(String, Vec<u8>), Vec<u8>>>,
    lookups: Cell<usize>,
}

impl Store {
    fn new() -> Store {
        Store { tables: RefCell::new(BTreeMap::new()), lookups: Cell::new(0) }
    }

    fn get(&self, db: Database, key: &Vec<u8>) -> Result<Option<Vec<u8>>, Error> {
        self.lookups.set(self.lookups.get() + 1);
        Ok(self.tables.borrow().get(&(format!("{:?}", db), key.clone())).cloned())
    }

    fn put(&self, db: Database, key: &[u8], value: &[u8]) {
        self.tables.borrow_mut().insert((format!("{:?}", db), key.to_vec()), value.to_vec());
    }

    fn apply(&self, db: Database, writes: &[WriteOp]) {
        for write in writes {
            match write {
                WriteOp::Put { key, value } => {
                    self.tables.borrow_mut().insert((format!("{:?}", db), key.clone()), value.clone());
                }
                WriteOp::Delete { key } => {
                    self.tables.borrow_mut().remove(&(format!("{:?}", db), key.clone()));
                }
            }
        }
    }

    fn holds(&self, db: Database, key: &[u8]) -> Option<Vec<u8>> {
        self.tables.borrow().get(&(format!("{:?}", db), key.to_vec())).cloned()
    }

    /// Makes the writes of a commit, as the write transaction would.
    fn commit(&self, commit: Commit) {
        match commit {
            Commit::Documents(plan) => {
                self.apply(Database::Documents, &plan.writes);
                self.put(Database::DocumentsIds, &[], &encode_docids(&plan.docids));
                for operation in plan.operations {
                    match operation.kind {
                        DocumentOperationKind::Create => self.put(
                            Database::ExternalDocumentsIds,
                            operation.external_id.as_bytes(),
                            &operation.internal_id.to_be_bytes(),
                        ),
                        DocumentOperationKind::Delete => {
                            self.tables.borrow_mut().remove(&(
                                format!("{:?}", Database::ExternalDocumentsIds),
                                operation.external_id.as_bytes().to_vec(),
                            ));
                        }
                    }
                }
            }
            Commit::Postings { database, writes } => self.apply(database, &writes),
            Commit::WordDocids { word_docids, exact_word_docids, word_fid_docids, .. } => {
                self.apply(Database::WordDocids, &word_docids);
                self.apply(Database::ExactWordDocids, &exact_word_docids);
                self.apply(Database::WordFidDocids, &word_fid_docids);
            }
            Commit::FacetValues { database, writes } => self.apply(database, &writes),
            Commit::Facets { .. } => {}
            Commit::GeoPoints(plan) => {
                self.put(Database::GeoFacetedDocumentsIds, &[], &encode_docids(&plan.geo_faceted_docids));
            }
            Commit::VectorPoints { .. } => {}
            Commit::ScriptLanguageDocids(writes) => self.apply(Database::ScriptLanguageDocids, &writes),
        }
    }
}

fn ids(values: &[u32]) -> Vec<u8> {
    encode_docids(&DocIds::from_slice(values))
}

fn delta(deletion: Option<&[u32]>, addition: Option<&[u32]>) -> Vec<u8> {
    DeltaValue::new(deletion.map(ids), addition.map(ids)).encode()
}

fn run(pairs: &[(Vec<u8>, Vec<u8>)]) -> SortedRun {
    let mut run = SortedRun::new();
    for (key, value) in pairs {
        run.push(key.clone(), value.clone()).unwrap();
    }
    run
}

fn document_key(internal_id: u32, external_id: &str) -> Vec<u8> {
    let mut key = internal_id.to_be_bytes().to_vec();
    key.extend_from_slice(external_id.as_bytes());
    key
}

fn document_value(fields: &[(u16, Option<&[u8]>, Option<&[u8]>)]) -> Vec<u8> {
    let fields: Vec<Field> = fields
        .iter()
        .map(|(id, deletion, addition)| Field {
            id: *id,
            value: DeltaValue::new(deletion.map(|d| d.to_vec()), addition.map(|a| a.to_vec())).encode(),
        })
        .collect();
    encode_fields(&fields)
}

fn commit_all(store: &Store, chunks: Vec<TypedChunk>) {
    let mut accumulator = ChunkAccumulator::new();
    for chunk in chunks {
        accumulator.insert(chunk);
    }
    while let Some(group) = accumulator.pop_longest() {
        let reader = |db: Database, key: &Vec<u8>| store.get(db, key);
        let (commit, _) = write_typed_chunk_into_index(group, &reader, &no_words).ok().unwrap();
        store.commit(commit);
    }
}

fn word_docids_of(store: &Store, word: &str) -> Option<Vec<u32>> {
    let mut interner = Interner::new();
    let handle = interner.insert(word).unwrap();
    let mut context = SearchContext::new(interner, None);
    let reader = |db: Database, key: &Vec<u8>| store.get(db, key);
    context.word_docids(Word::Derived(handle), &reader).unwrap().map(|ids| ids.to_vec())
}

#[test]
fn scenario_word_postings_follow_the_documents() {
    let store = Store::new();
    commit_all(
        &store,
        vec![
            TypedChunk::Documents(run(&[(
                document_key(1, "d1"),
                document_value(&[(0, None, Some(b"apple"))]),
            )])),
            TypedChunk::WordDocids {
                word_docids_reader: run(&[(b"apple".to_vec(), delta(None, Some(&[1])))]),
                exact_word_docids_reader: SortedRun::new(),
                word_fid_docids_reader: run(&[(
                    StrBEU16Codec::bytes_encode("apple", 0).unwrap(),
                    delta(None, Some(&[1])),
                )]),
            },
            TypedChunk::WordPositionDocids(run(&[(
                StrBEU16Codec::bytes_encode("apple", 0).unwrap(),
                delta(None, Some(&[1])),
            )])),
        ],
    );
    assert_eq!(word_docids_of(&store, "apple"), Some(vec![1]));
    assert!(store.holds(Database::Documents, &1u32.to_be_bytes()).is_some());
    assert_eq!(store.holds(Database::DocumentsIds, &[]), Some(ids(&[1])));
    assert_eq!(
        store.holds(Database::WordPositionDocids, &StrBEU16Codec::bytes_encode("apple", 0).unwrap()),
        Some(ids(&[1]))
    );

    commit_all(
        &store,
        vec![
            TypedChunk::Documents(run(&[
                (document_key(1, "d1"), document_value(&[(0, Some(b"apple"), None)])),
                (document_key(2, "d2"), document_value(&[(0, None, Some(b"apple"))])),
            ])),
            TypedChunk::WordDocids {
                word_docids_reader: run(&[(b"apple".to_vec(), delta(Some(&[1]), Some(&[2])))]),
                exact_word_docids_reader: SortedRun::new(),
                word_fid_docids_reader: SortedRun::new(),
            },
        ],
    );
    assert_eq!(word_docids_of(&store, "apple"), Some(vec![2]));
    assert_eq!(store.holds(Database::Documents, &1u32.to_be_bytes()), None);
    assert!(store.holds(Database::Documents, &2u32.to_be_bytes()).is_some());
    assert_eq!(store.holds(Database::DocumentsIds, &[]), Some(ids(&[2])));
    assert_eq!(store.holds(Database::ExternalDocumentsIds, b"d1"), None);
    assert_eq!(store.holds(Database::ExternalDocumentsIds, b"d2"), Some(2u32.to_be_bytes().to_vec()));
}

#[test]
fn scenario_facet_number_is_removed_by_a_deletion() {
    let store = Store::new();
    let mut key = 3u16.to_be_bytes().to_vec();
    key.extend_from_slice(&7u32.to_be_bytes());
    let value = 42.0f64.to_be_bytes().to_vec();
    commit_all(
        &store,
        vec![TypedChunk::FieldIdDocidFacetNumbers(run(&[(
            key.clone(),
            DeltaValue::new(None, Some(value.clone())).encode(),
        )]))],
    );
    assert_eq!(store.holds(Database::FieldIdDocidFacetF64s, &key), Some(value.clone()));
    commit_all(
        &store,
        vec![TypedChunk::FieldIdDocidFacetNumbers(run(&[(
            key.clone(),
            DeltaValue::new(Some(value), None).encode(),
        )]))],
    );
    assert_eq!(store.holds(Database::FieldIdDocidFacetF64s, &key), None);
    assert!(store.tables.borrow().is_empty());
}

#[test]
fn scenario_geo_points_keep_first_gives_one_net_operation() {
    let point: Vec<u8> = (1..=16).collect();
    let deletion = DeltaValue::new(Some(point.clone()), None).encode();
    let addition = DeltaValue::new(None, Some(point.clone())).encode();
    let key = 5u32.to_be_bytes().to_vec();
    let other = 6u32.to_be_bytes().to_vec();

    let store = Store::new();
    store.put(Database::GeoFacetedDocumentsIds, &[], &ids(&[5]));
    let reader = |db: Database, key: &Vec<u8>| store.get(db, key);
    let group = vec![
        TypedChunk::GeoPoints(run(&[(key.clone(), deletion.clone())])),
        TypedChunk::GeoPoints(run(&[(key.clone(), addition.clone()), (other.clone(), addition.clone())])),
    ];
    let (commit, merged) = write_typed_chunk_into_index(group, &reader, &no_words).ok().unwrap();
    assert!(!merged);
    let Commit::GeoPoints(plan) = commit else { panic!("geo points commit into the geo index") };
    assert_eq!(plan.ops.len(), 2);
    assert!(matches!(plan.ops[0], GeoOp::Remove { docid: 5, .. }));
    assert!(matches!(plan.ops[1], GeoOp::Insert { docid: 6, .. }));
    assert_eq!(plan.geo_faceted_docids.to_vec(), vec![6]);

    let group = vec![
        TypedChunk::GeoPoints(run(&[(key.clone(), addition.clone())])),
        TypedChunk::GeoPoints(run(&[(key.clone(), deletion.clone())])),
    ];
    let (commit, _) = write_typed_chunk_into_index(group, &reader, &no_words).ok().unwrap();
    let Commit::GeoPoints(plan) = commit else { panic!("geo points commit into the geo index") };
    assert_eq!(plan.ops.len(), 1);
    match plan.ops[0] {
        GeoOp::Insert { docid, point } => {
            assert_eq!(docid, 5);
            assert_eq!(point.lat, [1, 2, 3, 4, 5, 6, 7, 8]);
            assert_eq!(point.lng, [9, 10, 11, 12, 13, 14, 15, 16]);
        }
        GeoOp::Remove { .. } => panic!("the first value wins"),
    }
    assert_eq!(plan.geo_faceted_docids.to_vec(), vec![5]);
}

#[test]
fn reconcile_postings_removes_then_adds() {
    assert_eq!(reconcile_postings(&delta(Some(&[1, 2]), Some(&[9])), Some(&ids(&[1, 3]))), Ok(Some(ids(&[3, 9]))));
    assert_eq!(reconcile_postings(&delta(None, Some(&[4])), None), Ok(Some(ids(&[4]))));
    assert_eq!(reconcile_postings(&delta(Some(&[4]), None), None), Ok(None));
    assert_eq!(reconcile_postings(&delta(None, None), Some(&ids(&[4]))), Ok(Some(ids(&[4]))));
    assert_eq!(reconcile_postings(&delta(Some(&[4]), None), Some(&ids(&[4]))), Ok(None));
    assert_eq!(reconcile_postings(&delta(Some(&[4]), Some(&[4])), Some(&ids(&[4]))), Ok(Some(ids(&[4]))));
}

#[test]
fn reconcile_postings_rejects_what_it_cannot_read() {
    assert_eq!(reconcile_postings(&[9], None), Err(Error::Decoding));
    assert_eq!(reconcile_postings(&delta(None, None), Some(&[1, 2, 3])), Err(Error::Decoding));
    let bad_side = DeltaValue::new(Some(vec![1]), None).encode();
    assert_eq!(reconcile_postings(&bad_side, None), Err(Error::Decoding));
}

#[test]
fn deletion_is_idempotent() {
    let only_deletes = delta(Some(&[2, 3, 40]), None);
    for stored in [None, Some(ids(&[])), Some(ids(&[2])), Some(ids(&[1, 2, 3, 4])), Some(ids(&[7]))] {
        let once = reconcile_postings(&only_deletes, stored.as_deref()).unwrap();
        let twice = reconcile_postings(&only_deletes, once.as_deref()).unwrap();
        assert_eq!(once, twice);
        let expected: Vec<u32> = stored
            .map(|bytes| decode_docids(&bytes).unwrap().to_vec())
            .unwrap_or_default()
            .into_iter()
            .filter(|id| ![2, 3, 40].contains(id))
            .collect();
        let left = once.map(|bytes| decode_docids(&bytes).unwrap().to_vec()).unwrap_or_default();
        assert_eq!(left, expected);
    }
}

#[test]
fn reconcile_value_follows_the_four_cases() {
    assert_eq!(reconcile_value(&DeltaValue::new(None, None).encode()), Ok(Change::Keep));
    assert_eq!(reconcile_value(&DeltaValue::new(None, Some(vec![1])).encode()), Ok(Change::Put(vec![1])));
    assert_eq!(reconcile_value(&DeltaValue::new(Some(vec![1]), None).encode()), Ok(Change::Delete));
    assert_eq!(
        reconcile_value(&DeltaValue::new(Some(vec![1]), Some(vec![2])).encode()),
        Ok(Change::Put(vec![2]))
    );
    assert_eq!(reconcile_value(&[8]), Err(Error::Decoding));
}

#[test]
fn invalid_keys_are_passed_over() {
    let long = vec![1u8; 501];
    assert_eq!(postings_change(&[], &delta(None, Some(&[1])), None), Ok(Change::Keep));
    assert_eq!(postings_change(&long, &[77], None), Ok(Change::Keep));
    assert_eq!(postings_change(b"k", &delta(None, Some(&[1])), None), Ok(Change::Put(ids(&[1]))));
    assert_eq!(postings_change(b"k", &delta(Some(&[1]), None), Some(&ids(&[1]))), Ok(Change::Delete));
    assert_eq!(value_change(&long, &[77]), Ok(Change::Keep));
    assert_eq!(value_change(b"k", &DeltaValue::new(Some(vec![]), None).encode()), Ok(Change::Delete));
}

#[test]
fn write_entries_gives_writes_in_key_order() {
    let merged = run(&[
        (b"a".to_vec(), delta(None, Some(&[1]))),
        (b"b".to_vec(), delta(Some(&[5]), None)),
        (b"c".to_vec(), delta(Some(&[1]), Some(&[2]))),
    ]);
    let stored = vec![None, Some(ids(&[5])), Some(ids(&[1, 9]))];
    assert_eq!(
        write_entries_into_database(&merged, &stored),
        Ok(vec![
            WriteOp::Put { key: b"a".to_vec(), value: ids(&[1]) },
            WriteOp::Delete { key: b"b".to_vec() },
            WriteOp::Put { key: b"c".to_vec(), value: ids(&[2, 9]) },
        ])
    );
    let broken = vec![None, Some(vec![1]), None];
    assert_eq!(write_entries_into_database(&merged, &broken), Err(Error::Decoding));
}

#[test]
fn write_values_gives_writes_in_key_order() {
    let merged = run(&[
        (b"a".to_vec(), DeltaValue::new(None, None).encode()),
        (b"b".to_vec(), DeltaValue::new(None, Some(vec![7])).encode()),
        (b"c".to_vec(), DeltaValue::new(Some(vec![7]), None).encode()),
    ]);
    assert_eq!(
        write_values_into_database(&merged),
        Ok(vec![
            WriteOp::Put { key: b"b".to_vec(), value: vec![7] },
            WriteOp::Delete { key: b"c".to_vec() },
        ])
    );
    assert_eq!(write_values_into_database(&run(&[(b"a".to_vec(), vec![])])), Err(Error::Decoding));
}

#[test]
fn commit_postings_reads_each_merged_key_once() {
    let store = Store::new();
    store.put(Database::WordPositionDocids, b"a", &ids(&[1, 2]));
    let reader = |db: Database, key: &Vec<u8>| store.get(db, key);
    let runs = vec![
        run(&[(b"a".to_vec(), delta(Some(&[1]), None)), (b"b".to_vec(), delta(None, Some(&[3])))]),
        run(&[(b"a".to_vec(), delta(None, Some(&[8])))]),
    ];
    let writes = commit_postings(&runs, Database::WordPositionDocids, &reader).unwrap();
    assert_eq!(
        writes,
        vec![
            WriteOp::Put { key: b"a".to_vec(), value: ids(&[2, 8]) },
            WriteOp::Put { key: b"b".to_vec(), value: ids(&[3]) },
        ]
    );
    assert_eq!(store.lookups.get(), 2);
}

#[test]
fn a_failing_store_fails_the_commit() {
    let failing = |_: Database, _: &Vec<u8>| -> Result<Option<Vec<u8>>, Error> {
        Err(Error::DatabaseMissingEntry(Database::WordDocids))
    };
    let runs = vec![run(&[(b"a".to_vec(), delta(None, Some(&[1])))])];
    assert_eq!(
        commit_postings(&runs, Database::WordDocids, &failing),
        Err(Error::DatabaseMissingEntry(Database::WordDocids))
    );
}

#[test]
fn groups_that_do_not_belong_together_are_refused() {
    let store = Store::new();
    let reader = |db: Database, key: &Vec<u8>| store.get(db, key);
    assert_eq!(write_typed_chunk_into_index(vec![], &reader, &no_words).err(), Some(Error::UnmergeableChunks));
    let mixed = vec![TypedChunk::Documents(SortedRun::new()), TypedChunk::GeoPoints(SortedRun::new())];
    assert_eq!(write_typed_chunk_into_index(mixed, &reader, &no_words).err(), Some(Error::UnmergeableChunks));
}

#[test]
fn merged_databases() {
    assert!(!is_merged_database(ChunkShape::Documents));
    assert!(!is_merged_database(ChunkShape::FieldIdDocidFacetNumbers));
    assert!(!is_merged_database(ChunkShape::FieldIdDocidFacetStrings));
    assert!(!is_merged_database(ChunkShape::GeoPoints));
    assert!(!is_merged_database(ChunkShape::VectorPoints));
    assert!(!is_merged_database(ChunkShape::ScriptLanguageDocids));
    assert!(is_merged_database(ChunkShape::WordDocids));
    assert!(is_merged_database(ChunkShape::WordPositionDocids));
    assert!(is_merged_database(ChunkShape::WordPairProximityDocids));
    assert!(is_merged_database(ChunkShape::FieldIdWordCountDocids));
    assert!(is_merged_database(ChunkShape::FieldIdFacetNumberDocids));
    assert!(is_merged_database(ChunkShape::FieldIdFacetStringDocids));
    assert!(is_merged_database(ChunkShape::FieldIdFacetExistsDocids));
    assert!(is_merged_database(ChunkShape::FieldIdFacetIsNullDocids));
    assert!(is_merged_database(ChunkShape::FieldIdFacetIsEmptyDocids));
}

#[test]
fn word_docids_commit_lists_the_merged_words() {
    let store = Store::new();
    let reader = |db: Database, key: &Vec<u8>| store.get(db, key);
    let group = vec![
        TypedChunk::WordDocids {
            word_docids_reader: run(&[(b"kiwi".to_vec(), delta(None, Some(&[1])))]),
            exact_word_docids_reader: run(&[(b"apple".to_vec(), delta(None, Some(&[1])))]),
            word_fid_docids_reader: SortedRun::new(),
        },
        TypedChunk::WordDocids {
            word_docids_reader: run(&[(b"fig".to_vec(), delta(None, Some(&[2])))]),
            exact_word_docids_reader: run(&[(b"kiwi".to_vec(), delta(None, Some(&[2])))]),
            word_fid_docids_reader: SortedRun::new(),
        },
    ];
    let stored = || fst::Set::from_iter(["banana", "fig"]).map_err(|_| Error::Decoding);
    let (commit, merged) = write_typed_chunk_into_index(group, &reader, &stored).ok().unwrap();
    assert!(merged);
    let Commit::WordDocids { word_docids, exact_word_docids, word_fid_docids, words_fst } = commit else {
        panic!("words commit into the databases of the words")
    };
    assert_eq!(word_docids.len(), 2);
    assert_eq!(exact_word_docids.len(), 2);
    assert!(word_fid_docids.is_empty());
    assert_eq!(
        words_fst.stream().into_bytes(),
        vec![b"apple".to_vec(), b"banana".to_vec(), b"fig".to_vec(), b"kiwi".to_vec()]
    );
}

#[test]
fn word_docids_commit_fails_when_the_vocabulary_cannot_be_read() {
    let store = Store::new();
    let reader = |db: Database, key: &Vec<u8>| store.get(db, key);
    let group = vec![TypedChunk::WordDocids {
        word_docids_reader: run(&[(b"kiwi".to_vec(), delta(None, Some(&[1])))]),
        exact_word_docids_reader: SortedRun::new(),
        word_fid_docids_reader: SortedRun::new(),
    }];
    let unreadable = || Err(Error::DatabaseMissingEntry(Database::WordsFst));
    assert_eq!(
        write_typed_chunk_into_index(group, &reader, &unreadable).err(),
        Some(Error::DatabaseMissingEntry(Database::WordsFst))
    );
}

#[test]
fn words_fst_of_a_run_holds_its_keys() {
    let words = run(&[
        (b"".to_vec(), Vec::new()),
        (b"a".to_vec(), vec![1]),
        (b"ab".to_vec(), Vec::new()),
        (b"b".to_vec(), vec![2, 3]),
    ]);
    let set = merge_word_docids_reader_into_fst(&words).ok().unwrap();
    assert_eq!(set.stream().into_bytes(), vec![b"".to_vec(), b"a".to_vec(), b"ab".to_vec(), b"b".to_vec()]);
    let none = merge_word_docids_reader_into_fst(&SortedRun::new()).ok().unwrap();
    assert!(none.is_empty());
}

#[test]
fn union_of_two_vocabularies() {
    let new = fst::Set::from_iter(["a", "c", "e"]).unwrap();
    let stored = fst::Set::from_iter(["b", "c", "d"]).unwrap();
    let both = union_words_fst(&new, &stored).ok().unwrap();
    assert_eq!(
        both.stream().into_bytes(),
        vec![b"a".to_vec(), b"b".to_vec(), b"c".to_vec(), b"d".to_vec(), b"e".to_vec()]
    );
    let same = union_words_fst(&new, &fst::Set::default()).ok().unwrap();
    assert_eq!(same.stream().into_bytes(), new.stream().into_bytes());
}

#[test]
fn merge_vocabulary_unites_the_runs_with_the_stored_words() {
    let runs = vec![
        run(&[(b"pear".to_vec(), vec![1]), (b"plum".to_vec(), vec![2])]),
        run(&[(b"fig".to_vec(), vec![3]), (b"pear".to_vec(), vec![4])]),
    ];
    let stored = || fst::Set::from_iter(["date"]).map_err(|_| Error::Decoding);
    let words = merge_vocabulary(&runs, &stored).ok().unwrap();
    assert_eq!(
        words.stream().into_bytes(),
        vec![b"date".to_vec(), b"fig".to_vec(), b"pear".to_vec(), b"plum".to_vec()]
    );
}

#[test]
fn facet_commit_hands_on_the_merged_stream() {
    let store = Store::new();
    let reader = |db: Database, key: &Vec<u8>| store.get(db, key);
    let group = vec![
        TypedChunk::FieldIdFacetNumberDocids(run(&[(b"a".to_vec(), delta(None, Some(&[1])))])),
        TypedChunk::FieldIdFacetNumberDocids(run(&[
            (b"a".to_vec(), delta(None, Some(&[2]))),
            (b"b".to_vec(), delta(None, Some(&[3]))),
        ])),
    ];
    let (commit, merged) = write_typed_chunk_into_index(group, &reader, &no_words).ok().unwrap();
    assert!(merged);
    let Commit::Facets { database, entries, normalized, data_size } = commit else {
        panic!("facets commit into a facet database")
    };
    assert_eq!(database, Database::FacetIdF64Docids);
    assert!(normalized.is_none());
    assert_eq!(data_size, 3);
    assert_eq!(entries.len(), 2);
    assert_eq!(DeltaValue::decode(&entries.get(b"a").unwrap()).unwrap().addition, Some(ids(&[1, 2])));
}

#[test]
fn vector_commit_needs_a_known_embedder() {
    let store = Store::new();
    let reader = |db: Database, key: &Vec<u8>| store.get(db, key);
    let chunk = || TypedChunk::VectorPoints {
        remove_vectors: run(&[(7u32.to_be_bytes().to_vec(), vec![])]),
        embeddings: None,
        expected_dimension: 2,
        manual_vectors: SortedRun::new(),
        embedder_name: "default".to_string(),
    };
    assert_eq!(
        write_typed_chunk_into_index(vec![chunk()], &reader, &no_words).err(),
        Some(Error::DatabaseMissingEntry(Database::EmbedderCategoryId))
    );
    store.put(Database::EmbedderCategoryId, b"default", &[3]);
    let (commit, merged) = write_typed_chunk_into_index(vec![chunk()], &reader, &no_words).ok().unwrap();
    assert!(!merged);
    let Commit::VectorPoints { embedder_name, embedder_index, expected_dimension, operations } = commit else {
        panic!("vectors commit into the vector index")
    };
    assert_eq!(embedder_name, "default");
    assert_eq!(embedder_index, 3);
    assert_eq!(expected_dimension, 2);
    assert_eq!(operations.len(), 1);
    assert_eq!(operations[0].docid, 7);
    assert!(matches!(operations[0].op, VectorOp::RemoveAll));
    assert_eq!(writer_index(3, 0), 0x0300);
    assert_eq!(writer_index(3, 255), 0x03ff);
    assert_eq!(writer_index(255, 255), 0xffff);
    store.put(Database::EmbedderCategoryId, b"odd", &[1, 2]);
    assert_eq!(read_embedder_index("odd", &reader), Err(Error::Decoding));
    assert_eq!(read_embedder_index("default", &reader), Ok(3));
}

#[test]
fn script_language_commit() {
    let store = Store::new();
    store.put(Database::ScriptLanguageDocids, &script_language_key(1, 1), &ids(&[1, 2]));
    store.put(Database::ScriptLanguageDocids, &script_language_key(2, 2), &ids(&[5]));
    let entry = |script, language, deletion: &[u32], addition: &[u32]| ScriptLanguageDelta {
        script,
        language,
        deletion: DocIds::from_slice(deletion),
        addition: DocIds::from_slice(addition),
    };
    commit_all(
        &store,
        vec![
            TypedChunk::ScriptLanguageDocids(vec![entry(1, 1, &[1], &[3]), entry(2, 2, &[5], &[])]),
            TypedChunk::ScriptLanguageDocids(vec![entry(1, 1, &[3], &[4]), entry(3, 3, &[], &[9])]),
            TypedChunk::ScriptLanguageDocids(vec![entry(4, 4, &[1], &[])]),
        ],
    );
    assert_eq!(store.holds(Database::ScriptLanguageDocids, &script_language_key(1, 1)), Some(ids(&[2, 4])));
    assert_eq!(store.holds(Database::ScriptLanguageDocids, &script_language_key(2, 2)), None);
    assert_eq!(store.holds(Database::ScriptLanguageDocids, &script_language_key(3, 3)), Some(ids(&[9])));
    assert_eq!(store.holds(Database::ScriptLanguageDocids, &script_language_key(4, 4)), None);
}

#[test]
fn script_language_change_cases() {
    let del = DocIds::from_slice(&[1]);
    let add = DocIds::from_slice(&[2]);
    let none = DocIds::new();
    assert_eq!(script_language_change(None, &del, &add), Ok(Change::Put(ids(&[2]))));
    assert_eq!(script_language_change(None, &del, &none), Ok(Change::Keep));
    assert_eq!(script_language_change(Some(&ids(&[1])), &del, &none), Ok(Change::Delete));
    assert_eq!(script_language_change(Some(&ids(&[1, 3])), &del, &add), Ok(Change::Put(ids(&[2, 3]))));
    assert_eq!(script_language_change(Some(&[1]), &del, &add), Err(Error::Decoding));
    assert_eq!(script_language_key(0x0102, 0x0304), vec![1, 2, 3, 4]);
}

#[test]
fn combine_script_languages_takes_batches_together() {
    let entry = |script, language, deletion: &[u32], addition: &[u32]| ScriptLanguageDelta {
        script,
        language,
        deletion: DocIds::from_slice(deletion),
        addition: DocIds::from_slice(addition),
    };
    let combined = combine_script_languages(vec![
        entry(1, 1, &[1], &[3]),
        entry(2, 1, &[], &[7]),
        entry(1, 1, &[3], &[4]),
    ]);
    assert_eq!(combined.len(), 2);
    assert_eq!((combined[0].script, combined[0].language), (1, 1));
    assert_eq!(combined[0].deletion.to_vec(), vec![1, 3]);
    assert_eq!(combined[0].addition.to_vec(), vec![4]);
    assert_eq!((combined[1].script, combined[1].language), (2, 1));
    assert_eq!(combined[1].addition.to_vec(), vec![7]);
}

#[test]
fn document_change_keeps_the_addition_sides() {
    let value = document_value(&[(0, Some(b"old"), Some(b"new")), (2, Some(b"gone"), None), (5, None, Some(b"x"))]);
    let change = document_change(&document_key(9, "nine"), &value).unwrap();
    assert_eq!(change.internal_id, 9);
    assert_eq!(change.external_id, "nine");
    assert_eq!(
        decode_record(&change.record.unwrap()).unwrap(),
        vec![Field { id: 0, value: b"new".to_vec() }, Field { id: 5, value: b"x".to_vec() }]
    );
    let gone = document_change(&document_key(9, "nine"), &document_value(&[(0, Some(b"old"), None)])).unwrap();
    assert_eq!(gone.record, None);
    let empty = document_change(&document_key(9, ""), &[]).unwrap();
    assert_eq!(empty.record, None);
    assert_eq!(empty.external_id, "");
}

#[test]
fn document_change_rejects_malformed_records() {
    let value = document_value(&[(0, None, Some(b"x"))]);
    assert_eq!(document_change(&[0, 0, 1], &value).err(), Some(Error::Decoding));
    assert_eq!(document_change(&[0, 0, 0, 1, 0xff], &value).err(), Some(Error::Decoding));
    assert_eq!(document_change(&document_key(1, "a"), &[1, 2, 3]).err(), Some(Error::Decoding));
    let no_delta = encode_fields(&vec![Field { id: 0, value: vec![9] }]);
    assert_eq!(document_change(&document_key(1, "a"), &no_delta).err(), Some(Error::Decoding));
}

#[test]
fn write_documents_plans_writes_operations_and_ids() {
    let merged = run(&[
        (document_key(1, "a"), document_value(&[(0, None, Some(b"x"))])),
        (document_key(2, "b"), document_value(&[(0, Some(b"x"), None)])),
    ]);
    let plan = write_documents(&merged, DocIds::from_slice(&[2, 3])).ok().unwrap();
    assert_eq!(plan.writes.len(), 2);
    assert!(matches!(&plan.writes[0], WriteOp::Put { key, .. } if key == &vec![0, 0, 0, 1]));
    assert_eq!(plan.writes[1], WriteOp::Delete { key: vec![0, 0, 0, 2] });
    assert_eq!(plan.operations[0].kind, DocumentOperationKind::Create);
    assert_eq!(plan.operations[0].external_id, "a");
    assert_eq!(plan.operations[0].internal_id, 1);
    assert_eq!(plan.operations[1].kind, DocumentOperationKind::Delete);
    assert_eq!(plan.operations[1].external_id, "b");
    assert_eq!(plan.docids.to_vec(), vec![1, 3]);
    let broken = run(&[(vec![1], vec![])]);
    assert_eq!(write_documents(&broken, DocIds::new()).err(), Some(Error::Decoding));
}

#[test]
fn latest_document_wins_within_a_batch() {
    let store = Store::new();
    commit_all(
        &store,
        vec![
            TypedChunk::Documents(run(&[(document_key(1, "a"), document_value(&[(0, None, Some(b"first"))]))])),
            TypedChunk::Documents(run(&[(document_key(1, "a"), document_value(&[(0, None, Some(b"second"))]))])),
        ],
    );
    let stored = store.holds(Database::Documents, &1u32.to_be_bytes()).unwrap();
    assert_eq!(decode_record(&stored).unwrap(), vec![Field { id: 0, value: b"second".to_vec() }]);
}

#[test]
fn geo_points_need_sixteen_bytes() {
    assert!(extract_geo_point(&[0; 15]).is_none());
    let point = extract_geo_point(&(0..20).collect::<Vec<u8>>()).unwrap();
    assert_eq!(point.lat, [0, 1, 2, 3, 4, 5, 6, 7]);
    assert_eq!(point.lng, [8, 9, 10, 11, 12, 13, 14, 15]);
    let short = run(&[(vec![0, 0, 0, 1], DeltaValue::new(None, Some(vec![1; 8])).encode())]);
    assert_eq!(write_geo_points(&short, DocIds::new()).err(), Some(Error::Decoding));
    let bad_key = run(&[(vec![0, 0, 1], DeltaValue::new(None, None).encode())]);
    assert_eq!(write_geo_points(&bad_key, DocIds::new()).err(), Some(Error::Decoding));
    let both = run(&[(vec![0, 0, 0, 1], DeltaValue::new(Some(vec![1; 16]), Some(vec![2; 16])).encode())]);
    let plan = write_geo_points(&both, DocIds::new()).ok().unwrap();
    assert_eq!(plan.ops.len(), 2);
    assert!(matches!(plan.ops[0], GeoOp::Remove { docid: 1, .. }));
    assert!(matches!(plan.ops[1], GeoOp::Insert { docid: 1, .. }));
    assert_eq!(plan.geo_faceted_docids.to_vec(), vec![1]);
}

#[test]
fn facet_string_commit_hands_on_both_merged_streams() {
    let store = Store::new();
    let reader = |db: Database, key: &Vec<u8>| store.get(db, key);
    let keys = |keys: &[&[u8]]| encode_key_set(&keys.iter().map(|key| key.to_vec()).collect());
    let group = vec![
        TypedChunk::FieldIdFacetStringDocids((
            run(&[(b"Red".to_vec(), delta(None, Some(&[1])))]),
            run(&[(b"red".to_vec(), DeltaValue::new(None, Some(keys(&[b"Red"]))).encode())]),
        )),
        TypedChunk::FieldIdFacetStringDocids((
            run(&[(b"RED".to_vec(), delta(None, Some(&[2])))]),
            run(&[(b"red".to_vec(), DeltaValue::new(None, Some(keys(&[b"RED"]))).encode())]),
        )),
    ];
    let (commit, merged) = write_typed_chunk_into_index(group, &reader, &no_words).ok().unwrap();
    assert!(merged);
    let Commit::Facets { database, entries, normalized, data_size } = commit else {
        panic!("facets commit into a facet database")
    };
    assert_eq!(database, Database::FacetIdStringDocids);
    assert_eq!(data_size, 2);
    assert_eq!(entries.len(), 2);
    let normalized = normalized.unwrap();
    assert_eq!(normalized.len(), 1);
    let value = DeltaValue::decode(&normalized.get(b"red").unwrap()).unwrap();
    assert_eq!(decode_key_set(&value.addition.unwrap()), Ok(vec![b"RED".to_vec(), b"Red".to_vec()]));
}

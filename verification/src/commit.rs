//! The commit stage: a group of typed chunks that can be merged together is
//! merged into one ordered stream per logical database, reconciled with what
//! the persisted store holds, and becomes the writes of one database of the
//! index. The writes are to be made inside one write transaction, all of them
//! or none.

use vstd::prelude::*;
use vstd::slice::slice_to_vec;
use vstd::string::StringSliceAdditionalSpecFns;

use crate::chunk_streams::{chunks_wf, one_group, split_group, stream_runs, all_script_languages, data_size_spec, GroupStreams, Stream};
use crate::docids::DocIds;
use crate::documents::{document_changes_spec, plan_matches, write_documents, DocumentsPlan};
use crate::error::{Database, Error};
use crate::key_set::keys_view;
use crate::geo::{faceted_after, geo_ops_spec, geo_ops_view, write_geo_points, GeoPlan};
use crate::merge::{all_merges_ok, is_merge_of, merge_fails_with, merge_of_kind, merge_runs, runs_view};
use crate::merge_functions::MergeKind;
use crate::postings::{decode_docids, decode_docids_spec};
use crate::reconcile::{postings_changes_spec, stored_values_view, value_changes_spec, write_entries_into_database, write_values_into_database, writes_of, writes_view, ChangeView, WriteOp, WriteOpView};
use crate::script_language::{combine_script_languages, combines, script_language_change, script_language_key, script_language_key_spec, script_language_spec};
use crate::sorted_run::{keys_of, SortedRun};
use crate::typed_chunk::{ChunkShape, ScriptLanguageDelta, TypedChunk};
use crate::words_fst::{fst_keys, keys_of_runs, lemma_keys_of_run, merge_word_docids_reader_into_fst, union_words_fst};
use crate::vector_points::{vector_operations, vector_operations_spec, vector_ops_view, DocumentVectorOp};

verus! {

/// What the commit of a group of typed chunks writes.
pub enum Commit {
    /// The documents table, the index of external ids and the ids of the
    /// documents.
    Documents(DocumentsPlan),
    /// One postings-shaped database.
    Postings { database: Database, writes: Vec<WriteOp> },
    /// The three databases of the words, and the vocabulary: the words that
    /// the index held and the words of the group.
    WordDocids {
        word_docids: Vec<WriteOp>,
        exact_word_docids: Vec<WriteOp>,
        word_fid_docids: Vec<WriteOp>,
        words_fst: fst::Set<Vec<u8>>,
    },
    /// One database of single values.
    FacetValues { database: Database, writes: Vec<WriteOp> },
    /// The merged stream of one facet database, for the facet tree updater,
    /// with the number of entries that went into it; for the facet strings
    /// also the merged stream of their normalized forms.
    Facets { database: Database, entries: SortedRun, normalized: Option<SortedRun>, data_size: u64 },
    /// The spatial index and the documents with a position.
    GeoPoints(GeoPlan),
    /// The vector sub-indexes of one embedder.
    VectorPoints {
        embedder_name: String,
        embedder_index: u8,
        expected_dimension: usize,
        operations: Vec<DocumentVectorOp>,
    },
    /// The database of the pairs of script and language.
    ScriptLanguageDocids(Vec<WriteOp>),
}

/// Whether the commit of a chunk of this shape merges into a database whose
/// values are sets of document ids.
pub open spec fn is_merged_database_spec(shape: ChunkShape) -> bool {
    match shape {
        ChunkShape::Documents => false,
        ChunkShape::FieldIdDocidFacetNumbers => false,
        ChunkShape::FieldIdDocidFacetStrings => false,
        ChunkShape::GeoPoints => false,
        ChunkShape::VectorPoints => false,
        ChunkShape::ScriptLanguageDocids => false,
        _ => true,
    }
}

/// Whether the commit of a chunk of this shape merges into a database whose
/// values are sets of document ids.
pub fn is_merged_database(shape: ChunkShape) -> (merged: bool)
    ensures
        merged == is_merged_database_spec(shape),
{
    match shape {
        ChunkShape::Documents => false,
        ChunkShape::FieldIdDocidFacetNumbers => false,
        ChunkShape::FieldIdDocidFacetStrings => false,
        ChunkShape::GeoPoints => false,
        ChunkShape::VectorPoints => false,
        ChunkShape::ScriptLanguageDocids => false,
        _ => true,
    }
}

/// The postings-shaped database that chunks of a shape are written into.
pub open spec fn postings_database_spec(shape: ChunkShape) -> Option<Database> {
    match shape {
        ChunkShape::FieldIdWordCountDocids => Some(Database::FieldIdWordCountDocids),
        ChunkShape::WordPositionDocids => Some(Database::WordPositionDocids),
        ChunkShape::WordPairProximityDocids => Some(Database::WordPairProximityDocids),
        ChunkShape::FieldIdFacetExistsDocids => Some(Database::FacetIdExistsDocids),
        ChunkShape::FieldIdFacetIsNullDocids => Some(Database::FacetIdIsNullDocids),
        ChunkShape::FieldIdFacetIsEmptyDocids => Some(Database::FacetIdIsEmptyDocids),
        _ => None,
    }
}

/// `stored[i]` is what a lookup of the store gave for the key `wanted[i]`.
pub open spec fn stored_by<F: Fn(Database, &Vec<u8>) -> Result<Option<Vec<u8>>, Error>>(
    store: &F,
    db: Database,
    wanted: Seq<Seq<u8>>,
    stored: Seq<Option<Vec<u8>>>,
) -> bool {
    exists|keys: Seq<Vec<u8>>| #[trigger] reads_by(store, db, wanted, keys, stored)
}

/// `stored[i]` is what the lookup of `keys[i]`, the key `wanted[i]`, gave.
pub open spec fn reads_by<F: Fn(Database, &Vec<u8>) -> Result<Option<Vec<u8>>, Error>>(
    store: &F,
    db: Database,
    wanted: Seq<Seq<u8>>,
    keys: Seq<Vec<u8>>,
    stored: Seq<Option<Vec<u8>>>,
) -> bool {
    &&& stored.len() == wanted.len()
    &&& keys.len() == wanted.len()
    &&& forall|i: int|
        0 <= i < wanted.len() ==> (#[trigger] keys[i])@ == wanted[i] && store.ensures(
            (db, &keys[i]),
            Ok::<Option<Vec<u8>>, Error>(stored[i]),
        )
}

/// A lookup of the store for one of the keys failed with `error`.
pub open spec fn read_fails<F: Fn(Database, &Vec<u8>) -> Result<Option<Vec<u8>>, Error>>(
    store: &F,
    db: Database,
    wanted: Seq<Seq<u8>>,
    error: Error,
) -> bool {
    exists|i: int, key: Vec<u8>| #[trigger] read_fails_at(store, db, wanted, error, i, key)
}

/// The lookup of `key`, the key `wanted[i]`, failed with `error`.
pub open spec fn read_fails_at<F: Fn(Database, &Vec<u8>) -> Result<Option<Vec<u8>>, Error>>(
    store: &F,
    db: Database,
    wanted: Seq<Seq<u8>>,
    error: Error,
    i: int,
    key: Vec<u8>,
) -> bool {
    0 <= i < wanted.len() && key@ == wanted[i] && store.ensures(
        (db, &key),
        Err::<Option<Vec<u8>>, Error>(error),
    )
}

/// Looks up in the database `db` what the store holds under each of the
/// keys, in their order, up to the first lookup that fails.
pub fn read_keys<F>(keys: &Vec<Vec<u8>>, db: Database, store: &F) -> (stored: Result<
    Vec<Option<Vec<u8>>>,
    Error,
>) where F: Fn(Database, &Vec<u8>) -> Result<Option<Vec<u8>>, Error>
    requires
        forall|db: Database, key: &Vec<u8>| #[trigger] store.requires((db, key)),
    ensures
        stored matches Ok(values) ==> stored_by(store, db, keys_view(keys@), values@),
        stored matches Err(e) ==> read_fails(store, db, keys_view(keys@), e),
{
    let ghost wanted = keys_view(keys@);
    let mut values: Vec<Option<Vec<u8>>> = Vec::new();
    let mut i: usize = 0;
    while i < keys.len()
        invariant
            i <= keys@.len(),
            wanted == keys_view(keys@),
            forall|db: Database, key: &Vec<u8>| #[trigger] store.requires((db, key)),
            reads_by(store, db, wanted.take(i as int), keys@.take(i as int), values@),
        decreases keys@.len() - i,
    {
        match store(db, &keys[i]) {
            Ok(value) => {
                let ghost before = values@;
                values.push(value);
                proof {
                    assert forall|k: int| 0 <= k < i + 1 implies (#[trigger] keys@.take(i + 1)[k])@
                        == wanted.take(i + 1)[k] && store.ensures(
                        (db, &keys@.take(i + 1)[k]),
                        Ok::<Option<Vec<u8>>, Error>(values@[k]),
                    ) by {
                        if k < i {
                            assert(keys@.take(i as int)[k] == keys@.take(i + 1)[k]);
                            assert(values@[k] == before[k]);
                        }
                    }
                }
            },
            Err(e) => {
                assert(read_fails_at(store, db, wanted, e, i as int, keys@[i as int]));
                return Err(e);
            },
        }
        i += 1;
    }
    proof {
        assert(wanted.take(i as int) =~= wanted);
        assert(keys@.take(i as int) =~= keys@);
    }
    Ok(values)
}

/// Looks up in the database `db` what the store holds under the key of each
/// entry of a merged stream.
pub fn read_stored<F>(merged: &SortedRun, db: Database, store: &F) -> (stored: Result<
    Vec<Option<Vec<u8>>>,
    Error,
>) where F: Fn(Database, &Vec<u8>) -> Result<Option<Vec<u8>>, Error>
    requires
        forall|db: Database, key: &Vec<u8>| #[trigger] store.requires((db, key)),
    ensures
        stored matches Ok(values) ==> stored_by(store, db, keys_of(merged@), values@),
        stored matches Err(e) ==> read_fails(store, db, keys_of(merged@), e),
{
    let keys = merged.keys();
    read_keys(&keys, db, store)
}

/// What the commit of the runs of one postings-shaped database does: the runs
/// are merged with the union of the deltas, each merged entry is reconciled
/// with what the store holds under its key, and `outcome` is the writes that
/// this asks for, or the first failure on the way.
pub open spec fn postings_commit<F: Fn(Database, &Vec<u8>) -> Result<Option<Vec<u8>>, Error>>(
    runs: Seq<Seq<(Seq<u8>, Seq<u8>)>>,
    db: Database,
    store: &F,
    outcome: Result<Seq<WriteOpView>, Error>,
) -> bool {
    ||| outcome is Err && merge_fails_with(
        runs,
        merge_of_kind(MergeKind::DelAddBitmapUnion),
        outcome->Err_0,
    )
    ||| exists|merged: Seq<(Seq<u8>, Seq<u8>)>|
        #![trigger is_merge_of(merged, runs, merge_of_kind(MergeKind::DelAddBitmapUnion))]
        {
            &&& is_merge_of(merged, runs, merge_of_kind(MergeKind::DelAddBitmapUnion))
            &&& {
                ||| outcome is Err && read_fails(store, db, keys_of(merged), outcome->Err_0)
                ||| exists|stored: Seq<Option<Vec<u8>>>|
                    #![trigger stored_by(store, db, keys_of(merged), stored)]
                    {
                        &&& stored_by(store, db, keys_of(merged), stored)
                        &&& match postings_changes_spec(merged, stored_values_view(stored)) {
                            Ok(changes) => outcome == Ok::<Seq<WriteOpView>, Error>(
                                writes_of(keys_of(merged), changes),
                            ),
                            Err(e) => outcome == Err::<Seq<WriteOpView>, Error>(e),
                        }
                    }
            }
        }
}

/// The writes of a result, as mathematics sees them.
pub open spec fn outcome_view(writes: Result<Vec<WriteOp>, Error>) -> Result<
    Seq<WriteOpView>,
    Error,
> {
    match writes {
        Ok(ops) => Ok(writes_view(ops@)),
        Err(e) => Err(e),
    }
}

/// Commits the runs of one postings-shaped database.
pub fn commit_postings<F>(runs: &Vec<SortedRun>, db: Database, store: &F) -> (writes: Result<
    Vec<WriteOp>,
    Error,
>) where F: Fn(Database, &Vec<u8>) -> Result<Option<Vec<u8>>, Error>
    requires
        forall|r: int| 0 <= r < runs@.len() ==> (#[trigger] runs@[r]).wf(),
        forall|db: Database, key: &Vec<u8>| #[trigger] store.requires((db, key)),
    ensures
        postings_commit(runs_view(runs@), db, store, outcome_view(writes)),
{
    let merged = match merge_runs(runs, MergeKind::DelAddBitmapUnion) {
        Ok(merged) => merged,
        Err(e) => {
            return Err(e);
        },
    };
    assert(is_merge_of(merged@, runs_view(runs@), merge_of_kind(MergeKind::DelAddBitmapUnion)));
    let stored = match read_stored(&merged, db, store) {
        Ok(stored) => stored,
        Err(e) => {
            return Err(e);
        },
    };
    assert(stored_by(store, db, keys_of(merged@), stored@));
    assert(stored@.len() == merged@.len()) by {
        let keys = choose|keys: Seq<Vec<u8>>|
            #[trigger] reads_by(store, db, keys_of(merged@), keys, stored@);
    }
    write_entries_into_database(&merged, &stored)
}

/// What the commit of the runs of one database of single values does: the
/// runs are merged so that the first value of a key wins, and `outcome` is
/// the writes that the merged deltas ask for, or the first failure on the
/// way.
pub open spec fn values_commit(
    runs: Seq<Seq<(Seq<u8>, Seq<u8>)>>,
    outcome: Result<Seq<WriteOpView>, Error>,
) -> bool {
    ||| outcome is Err && merge_fails_with(
        runs,
        merge_of_kind(MergeKind::KeepFirst),
        outcome->Err_0,
    )
    ||| exists|merged: Seq<(Seq<u8>, Seq<u8>)>|
        #![trigger is_merge_of(merged, runs, merge_of_kind(MergeKind::KeepFirst))]
        {
            &&& is_merge_of(merged, runs, merge_of_kind(MergeKind::KeepFirst))
            &&& match value_changes_spec(merged) {
                Ok(changes) => outcome == Ok::<Seq<WriteOpView>, Error>(
                    writes_of(keys_of(merged), changes),
                ),
                Err(e) => outcome == Err::<Seq<WriteOpView>, Error>(e),
            }
        }
}

/// Commits the runs of one database of single values.
pub fn commit_values(runs: &Vec<SortedRun>) -> (writes: Result<Vec<WriteOp>, Error>)
    requires
        forall|r: int| 0 <= r < runs@.len() ==> (#[trigger] runs@[r]).wf(),
    ensures
        values_commit(runs_view(runs@), outcome_view(writes)),
{
    let merged = match merge_runs(runs, MergeKind::KeepFirst) {
        Ok(merged) => merged,
        Err(e) => {
            return Err(e);
        },
    };
    assert(is_merge_of(merged@, runs_view(runs@), merge_of_kind(MergeKind::KeepFirst)));
    write_values_into_database(&merged)
}

/// The set of document ids that the store holds under the empty key of a
/// database: none where it holds nothing.
pub open spec fn held_docids(found: Result<Option<Vec<u8>>, Error>) -> Result<Set<u32>, Error> {
    match found {
        Err(e) => Err(e),
        Ok(None) => Ok(Set::empty()),
        Ok(Some(bytes)) => match decode_docids_spec(bytes@) {
            Some(set) => Ok(set),
            None => Err(Error::Decoding),
        },
    }
}

/// What reading a set of document ids from the store does: one lookup of the
/// empty key of the database `db`.
pub open spec fn docids_read<F: Fn(Database, &Vec<u8>) -> Result<Option<Vec<u8>>, Error>>(
    store: &F,
    db: Database,
    outcome: Result<Set<u32>, Error>,
) -> bool {
    exists|key: Vec<u8>, found: Result<Option<Vec<u8>>, Error>|
        #![trigger store.ensures((db, &key), found)]
        key@.len() == 0 && store.ensures((db, &key), found) && outcome == held_docids(found)
}

/// The result of reading a set of document ids, as mathematics sees it.
pub open spec fn docids_outcome(read: Result<DocIds, Error>) -> Result<Set<u32>, Error> {
    match read {
        Ok(ids) => Ok(ids@),
        Err(e) => Err(e),
    }
}

/// Reads the set of document ids that the store holds under the empty key of
/// the database `db`.
pub fn read_docids<F>(db: Database, store: &F) -> (read: Result<DocIds, Error>) where
    F: Fn(Database, &Vec<u8>) -> Result<Option<Vec<u8>>, Error>,

    requires
        forall|db: Database, key: &Vec<u8>| #[trigger] store.requires((db, key)),
    ensures
        docids_read(store, db, docids_outcome(read)),
{
    let key: Vec<u8> = Vec::new();
    let found = store(db, &key);
    assert(store.ensures((db, &key), found));
    match found {
        Err(e) => Err(e),
        Ok(None) => Ok(DocIds::new()),
        Ok(Some(bytes)) => decode_docids(bytes.as_slice()),
    }
}

/// What the commit of the runs of the documents does: the runs are merged so
/// that the latest record of a document wins, the ids of the documents are
/// read from the store, and `plan` is what the merged records ask for.
pub open spec fn documents_commit<F: Fn(Database, &Vec<u8>) -> Result<Option<Vec<u8>>, Error>>(
    runs: Seq<Seq<(Seq<u8>, Seq<u8>)>>,
    store: &F,
    plan: DocumentsPlan,
) -> bool {
    exists|merged: Seq<(Seq<u8>, Seq<u8>)>, docids: Set<u32>|
        #![trigger is_merge_of(merged, runs, merge_of_kind(MergeKind::KeepLatest)), docids_read(store, Database::DocumentsIds, Ok::<Set<u32>, Error>(docids))]
        {
            &&& is_merge_of(merged, runs, merge_of_kind(MergeKind::KeepLatest))
            &&& docids_read(store, Database::DocumentsIds, Ok::<Set<u32>, Error>(docids))
            &&& document_changes_spec(merged) is Ok
            &&& plan_matches(plan, docids, document_changes_spec(merged).unwrap())
        }
}

/// The commit of the runs of the documents fails with `error`: the merge
/// fails with it, or the read of the ids of the documents, or a merged record.
pub open spec fn documents_commit_fails<
    F: Fn(Database, &Vec<u8>) -> Result<Option<Vec<u8>>, Error>,
>(runs: Seq<Seq<(Seq<u8>, Seq<u8>)>>, store: &F, error: Error) -> bool {
    ||| merge_fails_with(runs, merge_of_kind(MergeKind::KeepLatest), error)
    ||| docids_read(store, Database::DocumentsIds, Err::<Set<u32>, Error>(error))
    ||| exists|merged: Seq<(Seq<u8>, Seq<u8>)>|
        #![trigger is_merge_of(merged, runs, merge_of_kind(MergeKind::KeepLatest))]
        is_merge_of(merged, runs, merge_of_kind(MergeKind::KeepLatest)) && document_changes_spec(
            merged,
        ) == Err::<Seq<crate::documents::DocumentChangeView>, Error>(error)
}

/// Commits the runs of the documents.
pub fn commit_documents<F>(runs: &Vec<SortedRun>, store: &F) -> (plan: Result<
    DocumentsPlan,
    Error,
>) where F: Fn(Database, &Vec<u8>) -> Result<Option<Vec<u8>>, Error>
    requires
        forall|r: int| 0 <= r < runs@.len() ==> (#[trigger] runs@[r]).wf(),
        forall|db: Database, key: &Vec<u8>| #[trigger] store.requires((db, key)),
    ensures
        plan matches Ok(p) ==> documents_commit(runs_view(runs@), store, p),
        plan matches Err(e) ==> documents_commit_fails(runs_view(runs@), store, e),
{
    let merged = match merge_runs(runs, MergeKind::KeepLatest) {
        Ok(merged) => merged,
        Err(e) => {
            return Err(e);
        },
    };
    let docids = match read_docids(Database::DocumentsIds, store) {
        Ok(docids) => docids,
        Err(e) => {
            return Err(e);
        },
    };
    let ghost before = docids@;
    let plan = write_documents(&merged, docids);
    proof {
        assert(is_merge_of(merged@, runs_view(runs@), merge_of_kind(MergeKind::KeepLatest)));
        assert(docids_read(store, Database::DocumentsIds, Ok::<Set<u32>, Error>(before)));
    }
    plan
}

/// What the commit of the runs of the geo points does: the runs are merged so
/// that the first value of a document wins, the documents with a position are
/// read from the store, and `plan` is what the merged entries ask for.
pub open spec fn geo_commit<F: Fn(Database, &Vec<u8>) -> Result<Option<Vec<u8>>, Error>>(
    runs: Seq<Seq<(Seq<u8>, Seq<u8>)>>,
    store: &F,
    plan: GeoPlan,
) -> bool {
    exists|merged: Seq<(Seq<u8>, Seq<u8>)>, docids: Set<u32>|
        #![trigger is_merge_of(merged, runs, merge_of_kind(MergeKind::KeepFirst)), docids_read(store, Database::GeoFacetedDocumentsIds, Ok::<Set<u32>, Error>(docids))]
        {
            &&& is_merge_of(merged, runs, merge_of_kind(MergeKind::KeepFirst))
            &&& docids_read(store, Database::GeoFacetedDocumentsIds, Ok::<Set<u32>, Error>(docids))
            &&& geo_ops_spec(merged) == Ok::<Seq<crate::geo::GeoOpView>, Error>(
                geo_ops_view(plan.ops@),
            )
            &&& plan.geo_faceted_docids@ == faceted_after(docids, geo_ops_view(plan.ops@))
        }
}

/// The commit of the runs of the geo points fails with `error`: the merge
/// fails with it, or the read of the documents with a position, or a merged
/// entry.
pub open spec fn geo_commit_fails<F: Fn(Database, &Vec<u8>) -> Result<Option<Vec<u8>>, Error>>(
    runs: Seq<Seq<(Seq<u8>, Seq<u8>)>>,
    store: &F,
    error: Error,
) -> bool {
    ||| merge_fails_with(runs, merge_of_kind(MergeKind::KeepFirst), error)
    ||| docids_read(store, Database::GeoFacetedDocumentsIds, Err::<Set<u32>, Error>(error))
    ||| exists|merged: Seq<(Seq<u8>, Seq<u8>)>|
        #![trigger is_merge_of(merged, runs, merge_of_kind(MergeKind::KeepFirst))]
        is_merge_of(merged, runs, merge_of_kind(MergeKind::KeepFirst)) && geo_ops_spec(merged)
            == Err::<Seq<crate::geo::GeoOpView>, Error>(error)
}

/// Commits the runs of the geo points.
pub fn commit_geo_points<F>(runs: &Vec<SortedRun>, store: &F) -> (plan: Result<GeoPlan, Error>) where
    F: Fn(Database, &Vec<u8>) -> Result<Option<Vec<u8>>, Error>,

    requires
        forall|r: int| 0 <= r < runs@.len() ==> (#[trigger] runs@[r]).wf(),
        forall|db: Database, key: &Vec<u8>| #[trigger] store.requires((db, key)),
    ensures
        plan matches Ok(p) ==> geo_commit(runs_view(runs@), store, p),
        plan matches Err(e) ==> geo_commit_fails(runs_view(runs@), store, e),
{
    let merged = match merge_runs(runs, MergeKind::KeepFirst) {
        Ok(merged) => merged,
        Err(e) => {
            return Err(e);
        },
    };
    let docids = match read_docids(Database::GeoFacetedDocumentsIds, store) {
        Ok(docids) => docids,
        Err(e) => {
            return Err(e);
        },
    };
    let ghost before = docids@;
    let plan = write_geo_points(&merged, docids);
    proof {
        assert(is_merge_of(merged@, runs_view(runs@), merge_of_kind(MergeKind::KeepFirst)));
        assert(docids_read(store, Database::GeoFacetedDocumentsIds, Ok::<Set<u32>, Error>(before)));
    }
    plan
}

/// The keys of the pairs of script and language of a sequence of entries.
pub open spec fn pair_keys(entries: Seq<ScriptLanguageDelta>) -> Seq<Seq<u8>> {
    entries.map_values(
        |entry: ScriptLanguageDelta| script_language_key_spec(entry.script, entry.language),
    )
}

/// The changes that what the batches found asks for, one per pair;
/// `stored[i]` is what the store holds for the pair of entry `i`. Fails with
/// the failure of the first pair that fails.
pub open spec fn script_language_changes_spec(
    entries: Seq<ScriptLanguageDelta>,
    stored: Seq<Option<Seq<u8>>>,
) -> Result<Seq<ChangeView>, Error>
    decreases entries.len(),
{
    if entries.len() == 0 || stored.len() != entries.len() {
        Ok(Seq::empty())
    } else {
        match script_language_changes_spec(entries.drop_last(), stored.drop_last()) {
            Err(e) => Err(e),
            Ok(before) => match script_language_spec(
                stored.last(),
                entries.last().deletion@,
                entries.last().addition@,
            ) {
                Err(e) => Err(e),
                Ok(change) => Ok(before.push(change)),
            },
        }
    }
}

/// What the commit of the pairs of script and language of a group does: what
/// the batches found is taken together pair by pair, each pair is reconciled
/// with what the store holds for it, and `outcome` is the writes that this
/// asks for, or the first failure on the way.
pub open spec fn script_languages_commit<
    F: Fn(Database, &Vec<u8>) -> Result<Option<Vec<u8>>, Error>,
>(entries: Seq<ScriptLanguageDelta>, store: &F, outcome: Result<Seq<WriteOpView>, Error>) -> bool {
    exists|combined: Seq<ScriptLanguageDelta>|
        #![trigger combines(combined, entries)]
        {
            &&& combines(combined, entries)
            &&& {
                ||| outcome is Err && read_fails(
                    store,
                    Database::ScriptLanguageDocids,
                    pair_keys(combined),
                    outcome->Err_0,
                )
                ||| exists|stored: Seq<Option<Vec<u8>>>|
                    #![trigger stored_by(store, Database::ScriptLanguageDocids, pair_keys(combined), stored)]
                    {
                        &&& stored_by(
                            store,
                            Database::ScriptLanguageDocids,
                            pair_keys(combined),
                            stored,
                        )
                        &&& match script_language_changes_spec(
                            combined,
                            stored_values_view(stored),
                        ) {
                            Ok(changes) => outcome == Ok::<Seq<WriteOpView>, Error>(
                                writes_of(pair_keys(combined), changes),
                            ),
                            Err(e) => outcome == Err::<Seq<WriteOpView>, Error>(e),
                        }
                    }
            }
        }
}

/// Pairs that fail among the first `n` fail in the same way as a whole.
proof fn lemma_script_language_failure_stays(
    entries: Seq<ScriptLanguageDelta>,
    stored: Seq<Option<Seq<u8>>>,
    n: int,
)
    requires
        stored.len() == entries.len(),
        0 <= n <= entries.len(),
        script_language_changes_spec(entries.take(n), stored.take(n)) is Err,
    ensures
        script_language_changes_spec(entries, stored) == script_language_changes_spec(
            entries.take(n),
            stored.take(n),
        ),
    decreases entries.len() - n,
{
    if n == entries.len() {
        assert(entries.take(n) =~= entries);
        assert(stored.take(n) =~= stored);
    } else {
        assert(entries.take(n + 1).drop_last() =~= entries.take(n));
        assert(stored.take(n + 1).drop_last() =~= stored.take(n));
        lemma_script_language_failure_stays(entries, stored, n + 1);
    }
}

/// There is one change per pair.
proof fn lemma_script_language_changes_len(
    entries: Seq<ScriptLanguageDelta>,
    stored: Seq<Option<Seq<u8>>>,
)
    requires
        stored.len() == entries.len(),
        script_language_changes_spec(entries, stored) is Ok,
    ensures
        script_language_changes_spec(entries, stored).unwrap().len() == entries.len(),
    decreases entries.len(),
{
    if entries.len() > 0 {
        lemma_script_language_changes_len(entries.drop_last(), stored.drop_last());
    }
}

/// Commits the pairs of script and language of a group.
pub fn commit_script_languages<F>(entries: Vec<ScriptLanguageDelta>, store: &F) -> (writes: Result<
    Vec<WriteOp>,
    Error,
>) where F: Fn(Database, &Vec<u8>) -> Result<Option<Vec<u8>>, Error>
    requires
        forall|db: Database, key: &Vec<u8>| #[trigger] store.requires((db, key)),
    ensures
        script_languages_commit(entries@, store, outcome_view(writes)),
{
    let combined = combine_script_languages(entries);
    let ghost pairs = combined@;
    let mut keys: Vec<Vec<u8>> = Vec::new();
    let mut i: usize = 0;
    while i < combined.len()
        invariant
            i <= combined@.len(),
            keys@.len() == i,
            forall|k: int|
                0 <= k < i ==> (#[trigger] keys@[k])@ == script_language_key_spec(
                    combined@[k].script,
                    combined@[k].language,
                ),
        decreases combined@.len() - i,
    {
        keys.push(script_language_key(combined[i].script, combined[i].language));
        i += 1;
    }
    assert(keys_view(keys@) =~= pair_keys(pairs));
    let stored = match read_keys(&keys, Database::ScriptLanguageDocids, store) {
        Ok(stored) => stored,
        Err(e) => {
            return Err(e);
        },
    };
    proof {
        assert(stored_by(store, Database::ScriptLanguageDocids, pair_keys(pairs), stored@));
        let witness = choose|witness: Seq<Vec<u8>>|
            #[trigger] reads_by(
                store,
                Database::ScriptLanguageDocids,
                pair_keys(pairs),
                witness,
                stored@,
            );
        assert(stored@.len() == pairs.len());
    }
    let ghost held = stored_values_view(stored@);
    let mut ops: Vec<WriteOp> = Vec::new();
    let mut i: usize = 0;
    assert(writes_view(ops@) =~= Seq::<WriteOpView>::empty());
    while i < combined.len()
        invariant
            i <= combined@.len(),
            pairs == combined@,
            held == stored_values_view(stored@),
            held.len() == pairs.len(),
            stored@.len() == pairs.len(),
            keys_view(keys@) == pair_keys(pairs),
            combines(pairs, entries@),
            stored_by(store, Database::ScriptLanguageDocids, pair_keys(pairs), stored@),
            script_language_changes_spec(pairs.take(i as int), held.take(i as int)) is Ok,
            writes_view(ops@) == writes_of(
                pair_keys(pairs.take(i as int)),
                script_language_changes_spec(pairs.take(i as int), held.take(i as int)).unwrap(),
            ),
        decreases combined@.len() - i,
    {
        let found: Option<&[u8]> = match &stored[i] {
            Some(bytes) => Some(bytes.as_slice()),
            None => None,
        };
        proof {
            assert(pairs.take(i + 1).drop_last() =~= pairs.take(i as int));
            assert(held.take(i + 1).drop_last() =~= held.take(i as int));
            assert(pairs.take(i + 1).last() == pairs[i as int]);
            assert(held.take(i + 1).last() == held[i as int]);
            assert(crate::reconcile::stored_view(found) == held[i as int]);
            assert(pair_keys(pairs.take(i + 1)).drop_last() =~= pair_keys(pairs.take(i as int)));
            assert(keys_view(keys@)[i as int] == keys@[i as int]@);
        }
        match script_language_change(found, &combined[i].deletion, &combined[i].addition) {
            Ok(change) => {
                proof {
                    let all = script_language_changes_spec(
                        pairs.take(i + 1),
                        held.take(i + 1),
                    ).unwrap();
                    assert(all.drop_last() =~= script_language_changes_spec(
                        pairs.take(i as int),
                        held.take(i as int),
                    ).unwrap());
                    assert(all.last() == change@);
                    lemma_script_language_changes_len(pairs.take(i + 1), held.take(i + 1));
                }
                crate::reconcile::push_write(&mut ops, keys[i].as_slice(), change);
            },
            Err(e) => {
                proof {
                    lemma_script_language_failure_stays(pairs, held, i + 1);
                }
                return Err(e);
            },
        }
        i += 1;
    }
    proof {
        assert(pairs.take(i as int) =~= pairs);
        assert(held.take(i as int) =~= held);
    }
    Ok(ops)
}

/// The number under which the store holds an embedder: one byte.
pub open spec fn embedder_index_of(found: Result<Option<Vec<u8>>, Error>) -> Result<u8, Error> {
    match found {
        Err(e) => Err(e),
        Ok(None) => Err(Error::DatabaseMissingEntry(Database::EmbedderCategoryId)),
        Ok(Some(bytes)) => if bytes@.len() == 1 {
            Ok(bytes@[0])
        } else {
            Err(Error::Decoding)
        },
    }
}

/// What reading the number of an embedder does: one lookup of the name of the
/// embedder. An embedder that the store does not know is a fault of the
/// program.
pub open spec fn embedder_read<F: Fn(Database, &Vec<u8>) -> Result<Option<Vec<u8>>, Error>>(
    store: &F,
    name: Seq<u8>,
    outcome: Result<u8, Error>,
) -> bool {
    exists|key: Vec<u8>, found: Result<Option<Vec<u8>>, Error>|
        #![trigger store.ensures((Database::EmbedderCategoryId, &key), found)]
        key@ == name && store.ensures((Database::EmbedderCategoryId, &key), found) && outcome
            == embedder_index_of(found)
}

/// Reads the number under which the store holds the embedder `name`.
pub fn read_embedder_index<F>(name: &str, store: &F) -> (index: Result<u8, Error>) where
    F: Fn(Database, &Vec<u8>) -> Result<Option<Vec<u8>>, Error>,

    requires
        forall|db: Database, key: &Vec<u8>| #[trigger] store.requires((db, key)),
    ensures
        embedder_read(store, name.spec_bytes(), index),
{
    let key = slice_to_vec(name.as_bytes());
    let found = store(Database::EmbedderCategoryId, &key);
    assert(store.ensures((Database::EmbedderCategoryId, &key), found));
    match found {
        Err(e) => Err(e),
        Ok(None) => Err(Error::DatabaseMissingEntry(Database::EmbedderCategoryId)),
        Ok(Some(bytes)) => if bytes.len() == 1 {
            Ok(bytes[0])
        } else {
            Err(Error::Decoding)
        },
    }
}

/// The number of the vector sub-index of an embedder and a slot.
pub open spec fn writer_index_spec(embedder_index: u8, slot: u8) -> u16 {
    (embedder_index * 256 + slot) as u16
}

/// The number of the vector sub-index that holds the slot `slot` of the
/// documents for the embedder with the number `embedder_index`.
pub fn writer_index(embedder_index: u8, slot: u8) -> (index: u16)
    ensures
        index == writer_index_spec(embedder_index, slot),
{
    (embedder_index as u16) * 256 + (slot as u16)
}

/// What the commit of the runs of the vector points of one embedder does:
/// each of the three streams is merged so that the first value of a key wins,
/// and `operations` is what the merged entries ask for.
pub open spec fn vectors_commit(
    removals: Seq<Seq<(Seq<u8>, Seq<u8>)>>,
    manual: Seq<Seq<(Seq<u8>, Seq<u8>)>>,
    embeddings: Seq<Seq<(Seq<u8>, Seq<u8>)>>,
    dimension: usize,
    outcome: Result<Seq<(u32, crate::vector_slots::VectorOpView)>, Error>,
) -> bool {
    let keep_first = merge_of_kind(MergeKind::KeepFirst);
    ||| outcome is Err && merge_fails_with(removals, keep_first, outcome->Err_0)
    ||| outcome is Err && merge_fails_with(manual, keep_first, outcome->Err_0)
    ||| outcome is Err && merge_fails_with(embeddings, keep_first, outcome->Err_0)
    ||| exists|
        first: Seq<(Seq<u8>, Seq<u8>)>,
        second: Seq<(Seq<u8>, Seq<u8>)>,
        third: Seq<(Seq<u8>, Seq<u8>)>,
    |
        #![trigger is_merge_of(first, removals, keep_first), is_merge_of(second, manual, keep_first), is_merge_of(third, embeddings, keep_first)]
        {
            &&& is_merge_of(first, removals, keep_first)
            &&& is_merge_of(second, manual, keep_first)
            &&& is_merge_of(third, embeddings, keep_first)
            &&& outcome == vector_operations_spec(first, third, second, dimension)
        }
}

/// The operations of a result, as mathematics sees them.
pub open spec fn operations_view(operations: Result<Vec<DocumentVectorOp>, Error>) -> Result<
    Seq<(u32, crate::vector_slots::VectorOpView)>,
    Error,
> {
    match operations {
        Ok(ops) => Ok(vector_ops_view(ops@)),
        Err(e) => Err(e),
    }
}

/// Commits the runs of the vector points of one embedder: the removals, the
/// vectors given by the user and the generated embeddings.
pub fn commit_vector_points(
    remove_vectors: &Vec<SortedRun>,
    manual_vectors: &Vec<SortedRun>,
    embeddings: &Vec<SortedRun>,
    expected_dimension: usize,
) -> (operations: Result<Vec<DocumentVectorOp>, Error>)
    requires
        forall|r: int| 0 <= r < remove_vectors@.len() ==> (#[trigger] remove_vectors@[r]).wf(),
        forall|r: int| 0 <= r < manual_vectors@.len() ==> (#[trigger] manual_vectors@[r]).wf(),
        forall|r: int| 0 <= r < embeddings@.len() ==> (#[trigger] embeddings@[r]).wf(),
    ensures
        vectors_commit(
            runs_view(remove_vectors@),
            runs_view(manual_vectors@),
            runs_view(embeddings@),
            expected_dimension,
            operations_view(operations),
        ),
{
    let ghost keep_first = merge_of_kind(MergeKind::KeepFirst);
    let first = match merge_runs(remove_vectors, MergeKind::KeepFirst) {
        Ok(merged) => merged,
        Err(e) => {
            return Err(e);
        },
    };
    let second = match merge_runs(manual_vectors, MergeKind::KeepFirst) {
        Ok(merged) => merged,
        Err(e) => {
            return Err(e);
        },
    };
    let third = match merge_runs(embeddings, MergeKind::KeepFirst) {
        Ok(merged) => merged,
        Err(e) => {
            return Err(e);
        },
    };
    proof {
        assert(is_merge_of(first@, runs_view(remove_vectors@), keep_first));
        assert(is_merge_of(second@, runs_view(manual_vectors@), keep_first));
        assert(is_merge_of(third@, runs_view(embeddings@), keep_first));
    }
    vector_operations(&first, &third, &second, expected_dimension)
}

/// The database that the deltas of the facet values of a shape are written
/// into.
pub open spec fn facet_values_database_spec(shape: ChunkShape) -> Option<Database> {
    match shape {
        ChunkShape::FieldIdDocidFacetNumbers => Some(Database::FieldIdDocidFacetF64s),
        ChunkShape::FieldIdDocidFacetStrings => Some(Database::FieldIdDocidFacetStrings),
        _ => None,
    }
}

/// The facet database whose merged stream goes to the facet tree updater.
pub open spec fn facets_database_spec(shape: ChunkShape) -> Option<Database> {
    match shape {
        ChunkShape::FieldIdFacetNumberDocids => Some(Database::FacetIdF64Docids),
        ChunkShape::FieldIdFacetStringDocids => Some(Database::FacetIdStringDocids),
        _ => None,
    }
}

/// Whether `words_fst` is the vocabulary after the commit of the runs of
/// words `runs`: the words that the index held, as `stored_words` gave them,
/// and the keys of the runs.
pub open spec fn vocabulary_commit<W: Fn() -> Result<fst::Set<Vec<u8>>, Error>>(
    runs: Seq<Seq<(Seq<u8>, Seq<u8>)>>,
    stored_words: &W,
    words_fst: fst::Set<Vec<u8>>,
) -> bool {
    exists|stored: fst::Set<Vec<u8>>|
        {
            &&& #[trigger] stored_words.ensures((), Ok(stored))
            &&& fst_keys(words_fst) == fst_keys(stored).union(keys_of_runs(runs))
        }
}

/// Whether `commit` is what the commit of the group `chunks` writes, given
/// what the store holds.
pub open spec fn commit_matches<
    F: Fn(Database, &Vec<u8>) -> Result<Option<Vec<u8>>, Error>,
    W: Fn() -> Result<fst::Set<Vec<u8>>, Error>,
>(commit: Commit, chunks: Seq<TypedChunk>, store: &F, stored_words: &W) -> bool {
    let shape = chunks[0].spec_shape();
    let first = runs_view(stream_runs(chunks, Stream::First));
    let second = runs_view(stream_runs(chunks, Stream::Second));
    let third = runs_view(stream_runs(chunks, Stream::Third));
    match commit {
        Commit::Documents(plan) => shape == ChunkShape::Documents && documents_commit(
            first,
            store,
            plan,
        ),
        Commit::Postings { database, writes } => postings_database_spec(shape) == Some(database)
            && postings_commit(first, database, store, Ok(writes_view(writes@))),
        Commit::WordDocids { word_docids, exact_word_docids, word_fid_docids, words_fst } => {
            &&& shape == ChunkShape::WordDocids
            &&& postings_commit(first, Database::WordDocids, store, Ok(writes_view(word_docids@)))
            &&& postings_commit(
                second,
                Database::ExactWordDocids,
                store,
                Ok(writes_view(exact_word_docids@)),
            )
            &&& postings_commit(
                third,
                Database::WordFidDocids,
                store,
                Ok(writes_view(word_fid_docids@)),
            )
            &&& vocabulary_commit(first + second, stored_words, words_fst)
        },
        Commit::FacetValues { database, writes } => facet_values_database_spec(shape) == Some(
            database,
        ) && values_commit(first, Ok(writes_view(writes@))),
        Commit::Facets { database, entries, normalized, data_size } => {
            &&& facets_database_spec(shape) == Some(database)
            &&& entries.wf()
            &&& is_merge_of(entries@, first, merge_of_kind(MergeKind::DelAddBitmapUnion))
            &&& data_size == data_size_spec(chunks)
            &&& shape == ChunkShape::FieldIdFacetNumberDocids ==> normalized is None
            &&& shape == ChunkShape::FieldIdFacetStringDocids ==> normalized is Some
                && normalized.unwrap().wf() && is_merge_of(
                normalized.unwrap()@,
                second,
                merge_of_kind(MergeKind::DelAddKeySetUnion),
            )
        },
        Commit::GeoPoints(plan) => shape == ChunkShape::GeoPoints && geo_commit(first, store, plan),
        Commit::VectorPoints { embedder_name, embedder_index, expected_dimension, operations } => {
            &&& shape == ChunkShape::VectorPoints
            &&& embedder_name@ == chunks[0].group().embedder
            &&& expected_dimension == chunks[0].group().dimension
            &&& embedder_read(
                store,
                vstd::utf8::encode_utf8(embedder_name@),
                Ok::<u8, Error>(embedder_index),
            )
            &&& vectors_commit(
                first,
                second,
                third,
                expected_dimension,
                Ok(vector_ops_view(operations@)),
            )
        },
        Commit::ScriptLanguageDocids(writes) => shape == ChunkShape::ScriptLanguageDocids
            && script_languages_commit(
            all_script_languages(chunks),
            store,
            Ok(writes_view(writes@)),
        ),
    }
}

/// Whether the commit of the group `chunks` fails with `error`, given what
/// the store holds: one of the steps on the way fails with it.
pub open spec fn commit_fails<
    F: Fn(Database, &Vec<u8>) -> Result<Option<Vec<u8>>, Error>,
    W: Fn() -> Result<fst::Set<Vec<u8>>, Error>,
>(chunks: Seq<TypedChunk>, store: &F, stored_words: &W, error: Error) -> bool {
    let shape = chunks[0].spec_shape();
    let first = runs_view(stream_runs(chunks, Stream::First));
    let second = runs_view(stream_runs(chunks, Stream::Second));
    let third = runs_view(stream_runs(chunks, Stream::Third));
    match shape {
        ChunkShape::Documents => documents_commit_fails(first, store, error),
        ChunkShape::WordDocids => {
            ||| postings_commit(first, Database::WordDocids, store, Err(error))
            ||| postings_commit(second, Database::ExactWordDocids, store, Err(error))
            ||| postings_commit(third, Database::WordFidDocids, store, Err(error))
            ||| stored_words.ensures((), Err(error))
        },
        ChunkShape::FieldIdDocidFacetNumbers | ChunkShape::FieldIdDocidFacetStrings => values_commit(
            first,
            Err(error),
        ),
        ChunkShape::FieldIdFacetNumberDocids => merge_fails_with(
            first,
            merge_of_kind(MergeKind::DelAddBitmapUnion),
            error,
        ),
        ChunkShape::FieldIdFacetStringDocids => {
            ||| merge_fails_with(first, merge_of_kind(MergeKind::DelAddBitmapUnion), error)
            ||| merge_fails_with(second, merge_of_kind(MergeKind::DelAddKeySetUnion), error)
        },
        ChunkShape::GeoPoints => geo_commit_fails(first, store, error),
        ChunkShape::VectorPoints => {
            ||| embedder_read(
                store,
                vstd::utf8::encode_utf8(chunks[0].group().embedder),
                Err::<u8, Error>(error),
            )
            ||| vectors_commit(first, second, third, chunks[0].group().dimension, Err(error))
        },
        ChunkShape::ScriptLanguageDocids => script_languages_commit(
            all_script_languages(chunks),
            store,
            Err(error),
        ),
        _ => postings_database_spec(shape) matches Some(database) && postings_commit(
            first,
            database,
            store,
            Err(error),
        ),
    }
}

/// Merging while ignoring the values fails on no key.
proof fn lemma_ignoring_values_never_fails(runs: Seq<Seq<(Seq<u8>, Seq<u8>)>>)
    ensures
        all_merges_ok(runs, merge_of_kind(MergeKind::IgnoreValues)),
{
}

/// The vocabulary after the commit of the runs of words `runs`: the keys of
/// the runs are merged into a set of words, which is united with the words
/// that the index holds.
pub fn merge_vocabulary<W>(runs: &Vec<SortedRun>, stored_words: &W) -> (words_fst: Result<
    fst::Set<Vec<u8>>,
    Error,
>) where W: Fn() -> Result<fst::Set<Vec<u8>>, Error>
    requires
        forall|r: int| 0 <= r < runs@.len() ==> (#[trigger] runs@[r]).wf(),
        stored_words.requires(()),
    ensures
        match words_fst {
            Ok(words_fst) => vocabulary_commit(runs_view(runs@), stored_words, words_fst),
            Err(e) => stored_words.ensures((), Err(e)),
        },
{
    proof {
        lemma_ignoring_values_never_fails(runs_view(runs@));
    }
    let words = match merge_runs(runs, MergeKind::IgnoreValues) {
        Ok(words) => words,
        Err(_) => {
            proof {
                assert(false);
            }
            SortedRun::new()
        },
    };
    let new = match merge_word_docids_reader_into_fst(&words) {
        Ok(new) => new,
        Err(e) => {
            proof {
                assert(false);
            }
            return Err(e);
        },
    };
    proof {
        lemma_keys_of_run(words@);
        assert(fst_keys(new) =~= keys_of_runs(runs_view(runs@)));
    }
    let stored = match stored_words() {
        Ok(stored) => stored,
        Err(e) => {
            return Err(e);
        },
    };
    match union_words_fst(&stored, &new) {
        Ok(words_fst) => Ok(words_fst),
        Err(e) => {
            proof {
                assert(false);
            }
            Err(e)
        },
    }
}

/// The runs of two streams, one behind the other.
proof fn lemma_runs_view_concat(first: Seq<SortedRun>, second: Seq<SortedRun>)
    ensures
        runs_view(first + second) == runs_view(first) + runs_view(second),
{
    assert(runs_view(first + second) =~= runs_view(first) + runs_view(second));
}

/// Writes a group of typed chunks into the database of the index that the
/// group is destined for: merges the chunks into one ordered stream per
/// database, reconciles the streams with what the store holds, and gives the
/// writes to make, with whether the database is one into which sets of
/// document ids are merged. A group of words also gives the vocabulary to
/// put: the union of the words that the index holds, which `stored_words`
/// reads, and the words of the group. Chunks that cannot all be merged
/// together are refused. Any failure on the way fails the whole commit, and
/// nothing is to be written.
pub fn write_typed_chunk_into_index<F, W>(
    typed_chunks: Vec<TypedChunk>,
    store: &F,
    stored_words: &W,
) -> (written: Result<(Commit, bool), Error>) where
    F: Fn(Database, &Vec<u8>) -> Result<Option<Vec<u8>>, Error>,
    W: Fn() -> Result<fst::Set<Vec<u8>>, Error>,

    requires
        chunks_wf(typed_chunks@),
        forall|db: Database, key: &Vec<u8>| #[trigger] store.requires((db, key)),
        stored_words.requires(()),
    ensures
        typed_chunks@.len() == 0 || !one_group(typed_chunks@) ==> written is Err && written->Err_0
            == Error::UnmergeableChunks,
        typed_chunks@.len() > 0 && one_group(typed_chunks@) ==> match written {
            Ok((commit, merged)) => merged == is_merged_database_spec(
                typed_chunks@[0].spec_shape(),
            ) && commit_matches(commit, typed_chunks@, store, stored_words),
            Err(e) => commit_fails(typed_chunks@, store, stored_words, e),
        },
{
    let streams = match split_group(typed_chunks) {
        Ok(streams) => streams,
        Err(e) => {
            return Err(e);
        },
    };
    let ghost chunks = typed_chunks@;
    let shape = streams.shape;
    let merged = is_merged_database(shape);
    let GroupStreams {
        shape: _,
        first,
        second,
        third,
        script_languages,
        data_size,
        expected_dimension,
        embedder_name,
    } = streams;
    match shape {
        ChunkShape::Documents => {
            match commit_documents(&first, store) {
                Ok(plan) => Ok((Commit::Documents(plan), merged)),
                Err(e) => Err(e),
            }
        },
        ChunkShape::FieldIdWordCountDocids
        | ChunkShape::WordPositionDocids
        | ChunkShape::WordPairProximityDocids
        | ChunkShape::FieldIdFacetExistsDocids
        | ChunkShape::FieldIdFacetIsNullDocids
        | ChunkShape::FieldIdFacetIsEmptyDocids => {
            let database = match shape {
                ChunkShape::FieldIdWordCountDocids => Database::FieldIdWordCountDocids,
                ChunkShape::WordPositionDocids => Database::WordPositionDocids,
                ChunkShape::WordPairProximityDocids => Database::WordPairProximityDocids,
                ChunkShape::FieldIdFacetExistsDocids => Database::FacetIdExistsDocids,
                ChunkShape::FieldIdFacetIsNullDocids => Database::FacetIdIsNullDocids,
                _ => Database::FacetIdIsEmptyDocids,
            };
            match commit_postings(&first, database, store) {
                Ok(writes) => Ok((Commit::Postings { database, writes }, merged)),
                Err(e) => Err(e),
            }
        },
        ChunkShape::WordDocids => {
            let word_docids = match commit_postings(&first, Database::WordDocids, store) {
                Ok(writes) => writes,
                Err(e) => {
                    return Err(e);
                },
            };
            let exact_word_docids = match commit_postings(
                &second,
                Database::ExactWordDocids,
                store,
            ) {
                Ok(writes) => writes,
                Err(e) => {
                    return Err(e);
                },
            };
            let word_fid_docids = match commit_postings(&third, Database::WordFidDocids, store) {
                Ok(writes) => writes,
                Err(e) => {
                    return Err(e);
                },
            };
            let mut all = first;
            let mut rest = second;
            proof {
                lemma_runs_view_concat(all@, rest@);
            }
            all.append(&mut rest);
            let words_fst = match merge_vocabulary(&all, stored_words) {
                Ok(words_fst) => words_fst,
                Err(e) => {
                    return Err(e);
                },
            };
            Ok(
                (
                    Commit::WordDocids { word_docids, exact_word_docids, word_fid_docids, words_fst },
                    merged,
                ),
            )
        },
        ChunkShape::FieldIdDocidFacetNumbers | ChunkShape::FieldIdDocidFacetStrings => {
            let database = match shape {
                ChunkShape::FieldIdDocidFacetNumbers => Database::FieldIdDocidFacetF64s,
                _ => Database::FieldIdDocidFacetStrings,
            };
            match commit_values(&first) {
                Ok(writes) => Ok((Commit::FacetValues { database, writes }, merged)),
                Err(e) => Err(e),
            }
        },
        ChunkShape::FieldIdFacetNumberDocids | ChunkShape::FieldIdFacetStringDocids => {
            let database = match shape {
                ChunkShape::FieldIdFacetNumberDocids => Database::FacetIdF64Docids,
                _ => Database::FacetIdStringDocids,
            };
            let entries = match merge_runs(&first, MergeKind::DelAddBitmapUnion) {
                Ok(entries) => entries,
                Err(e) => {
                    return Err(e);
                },
            };
            let normalized = match shape {
                ChunkShape::FieldIdFacetStringDocids => {
                    match merge_runs(&second, MergeKind::DelAddKeySetUnion) {
                        Ok(normalized) => Some(normalized),
                        Err(e) => {
                            return Err(e);
                        },
                    }
                },
                _ => None,
            };
            Ok((Commit::Facets { database, entries, normalized, data_size }, merged))
        },
        ChunkShape::GeoPoints => {
            match commit_geo_points(&first, store) {
                Ok(plan) => Ok((Commit::GeoPoints(plan), merged)),
                Err(e) => Err(e),
            }
        },
        ChunkShape::VectorPoints => {
            let embedder_index = match read_embedder_index(embedder_name.as_str(), store) {
                Ok(index) => index,
                Err(e) => {
                    return Err(e);
                },
            };
            match commit_vector_points(&first, &second, &third, expected_dimension) {
                Ok(operations) => Ok(
                    (
                        Commit::VectorPoints {
                            embedder_name,
                            embedder_index,
                            expected_dimension,
                            operations,
                        },
                        merged,
                    ),
                ),
                Err(e) => Err(e),
            }
        },
        ChunkShape::ScriptLanguageDocids => {
            match commit_script_languages(script_languages, store) {
                Ok(writes) => Ok((Commit::ScriptLanguageDocids(writes), merged)),
                Err(e) => Err(e),
            }
        },
    }
}

} // verus!

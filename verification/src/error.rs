//! What can go wrong while a batch is indexed or a query reads the index.

use vstd::prelude::*;

verus! {

/// The logical tables of the persisted index.
#[derive(Clone, Copy, Debug, PartialEq, Eq, Structural)]
pub enum Database {
    Documents,
    DocumentsIds,
    ExternalDocumentsIds,
    WordDocids,
    ExactWordDocids,
    WordPrefixDocids,
    ExactWordPrefixDocids,
    WordFidDocids,
    WordPrefixFidDocids,
    WordPositionDocids,
    WordPrefixPositionDocids,
    WordPairProximityDocids,
    WordPrefixPairProximityDocids,
    PrefixWordPairProximityDocids,
    FieldIdWordCountDocids,
    FacetIdF64Docids,
    FacetIdStringDocids,
    FacetIdExistsDocids,
    FacetIdIsNullDocids,
    FacetIdIsEmptyDocids,
    FieldIdDocidFacetF64s,
    FieldIdDocidFacetStrings,
    GeoFacetedDocumentsIds,
    ScriptLanguageDocids,
    EmbedderCategoryId,
    VectorPoints,
    WordsFst,
}

/// The failures of the indexing core.
#[derive(Debug, PartialEq, Eq)]
pub enum Error {
    /// Key or value bytes that do not have the form their table asks for.
    /// Fatal to the current run.
    Decoding,
    /// An entry that the state of the index promises is not there: a fault of
    /// the program, not of the user.
    DatabaseMissingEntry(Database),
    /// A document comes with more embeddings than one document may have.
    /// `document` is its external id.
    TooManyVectors { document: String, count: usize },
    /// Entries that were handed over as a sorted run are not in strictly
    /// ascending key order.
    UnorderedRun,
    /// Typed chunks of different groups were handed over as one group, or
    /// none at all.
    UnmergeableChunks,
}

} // verus!

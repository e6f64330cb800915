//! The document-indexing and read-time caching core of an embedded search
//! engine.
//!
//! A batch of documents becomes sorted, mergeable runs of postings; the runs
//! are merged, reconciled with what the persisted index holds by deleting and
//! adding, and committed in one write transaction. At query time a cache per
//! read transaction makes repeated lookups of postings cheap.
//!
//! The library decides and computes; it neither reads nor writes the store.
//! Whoever drives it hands it functions that read what the store holds, and
//! makes the writes that it asks for.
//!
//! - Sorted runs and their merge: [`lex`], [`sorted_run`], [`merge_functions`],
//!   [`merge`], [`streaming_merge`], [`merge_order`].
//! - Values: [`del_add`] for deltas, [`docids`] and [`postings`] for sets of
//!   document ids, [`key_set`] for sets of strings, [`record`] for documents,
//!   [`str_codec`] and [`be`] for keys.
//! - Typed chunks and their grouping: [`typed_chunk`], [`chunk_streams`].
//! - The extraction stage: [`extract`].
//! - The commit stage: [`commit`], with [`reconcile`], [`documents`], [`geo`],
//!   [`script_language`], [`words_fst`], [`vector_points`] and
//!   [`vector_slots`].
//! - The database cache: [`db_cache`], [`search_context`], [`interner`].
//! - [`vector_id`] for the ids of vector records, [`cell`] for the channel
//!   counts of a cell model, [`error`], [`helpers`], [`text`].

pub mod be;
pub mod cell;
pub mod chunk_streams;
pub mod commit;
pub mod db_cache;
pub mod del_add;
pub mod docids;
pub mod documents;
pub mod error;
pub mod extract;
pub mod geo;
pub mod helpers;
pub mod interner;
pub mod key_set;
pub mod lex;
pub mod merge;
pub mod merge_functions;
pub mod merge_order;
pub mod postings;
pub mod reconcile;
pub mod record;
pub mod script_language;
pub mod search_context;
pub mod sorted_run;
pub mod str_codec;
pub mod streaming_merge;
pub mod text;
pub mod typed_chunk;
pub mod vector_id;
pub mod vector_points;
pub mod vector_slots;
pub mod words_fst;

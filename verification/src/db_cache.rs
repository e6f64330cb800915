//! The database cache: what a read transaction has looked up in the persisted
//! store, memoized for the lifetime of that transaction.
//!
//! The store is a point-in-time snapshot for as long as the transaction
//! lives, so an entry, once made, is never invalidated. A cache belongs to
//! one transaction and is not to be handed to another.

use std::collections::HashMap;
use vstd::prelude::*;
use vstd::slice::slice_to_vec;

use crate::docids::DocIds;
use crate::words_fst::fst_keys;
use crate::error::{Database, Error};
use crate::merge_functions::{blobs_view, merge_values, merge_values_spec, MergeKind};
use crate::postings::{decode_docids, decode_docids_spec};

verus! {

broadcast use vstd::std_specs::hash::group_hash_axioms;

/// What a read transaction has looked up so far, one table per kind of key.
pub struct DatabaseCache {
    pub word_pair_proximity_docids: HashMap<u64, Option<Vec<u8>>>,
    pub word_prefix_pair_proximity_docids: HashMap<u64, Option<Vec<u8>>>,
    pub prefix_word_pair_proximity_docids: HashMap<u64, Option<Vec<u8>>>,
    pub word_docids: HashMap<u64, Option<Vec<u8>>>,
    pub exact_word_docids: HashMap<u64, Option<Vec<u8>>>,
    pub word_prefix_docids: HashMap<u64, Option<Vec<u8>>>,
    pub exact_word_prefix_docids: HashMap<u64, Option<Vec<u8>>>,
    pub word_position_docids: HashMap<u64, Option<Vec<u8>>>,
    pub word_prefix_position_docids: HashMap<u64, Option<Vec<u8>>>,
    pub word_positions: HashMap<u64, Vec<u16>>,
    pub word_prefix_positions: HashMap<u64, Vec<u16>>,
    pub word_fid_docids: HashMap<u64, Option<Vec<u8>>>,
    pub word_prefix_fid_docids: HashMap<u64, Option<Vec<u8>>>,
    pub word_fids: HashMap<u64, Vec<u16>>,
    pub word_prefix_fids: HashMap<u64, Vec<u16>>,
    pub words_fst: Option<fst::Set<Vec<u8>>>,
}

/// The tables of the cache.
#[derive(Clone, Copy, Debug, PartialEq, Eq, Structural)]
pub enum CacheTable {
    WordPairProximityDocids,
    WordPrefixPairProximityDocids,
    PrefixWordPairProximityDocids,
    WordDocids,
    ExactWordDocids,
    WordPrefixDocids,
    ExactWordPrefixDocids,
    WordPositionDocids,
    WordPrefixPositionDocids,
    WordPositions,
    WordPrefixPositions,
    WordFidDocids,
    WordPrefixFidDocids,
    WordFids,
    WordPrefixFids,
}

impl Default for DatabaseCache {
    fn default() -> (cache: DatabaseCache)
        ensures
            cache.is_empty(),
    {
        DatabaseCache::new()
    }
}

/// The bytes of a memoized value; `None` for a key that the store does not
/// hold.
pub open spec fn entry_view(entry: Option<Vec<u8>>) -> Option<Seq<u8>> {
    match entry {
        Some(bytes) => Some(bytes@),
        None => None,
    }
}

/// What a lookup of the store gave, as mathematics sees it.
pub open spec fn fetched_view(fetched: Result<Option<Vec<u8>>, Error>) -> Result<
    Option<Seq<u8>>,
    Error,
> {
    match fetched {
        Ok(entry) => Ok(entry_view(entry)),
        Err(e) => Err(e),
    }
}

/// Every entry of `before` is in `after`, unchanged.
pub open spec fn entries_kept(
    before: Map<u64, Option<Vec<u8>>>,
    after: Map<u64, Option<Vec<u8>>>,
) -> bool {
    forall|key: u64| #[trigger]
        before.contains_key(key) ==> after.contains_key(key) && after[key] == before[key]
}

/// What `get_or_fetch` does: on a hit the cache stays as it is and `raw` is
/// what it holds; on a miss `raw` is what one lookup of the store gave, and
/// the cache holds it from then on unless the lookup failed.
pub open spec fn looked_up<F: Fn(Database, &Vec<u8>) -> Result<Option<Vec<u8>>, Error>>(
    before: Map<u64, Option<Vec<u8>>>,
    after: Map<u64, Option<Vec<u8>>>,
    cache_key: u64,
    db: Database,
    store_key: &Vec<u8>,
    store: &F,
    raw: Result<Option<Seq<u8>>, Error>,
) -> bool {
    &&& entries_kept(before, after)
    &&& before.contains_key(cache_key) ==> after == before && raw == Ok::<
        Option<Seq<u8>>,
        Error,
    >(entry_view(before[cache_key]))
    &&& !before.contains_key(cache_key) ==> exists|fetched: Result<Option<Vec<u8>>, Error>|
        {
            &&& #[trigger] store.ensures((db, store_key), fetched)
            &&& raw == fetched_view(fetched)
            &&& fetched matches Ok(entry) ==> after == before.insert(cache_key, entry)
            &&& fetched is Err ==> after == before
        }
}

/// Gives what the cache holds under `cache_key`. On a miss, and only then,
/// looks `store_key` up in the database `db` of the store, once, and
/// memoizes what the store gave, also where it gave nothing. A lookup that
/// fails is handed on and nothing is memoized.
pub fn get_or_fetch<F>(
    cache: &mut HashMap<u64, Option<Vec<u8>>>,
    cache_key: u64,
    db: Database,
    store_key: &Vec<u8>,
    store: &F,
) -> (value: Result<Option<Vec<u8>>, Error>) where
    F: Fn(Database, &Vec<u8>) -> Result<Option<Vec<u8>>, Error>,

    requires
        store.requires((db, store_key)),
    ensures
        looked_up(
            old(cache)@,
            final(cache)@,
            cache_key,
            db,
            store_key,
            store,
            fetched_view(value),
        ),
{
    match cache.get(&cache_key) {
        Some(entry) => {
            let value = match entry {
                Some(bytes) => Some(slice_to_vec(bytes.as_slice())),
                None => None,
            };
            return Ok(value);
        },
        None => {},
    }
    let fetched = store(db, store_key);
    match fetched {
        Ok(entry) => {
            let value = match &entry {
                Some(bytes) => Some(slice_to_vec(bytes.as_slice())),
                None => None,
            };
            cache.insert(cache_key, entry);
            assert(store.ensures((db, store_key), fetched));
            Ok(value)
        },
        Err(e) => {
            assert(store.ensures((db, store_key), fetched));
            Err(e)
        },
    }
}

/// Two consecutive lookups of one key touch the store at most once: after a
/// lookup that did not fail the key is memoized, and a lookup of a memoized
/// key leaves the cache as it is and gives what the cache holds.
pub proof fn lemma_second_lookup_hits<F: Fn(Database, &Vec<u8>) -> Result<Option<Vec<u8>>, Error>>(
    before: Map<u64, Option<Vec<u8>>>,
    between: Map<u64, Option<Vec<u8>>>,
    after: Map<u64, Option<Vec<u8>>>,
    cache_key: u64,
    db: Database,
    store_key: &Vec<u8>,
    store: &F,
    first: Result<Option<Seq<u8>>, Error>,
    second: Result<Option<Seq<u8>>, Error>,
)
    requires
        looked_up(before, between, cache_key, db, store_key, store, first),
        looked_up(between, after, cache_key, db, store_key, store, second),
        first is Ok,
    ensures
        between.contains_key(cache_key),
        after == between,
        second == first,
{
}

/// The set of document ids that a memoized value stores.
pub open spec fn decoded(raw: Result<Option<Seq<u8>>, Error>) -> Result<Option<Set<u32>>, Error> {
    match raw {
        Err(e) => Err(e),
        Ok(None) => Ok(None),
        Ok(Some(bytes)) => match decode_docids_spec(bytes) {
            Some(set) => Ok(Some(set)),
            None => Err(Error::Decoding),
        },
    }
}

/// The result of a lookup of document ids, as mathematics sees it.
pub open spec fn docids_view(found: Result<Option<DocIds>, Error>) -> Result<
    Option<Set<u32>>,
    Error,
> {
    match found {
        Ok(Some(ids)) => Ok(Some(ids@)),
        Ok(None) => Ok(None),
        Err(e) => Err(e),
    }
}

/// Reads the document ids of a memoized value.
fn decode_entry(raw: Result<Option<Vec<u8>>, Error>) -> (found: Result<Option<DocIds>, Error>)
    ensures
        docids_view(found) == decoded(fetched_view(raw)),
{
    match raw {
        Err(e) => Err(e),
        Ok(None) => Ok(None),
        Ok(Some(bytes)) => match decode_docids(bytes.as_slice()) {
            Ok(ids) => Ok(Some(ids)),
            Err(e) => Err(e),
        },
    }
}

/// How many document ids a memoized value stores.
pub open spec fn decoded_len(raw: Result<Option<Seq<u8>>, Error>) -> Result<Option<u64>, Error> {
    match raw {
        Err(e) => Err(e),
        Ok(None) => Ok(None),
        Ok(Some(bytes)) => if bytes.len() % 4 == 0 {
            Ok(Some((bytes.len() / 4) as u64))
        } else {
            Err(Error::Decoding)
        },
    }
}

/// The number of document ids under `cache_key`, from the cache or on a miss
/// from one lookup of the store, without reading the ids themselves.
pub fn get_value_len<F>(
    cache: &mut HashMap<u64, Option<Vec<u8>>>,
    cache_key: u64,
    db: Database,
    db_key: &Vec<u8>,
    store: &F,
) -> (found: Result<Option<u64>, Error>) where
    F: Fn(Database, &Vec<u8>) -> Result<Option<Vec<u8>>, Error>,

    requires
        store.requires((db, db_key)),
    ensures
        exists|raw: Result<Option<Seq<u8>>, Error>|
            #[trigger] looked_up(old(cache)@, final(cache)@, cache_key, db, db_key, store, raw)
                && found == decoded_len(raw),
{
    let raw = get_or_fetch(cache, cache_key, db, db_key, store);
    assert(looked_up(old(cache)@, cache@, cache_key, db, db_key, store, fetched_view(raw)));
    match raw {
        Err(e) => Err(e),
        Ok(None) => Ok(None),
        Ok(Some(bytes)) => if bytes.len() % 4 == 0 {
            Ok(Some((bytes.len() / 4) as u64))
        } else {
            Err(Error::Decoding)
        },
    }
}

/// The values that the store holds among what it gave for a list of keys.
pub open spec fn present(found: Seq<Option<Seq<u8>>>) -> Seq<Seq<u8>>
    decreases found.len(),
{
    if found.len() == 0 {
        Seq::empty()
    } else {
        match found.last() {
            Some(bytes) => present(found.drop_last()).push(bytes),
            None => present(found.drop_last()),
        }
    }
}

/// What is memoized for a list of keys: nothing where the store holds none of
/// them, and else the union of the sets of document ids that it holds under
/// them.
pub open spec fn combined(found: Seq<Option<Seq<u8>>>) -> Result<Option<Seq<u8>>, Error> {
    if present(found).len() == 0 {
        Ok(None)
    } else {
        match merge_values_spec(MergeKind::BitmapUnion, present(found)) {
            Ok(bytes) => Ok(Some(bytes)),
            Err(e) => Err(e),
        }
    }
}

/// What the store gave for each key of a list, as mathematics sees it.
pub open spec fn found_view(fetched: Seq<Result<Option<Vec<u8>>, Error>>) -> Seq<Option<Seq<u8>>> {
    fetched.map_values(
        |one: Result<Option<Vec<u8>>, Error>|
            match one {
                Ok(entry) => entry_view(entry),
                Err(_) => None,
            },
    )
}

/// What `get_value_from_keys` does: on a hit the cache stays as it is and
/// `raw` is what it holds; on a miss the keys were looked up in order, one
/// lookup each, up to the first lookup that failed; `raw` is that failure, or
/// the union of what the store holds, and the cache holds it from then on
/// unless anything failed.
pub open spec fn looked_up_keys<F: Fn(Database, &Vec<u8>) -> Result<Option<Vec<u8>>, Error>>(
    before: Map<u64, Option<Vec<u8>>>,
    after: Map<u64, Option<Vec<u8>>>,
    cache_key: u64,
    db: Database,
    db_keys: Seq<Vec<u8>>,
    store: &F,
    raw: Result<Option<Seq<u8>>, Error>,
) -> bool {
    &&& entries_kept(before, after)
    &&& before.contains_key(cache_key) ==> after == before && raw == Ok::<
        Option<Seq<u8>>,
        Error,
    >(entry_view(before[cache_key]))
    &&& !before.contains_key(cache_key) ==> exists|fetched: Seq<Result<Option<Vec<u8>>, Error>>|
        #![trigger found_view(fetched)]
        {
            &&& fetched.len() <= db_keys.len()
            &&& forall|i: int|
                0 <= i < fetched.len() ==> store.ensures((db, &db_keys[i]), #[trigger] fetched[i])
            &&& forall|i: int| 0 <= i < fetched.len() - 1 ==> (#[trigger] fetched[i]) is Ok
            &&& if fetched.len() > 0 && fetched.last() is Err {
                raw is Err && raw->Err_0 == fetched.last()->Err_0 && after == before
            } else {
                &&& fetched.len() == db_keys.len()
                &&& raw == combined(found_view(fetched))
                &&& raw is Err ==> after == before
                &&& raw matches Ok(merged) ==> exists|entry: Option<Vec<u8>>|
                    #![trigger before.insert(cache_key, entry)]
                    entry_view(entry) == merged && after == before.insert(cache_key, entry)
            }
        }
}

impl DatabaseCache {
    /// A cache without entries, for a new read transaction.
    pub fn new() -> (cache: DatabaseCache)
        ensures
            cache.is_empty(),
    {
        DatabaseCache {
            word_pair_proximity_docids: HashMap::new(),
            word_prefix_pair_proximity_docids: HashMap::new(),
            prefix_word_pair_proximity_docids: HashMap::new(),
            word_docids: HashMap::new(),
            exact_word_docids: HashMap::new(),
            word_prefix_docids: HashMap::new(),
            exact_word_prefix_docids: HashMap::new(),
            word_position_docids: HashMap::new(),
            word_prefix_position_docids: HashMap::new(),
            word_positions: HashMap::new(),
            word_prefix_positions: HashMap::new(),
            word_fid_docids: HashMap::new(),
            word_prefix_fid_docids: HashMap::new(),
            word_fids: HashMap::new(),
            word_prefix_fids: HashMap::new(),
            words_fst: None,
        }
    }

    /// The words of the vocabulary, once it has been read.
    pub open spec fn vocabulary(&self) -> Option<Set<Seq<u8>>> {
        match self.words_fst {
            Some(set) => Some(fst_keys(set)),
            None => None,
        }
    }

    /// Every table holds in `after` what it holds in `self`.
    pub open spec fn tables_kept(&self, after: &DatabaseCache) -> bool {
        &&& after.word_pair_proximity_docids@ == self.word_pair_proximity_docids@
        &&& after.word_prefix_pair_proximity_docids@ == self.word_prefix_pair_proximity_docids@
        &&& after.prefix_word_pair_proximity_docids@ == self.prefix_word_pair_proximity_docids@
        &&& after.word_docids@ == self.word_docids@
        &&& after.exact_word_docids@ == self.exact_word_docids@
        &&& after.word_prefix_docids@ == self.word_prefix_docids@
        &&& after.exact_word_prefix_docids@ == self.exact_word_prefix_docids@
        &&& after.word_position_docids@ == self.word_position_docids@
        &&& after.word_prefix_position_docids@ == self.word_prefix_position_docids@
        &&& after.word_positions@ == self.word_positions@
        &&& after.word_prefix_positions@ == self.word_prefix_positions@
        &&& after.word_fid_docids@ == self.word_fid_docids@
        &&& after.word_prefix_fid_docids@ == self.word_prefix_fid_docids@
        &&& after.word_fids@ == self.word_fids@
        &&& after.word_prefix_fids@ == self.word_prefix_fids@
    }

    /// No table holds an entry.
    pub open spec fn is_empty(&self) -> bool {
        &&& self.word_pair_proximity_docids@ == Map::<u64, Option<Vec<u8>>>::empty()
        &&& self.word_prefix_pair_proximity_docids@ == Map::<u64, Option<Vec<u8>>>::empty()
        &&& self.prefix_word_pair_proximity_docids@ == Map::<u64, Option<Vec<u8>>>::empty()
        &&& self.word_docids@ == Map::<u64, Option<Vec<u8>>>::empty()
        &&& self.exact_word_docids@ == Map::<u64, Option<Vec<u8>>>::empty()
        &&& self.word_prefix_docids@ == Map::<u64, Option<Vec<u8>>>::empty()
        &&& self.exact_word_prefix_docids@ == Map::<u64, Option<Vec<u8>>>::empty()
        &&& self.word_position_docids@ == Map::<u64, Option<Vec<u8>>>::empty()
        &&& self.word_prefix_position_docids@ == Map::<u64, Option<Vec<u8>>>::empty()
        &&& self.word_positions@ == Map::<u64, Vec<u16>>::empty()
        &&& self.word_prefix_positions@ == Map::<u64, Vec<u16>>::empty()
        &&& self.word_fid_docids@ == Map::<u64, Option<Vec<u8>>>::empty()
        &&& self.word_prefix_fid_docids@ == Map::<u64, Option<Vec<u8>>>::empty()
        &&& self.word_fids@ == Map::<u64, Vec<u16>>::empty()
        &&& self.word_prefix_fids@ == Map::<u64, Vec<u16>>::empty()
        &&& self.words_fst is None
    }

    /// Every table but `one` and `other` holds in `after` what it holds in
    /// `self`, and the vocabulary is the same.
    pub open spec fn same_except(&self, after: &DatabaseCache, one: CacheTable, other: CacheTable) -> bool {
        &&& after.vocabulary() == self.vocabulary()
        &&& one == CacheTable::WordPairProximityDocids || other
            == CacheTable::WordPairProximityDocids || after.word_pair_proximity_docids@
            == self.word_pair_proximity_docids@
        &&& one == CacheTable::WordPrefixPairProximityDocids || other
            == CacheTable::WordPrefixPairProximityDocids || after.word_prefix_pair_proximity_docids@
            == self.word_prefix_pair_proximity_docids@
        &&& one == CacheTable::PrefixWordPairProximityDocids || other
            == CacheTable::PrefixWordPairProximityDocids || after.prefix_word_pair_proximity_docids@
            == self.prefix_word_pair_proximity_docids@
        &&& one == CacheTable::WordDocids || other == CacheTable::WordDocids || after.word_docids@
            == self.word_docids@
        &&& one == CacheTable::ExactWordDocids || other == CacheTable::ExactWordDocids
            || after.exact_word_docids@ == self.exact_word_docids@
        &&& one == CacheTable::WordPrefixDocids || other == CacheTable::WordPrefixDocids
            || after.word_prefix_docids@ == self.word_prefix_docids@
        &&& one == CacheTable::ExactWordPrefixDocids || other == CacheTable::ExactWordPrefixDocids
            || after.exact_word_prefix_docids@ == self.exact_word_prefix_docids@
        &&& one == CacheTable::WordPositionDocids || other == CacheTable::WordPositionDocids
            || after.word_position_docids@ == self.word_position_docids@
        &&& one == CacheTable::WordPrefixPositionDocids || other
            == CacheTable::WordPrefixPositionDocids || after.word_prefix_position_docids@
            == self.word_prefix_position_docids@
        &&& one == CacheTable::WordPositions || other == CacheTable::WordPositions
            || after.word_positions@ == self.word_positions@
        &&& one == CacheTable::WordPrefixPositions || other == CacheTable::WordPrefixPositions
            || after.word_prefix_positions@ == self.word_prefix_positions@
        &&& one == CacheTable::WordFidDocids || other == CacheTable::WordFidDocids
            || after.word_fid_docids@ == self.word_fid_docids@
        &&& one == CacheTable::WordPrefixFidDocids || other == CacheTable::WordPrefixFidDocids
            || after.word_prefix_fid_docids@ == self.word_prefix_fid_docids@
        &&& one == CacheTable::WordFids || other == CacheTable::WordFids || after.word_fids@
            == self.word_fids@
        &&& one == CacheTable::WordPrefixFids || other == CacheTable::WordPrefixFids
            || after.word_prefix_fids@ == self.word_prefix_fids@
    }

    /// The document ids under `cache_key`: from the cache, or on a miss from one
    /// lookup of `db_key` in the database `db`, which is then memoized. A key
    /// that the store does not hold gives nothing, and that too is memoized. A
    /// value that is there and cannot be read is a failure.
    pub fn get_value<F>(
        cache: &mut HashMap<u64, Option<Vec<u8>>>,
        cache_key: u64,
        db: Database,
        db_key: &Vec<u8>,
        store: &F,
    ) -> (found: Result<Option<DocIds>, Error>) where
        F: Fn(Database, &Vec<u8>) -> Result<Option<Vec<u8>>, Error>,

        requires
            store.requires((db, db_key)),
        ensures
            exists|raw: Result<Option<Seq<u8>>, Error>|
                #[trigger] looked_up(old(cache)@, final(cache)@, cache_key, db, db_key, store, raw)
                    && docids_view(found) == decoded(raw),
    {
        let raw = get_or_fetch(cache, cache_key, db, db_key, store);
        assert(looked_up(old(cache)@, cache@, cache_key, db, db_key, store, fetched_view(raw)));
        decode_entry(raw)
    }

    /// The document ids under `cache_key` for a query that is restricted to some
    /// fields: from the cache, or on a miss from one lookup of each of the keys
    /// `db_keys` in the database `db` and the union of what the store holds under
    /// them, which is then memoized.
    pub fn get_value_from_keys<F>(
        cache: &mut HashMap<u64, Option<Vec<u8>>>,
        cache_key: u64,
        db: Database,
        db_keys: &Vec<Vec<u8>>,
        store: &F,
    ) -> (found: Result<Option<DocIds>, Error>) where
        F: Fn(Database, &Vec<u8>) -> Result<Option<Vec<u8>>, Error>,

        requires
            forall|i: int| 0 <= i < db_keys@.len() ==> store.requires((db, &#[trigger] db_keys@[i])),
        ensures
            exists|raw: Result<Option<Seq<u8>>, Error>|
                #[trigger] looked_up_keys(
                    old(cache)@,
                    final(cache)@,
                    cache_key,
                    db,
                    db_keys@,
                    store,
                    raw,
                ) && docids_view(found) == decoded(raw),
    {
        match cache.get(&cache_key) {
            Some(entry) => {
                let value = match entry {
                    Some(bytes) => Some(slice_to_vec(bytes.as_slice())),
                    None => None,
                };
                let raw: Result<Option<Vec<u8>>, Error> = Ok(value);
                assert(looked_up_keys(
                    old(cache)@,
                    cache@,
                    cache_key,
                    db,
                    db_keys@,
                    store,
                    fetched_view(raw),
                ));
                return decode_entry(raw);
            },
            None => {},
        }
        let ghost mut fetched: Seq<Result<Option<Vec<u8>>, Error>> = Seq::empty();
        let mut bitmaps: Vec<Vec<u8>> = Vec::new();
        let mut i: usize = 0;
        assert(blobs_view(bitmaps@) =~= present(found_view(fetched)));
        while i < db_keys.len()
            invariant
                i <= db_keys@.len(),
                cache@ == old(cache)@,
                !old(cache)@.contains_key(cache_key),
                fetched.len() == i,
                forall|k: int| 0 <= k < db_keys@.len() ==> store.requires((db, &#[trigger] db_keys@[k])),
                forall|k: int| 0 <= k < i ==> store.ensures((db, &db_keys@[k]), #[trigger] fetched[k]),
                forall|k: int| 0 <= k < i ==> (#[trigger] fetched[k]) is Ok,
                blobs_view(bitmaps@) == present(found_view(fetched)),
            decreases db_keys@.len() - i,
        {
            let one = store(db, &db_keys[i]);
            proof {
                let longer = fetched.push(one);
                assert(found_view(longer).drop_last() =~= found_view(fetched));
                assert(forall|k: int|
                    0 <= k < i + 1 ==> store.ensures((db, &db_keys@[k]), #[trigger] longer[k]));
                assert(forall|k: int| 0 <= k < i ==> (#[trigger] longer[k]) is Ok);
                assert(longer.last() == one);
            }
            match one {
                Ok(Some(bytes)) => {
                    proof {
                        assert(blobs_view(bitmaps@.push(bytes)) =~= blobs_view(bitmaps@).push(bytes@));
                        fetched = fetched.push(one);
                    }
                    bitmaps.push(bytes);
                },
                Ok(None) => {
                    proof {
                        fetched = fetched.push(one);
                    }
                },
                Err(e) => {
                    proof {
                        fetched = fetched.push(one);
                        assert(found_view(fetched).len() == fetched.len());
                    }
                    let raw: Result<Option<Vec<u8>>, Error> = Err(e);
                    assert(looked_up_keys(
                        old(cache)@,
                        cache@,
                        cache_key,
                        db,
                        db_keys@,
                        store,
                        fetched_view(raw),
                    ));
                    return decode_entry(raw);
                },
            }
            i += 1;
        }
        let merged: Result<Option<Vec<u8>>, Error> = if bitmaps.len() == 0 {
            Ok(None)
        } else {
            match merge_values(MergeKind::BitmapUnion, &bitmaps) {
                Ok(bytes) => Ok(Some(bytes)),
                Err(e) => Err(e),
            }
        };
        assert(fetched_view(merged) == combined(found_view(fetched)));
        match merged {
            Ok(entry) => {
                let value = match &entry {
                    Some(bytes) => Some(slice_to_vec(bytes.as_slice())),
                    None => None,
                };
                cache.insert(cache_key, entry);
                let raw: Result<Option<Vec<u8>>, Error> = Ok(value);
                proof {
                    assert(cache@ == old(cache)@.insert(cache_key, entry));
                    assert(found_view(fetched).len() == fetched.len());
                    assert(looked_up_keys(
                        old(cache)@,
                        cache@,
                        cache_key,
                        db,
                        db_keys@,
                        store,
                        fetched_view(raw),
                    ));
                }
                decode_entry(raw)
            },
            Err(e) => {
                let raw: Result<Option<Vec<u8>>, Error> = Err(e);
                proof {
                    assert(found_view(fetched).len() == fetched.len());
                    assert(looked_up_keys(
                        old(cache)@,
                        cache@,
                        cache_key,
                        db,
                        db_keys@,
                        store,
                        fetched_view(raw),
                    ));
                }
                decode_entry(raw)
            },
        }
    }
}

} // verus!

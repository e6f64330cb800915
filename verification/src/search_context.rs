//! The lookups of a query: each goes through the database cache of its read
//! transaction, so that the persisted store is asked once per key.

use std::collections::HashMap;
use vstd::prelude::*;
use vstd::slice::slice_to_vec;
use vstd::string::StringSliceAdditionalSpecFns;
use vstd::utf8::valid_utf8;

use crate::be::u16_from_be;
use crate::db_cache::{decoded, decoded_len, docids_view, entries_kept, get_value_len, looked_up, looked_up_keys, CacheTable, DatabaseCache};
use crate::docids::DocIds;
use crate::error::{Database, Error};
use crate::helpers::append_bytes;
use crate::interner::{Interned, Interner};
use crate::words_fst::{fst_clone, fst_keys};
use crate::str_codec::{str_beu16_spec, StrBEU16Codec};

verus! {

broadcast use vstd::std_specs::hash::group_hash_axioms;

/// The field ids that a query is restricted to.
pub struct RestrictedFids {
    pub tolerant: Vec<u16>,
    pub exact: Vec<u16>,
}

impl RestrictedFids {
    /// Whether the query may look into the field `fid`.
    pub fn contains(&self, fid: u16) -> (allowed: bool)
        ensures
            allowed == (self.tolerant@.contains(fid) || self.exact@.contains(fid)),
    {
        holds(&self.tolerant, fid) || holds(&self.exact, fid)
    }
}

/// Whether `numbers` holds `number`.
fn holds(numbers: &Vec<u16>, number: u16) -> (found: bool)
    ensures
        found == numbers@.contains(number),
{
    let mut i: usize = 0;
    while i < numbers.len()
        invariant
            i <= numbers@.len(),
            forall|k: int| 0 <= k < i ==> numbers@[k] != number,
        decreases numbers@.len() - i,
    {
        if numbers[i] == number {
            assert(numbers@[i as int] == number);
            return true;
        }
        i += 1;
    }
    false
}

/// A word of a query: as the user wrote it, or derived from what the user
/// wrote.
#[derive(Clone, Copy, Debug, PartialEq, Eq, Structural)]
pub enum Word {
    Original(Interned),
    Derived(Interned),
}

/// The cache key of a word.
pub open spec fn word_key_spec(word: Interned) -> u64 {
    word.index as u64
}

/// The cache key of a word and a field id or a position.
pub open spec fn pair_key_spec(word: Interned, number: u16) -> u64 {
    (word.index * 0x1_0000 + number) as u64
}

/// The cache key of a proximity and two words.
pub open spec fn proximity_key_spec(proximity: u8, left: Interned, right: Interned) -> u64 {
    ((proximity * 0x1_0000 + left.index) * 0x1_0000 + right.index) as u64
}

/// Different pairs have different cache keys, and so have different triples.
pub proof fn lemma_cache_keys_differ(
    word: Interned,
    number: u16,
    other_word: Interned,
    other_number: u16,
    proximity: u8,
    other_proximity: u8,
)
    ensures
        pair_key_spec(word, number) == pair_key_spec(other_word, other_number) ==> word
            == other_word && number == other_number,
        proximity_key_spec(proximity, word, other_word) == proximity_key_spec(
            other_proximity,
            word,
            other_word,
        ) ==> proximity == other_proximity,
        word_key_spec(word) == word_key_spec(other_word) ==> word == other_word,
{
}

/// The cache key of a word.
pub fn word_key(word: Interned) -> (key: u64)
    ensures
        key == word_key_spec(word),
{
    word.index as u64
}

/// The cache key of a word and a field id or a position.
pub fn pair_key(word: Interned, number: u16) -> (key: u64)
    ensures
        key == pair_key_spec(word, number),
{
    (word.index as u64) * 0x1_0000 + (number as u64)
}

/// The cache key of a proximity and two words.
pub fn proximity_key(proximity: u8, left: Interned, right: Interned) -> (key: u64)
    ensures
        key == proximity_key_spec(proximity, left, right),
{
    ((proximity as u64) * 0x1_0000 + (left.index as u64)) * 0x1_0000 + (right.index as u64)
}

/// The key of a proximity and two words in the store: the proximity, the
/// first word, a zero byte, the second word.
pub open spec fn proximity_db_key_spec(proximity: u8, left: Seq<u8>, right: Seq<u8>) -> Seq<u8> {
    seq![proximity] + left + seq![0u8] + right
}

/// Writes the key of a proximity and two words.
pub fn proximity_db_key(proximity: u8, left: &str, right: &str) -> (key: Vec<u8>)
    ensures
        key@ == proximity_db_key_spec(proximity, left.spec_bytes(), right.spec_bytes()),
{
    let mut key: Vec<u8> = Vec::new();
    key.push(proximity);
    append_bytes(&mut key, left.as_bytes());
    key.push(0);
    append_bytes(&mut key, right.as_bytes());
    assert(key@ =~= proximity_db_key_spec(proximity, left.spec_bytes(), right.spec_bytes()));
    key
}

/// The keys of a word in each of the fields `fids`, in the order of `fids`.
pub open spec fn are_fid_keys(keys: Seq<Vec<u8>>, word: Seq<u8>, fids: Seq<u16>) -> bool {
    &&& keys.len() == fids.len()
    &&& forall|i: int| 0 <= i < keys.len() ==> (#[trigger] keys[i])@ == str_beu16_spec(word, fids[i])
}

/// Writes the keys of a word in each of the fields `fids`.
fn fid_keys(word: &str, fids: &Vec<u16>) -> (keys: Vec<Vec<u8>>)
    ensures
        are_fid_keys(keys@, word.spec_bytes(), fids@),
{
    let mut keys: Vec<Vec<u8>> = Vec::new();
    let mut i: usize = 0;
    while i < fids.len()
        invariant
            i <= fids@.len(),
            keys@.len() == i,
            forall|k: int|
                0 <= k < i ==> (#[trigger] keys@[k])@ == str_beu16_spec(word.spec_bytes(), fids@[k]),
        decreases fids@.len() - i,
    {
        let key = match StrBEU16Codec::bytes_encode(word, fids[i]) {
            Some(key) => key,
            None => Vec::new(),
        };
        keys.push(key);
        i += 1;
    }
    keys
}

/// What the lookup of the document ids of a word does. Without a restriction
/// it is the lookup of the word in the database `direct`; with one it is the
/// lookup of the word in each of the fields `fids` in the database `by_field`,
/// and the union of what the store holds.
pub open spec fn word_lookup<F: Fn(Database, &Vec<u8>) -> Result<Option<Vec<u8>>, Error>>(
    before: Map<u64, Option<Vec<u8>>>,
    after: Map<u64, Option<Vec<u8>>>,
    cache_key: u64,
    direct: Database,
    by_field: Database,
    word: Seq<u8>,
    fids: Option<Seq<u16>>,
    store: &F,
    found: Result<Option<Set<u32>>, Error>,
) -> bool {
    match fids {
        None => exists|key: Vec<u8>, raw: Result<Option<Seq<u8>>, Error>|
            #![trigger looked_up(before, after, cache_key, direct, &key, store, raw)]
            key@ == word && looked_up(before, after, cache_key, direct, &key, store, raw) && found
                == decoded(raw),
        Some(fids) => exists|keys: Seq<Vec<u8>>, raw: Result<Option<Seq<u8>>, Error>|
            #![trigger looked_up_keys(before, after, cache_key, by_field, keys, store, raw)]
            are_fid_keys(keys, word, fids) && looked_up_keys(
                before,
                after,
                cache_key,
                by_field,
                keys,
                store,
                raw,
            ) && found == decoded(raw),
    }
}

/// The document ids of a word, through one table of the cache.
fn lookup_word<F>(
    cache: &mut HashMap<u64, Option<Vec<u8>>>,
    cache_key: u64,
    direct: Database,
    by_field: Database,
    word: &str,
    fids: Option<&Vec<u16>>,
    store: &F,
) -> (found: Result<Option<DocIds>, Error>) where
    F: Fn(Database, &Vec<u8>) -> Result<Option<Vec<u8>>, Error>,

    requires
        forall|db: Database, key: &Vec<u8>| #[trigger] store.requires((db, key)),
    ensures
        word_lookup(
            old(cache)@,
            final(cache)@,
            cache_key,
            direct,
            by_field,
            word.spec_bytes(),
            match fids {
                Some(fids) => Some(fids@),
                None => None,
            },
            store,
            docids_view(found),
        ),
{
    match fids {
        Some(fids) => {
            let keys = fid_keys(word, fids);
            let found = DatabaseCache::get_value_from_keys(cache, cache_key, by_field, &keys, store);
            proof {
                let raw = choose|raw: Result<Option<Seq<u8>>, Error>|
                    #[trigger] looked_up_keys(
                        old(cache)@,
                        cache@,
                        cache_key,
                        by_field,
                        keys@,
                        store,
                        raw,
                    ) && docids_view(found) == decoded(raw);
                assert(looked_up_keys(old(cache)@, cache@, cache_key, by_field, keys@, store, raw));
            }
            found
        },
        None => {
            let key = slice_to_vec(word.as_bytes());
            let found = DatabaseCache::get_value(cache, cache_key, direct, &key, store);
            proof {
                let raw = choose|raw: Result<Option<Seq<u8>>, Error>|
                    #[trigger] looked_up(old(cache)@, cache@, cache_key, direct, &key, store, raw)
                        && docids_view(found) == decoded(raw);
                assert(looked_up(old(cache)@, cache@, cache_key, direct, &key, store, raw));
            }
            found
        },
    }
}

/// What the lookup of the document ids under one key of the store does.
pub open spec fn key_lookup<F: Fn(Database, &Vec<u8>) -> Result<Option<Vec<u8>>, Error>>(
    before: Map<u64, Option<Vec<u8>>>,
    after: Map<u64, Option<Vec<u8>>>,
    cache_key: u64,
    db: Database,
    db_key: Seq<u8>,
    store: &F,
    found: Result<Option<Set<u32>>, Error>,
) -> bool {
    exists|key: Vec<u8>, raw: Result<Option<Seq<u8>>, Error>|
        #![trigger looked_up(before, after, cache_key, db, &key, store, raw)]
        key@ == db_key && looked_up(before, after, cache_key, db, &key, store, raw) && found
            == decoded(raw)
}

/// What the lookup of the number of document ids under one key of the store
/// does.
pub open spec fn key_lookup_len<F: Fn(Database, &Vec<u8>) -> Result<Option<Vec<u8>>, Error>>(
    before: Map<u64, Option<Vec<u8>>>,
    after: Map<u64, Option<Vec<u8>>>,
    cache_key: u64,
    db: Database,
    db_key: Seq<u8>,
    store: &F,
    found: Result<Option<u64>, Error>,
) -> bool {
    exists|key: Vec<u8>, raw: Result<Option<Seq<u8>>, Error>|
        #![trigger looked_up(before, after, cache_key, db, &key, store, raw)]
        key@ == db_key && looked_up(before, after, cache_key, db, &key, store, raw) && found
            == decoded_len(raw)
}

/// The document ids under one key of the store, through one table of the
/// cache.
fn lookup_key<F>(
    cache: &mut HashMap<u64, Option<Vec<u8>>>,
    cache_key: u64,
    db: Database,
    db_key: Vec<u8>,
    store: &F,
) -> (found: Result<Option<DocIds>, Error>) where
    F: Fn(Database, &Vec<u8>) -> Result<Option<Vec<u8>>, Error>,

    requires
        forall|db: Database, key: &Vec<u8>| #[trigger] store.requires((db, key)),
    ensures
        key_lookup(
            old(cache)@,
            final(cache)@,
            cache_key,
            db,
            db_key@,
            store,
            docids_view(found),
        ),
{
    let found = DatabaseCache::get_value(cache, cache_key, db, &db_key, store);
    proof {
        let raw = choose|raw: Result<Option<Seq<u8>>, Error>|
            #[trigger] looked_up(old(cache)@, cache@, cache_key, db, &db_key, store, raw)
                && docids_view(found) == decoded(raw);
        assert(looked_up(old(cache)@, cache@, cache_key, db, &db_key, store, raw));
    }
    found
}

/// The number in each key of a list of entries whose keys pair a word with a
/// 16-bit number; nothing if one of the keys has no such form.
pub open spec fn numbers_of(entries: Seq<(Vec<u8>, Vec<u8>)>) -> Option<Seq<u16>>
    decreases entries.len(),
{
    if entries.len() == 0 {
        Some(Seq::empty())
    } else {
        let key = entries.last().0@;
        match numbers_of(entries.drop_last()) {
            None => None,
            Some(before) => if key.len() >= 3 && valid_utf8(key.subrange(0, key.len() - 3)) {
                Some(before.push(u16_from_be(key.subrange(key.len() - 2, key.len() as int))))
            } else {
                None
            },
        }
    }
}

/// The key under which the entries of a word start: the word and a zero
/// byte.
pub open spec fn prefix_key_spec(word: Seq<u8>) -> Seq<u8> {
    word + seq![0u8]
}

/// What the lookup of the field ids or of the positions of a word does. On a
/// hit both tables stay as they are. On a miss the entries of the word are
/// read from the store in one go; their numbers are memoized under the word,
/// and each entry under the word and its number, unless that pair is
/// memoized already.
pub open spec fn list_lookup<G: Fn(Database, &Vec<u8>) -> Result<Vec<(Vec<u8>, Vec<u8>)>, Error>>(
    lists_before: Map<u64, Vec<u16>>,
    lists_after: Map<u64, Vec<u16>>,
    pairs_before: Map<u64, Option<Vec<u8>>>,
    pairs_after: Map<u64, Option<Vec<u8>>>,
    word: Interned,
    word_bytes: Seq<u8>,
    db: Database,
    entries_of: &G,
    found: Result<Vec<u16>, Error>,
) -> bool {
    &&& entries_kept(pairs_before, pairs_after)
    &&& lists_before.contains_key(word_key_spec(word)) ==> {
        &&& lists_after == lists_before
        &&& pairs_after == pairs_before
        &&& found matches Ok(numbers) && numbers@ == lists_before[word_key_spec(word)]@
    }
    &&& !lists_before.contains_key(word_key_spec(word)) ==> exists|
        key: Vec<u8>,
        read: Result<Vec<(Vec<u8>, Vec<u8>)>, Error>,
    |
        {
            &&& key@ == prefix_key_spec(word_bytes)
            &&& #[trigger] entries_of.ensures((db, &key), read)
            &&& read matches Err(e) ==> found == Err::<Vec<u16>, Error>(e) && lists_after
                == lists_before && pairs_after == pairs_before
            &&& read matches Ok(entries) ==> match numbers_of(entries@) {
                None => found == Err::<Vec<u16>, Error>(Error::Decoding) && lists_after
                    == lists_before,
                Some(numbers) => {
                    &&& found matches Ok(list) && list@ == numbers
                    &&& lists_after.dom() == lists_before.dom().insert(word_key_spec(word))
                    &&& lists_after[word_key_spec(word)]@ == numbers
                    &&& forall|other: u64|
                        lists_before.contains_key(other) ==> lists_after[other]
                            == lists_before[other]
                    &&& forall|i: int|
                        0 <= i < numbers.len() ==> pairs_after.contains_key(
                            #[trigger] pair_key_spec(word, numbers[i]),
                        )
                },
            }
        }
}

/// The field ids or the positions of a word, through a table of lists and
/// the table of the pairs of a word and a number.
fn lookup_list<G>(
    lists: &mut HashMap<u64, Vec<u16>>,
    pairs: &mut HashMap<u64, Option<Vec<u8>>>,
    word: Interned,
    text: &str,
    db: Database,
    entries_of: &G,
) -> (found: Result<Vec<u16>, Error>) where
    G: Fn(Database, &Vec<u8>) -> Result<Vec<(Vec<u8>, Vec<u8>)>, Error>,

    requires
        forall|db: Database, key: &Vec<u8>| #[trigger] entries_of.requires((db, key)),
    ensures
        list_lookup(
            old(lists)@,
            final(lists)@,
            old(pairs)@,
            final(pairs)@,
            word,
            text.spec_bytes(),
            db,
            entries_of,
            found,
        ),
{
    let cache_key = word_key(word);
    match lists.get(&cache_key) {
        Some(numbers) => {
            return Ok(slice_to_vec(numbers.as_slice()));
        },
        None => {},
    }
    let mut key = slice_to_vec(text.as_bytes());
    key.push(0);
    assert(key@ =~= prefix_key_spec(text.spec_bytes()));
    let read = entries_of(db, &key);
    let ghost outcome = read;
    let entries = match read {
        Ok(entries) => entries,
        Err(e) => {
            assert(entries_of.ensures((db, &key), outcome));
            return Err(e);
        },
    };
    let mut numbers: Vec<u16> = Vec::new();
    let mut i: usize = 0;
    assert(entries@.take(0) =~= Seq::<(Vec<u8>, Vec<u8>)>::empty());
    while i < entries.len()
        invariant
            i <= entries@.len(),
            lists@ == old(lists)@,
            !old(lists)@.contains_key(word_key_spec(word)),
            key@ == prefix_key_spec(text.spec_bytes()),
            entries_of.ensures((db, &key), outcome),
            outcome == Ok::<Vec<(Vec<u8>, Vec<u8>)>, Error>(entries),
            entries_kept(old(pairs)@, pairs@),
            numbers_of(entries@.take(i as int)) == Some(numbers@),
            forall|k: int|
                0 <= k < numbers@.len() ==> pairs@.contains_key(
                    #[trigger] pair_key_spec(word, numbers@[k]),
                ),
        decreases entries@.len() - i,
    {
        proof {
            assert(entries@.take(i + 1).drop_last() =~= entries@.take(i as int));
            assert(entries@.take(i + 1).last() == entries@[i as int]);
        }
        let number = match StrBEU16Codec::bytes_decode(entries[i].0.as_slice()) {
            Some((_, number)) => number,
            None => {
                proof {
                    lemma_numbers_fail(entries@, i + 1);
                }
                return Err(Error::Decoding);
            },
        };
        let pair = pair_key(word, number);
        let ghost pairs_then = pairs@;
        if !pairs.contains_key(&pair) {
            let value = slice_to_vec(entries[i].1.as_slice());
            pairs.insert(pair, Some(value));
        }
        proof {
            assert forall|k: int| 0 <= k < numbers@.push(number).len() implies pairs@.contains_key(
                #[trigger] pair_key_spec(word, numbers@.push(number)[k]),
            ) by {
                if k < numbers@.len() {
                    assert(pairs_then.contains_key(pair_key_spec(word, numbers@[k])));
                }
            }
        }
        numbers.push(number);
        i += 1;
    }
    proof {
        assert(entries@.take(i as int) =~= entries@);
    }
    let found = slice_to_vec(numbers.as_slice());
    lists.insert(cache_key, numbers);
    Ok(found)
}

/// A list of entries with a key that cannot be read among its first `n`
/// cannot be read as a whole.
proof fn lemma_numbers_fail(entries: Seq<(Vec<u8>, Vec<u8>)>, n: int)
    requires
        0 <= n <= entries.len(),
        numbers_of(entries.take(n)) is None,
    ensures
        numbers_of(entries) is None,
    decreases entries.len() - n,
{
    if n == entries.len() {
        assert(entries.take(n) =~= entries);
    } else {
        assert(entries.take(n + 1).drop_last() =~= entries.take(n));
        lemma_numbers_fail(entries, n + 1);
    }
}

/// The union of what was found for a word as it was written and for the
/// words it stands for.
pub open spec fn either(exact: Option<Set<u32>>, tolerant: Option<Set<u32>>) -> Option<Set<u32>> {
    match (exact, tolerant) {
        (None, None) => None,
        (None, Some(tolerant)) => Some(tolerant),
        (Some(exact), None) => Some(exact),
        (Some(exact), Some(tolerant)) => Some(exact.union(tolerant)),
    }
}

/// The union of what was found for a word as it was written and for the
/// words it stands for.
fn join(exact: Option<DocIds>, tolerant: Option<DocIds>) -> (both: Option<DocIds>)
    ensures
        docids_view(Ok(both)) == Ok::<Option<Set<u32>>, Error>(
            either(docids_view(Ok(exact))->Ok_0, docids_view(Ok(tolerant))->Ok_0),
        ),
{
    match (exact, tolerant) {
        (None, None) => None,
        (None, Some(tolerant)) => Some(tolerant),
        (Some(exact), None) => Some(exact),
        (Some(exact), Some(tolerant)) => Some(exact.union(&tolerant)),
    }
}

/// What a query works with: the cache of its read transaction, its words,
/// and the fields it is restricted to, if it is.
pub struct SearchContext {
    pub db_cache: DatabaseCache,
    pub word_interner: Interner,
    pub restricted_fids: Option<RestrictedFids>,
}

impl SearchContext {
    /// A context for a new read transaction.
    pub fn new(word_interner: Interner, restricted_fids: Option<RestrictedFids>) -> (context:
        SearchContext)
        ensures
            context.db_cache.is_empty(),
            context.word_interner == word_interner,
            context.restricted_fids == restricted_fids,
    {
        SearchContext { db_cache: DatabaseCache::new(), word_interner, restricted_fids }
    }

    /// The bytes of the word under `word`.
    pub open spec fn word_bytes(&self, word: Interned) -> Seq<u8> {
        vstd::utf8::encode_utf8(self.word_interner@[word.index as int])
    }

    /// The fields that the query is restricted to for words that may differ
    /// from what was written.
    pub open spec fn tolerant_fids(&self) -> Option<Seq<u16>> {
        match self.restricted_fids {
            Some(fids) => Some(fids.tolerant@),
            None => None,
        }
    }

    /// The fields that the query is restricted to for words as they were
    /// written.
    pub open spec fn exact_fids(&self) -> Option<Seq<u16>> {
        match self.restricted_fids {
            Some(fids) => Some(fids.exact@),
            None => None,
        }
    }

    /// Whether the query may look into the field `fid`.
    pub open spec fn allows(&self, fid: u16) -> bool {
        match self.restricted_fids {
            Some(fids) => fids.tolerant@.contains(fid) || fids.exact@.contains(fid),
            None => true,
        }
    }

    /// The words and the restriction are in `after` what they are in `self`,
    /// and so is every table of the cache but `one` and `other`.
    pub open spec fn unchanged_but(&self, after: &SearchContext, one: CacheTable, other: CacheTable) -> bool {
        &&& after.word_interner == self.word_interner
        &&& after.restricted_fids == self.restricted_fids
        &&& self.db_cache.same_except(&after.db_cache, one, other)
    }

    /// The vocabulary of the index. The first call reads it with
    /// `stored_words` and keeps it; every later call gives what was kept and
    /// reads nothing.
    pub fn get_words_fst<W>(&mut self, stored_words: &W) -> (words: Result<
        fst::Set<Vec<u8>>,
        Error,
    >) where W: Fn() -> Result<fst::Set<Vec<u8>>, Error>
        requires
            stored_words.requires(()),
        ensures
            final(self).word_interner == old(self).word_interner,
            final(self).restricted_fids == old(self).restricted_fids,
            old(self).db_cache.tables_kept(&final(self).db_cache),
            match old(self).db_cache.vocabulary() {
                Some(kept) => words matches Ok(set) && fst_keys(set) == kept
                    && final(self).db_cache.vocabulary() == Some(kept),
                None => exists|read: Result<fst::Set<Vec<u8>>, Error>| #[trigger]
                    stored_words.ensures((), read) && match read {
                        Ok(stored) => words matches Ok(set) && fst_keys(set) == fst_keys(stored)
                            && final(self).db_cache.vocabulary() == Some(fst_keys(stored)),
                        Err(e) => words == Err::<fst::Set<Vec<u8>>, Error>(e)
                            && final(self).db_cache.vocabulary() is None,
                    },
            },
    {
        match &self.db_cache.words_fst {
            Some(kept) => Ok(fst_clone(kept)),
            None => {
                match stored_words() {
                    Ok(stored) => {
                        let words = fst_clone(&stored);
                        self.db_cache.words_fst = Some(stored);
                        Ok(words)
                    },
                    Err(e) => Err(e),
                }
            },
        }
    }

    /// The documents that hold the word, or one of the words it stands for.
    pub fn get_db_word_docids<F>(&mut self, word: Interned, store: &F) -> (found: Result<
        Option<DocIds>,
        Error,
    >) where F: Fn(Database, &Vec<u8>) -> Result<Option<Vec<u8>>, Error>
        requires
            old(self).word_interner.holds(word),
            forall|db: Database, key: &Vec<u8>| #[trigger] store.requires((db, key)),
        ensures
            old(self).unchanged_but(final(self), CacheTable::WordDocids, CacheTable::WordDocids),
            word_lookup(
                old(self).db_cache.word_docids@,
                final(self).db_cache.word_docids@,
                word_key_spec(word),
                Database::WordDocids,
                Database::WordFidDocids,
                old(self).word_bytes(word),
                old(self).tolerant_fids(),
                store,
                docids_view(found),
            ),
    {
        let text = self.word_interner.get(word);
        let fids = match &self.restricted_fids {
            Some(restricted) => Some(&restricted.tolerant),
            None => None,
        };
        lookup_word(
            &mut self.db_cache.word_docids,
            word_key(word),
            Database::WordDocids,
            Database::WordFidDocids,
            text,
            fids,
            store,
        )
    }

    /// The documents that hold the word exactly as it was written.
    pub fn get_db_exact_word_docids<F>(&mut self, word: Interned, store: &F) -> (found: Result<
        Option<DocIds>,
        Error,
    >) where F: Fn(Database, &Vec<u8>) -> Result<Option<Vec<u8>>, Error>
        requires
            old(self).word_interner.holds(word),
            forall|db: Database, key: &Vec<u8>| #[trigger] store.requires((db, key)),
        ensures
            old(self).unchanged_but(
                final(self),
                CacheTable::ExactWordDocids,
                CacheTable::ExactWordDocids,
            ),
            word_lookup(
                old(self).db_cache.exact_word_docids@,
                final(self).db_cache.exact_word_docids@,
                word_key_spec(word),
                Database::ExactWordDocids,
                Database::WordFidDocids,
                old(self).word_bytes(word),
                old(self).exact_fids(),
                store,
                docids_view(found),
            ),
    {
        let text = self.word_interner.get(word);
        let fids = match &self.restricted_fids {
            Some(restricted) => Some(&restricted.exact),
            None => None,
        };
        lookup_word(
            &mut self.db_cache.exact_word_docids,
            word_key(word),
            Database::ExactWordDocids,
            Database::WordFidDocids,
            text,
            fids,
            store,
        )
    }

    /// The documents that hold a word that starts with the prefix, or with
    /// one of the prefixes it stands for.
    pub fn get_db_word_prefix_docids<F>(&mut self, prefix: Interned, store: &F) -> (found: Result<
        Option<DocIds>,
        Error,
    >) where F: Fn(Database, &Vec<u8>) -> Result<Option<Vec<u8>>, Error>
        requires
            old(self).word_interner.holds(prefix),
            forall|db: Database, key: &Vec<u8>| #[trigger] store.requires((db, key)),
        ensures
            old(self).unchanged_but(
                final(self),
                CacheTable::WordPrefixDocids,
                CacheTable::WordPrefixDocids,
            ),
            word_lookup(
                old(self).db_cache.word_prefix_docids@,
                final(self).db_cache.word_prefix_docids@,
                word_key_spec(prefix),
                Database::WordPrefixDocids,
                Database::WordPrefixFidDocids,
                old(self).word_bytes(prefix),
                old(self).tolerant_fids(),
                store,
                docids_view(found),
            ),
    {
        let text = self.word_interner.get(prefix);
        let fids = match &self.restricted_fids {
            Some(restricted) => Some(&restricted.tolerant),
            None => None,
        };
        lookup_word(
            &mut self.db_cache.word_prefix_docids,
            word_key(prefix),
            Database::WordPrefixDocids,
            Database::WordPrefixFidDocids,
            text,
            fids,
            store,
        )
    }

    /// The documents that hold a word that starts with the prefix exactly as
    /// it was written.
    pub fn get_db_exact_word_prefix_docids<F>(&mut self, prefix: Interned, store: &F) -> (found:
        Result<Option<DocIds>, Error>) where
        F: Fn(Database, &Vec<u8>) -> Result<Option<Vec<u8>>, Error>,

        requires
            old(self).word_interner.holds(prefix),
            forall|db: Database, key: &Vec<u8>| #[trigger] store.requires((db, key)),
        ensures
            old(self).unchanged_but(
                final(self),
                CacheTable::ExactWordPrefixDocids,
                CacheTable::ExactWordPrefixDocids,
            ),
            word_lookup(
                old(self).db_cache.exact_word_prefix_docids@,
                final(self).db_cache.exact_word_prefix_docids@,
                word_key_spec(prefix),
                Database::ExactWordPrefixDocids,
                Database::WordPrefixFidDocids,
                old(self).word_bytes(prefix),
                old(self).exact_fids(),
                store,
                docids_view(found),
            ),
    {
        let text = self.word_interner.get(prefix);
        let fids = match &self.restricted_fids {
            Some(restricted) => Some(&restricted.exact),
            None => None,
        };
        lookup_word(
            &mut self.db_cache.exact_word_prefix_docids,
            word_key(prefix),
            Database::ExactWordPrefixDocids,
            Database::WordPrefixFidDocids,
            text,
            fids,
            store,
        )
    }

    /// The documents of a word of the query. For a word as the user wrote it
    /// these are the documents that hold it exactly and those that hold a word
    /// it stands for; for a derived word only the latter. A lookup that fails
    /// ends the search for the word.
    pub fn word_docids<F>(&mut self, word: Word, store: &F) -> (found: Result<
        Option<DocIds>,
        Error,
    >) where F: Fn(Database, &Vec<u8>) -> Result<Option<Vec<u8>>, Error>
        requires
            old(self).word_interner.holds(
                match word {
                    Word::Original(w) => w,
                    Word::Derived(w) => w,
                },
            ),
            forall|db: Database, key: &Vec<u8>| #[trigger] store.requires((db, key)),
        ensures
            old(self).unchanged_but(
                final(self),
                CacheTable::ExactWordDocids,
                CacheTable::WordDocids,
            ),
            word matches Word::Derived(w) ==> final(self).db_cache.exact_word_docids@ == old(self).db_cache.exact_word_docids@ && word_lookup(
                old(self).db_cache.word_docids@,
                final(self).db_cache.word_docids@,
                word_key_spec(w),
                Database::WordDocids,
                Database::WordFidDocids,
                old(self).word_bytes(w),
                old(self).tolerant_fids(),
                store,
                docids_view(found),
            ),
            word matches Word::Original(w) ==> exists|
                exact: Result<Option<Set<u32>>, Error>,
                tolerant: Result<Option<Set<u32>>, Error>,
            |
                #![trigger either(exact->Ok_0, tolerant->Ok_0)]
                {
                    &&& word_lookup(
                        old(self).db_cache.exact_word_docids@,
                        final(self).db_cache.exact_word_docids@,
                        word_key_spec(w),
                        Database::ExactWordDocids,
                        Database::WordFidDocids,
                        old(self).word_bytes(w),
                        old(self).exact_fids(),
                        store,
                        exact,
                    )
                    &&& exact is Err ==> docids_view(found) == exact && final(self).db_cache.word_docids@ == old(self).db_cache.word_docids@
                    &&& exact is Ok ==> word_lookup(
                        old(self).db_cache.word_docids@,
                        final(self).db_cache.word_docids@,
                        word_key_spec(w),
                        Database::WordDocids,
                        Database::WordFidDocids,
                        old(self).word_bytes(w),
                        old(self).tolerant_fids(),
                        store,
                        tolerant,
                    )
                    &&& exact is Ok && tolerant is Err ==> docids_view(found) == tolerant
                    &&& exact is Ok && tolerant is Ok ==> docids_view(found) == Ok::<
                        Option<Set<u32>>,
                        Error,
                    >(either(exact->Ok_0, tolerant->Ok_0))
                },
    {
        match word {
            Word::Original(w) => {
                let exact = self.get_db_exact_word_docids(w, store);
                let ghost exact_view = docids_view(exact);
                let exact = match exact {
                    Ok(exact) => exact,
                    Err(e) => {
                        proof {
                            let none: Result<Option<Set<u32>>, Error> = Ok(None);
                            assert(either(exact_view->Ok_0, none->Ok_0) == either(
                                exact_view->Ok_0,
                                none->Ok_0,
                            ));
                        }
                        return Err(e);
                    },
                };
                let tolerant = self.get_db_word_docids(w, store);
                let ghost tolerant_view = docids_view(tolerant);
                proof {
                    assert(either(exact_view->Ok_0, tolerant_view->Ok_0) == either(
                        exact_view->Ok_0,
                        tolerant_view->Ok_0,
                    ));
                }
                match tolerant {
                    Ok(tolerant) => Ok(join(exact, tolerant)),
                    Err(e) => Err(e),
                }
            },
            Word::Derived(w) => self.get_db_word_docids(w, store),
        }
    }

    /// The documents of a prefix of the query, as `word_docids` gives those
    /// of a word.
    pub fn word_prefix_docids<F>(&mut self, prefix: Word, store: &F) -> (found: Result<
        Option<DocIds>,
        Error,
    >) where F: Fn(Database, &Vec<u8>) -> Result<Option<Vec<u8>>, Error>
        requires
            old(self).word_interner.holds(
                match prefix {
                    Word::Original(w) => w,
                    Word::Derived(w) => w,
                },
            ),
            forall|db: Database, key: &Vec<u8>| #[trigger] store.requires((db, key)),
        ensures
            old(self).unchanged_but(
                final(self),
                CacheTable::ExactWordPrefixDocids,
                CacheTable::WordPrefixDocids,
            ),
            prefix matches Word::Derived(w) ==> final(self).db_cache.exact_word_prefix_docids@
                == old(self).db_cache.exact_word_prefix_docids@ && word_lookup(
                old(self).db_cache.word_prefix_docids@,
                final(self).db_cache.word_prefix_docids@,
                word_key_spec(w),
                Database::WordPrefixDocids,
                Database::WordPrefixFidDocids,
                old(self).word_bytes(w),
                old(self).tolerant_fids(),
                store,
                docids_view(found),
            ),
            prefix matches Word::Original(w) ==> exists|
                exact: Result<Option<Set<u32>>, Error>,
                tolerant: Result<Option<Set<u32>>, Error>,
            |
                #![trigger either(exact->Ok_0, tolerant->Ok_0)]
                {
                    &&& word_lookup(
                        old(self).db_cache.exact_word_prefix_docids@,
                        final(self).db_cache.exact_word_prefix_docids@,
                        word_key_spec(w),
                        Database::ExactWordPrefixDocids,
                        Database::WordPrefixFidDocids,
                        old(self).word_bytes(w),
                        old(self).exact_fids(),
                        store,
                        exact,
                    )
                    &&& exact is Err ==> docids_view(found) == exact && final(self).db_cache.word_prefix_docids@ == old(self).db_cache.word_prefix_docids@
                    &&& exact is Ok ==> word_lookup(
                        old(self).db_cache.word_prefix_docids@,
                        final(self).db_cache.word_prefix_docids@,
                        word_key_spec(w),
                        Database::WordPrefixDocids,
                        Database::WordPrefixFidDocids,
                        old(self).word_bytes(w),
                        old(self).tolerant_fids(),
                        store,
                        tolerant,
                    )
                    &&& exact is Ok && tolerant is Err ==> docids_view(found) == tolerant
                    &&& exact is Ok && tolerant is Ok ==> docids_view(found) == Ok::<
                        Option<Set<u32>>,
                        Error,
                    >(either(exact->Ok_0, tolerant->Ok_0))
                },
    {
        match prefix {
            Word::Original(w) => {
                let exact = self.get_db_exact_word_prefix_docids(w, store);
                let ghost exact_view = docids_view(exact);
                let exact = match exact {
                    Ok(exact) => exact,
                    Err(e) => {
                        proof {
                            let none: Result<Option<Set<u32>>, Error> = Ok(None);
                            assert(either(exact_view->Ok_0, none->Ok_0) == either(
                                exact_view->Ok_0,
                                none->Ok_0,
                            ));
                        }
                        return Err(e);
                    },
                };
                let tolerant = self.get_db_word_prefix_docids(w, store);
                let ghost tolerant_view = docids_view(tolerant);
                proof {
                    assert(either(exact_view->Ok_0, tolerant_view->Ok_0) == either(
                        exact_view->Ok_0,
                        tolerant_view->Ok_0,
                    ));
                }
                match tolerant {
                    Ok(tolerant) => Ok(join(exact, tolerant)),
                    Err(e) => Err(e),
                }
            },
            Word::Derived(w) => self.get_db_word_prefix_docids(w, store),
        }
    }
    /// The documents in which the two words stand at the given proximity.
    pub fn get_db_word_pair_proximity_docids<F>(
        &mut self,
        word1: Interned,
        word2: Interned,
        proximity: u8,
        store: &F,
    ) -> (found: Result<Option<DocIds>, Error>) where
        F: Fn(Database, &Vec<u8>) -> Result<Option<Vec<u8>>, Error>,

        requires
            old(self).word_interner.holds(word1),
            old(self).word_interner.holds(word2),
            forall|db: Database, key: &Vec<u8>| #[trigger] store.requires((db, key)),
        ensures
            old(self).unchanged_but(final(self), CacheTable::WordPairProximityDocids, CacheTable::WordPairProximityDocids),
            key_lookup(
                old(self).db_cache.word_pair_proximity_docids@,
                final(self).db_cache.word_pair_proximity_docids@,
                proximity_key_spec(proximity, word1, word2),
                Database::WordPairProximityDocids,
                proximity_db_key_spec(
                    proximity,
                    old(self).word_bytes(word1),
                    old(self).word_bytes(word2),
                ),
                store,
                docids_view(found),
            ),
    {
        let key = proximity_db_key(
            proximity,
            self.word_interner.get(word1),
            self.word_interner.get(word2),
        );
        lookup_key(
            &mut self.db_cache.word_pair_proximity_docids,
            proximity_key(proximity, word1, word2),
            Database::WordPairProximityDocids,
            key,
            store,
        )
    }

    /// The number of documents in which the two words stand at the given
    /// proximity.
    pub fn get_db_word_pair_proximity_docids_len<F>(
        &mut self,
        word1: Interned,
        word2: Interned,
        proximity: u8,
        store: &F,
    ) -> (found: Result<Option<u64>, Error>) where
        F: Fn(Database, &Vec<u8>) -> Result<Option<Vec<u8>>, Error>,

        requires
            old(self).word_interner.holds(word1),
            old(self).word_interner.holds(word2),
            forall|db: Database, key: &Vec<u8>| #[trigger] store.requires((db, key)),
        ensures
            old(self).unchanged_but(
                final(self),
                CacheTable::WordPairProximityDocids,
                CacheTable::WordPairProximityDocids,
            ),
            key_lookup_len(
                old(self).db_cache.word_pair_proximity_docids@,
                final(self).db_cache.word_pair_proximity_docids@,
                proximity_key_spec(proximity, word1, word2),
                Database::WordPairProximityDocids,
                proximity_db_key_spec(
                    proximity,
                    old(self).word_bytes(word1),
                    old(self).word_bytes(word2),
                ),
                store,
                found,
            ),
    {
        let key = proximity_db_key(
            proximity,
            self.word_interner.get(word1),
            self.word_interner.get(word2),
        );
        let ghost before = self.db_cache.word_pair_proximity_docids@;
        let found = get_value_len(
            &mut self.db_cache.word_pair_proximity_docids,
            proximity_key(proximity, word1, word2),
            Database::WordPairProximityDocids,
            &key,
            store,
        );
        proof {
            let raw = choose|raw: Result<Option<Seq<u8>>, Error>|
                #[trigger] looked_up(
                    before,
                    self.db_cache.word_pair_proximity_docids@,
                    proximity_key_spec(proximity, word1, word2),
                    Database::WordPairProximityDocids,
                    &key,
                    store,
                    raw,
                ) && found == decoded_len(raw);
            assert(looked_up(
                before,
                self.db_cache.word_pair_proximity_docids@,
                proximity_key_spec(proximity, word1, word2),
                Database::WordPairProximityDocids,
                &key,
                store,
                raw,
            ));
        }
        found
    }

    /// The documents in which the word and a word that starts with the prefix
    /// stand at the given proximity.
    pub fn get_db_word_prefix_pair_proximity_docids<F>(
        &mut self,
        word1: Interned,
        prefix2: Interned,
        proximity: u8,
        store: &F,
    ) -> (found: Result<Option<DocIds>, Error>) where
        F: Fn(Database, &Vec<u8>) -> Result<Option<Vec<u8>>, Error>,

        requires
            old(self).word_interner.holds(word1),
            old(self).word_interner.holds(prefix2),
            forall|db: Database, key: &Vec<u8>| #[trigger] store.requires((db, key)),
        ensures
            old(self).unchanged_but(final(self), CacheTable::WordPrefixPairProximityDocids, CacheTable::WordPrefixPairProximityDocids),
            key_lookup(
                old(self).db_cache.word_prefix_pair_proximity_docids@,
                final(self).db_cache.word_prefix_pair_proximity_docids@,
                proximity_key_spec(proximity, word1, prefix2),
                Database::WordPrefixPairProximityDocids,
                proximity_db_key_spec(
                    proximity,
                    old(self).word_bytes(word1),
                    old(self).word_bytes(prefix2),
                ),
                store,
                docids_view(found),
            ),
    {
        let key = proximity_db_key(
            proximity,
            self.word_interner.get(word1),
            self.word_interner.get(prefix2),
        );
        lookup_key(
            &mut self.db_cache.word_prefix_pair_proximity_docids,
            proximity_key(proximity, word1, prefix2),
            Database::WordPrefixPairProximityDocids,
            key,
            store,
        )
    }

    /// The documents in which a word that starts with the prefix and the word
    /// stand at the given proximity.
    pub fn get_db_prefix_word_pair_proximity_docids<F>(
        &mut self,
        left_prefix: Interned,
        right: Interned,
        proximity: u8,
        store: &F,
    ) -> (found: Result<Option<DocIds>, Error>) where
        F: Fn(Database, &Vec<u8>) -> Result<Option<Vec<u8>>, Error>,

        requires
            old(self).word_interner.holds(left_prefix),
            old(self).word_interner.holds(right),
            forall|db: Database, key: &Vec<u8>| #[trigger] store.requires((db, key)),
        ensures
            old(self).unchanged_but(final(self), CacheTable::PrefixWordPairProximityDocids, CacheTable::PrefixWordPairProximityDocids),
            key_lookup(
                old(self).db_cache.prefix_word_pair_proximity_docids@,
                final(self).db_cache.prefix_word_pair_proximity_docids@,
                proximity_key_spec(proximity, left_prefix, right),
                Database::PrefixWordPairProximityDocids,
                proximity_db_key_spec(
                    proximity,
                    old(self).word_bytes(left_prefix),
                    old(self).word_bytes(right),
                ),
                store,
                docids_view(found),
            ),
    {
        let key = proximity_db_key(
            proximity,
            self.word_interner.get(left_prefix),
            self.word_interner.get(right),
        );
        lookup_key(
            &mut self.db_cache.prefix_word_pair_proximity_docids,
            proximity_key(proximity, left_prefix, right),
            Database::PrefixWordPairProximityDocids,
            key,
            store,
        )
    }

    /// The documents that hold the word in the field `fid`. A field that the
    /// query is not to look into gives nothing, and neither the cache nor the
    /// store is asked.
    pub fn get_db_word_fid_docids<F>(&mut self, word: Interned, fid: u16, store: &F) -> (found: Result<
        Option<DocIds>,
        Error,
    >) where F: Fn(Database, &Vec<u8>) -> Result<Option<Vec<u8>>, Error>
        requires
            old(self).word_interner.holds(word),
            forall|db: Database, key: &Vec<u8>| #[trigger] store.requires((db, key)),
        ensures
            old(self).unchanged_but(final(self), CacheTable::WordFidDocids, CacheTable::WordFidDocids),
            !old(self).allows(fid) ==> (found matches Ok(None)) && final(self).db_cache.word_fid_docids@
                == old(self).db_cache.word_fid_docids@,
            old(self).allows(fid) ==> key_lookup(
                old(self).db_cache.word_fid_docids@,
                final(self).db_cache.word_fid_docids@,
                pair_key_spec(word, fid),
                Database::WordFidDocids,
                str_beu16_spec(old(self).word_bytes(word), fid),
                store,
                docids_view(found),
            ),
    {
        let allowed = match &self.restricted_fids {
            Some(restricted) => restricted.contains(fid),
            None => true,
        };
        if !allowed {
            return Ok(None);
        }
        let key = match StrBEU16Codec::bytes_encode(self.word_interner.get(word), fid) {
            Some(key) => key,
            None => Vec::new(),
        };
        lookup_key(
            &mut self.db_cache.word_fid_docids,
            pair_key(word, fid),
            Database::WordFidDocids,
            key,
            store,
        )
    }

    /// The documents that hold a word that starts with the prefix in the field
    /// `fid`. A field that the query is not to look into gives nothing, and
    /// neither the cache nor the store is asked.
    pub fn get_db_word_prefix_fid_docids<F>(&mut self, word: Interned, fid: u16, store: &F) -> (found: Result<
        Option<DocIds>,
        Error,
    >) where F: Fn(Database, &Vec<u8>) -> Result<Option<Vec<u8>>, Error>
        requires
            old(self).word_interner.holds(word),
            forall|db: Database, key: &Vec<u8>| #[trigger] store.requires((db, key)),
        ensures
            old(self).unchanged_but(final(self), CacheTable::WordPrefixFidDocids, CacheTable::WordPrefixFidDocids),
            !old(self).allows(fid) ==> (found matches Ok(None)) && final(self).db_cache.word_prefix_fid_docids@
                == old(self).db_cache.word_prefix_fid_docids@,
            old(self).allows(fid) ==> key_lookup(
                old(self).db_cache.word_prefix_fid_docids@,
                final(self).db_cache.word_prefix_fid_docids@,
                pair_key_spec(word, fid),
                Database::WordPrefixFidDocids,
                str_beu16_spec(old(self).word_bytes(word), fid),
                store,
                docids_view(found),
            ),
    {
        let allowed = match &self.restricted_fids {
            Some(restricted) => restricted.contains(fid),
            None => true,
        };
        if !allowed {
            return Ok(None);
        }
        let key = match StrBEU16Codec::bytes_encode(self.word_interner.get(word), fid) {
            Some(key) => key,
            None => Vec::new(),
        };
        lookup_key(
            &mut self.db_cache.word_prefix_fid_docids,
            pair_key(word, fid),
            Database::WordPrefixFidDocids,
            key,
            store,
        )
    }

    /// The fields in which the word occurs.
    pub fn get_db_word_fids<G>(&mut self, word: Interned, entries_of: &G) -> (found: Result<
        Vec<u16>,
        Error,
    >) where G: Fn(Database, &Vec<u8>) -> Result<Vec<(Vec<u8>, Vec<u8>)>, Error>
        requires
            old(self).word_interner.holds(word),
            forall|db: Database, key: &Vec<u8>| #[trigger] entries_of.requires((db, key)),
        ensures
            old(self).unchanged_but(final(self), CacheTable::WordFids, CacheTable::WordFidDocids),
            list_lookup(
                old(self).db_cache.word_fids@,
                final(self).db_cache.word_fids@,
                old(self).db_cache.word_fid_docids@,
                final(self).db_cache.word_fid_docids@,
                word,
                old(self).word_bytes(word),
                Database::WordFidDocids,
                entries_of,
                found,
            ),
    {
        lookup_list(
            &mut self.db_cache.word_fids,
            &mut self.db_cache.word_fid_docids,
            word,
            self.word_interner.get(word),
            Database::WordFidDocids,
            entries_of,
        )
    }

    /// The fields in which a word that starts with the prefix occurs.
    pub fn get_db_word_prefix_fids<G>(&mut self, word: Interned, entries_of: &G) -> (found: Result<
        Vec<u16>,
        Error,
    >) where G: Fn(Database, &Vec<u8>) -> Result<Vec<(Vec<u8>, Vec<u8>)>, Error>
        requires
            old(self).word_interner.holds(word),
            forall|db: Database, key: &Vec<u8>| #[trigger] entries_of.requires((db, key)),
        ensures
            old(self).unchanged_but(final(self), CacheTable::WordPrefixFids, CacheTable::WordPrefixFidDocids),
            list_lookup(
                old(self).db_cache.word_prefix_fids@,
                final(self).db_cache.word_prefix_fids@,
                old(self).db_cache.word_prefix_fid_docids@,
                final(self).db_cache.word_prefix_fid_docids@,
                word,
                old(self).word_bytes(word),
                Database::WordPrefixFidDocids,
                entries_of,
                found,
            ),
    {
        lookup_list(
            &mut self.db_cache.word_prefix_fids,
            &mut self.db_cache.word_prefix_fid_docids,
            word,
            self.word_interner.get(word),
            Database::WordPrefixFidDocids,
            entries_of,
        )
    }

    /// The documents that hold the word at the given position.
    pub fn get_db_word_position_docids<F>(&mut self, word: Interned, position: u16, store: &F) -> (found: Result<
        Option<DocIds>,
        Error,
    >) where F: Fn(Database, &Vec<u8>) -> Result<Option<Vec<u8>>, Error>
        requires
            old(self).word_interner.holds(word),
            forall|db: Database, key: &Vec<u8>| #[trigger] store.requires((db, key)),
        ensures
            old(self).unchanged_but(final(self), CacheTable::WordPositionDocids, CacheTable::WordPositionDocids),
            key_lookup(
                old(self).db_cache.word_position_docids@,
                final(self).db_cache.word_position_docids@,
                pair_key_spec(word, position),
                Database::WordPositionDocids,
                str_beu16_spec(old(self).word_bytes(word), position),
                store,
                docids_view(found),
            ),
    {
        let key = match StrBEU16Codec::bytes_encode(self.word_interner.get(word), position) {
            Some(key) => key,
            None => Vec::new(),
        };
        lookup_key(
            &mut self.db_cache.word_position_docids,
            pair_key(word, position),
            Database::WordPositionDocids,
            key,
            store,
        )
    }

    /// The documents that hold a word that starts with the prefix at the given
    /// position.
    pub fn get_db_word_prefix_position_docids<F>(&mut self, word: Interned, position: u16, store: &F) -> (found: Result<
        Option<DocIds>,
        Error,
    >) where F: Fn(Database, &Vec<u8>) -> Result<Option<Vec<u8>>, Error>
        requires
            old(self).word_interner.holds(word),
            forall|db: Database, key: &Vec<u8>| #[trigger] store.requires((db, key)),
        ensures
            old(self).unchanged_but(final(self), CacheTable::WordPrefixPositionDocids, CacheTable::WordPrefixPositionDocids),
            key_lookup(
                old(self).db_cache.word_prefix_position_docids@,
                final(self).db_cache.word_prefix_position_docids@,
                pair_key_spec(word, position),
                Database::WordPrefixPositionDocids,
                str_beu16_spec(old(self).word_bytes(word), position),
                store,
                docids_view(found),
            ),
    {
        let key = match StrBEU16Codec::bytes_encode(self.word_interner.get(word), position) {
            Some(key) => key,
            None => Vec::new(),
        };
        lookup_key(
            &mut self.db_cache.word_prefix_position_docids,
            pair_key(word, position),
            Database::WordPrefixPositionDocids,
            key,
            store,
        )
    }

    /// The positions at which the word occurs.
    pub fn get_db_word_positions<G>(&mut self, word: Interned, entries_of: &G) -> (found: Result<
        Vec<u16>,
        Error,
    >) where G: Fn(Database, &Vec<u8>) -> Result<Vec<(Vec<u8>, Vec<u8>)>, Error>
        requires
            old(self).word_interner.holds(word),
            forall|db: Database, key: &Vec<u8>| #[trigger] entries_of.requires((db, key)),
        ensures
            old(self).unchanged_but(final(self), CacheTable::WordPositions, CacheTable::WordPositionDocids),
            list_lookup(
                old(self).db_cache.word_positions@,
                final(self).db_cache.word_positions@,
                old(self).db_cache.word_position_docids@,
                final(self).db_cache.word_position_docids@,
                word,
                old(self).word_bytes(word),
                Database::WordPositionDocids,
                entries_of,
                found,
            ),
    {
        lookup_list(
            &mut self.db_cache.word_positions,
            &mut self.db_cache.word_position_docids,
            word,
            self.word_interner.get(word),
            Database::WordPositionDocids,
            entries_of,
        )
    }

    /// The positions at which a word that starts with the prefix occurs.
    pub fn get_db_word_prefix_positions<G>(&mut self, word: Interned, entries_of: &G) -> (found: Result<
        Vec<u16>,
        Error,
    >) where G: Fn(Database, &Vec<u8>) -> Result<Vec<(Vec<u8>, Vec<u8>)>, Error>
        requires
            old(self).word_interner.holds(word),
            forall|db: Database, key: &Vec<u8>| #[trigger] entries_of.requires((db, key)),
        ensures
            old(self).unchanged_but(final(self), CacheTable::WordPrefixPositions, CacheTable::WordPrefixPositionDocids),
            list_lookup(
                old(self).db_cache.word_prefix_positions@,
                final(self).db_cache.word_prefix_positions@,
                old(self).db_cache.word_prefix_position_docids@,
                final(self).db_cache.word_prefix_position_docids@,
                word,
                old(self).word_bytes(word),
                Database::WordPrefixPositionDocids,
                entries_of,
                found,
            ),
    {
        lookup_list(
            &mut self.db_cache.word_prefix_positions,
            &mut self.db_cache.word_prefix_position_docids,
            word,
            self.word_interner.get(word),
            Database::WordPrefixPositionDocids,
            entries_of,
        )
    }
}

} // verus!

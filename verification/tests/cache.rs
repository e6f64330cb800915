use std::cell::{Cell, RefCell};
use std::collections::{BTreeMap, HashMap};

use indexer_core::cell::{A549CancerCell, CellPhase, ChannelKind, IonType};
use indexer_core::db_cache::{get_or_fetch, get_value_len, DatabaseCache};
use indexer_core::docids::DocIds;
use indexer_core::error::{Database, Error};
use indexer_core::interner::{Interned, Interner};
use indexer_core::postings::encode_docids;
use indexer_core::search_context::{
    pair_key, proximity_db_key, proximity_key, word_key, RestrictedFids, SearchContext, Word,
};
use indexer_core::str_codec::StrBEU16Codec;

struct Store {
    tables: RefCell<BTreeMap<(String, Vec<u8>), Vec<u8>>>,
    lookups: Cell<usize>,
}

impl Store {
    fn new() -> Store {
        Store { tables: RefCell::new(BTreeMap::new()), lookups: Cell::new(0) }
    }

    fn get(&self, db: Database, key: &Vec<u8>) -> Result<Option<Vec<u8>>, Error> {
        self.lookups.set(self.lookups.get() + 1);
        Ok(self.tables.borrow().get(&(format!("{:?}", db), key.clone())).cloned())
    }

    fn prefix(&self, db: Database, prefix: &Vec<u8>) -> Result<Vec<(Vec<u8>, Vec<u8>)>, Error> {
        self.lookups.set(self.lookups.get() + 1);
        let name = format!("{:?}", db);
        Ok(self
            .tables
            .borrow()
            .iter()
            .filter(|((table, key), _)| *table == name && key.starts_with(prefix))
            .map(|((_, key), value)| (key.clone(), value.clone()))
            .collect())
    }

    fn put(&self, db: Database, key: &[u8], value: &[u8]) {
        self.tables.borrow_mut().insert((format!("{:?}", db), key.to_vec()), value.to_vec());
    }
}

fn ids(values: &[u32]) -> Vec<u8> {
    encode_docids(&DocIds::from_slice(values))
}

fn context(words: &[&str], restricted: Option<RestrictedFids>) -> (SearchContext, Vec<Interned>) {
    let mut interner = Interner::new();
    let handles = words.iter().map(|word| interner.insert(word).unwrap()).collect();
    (SearchContext::new(interner, restricted), handles)
}

#[test]
fn two_lookups_of_one_key_touch_the_store_once() {
    let store = Store::new();
    store.put(Database::WordDocids, b"apple", &ids(&[1, 2]));
    let reader = |db: Database, key: &Vec<u8>| store.get(db, key);
    let mut cache = HashMap::new();
    let key = b"apple".to_vec();
    let first = get_or_fetch(&mut cache, 7, Database::WordDocids, &key, &reader);
    let second = get_or_fetch(&mut cache, 7, Database::WordDocids, &key, &reader);
    assert_eq!(first, Ok(Some(ids(&[1, 2]))));
    assert_eq!(second, first);
    assert_eq!(store.lookups.get(), 1);
    store.put(Database::WordDocids, b"apple", &ids(&[9]));
    assert_eq!(get_or_fetch(&mut cache, 7, Database::WordDocids, &key, &reader), first);
    assert_eq!(store.lookups.get(), 1);
}

#[test]
fn absent_keys_are_memoized_too() {
    let store = Store::new();
    let reader = |db: Database, key: &Vec<u8>| store.get(db, key);
    let mut cache = HashMap::new();
    let key = b"nothing".to_vec();
    assert_eq!(get_or_fetch(&mut cache, 1, Database::WordDocids, &key, &reader), Ok(None));
    assert_eq!(get_or_fetch(&mut cache, 1, Database::WordDocids, &key, &reader), Ok(None));
    assert_eq!(store.lookups.get(), 1);
    assert_eq!(cache.get(&1), Some(&None));
}

#[test]
fn failed_lookups_are_not_memoized() {
    let calls = Cell::new(0);
    let failing = |_: Database, _: &Vec<u8>| -> Result<Option<Vec<u8>>, Error> {
        calls.set(calls.get() + 1);
        Err(Error::DatabaseMissingEntry(Database::WordDocids))
    };
    let mut cache = HashMap::new();
    let key = b"k".to_vec();
    assert_eq!(
        get_or_fetch(&mut cache, 1, Database::WordDocids, &key, &failing),
        Err(Error::DatabaseMissingEntry(Database::WordDocids))
    );
    assert!(cache.is_empty());
    assert!(get_or_fetch(&mut cache, 1, Database::WordDocids, &key, &failing).is_err());
    assert_eq!(calls.get(), 2);
}

#[test]
fn get_value_decodes_what_is_there() {
    let store = Store::new();
    store.put(Database::WordDocids, b"good", &ids(&[4, 5]));
    store.put(Database::WordDocids, b"bad", &[1, 2, 3]);
    let reader = |db: Database, key: &Vec<u8>| store.get(db, key);
    let mut cache = HashMap::new();
    let found = DatabaseCache::get_value(&mut cache, 1, Database::WordDocids, &b"good".to_vec(), &reader).unwrap();
    assert_eq!(found.unwrap().to_vec(), vec![4, 5]);
    assert!(DatabaseCache::get_value(&mut cache, 2, Database::WordDocids, &b"none".to_vec(), &reader).unwrap().is_none());
    assert_eq!(
        DatabaseCache::get_value(&mut cache, 3, Database::WordDocids, &b"bad".to_vec(), &reader).err(),
        Some(Error::Decoding)
    );
    assert_eq!(get_value_len(&mut cache, 1, Database::WordDocids, &b"good".to_vec(), &reader), Ok(Some(2)));
    assert_eq!(get_value_len(&mut cache, 2, Database::WordDocids, &b"none".to_vec(), &reader), Ok(None));
    assert_eq!(
        get_value_len(&mut cache, 3, Database::WordDocids, &b"bad".to_vec(), &reader),
        Err(Error::Decoding)
    );
    assert_eq!(store.lookups.get(), 3);
}

#[test]
fn get_value_from_keys_unions_what_the_store_holds() {
    let store = Store::new();
    store.put(Database::WordFidDocids, b"k1", &ids(&[1, 2]));
    store.put(Database::WordFidDocids, b"k3", &ids(&[2, 9]));
    let reader = |db: Database, key: &Vec<u8>| store.get(db, key);
    let mut cache = HashMap::new();
    let keys = vec![b"k1".to_vec(), b"k2".to_vec(), b"k3".to_vec()];
    let found = DatabaseCache::get_value_from_keys(&mut cache, 5, Database::WordFidDocids, &keys, &reader).unwrap();
    assert_eq!(found.unwrap().to_vec(), vec![1, 2, 9]);
    assert_eq!(store.lookups.get(), 3);
    let again = DatabaseCache::get_value_from_keys(&mut cache, 5, Database::WordFidDocids, &keys, &reader).unwrap();
    assert_eq!(again.unwrap().to_vec(), vec![1, 2, 9]);
    assert_eq!(store.lookups.get(), 3);
    assert_eq!(cache.get(&5), Some(&Some(ids(&[1, 2, 9]))));

    let none = DatabaseCache::get_value_from_keys(&mut cache, 6, Database::WordFidDocids, &vec![], &reader).unwrap();
    assert!(none.is_none());
    assert_eq!(store.lookups.get(), 3);
    let missing = vec![b"x".to_vec(), b"y".to_vec()];
    assert!(DatabaseCache::get_value_from_keys(&mut cache, 7, Database::WordFidDocids, &missing, &reader).unwrap().is_none());
    assert_eq!(cache.get(&7), Some(&None));
    let single = vec![b"k1".to_vec()];
    let one = DatabaseCache::get_value_from_keys(&mut cache, 8, Database::WordFidDocids, &single, &reader).unwrap();
    assert_eq!(one.unwrap().to_vec(), vec![1, 2]);
}

#[test]
fn cache_keys() {
    let a = Interned { index: 3 };
    let b = Interned { index: 0xffff };
    assert_eq!(word_key(a), 3);
    assert_eq!(pair_key(a, 5), 3 * 65536 + 5);
    assert_eq!(pair_key(b, 0xffff), 0xffff_ffff);
    assert_eq!(proximity_key(2, a, b), (2 * 65536 + 3) * 65536 + 0xffff);
    assert_eq!(proximity_key(255, b, b), 0xff_ffff_ffff);
    assert_eq!(proximity_db_key(4, "ab", "c"), vec![4, b'a', b'b', 0, b'c']);
}

#[test]
fn word_docids_join_exact_and_tolerant() {
    let store = Store::new();
    store.put(Database::WordDocids, b"apple", &ids(&[1, 2]));
    store.put(Database::ExactWordDocids, b"apple", &ids(&[2, 3]));
    store.put(Database::ExactWordDocids, b"pear", &ids(&[8]));
    store.put(Database::WordDocids, b"kiwi", &ids(&[5]));
    let reader = |db: Database, key: &Vec<u8>| store.get(db, key);
    let (mut context, handles) = context(&["apple", "pear", "kiwi", "none"], None);
    let both = context.word_docids(Word::Original(handles[0]), &reader).unwrap();
    assert_eq!(both.unwrap().to_vec(), vec![1, 2, 3]);
    let derived = context.word_docids(Word::Derived(handles[0]), &reader).unwrap();
    assert_eq!(derived.unwrap().to_vec(), vec![1, 2]);
    assert_eq!(store.lookups.get(), 2);
    let exact_only = context.word_docids(Word::Original(handles[1]), &reader).unwrap();
    assert_eq!(exact_only.unwrap().to_vec(), vec![8]);
    let tolerant_only = context.word_docids(Word::Original(handles[2]), &reader).unwrap();
    assert_eq!(tolerant_only.unwrap().to_vec(), vec![5]);
    assert!(context.word_docids(Word::Original(handles[3]), &reader).unwrap().is_none());
    let before = store.lookups.get();
    assert!(context.word_docids(Word::Original(handles[3]), &reader).unwrap().is_none());
    assert_eq!(store.lookups.get(), before);
}

#[test]
fn restricted_fields_union_the_postings_of_each_field() {
    let store = Store::new();
    let key = |word: &str, fid: u16| StrBEU16Codec::bytes_encode(word, fid).unwrap();
    store.put(Database::WordFidDocids, &key("apple", 1), &ids(&[1]));
    store.put(Database::WordFidDocids, &key("apple", 2), &ids(&[2]));
    store.put(Database::WordFidDocids, &key("apple", 3), &ids(&[3]));
    store.put(Database::WordDocids, b"apple", &ids(&[1, 2, 3]));
    store.put(Database::WordPrefixFidDocids, &key("ap", 1), &ids(&[7]));
    let reader = |db: Database, key: &Vec<u8>| store.get(db, key);
    let restricted = RestrictedFids { tolerant: vec![1, 3], exact: vec![2] };
    assert!(restricted.contains(1));
    assert!(restricted.contains(2));
    assert!(!restricted.contains(4));
    let (mut context, handles) = context(&["apple", "ap"], Some(restricted));
    let tolerant = context.get_db_word_docids(handles[0], &reader).unwrap();
    assert_eq!(tolerant.unwrap().to_vec(), vec![1, 3]);
    assert_eq!(store.lookups.get(), 2);
    let exact = context.get_db_exact_word_docids(handles[0], &reader).unwrap();
    assert_eq!(exact.unwrap().to_vec(), vec![2]);
    let both = context.word_docids(Word::Original(handles[0]), &reader).unwrap();
    assert_eq!(both.unwrap().to_vec(), vec![1, 2, 3]);
    assert_eq!(store.lookups.get(), 3);
    let prefix = context.word_prefix_docids(Word::Original(handles[1]), &reader).unwrap();
    assert_eq!(prefix.unwrap().to_vec(), vec![7]);
    assert!(context.get_db_exact_word_prefix_docids(handles[1], &reader).unwrap().is_none());

    let allowed = context.get_db_word_fid_docids(handles[0], 2, &reader).unwrap();
    assert_eq!(allowed.unwrap().to_vec(), vec![2]);
    let before = store.lookups.get();
    assert!(context.get_db_word_fid_docids(handles[0], 9, &reader).unwrap().is_none());
    assert!(context.get_db_word_prefix_fid_docids(handles[1], 9, &reader).unwrap().is_none());
    assert_eq!(store.lookups.get(), before);
    let prefix_fid = context.get_db_word_prefix_fid_docids(handles[1], 1, &reader).unwrap();
    assert_eq!(prefix_fid.unwrap().to_vec(), vec![7]);
}

#[test]
fn proximity_and_position_lookups() {
    let store = Store::new();
    store.put(Database::WordPairProximityDocids, &proximity_db_key(2, "a", "b"), &ids(&[1, 4]));
    store.put(Database::WordPrefixPairProximityDocids, &proximity_db_key(2, "a", "b"), &ids(&[2]));
    store.put(Database::PrefixWordPairProximityDocids, &proximity_db_key(2, "a", "b"), &ids(&[3]));
    store.put(Database::WordPositionDocids, &StrBEU16Codec::bytes_encode("a", 5).unwrap(), &ids(&[6]));
    store.put(Database::WordPrefixPositionDocids, &StrBEU16Codec::bytes_encode("a", 5).unwrap(), &ids(&[7]));
    let reader = |db: Database, key: &Vec<u8>| store.get(db, key);
    let (mut context, h) = context(&["a", "b"], None);
    assert_eq!(
        context.get_db_word_pair_proximity_docids(h[0], h[1], 2, &reader).unwrap().unwrap().to_vec(),
        vec![1, 4]
    );
    assert_eq!(context.get_db_word_pair_proximity_docids_len(h[0], h[1], 2, &reader), Ok(Some(2)));
    assert_eq!(store.lookups.get(), 1);
    assert!(context.get_db_word_pair_proximity_docids(h[1], h[0], 2, &reader).unwrap().is_none());
    assert_eq!(
        context.get_db_word_prefix_pair_proximity_docids(h[0], h[1], 2, &reader).unwrap().unwrap().to_vec(),
        vec![2]
    );
    assert_eq!(
        context.get_db_prefix_word_pair_proximity_docids(h[0], h[1], 2, &reader).unwrap().unwrap().to_vec(),
        vec![3]
    );
    assert_eq!(context.get_db_word_position_docids(h[0], 5, &reader).unwrap().unwrap().to_vec(), vec![6]);
    assert_eq!(
        context.get_db_word_prefix_position_docids(h[0], 5, &reader).unwrap().unwrap().to_vec(),
        vec![7]
    );
    assert!(context.get_db_word_position_docids(h[0], 6, &reader).unwrap().is_none());
}

#[test]
fn lists_fill_the_cache_of_the_pairs() {
    let store = Store::new();
    let key = |word: &str, n: u16| StrBEU16Codec::bytes_encode(word, n).unwrap();
    store.put(Database::WordFidDocids, &key("apple", 1), &ids(&[1]));
    store.put(Database::WordFidDocids, &key("apple", 4), &ids(&[2]));
    store.put(Database::WordFidDocids, &key("apples", 9), &ids(&[3]));
    store.put(Database::WordPositionDocids, &key("apple", 0), &ids(&[1]));
    store.put(Database::WordPrefixFidDocids, &key("apple", 2), &ids(&[5]));
    store.put(Database::WordPrefixPositionDocids, &key("apple", 3), &ids(&[6]));
    let reader = |db: Database, key: &Vec<u8>| store.get(db, key);
    let lister = |db: Database, prefix: &Vec<u8>| store.prefix(db, prefix);
    let (mut context, h) = context(&["apple"], None);
    assert_eq!(context.get_db_word_fids(h[0], &lister), Ok(vec![1, 4]));
    assert_eq!(store.lookups.get(), 1);
    assert_eq!(context.get_db_word_fids(h[0], &lister), Ok(vec![1, 4]));
    assert_eq!(store.lookups.get(), 1);
    assert_eq!(context.get_db_word_fid_docids(h[0], 4, &reader).unwrap().unwrap().to_vec(), vec![2]);
    assert_eq!(store.lookups.get(), 1);
    assert_eq!(context.get_db_word_positions(h[0], &lister), Ok(vec![0]));
    assert_eq!(context.get_db_word_prefix_fids(h[0], &lister), Ok(vec![2]));
    assert_eq!(context.get_db_word_prefix_positions(h[0], &lister), Ok(vec![3]));
    assert_eq!(store.lookups.get(), 4);
    assert_eq!(context.get_db_word_position_docids(h[0], 0, &reader).unwrap().unwrap().to_vec(), vec![1]);
    assert_eq!(store.lookups.get(), 4);
}

#[test]
fn lists_reject_keys_that_cannot_be_read() {
    let odd = |_: Database, _: &Vec<u8>| -> Result<Vec<(Vec<u8>, Vec<u8>)>, Error> {
        Ok(vec![(b"a\x00\x00\x01".to_vec(), vec![]), (vec![0xff, 0xff, 0, 0, 1], vec![])])
    };
    let (mut context, h) = context(&["a"], None);
    assert_eq!(context.get_db_word_fids(h[0], &odd), Err(Error::Decoding));
    assert!(context.db_cache.word_fids.is_empty());
}

#[test]
fn interner_is_two_way() {
    let mut interner = Interner::new();
    let apple = interner.insert("apple").unwrap();
    let pear = interner.insert("pear").unwrap();
    assert_eq!(interner.insert("apple"), Some(apple));
    assert_ne!(apple, pear);
    assert_eq!(interner.len(), 2);
    assert_eq!(interner.get(apple), "apple");
    assert_eq!(interner.get(pear), "pear");
    assert_eq!(interner.find("pear"), Some(pear));
    assert_eq!(interner.find("fig"), None);
    assert_eq!(apple, Interned { index: 0 });
    assert_eq!(pear, Interned { index: 1 });
}

#[test]
fn channel_counts_of_the_cell() {
    let mut cell = A549CancerCell::new();
    assert_eq!(cell.channel_counts(), [1; 11]);
    cell.set_channel_counts([1, 2, 3, 4, 5, 6, 7, 8, 9, 10, 11]);
    assert_eq!(cell.channel_counts(), [1, 2, 3, 4, 5, 6, 7, 8, 9, 10, 11]);
    cell.set_langthaler_et_al_channel_counts(CellPhase::G0);
    assert_eq!(cell.channel_counts(), [22, 78, 5, 1350, 40, 77, 19, 200, 17, 12, 13]);
    cell.set_langthaler_et_al_channel_counts(CellPhase::G1);
    assert_eq!(cell.channel_counts(), [20, 90, 54, 558, 15, 63, 10, 200, 12, 13, 11]);
    let metadata = cell.metadata(ChannelKind::Kv71);
    assert_eq!(metadata.n_channels, 558);
    assert_eq!(metadata.n_states, 5);
    assert_eq!(metadata.ion_type, IonType::Kalium);
    assert_eq!(cell.metadata(ChannelKind::Clc2).n_states, 12);
    assert_eq!(cell.metadata(ChannelKind::Clc2).ion_type, IonType::Chlorine);
    assert_eq!(cell.metadata(ChannelKind::Crac1).ion_type, IonType::Calcium);
    assert_eq!(ChannelKind::Clc2.index(), 10);
}

#[test]
fn the_vocabulary_is_read_once() {
    let reads = Cell::new(0usize);
    let stored = || {
        reads.set(reads.get() + 1);
        fst::Set::from_iter(["apple", "kiwi"]).map_err(|_| Error::Decoding)
    };
    let (mut ctx, _) = context(&["apple"], None);
    assert!(ctx.db_cache.words_fst.is_none());
    let first = ctx.get_words_fst(&stored).ok().unwrap();
    let second = ctx.get_words_fst(&stored).ok().unwrap();
    assert_eq!(first.stream().into_bytes(), vec![b"apple".to_vec(), b"kiwi".to_vec()]);
    assert_eq!(second.stream().into_bytes(), first.stream().into_bytes());
    assert_eq!(reads.get(), 1);
    assert!(ctx.db_cache.words_fst.is_some());
}

#[test]
fn a_failed_read_of_the_vocabulary_is_not_kept() {
    let reads = Cell::new(0usize);
    let failing = || {
        reads.set(reads.get() + 1);
        Err(Error::DatabaseMissingEntry(Database::WordsFst))
    };
    let (mut ctx, _) = context(&[], None);
    assert_eq!(ctx.get_words_fst(&failing).err(), Some(Error::DatabaseMissingEntry(Database::WordsFst)));
    assert!(ctx.db_cache.words_fst.is_none());
    assert_eq!(ctx.get_words_fst(&failing).err(), Some(Error::DatabaseMissingEntry(Database::WordsFst)));
    assert_eq!(reads.get(), 2);
}

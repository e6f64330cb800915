//! The vocabulary: the set of all the words of the index, held in a finite
//! state transducer.

use vstd::prelude::*;

use crate::error::Error;
use crate::key_set::{keys_view, strictly_ascending};
use crate::merge::{holds_key, key_in_runs};
use crate::sorted_run::{keys_of, SortedRun};

verus! {

/// `fst::Set`: an ordered set of byte strings in a finite state transducer.
/// Nothing of its inside is known here.
#[verifier::external_type_specification]
#[verifier::external_body]
#[verifier::reject_recursive_types(D)]
pub struct ExFstSet<D>(fst::Set<D>);

/// The byte strings that a set holds.
pub uninterp spec fn fst_keys(set: fst::Set<Vec<u8>>) -> Set<Seq<u8>>;

/// `fst::Set::from_iter`: the set of the given keys. It is owed where each
/// key comes before the next, and is refused where a key comes before the one
/// in front of it.
#[verifier::external_body]
fn fst_from_keys(keys: &Vec<Vec<u8>>) -> (set: Option<fst::Set<Vec<u8>>>)
    ensures
        strictly_ascending(keys_view(keys@)) ==> set is Some,
        set matches Some(s) ==> fst_keys(s) == keys_view(keys@).to_set(),
{
    fst::Set::from_iter(keys.iter()).ok()
}

/// `fst::OpBuilder::union` of the streams of two sets, gathered by
/// `fst::SetBuilder::extend_stream` into a set in memory: the set of the keys
/// that either holds.
#[verifier::external_body]
fn fst_union(
    left: &fst::Set<Vec<u8>>,
    right: &fst::Set<Vec<u8>>,
) -> (both: Option<fst::Set<Vec<u8>>>)
    ensures
        both is Some,
        both matches Some(s) ==> fst_keys(s) == fst_keys(*left).union(fst_keys(*right)),
{
    let mut builder = fst::SetBuilder::memory();
    builder.extend_stream(left.op().add(right).union()).ok()?;
    Some(builder.into_set())
}

/// `Clone::clone` of `fst::Set`: a set of the same keys.
#[verifier::external_body]
pub(crate) fn fst_clone(set: &fst::Set<Vec<u8>>) -> (copy: fst::Set<Vec<u8>>)
    ensures
        fst_keys(copy) == fst_keys(*set),
{
    set.clone()
}

/// The keys that at least one of the runs holds.
pub open spec fn keys_of_runs(runs: Seq<Seq<(Seq<u8>, Seq<u8>)>>) -> Set<Seq<u8>> {
    Set::new(|key: Seq<u8>| key_in_runs(runs, key))
}

/// The keys of a run are those that it holds.
pub proof fn lemma_keys_of_run(entries: Seq<(Seq<u8>, Seq<u8>)>)
    ensures
        forall|key: Seq<u8>| #[trigger]
            keys_of(entries).to_set().contains(key) <==> holds_key(entries, key),
{
    assert forall|key: Seq<u8>| #[trigger]
        keys_of(entries).to_set().contains(key) <==> holds_key(entries, key) by {
        if keys_of(entries).to_set().contains(key) {
            let at = choose|at: int| 0 <= at < keys_of(entries).len() && keys_of(entries)[at] == key;
            assert(entries[at].0 == key);
        }
        if holds_key(entries, key) {
            let at = choose|at: int| 0 <= at < entries.len() && (#[trigger] entries[at]).0 == key;
            assert(keys_of(entries)[at] == key);
        }
    }
}

/// The set of the words of a merged run of words: its keys.
pub fn merge_word_docids_reader_into_fst(
    words: &SortedRun,
) -> (set: Result<fst::Set<Vec<u8>>, Error>)
    requires
        words.wf(),
    ensures
        set is Ok,
        set matches Ok(s) ==> fst_keys(s) == keys_of(words@).to_set(),
{
    let keys = words.keys();
    match fst_from_keys(&keys) {
        Some(set) => Ok(set),
        None => Err(Error::UnorderedRun),
    }
}

/// The vocabulary after a batch: the words of the batch and those that the
/// index held.
pub fn union_words_fst(
    new: &fst::Set<Vec<u8>>,
    stored: &fst::Set<Vec<u8>>,
) -> (both: Result<fst::Set<Vec<u8>>, Error>)
    ensures
        both is Ok,
        both matches Ok(s) ==> fst_keys(s) == fst_keys(*new).union(fst_keys(*stored)),
{
    match fst_union(new, stored) {
        Some(set) => Ok(set),
        None => Err(Error::UnorderedRun),
    }
}

} // verus!

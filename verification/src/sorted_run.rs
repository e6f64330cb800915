//! Sorted runs: sequences of key/value pairs in strictly ascending key order.

use vstd::prelude::*;
use vstd::slice::slice_to_vec;

use crate::error::Error;
use crate::key_set::{keys_view, strictly_ascending};
use crate::lex::{compare_keys, lemma_lex_transitive, lex_lt, KeyOrder};

verus! {

/// One key/value pair of a run.
#[derive(Debug, PartialEq, Eq)]
pub struct Entry {
    pub key: Vec<u8>,
    pub value: Vec<u8>,
}

impl View for Entry {
    type V = (Seq<u8>, Seq<u8>);

    open spec fn view(&self) -> (Seq<u8>, Seq<u8>) {
        (self.key@, self.value@)
    }
}

/// Each key comes before every later key.
pub open spec fn keys_ascending(entries: Seq<(Seq<u8>, Seq<u8>)>) -> bool {
    forall|i: int, j: int| 0 <= i < j < entries.len() ==> lex_lt(#[trigger] entries[i].0, #[trigger] entries[j].0)
}

/// The keys of the pairs of a run, in the order of the run.
pub open spec fn keys_of(entries: Seq<(Seq<u8>, Seq<u8>)>) -> Seq<Seq<u8>> {
    entries.map_values(|entry: (Seq<u8>, Seq<u8>)| entry.0)
}

/// The pairs of a vector of entries.
pub open spec fn entries_view(entries: Seq<Entry>) -> Seq<(Seq<u8>, Seq<u8>)> {
    entries.map_values(|e: Entry| e@)
}

/// Keys that ascend up to the last pair still ascend when a greater key
/// follows.
pub proof fn lemma_push_keeps_ascending(entries: Seq<(Seq<u8>, Seq<u8>)>, next: (Seq<u8>, Seq<u8>))
    requires
        keys_ascending(entries),
        entries.len() > 0 ==> lex_lt(entries.last().0, next.0),
    ensures
        keys_ascending(entries.push(next)),
{
    let after = entries.push(next);
    assert forall|i: int, j: int| 0 <= i < j < after.len() implies lex_lt(
        #[trigger] after[i].0,
        #[trigger] after[j].0,
    ) by {
        if j < entries.len() {
            assert(lex_lt(entries[i].0, entries[j].0));
        } else if i < entries.len() - 1 {
            assert(lex_lt(entries[i].0, entries[entries.len() - 1].0));
            lemma_lex_transitive(entries[i].0, entries.last().0, next.0);
        }
    }
}

/// An immutable sequence of key/value pairs whose keys strictly ascend in
/// byte-lexicographic order.
#[derive(Debug, PartialEq, Eq)]
pub struct SortedRun {
    entries: Vec<Entry>,
}

impl View for SortedRun {
    type V = Seq<(Seq<u8>, Seq<u8>)>;

    closed spec fn view(&self) -> Seq<(Seq<u8>, Seq<u8>)> {
        entries_view(self.entries@)
    }
}

impl SortedRun {
    /// The invariant of a run: its keys strictly ascend.
    pub open spec fn wf(&self) -> bool {
        keys_ascending(self@)
    }

    /// The run without any pair.
    pub fn new() -> (run: SortedRun)
        ensures
            run.wf(),
            run@ == Seq::<(Seq<u8>, Seq<u8>)>::empty(),
    {
        let run = SortedRun { entries: Vec::new() };
        assert(run@ =~= Seq::<(Seq<u8>, Seq<u8>)>::empty());
        run
    }

    /// The number of pairs.
    pub fn len(&self) -> (len: usize)
        ensures
            len == self@.len(),
    {
        self.entries.len()
    }

    /// Whether the run holds no pair.
    pub fn is_empty(&self) -> (empty: bool)
        ensures
            empty == (self@.len() == 0),
    {
        self.entries.len() == 0
    }

    /// The key of the pair at `index`.
    pub fn key(&self, index: usize) -> (key: &[u8])
        requires
            index < self@.len(),
        ensures
            key@ == self@[index as int].0,
    {
        self.entries[index].key.as_slice()
    }

    /// The value of the pair at `index`.
    pub fn value(&self, index: usize) -> (value: &[u8])
        requires
            index < self@.len(),
        ensures
            value@ == self@[index as int].1,
    {
        self.entries[index].value.as_slice()
    }

    /// Appends a pair whose key is greater than every key of the run. Any
    /// other key is refused, and the run stays as it is.
    pub fn push(&mut self, key: Vec<u8>, value: Vec<u8>) -> (pushed: Result<(), Error>)
        requires
            old(self).wf(),
        ensures
            final(self).wf(),
            pushed is Ok <==> (old(self)@.len() > 0 ==> lex_lt(old(self)@.last().0, key@)),
            pushed is Ok ==> final(self)@ == old(self)@.push((key@, value@)),
            pushed matches Err(e) ==> final(self)@ == old(self)@ && e == Error::UnorderedRun,
    {
        let len = self.entries.len();
        if len > 0 {
            let order = compare_keys(self.entries[len - 1].key.as_slice(), key.as_slice());
            if order != KeyOrder::Before {
                return Err(Error::UnorderedRun);
            }
        }
        proof {
            lemma_push_keeps_ascending(self@, (key@, value@));
        }
        self.entries.push(Entry { key, value });
        assert(self@ =~= old(self)@.push((key@, value@)));
        Ok(())
    }

    /// The run of the given pairs, which have to be in strictly ascending key
    /// order.
    pub fn from_entries(entries: Vec<Entry>) -> (run: Result<SortedRun, Error>)
        ensures
            run is Ok <==> keys_ascending(entries_view(entries@)),
            run matches Ok(sorted) ==> sorted.wf() && sorted@ == entries_view(entries@),
            run matches Err(e) ==> e == Error::UnorderedRun,
    {
        let ghost all = entries_view(entries@);
        let mut i: usize = 1;
        while i < entries.len()
            invariant
                1 <= i,
                all == entries_view(entries@),
                keys_ascending(all.subrange(0, if i <= all.len() { i as int } else { all.len() as int })),
            decreases entries@.len() - i,
        {
            let order = compare_keys(entries[i - 1].key.as_slice(), entries[i].key.as_slice());
            if order != KeyOrder::Before {
                proof {
                    assert(!lex_lt(all[i - 1].0, all[i as int].0));
                }
                return Err(Error::UnorderedRun);
            }
            proof {
                let before = all.subrange(0, i as int);
                assert(before.last() == all[i - 1]);
                lemma_push_keeps_ascending(before, all[i as int]);
                assert(all.subrange(0, i + 1) =~= before.push(all[i as int]));
            }
            i += 1;
        }
        proof {
            assert(all.subrange(0, all.len() as int) =~= all);
        }
        Ok(SortedRun { entries })
    }

    /// The pairs of the run, in order.
    pub fn into_entries(self) -> (entries: Vec<Entry>)
        ensures
            entries_view(entries@) == self@,
    {
        self.entries
    }

    /// The keys of the run, in order.
    pub fn keys(&self) -> (keys: Vec<Vec<u8>>)
        ensures
            keys_view(keys@) == keys_of(self@),
            self.wf() ==> strictly_ascending(keys_view(keys@)),
    {
        let mut keys: Vec<Vec<u8>> = Vec::new();
        let mut i: usize = 0;
        while i < self.entries.len()
            invariant
                i <= self@.len(),
                keys@.len() == i,
                forall|k: int| 0 <= k < i ==> (#[trigger] keys@[k])@ == self@[k].0,
            decreases self@.len() - i,
        {
            keys.push(slice_to_vec(self.entries[i].key.as_slice()));
            i += 1;
        }
        assert(keys_view(keys@) =~= keys_of(self@));
        assert(self.wf() ==> strictly_ascending(keys_view(keys@))) by {
            if self.wf() {
                assert forall|i: int, j: int| 0 <= i < j < keys_view(keys@).len() implies lex_lt(
                    keys_view(keys@)[i],
                    keys_view(keys@)[j],
                ) by {
                    assert(keys_view(keys@)[i] == self@[i].0);
                    assert(keys_view(keys@)[j] == self@[j].0);
                }
            }
        }
        keys
    }

    /// The value that stands under `key`, if the run holds that key.
    pub fn get(&self, key: &[u8]) -> (value: Option<Vec<u8>>)
        ensures
            value matches Some(found) ==> exists|i: int|
                0 <= i < self@.len() && self@[i] == (key@, found@),
            value is None ==> forall|i: int| 0 <= i < self@.len() ==> self@[i].0 != key@,
    {
        let mut i: usize = 0;
        while i < self.entries.len()
            invariant
                i <= self@.len(),
                forall|k: int| 0 <= k < i ==> self@[k].0 != key@,
            decreases self@.len() - i,
        {
            if compare_keys(self.entries[i].key.as_slice(), key) == KeyOrder::Same {
                let found = slice_to_vec(self.entries[i].value.as_slice());
                assert(self@[i as int] == (key@, found@));
                return Some(found);
            }
            i += 1;
        }
        None
    }
}

} // verus!

//! The merge as a stream: the runs are read entry by entry, and no more than
//! one entry per run is held at any time.
//!
//! Whoever drives the merge reads the runs. The merge says which run it needs
//! the next entry of, takes that entry, and gives the merged entries out in
//! ascending key order.

use vstd::prelude::*;
use vstd::slice::slice_to_vec;

use crate::error::Error;
use crate::lex::{compare_keys, lemma_lex_irreflexive, lemma_lex_transitive, lex_lt, KeyOrder};
use crate::merge::{all_merges_ok, cursors_advanced, head_is, holds_key, is_least_head, is_merge_of, lemma_merge_done, lemma_merge_failure, lemma_merge_start, lemma_merge_step, lemma_value_at, lemma_value_at_head, merge_fails_with, merge_of_kind, merge_state, consumed, pending, value_in_run, values_for};
use crate::merge_functions::{blobs_view, merge_values, MergeKind};
use crate::sorted_run::{keys_ascending, lemma_push_keeps_ascending, Entry};

verus! {

/// What the merge does next.
#[derive(Debug, PartialEq, Eq)]
pub enum MergeStep {
    /// The merge needs the next entry of this run, or to be told that the run
    /// has no more.
    Need(usize),
    /// The next entry of the merged stream.
    Emit(Entry),
    /// Every run is read to its end, and every merged entry is out.
    Done,
}

/// A merge of runs that are read entry by entry.
pub struct StreamingMerge {
    kind: MergeKind,
    heads: Vec<Option<Entry>>,
    exhausted: Vec<bool>,
    last_emitted: Option<Vec<u8>>,
    fed: Ghost<Seq<Seq<(Seq<u8>, Seq<u8>)>>>,
    emitted: Ghost<Seq<(Seq<u8>, Seq<u8>)>>,
}

/// The pair of an optional entry.
pub open spec fn head_view(head: Option<Entry>) -> Option<(Seq<u8>, Seq<u8>)> {
    match head {
        Some(entry) => Some(entry@),
        None => None,
    }
}

impl StreamingMerge {
    /// The entries that the merge was given so far, run by run.
    pub closed spec fn fed(&self) -> Seq<Seq<(Seq<u8>, Seq<u8>)>> {
        self.fed@
    }

    /// The entries that the merge gave out so far.
    pub closed spec fn emitted(&self) -> Seq<(Seq<u8>, Seq<u8>)> {
        self.emitted@
    }

    /// The kind of the merge.
    pub closed spec fn kind(&self) -> MergeKind {
        self.kind
    }

    /// The number of runs.
    pub closed spec fn run_count(&self) -> nat {
        self.heads@.len()
    }

    /// The entry of the run `run` that the merge holds.
    pub closed spec fn head(&self, run: int) -> Option<(Seq<u8>, Seq<u8>)> {
        head_view(self.heads@[run])
    }

    /// Whether the merge was told that the run `run` has no more entries.
    pub closed spec fn is_exhausted(&self, run: int) -> bool {
        self.exhausted@[run]
    }

    /// Whether the merge needs the next entry of the run `run`.
    pub open spec fn wants(&self, run: int) -> bool {
        0 <= run < self.run_count() && self.head(run) is None && !self.is_exhausted(run)
    }

    /// How far each run is consumed: all that was given of it, but the entry
    /// that the merge holds.
    pub closed spec fn cursors(&self) -> Seq<int> {
        Seq::new(
            self.heads@.len(),
            |run: int|
                if self.heads@[run] is Some {
                    self.fed@[run].len() - 1
                } else {
                    self.fed@[run].len() as int
                },
        )
    }

    /// The invariant: what is out is the merge of all that the merge was
    /// given and does not hold any more, and what it holds comes later.
    pub closed spec fn wf(&self) -> bool {
        &&& self.exhausted@.len() == self.heads@.len()
        &&& self.fed@.len() == self.heads@.len()
        &&& forall|run: int|
            0 <= run < self.heads@.len() && (#[trigger] self.heads@[run]) is Some ==> {
                &&& self.fed@[run].len() > 0
                &&& self.heads@[run].unwrap()@ == self.fed@[run].last()
                &&& !self.exhausted@[run]
            }
        &&& merge_state(self.fed@, self.cursors(), self.emitted@, merge_of_kind(self.kind))
        &&& self.last_emitted matches Some(key) ==> self.emitted@.len() > 0 && key@
            == self.emitted@.last().0
        &&& self.last_emitted is None ==> self.emitted@.len() == 0
        &&& forall|run: int|
            0 <= run < self.heads@.len() && (#[trigger] self.heads@[run]) is None
                && !self.exhausted@[run] ==> {
                ||| self.fed@[run].len() == 0 && self.emitted@.len() == 0
                ||| self.fed@[run].len() > 0 && self.emitted@.len() > 0 && self.fed@[run].last().0
                    == self.emitted@.last().0
            }
    }

    /// A merge of `runs` runs, of which nothing is read yet.
    pub fn new(kind: MergeKind, runs: usize) -> (merge: StreamingMerge)
        ensures
            merge.wf(),
            merge.kind() == kind,
            merge.run_count() == runs,
            merge.emitted() == Seq::<(Seq<u8>, Seq<u8>)>::empty(),
            merge.fed().len() == runs,
            forall|run: int| 0 <= run < runs ==> #[trigger] merge.wants(run),
            forall|run: int| 0 <= run < runs ==> (#[trigger] merge.fed()[run]).len() == 0,
    {
        let mut heads: Vec<Option<Entry>> = Vec::new();
        let mut exhausted: Vec<bool> = Vec::new();
        while heads.len() < runs
            invariant
                heads@.len() <= runs,
                exhausted@.len() == heads@.len(),
                forall|run: int| 0 <= run < heads@.len() ==> (#[trigger] heads@[run]) is None,
                forall|run: int| 0 <= run < heads@.len() ==> !(#[trigger] exhausted@[run]),
            decreases runs - heads@.len(),
        {
            heads.push(None);
            exhausted.push(false);
        }
        let merge = StreamingMerge {
            kind,
            heads,
            exhausted,
            last_emitted: None,
            fed: Ghost(Seq::new(runs as nat, |run: int| Seq::empty())),
            emitted: Ghost(Seq::empty()),
        };
        proof {
            assert forall|run: int| 0 <= run < merge.fed@.len() implies keys_ascending(
                #[trigger] merge.fed@[run],
            ) && merge.cursors()[run] == 0 by {}
            lemma_merge_start(merge.fed@, merge.cursors(), merge_of_kind(kind));
        }
        merge
    }

    /// Gives the merge the next entry of the run that it needs one of, or
    /// tells it with `None` that the run has no more. An entry whose key does
    /// not come after the key of the entry before it in its run is refused,
    /// and the merge stays as it is.
    pub fn feed(&mut self, run: usize, entry: Option<Entry>) -> (taken: Result<(), Error>)
        requires
            old(self).wf(),
            old(self).wants(run as int),
        ensures
            final(self).wf(),
            final(self).kind() == old(self).kind(),
            final(self).run_count() == old(self).run_count(),
            final(self).emitted() == old(self).emitted(),
            taken is Ok <==> (entry matches Some(e) ==> old(self).fed()[run as int].len() > 0
                ==> lex_lt(old(self).fed()[run as int].last().0, e.key@)),
            taken matches Err(e) ==> e == Error::UnorderedRun && *final(self) == *old(self),
            taken is Ok ==> match entry {
                Some(e) => {
                    &&& final(self).fed() == old(self).fed().update(
                        run as int,
                        old(self).fed()[run as int].push(e@),
                    )
                    &&& final(self).head(run as int) == Some(e@)
                    &&& !final(self).is_exhausted(run as int)
                },
                None => {
                    &&& final(self).fed() == old(self).fed()
                    &&& final(self).head(run as int) is None
                    &&& final(self).is_exhausted(run as int)
                },
            },
            forall|other: int|
                0 <= other < old(self).run_count() && other != run ==> final(self).head(other)
                    == old(self).head(other) && final(self).is_exhausted(other) == old(
                    self,
                ).is_exhausted(other),
    {
        let ghost fed = self.fed@;
        let ghost out = self.emitted@;
        let ghost places = self.cursors();
        let ghost merge = merge_of_kind(self.kind);
        match entry {
            None => {
                self.exhausted.set(run, true);
                proof {
                    assert(self.cursors() =~= places);
                }
                Ok(())
            },
            Some(e) => {
                match &self.last_emitted {
                    Some(last) => {
                        if compare_keys(last.as_slice(), e.key.as_slice()) != KeyOrder::Before {
                            return Err(Error::UnorderedRun);
                        }
                    },
                    None => {},
                }
                proof {
                    assert(self.heads@[run as int] is None);
                    assert(places[run as int] == fed[run as int].len());
                    lemma_feed_keeps_state(fed, places, out, merge, run as int, e@);
                }
                self.fed = Ghost(fed.update(run as int, fed[run as int].push(e@)));
                self.heads.set(run, Some(e));
                proof {
                    assert(self.cursors() =~= places);
                }
                Ok(())
            },
        }
    }

    /// What the merge does next. It asks for the next entry of the first run
    /// that it holds none of; when it holds an entry of every run that has
    /// any left, it gives out the entry of the least key among them, merged
    /// from the entries of all the runs that have that key; when no run has
    /// any left, it is done. A failure of the conflict-resolution function
    /// fails the merge.
    pub fn step(&mut self) -> (next: Result<MergeStep, Error>)
        requires
            old(self).wf(),
        ensures
            final(self).wf(),
            final(self).kind() == old(self).kind(),
            final(self).run_count() == old(self).run_count(),
            final(self).fed() == old(self).fed(),
            match next {
                Ok(MergeStep::Need(run)) => {
                    &&& *final(self) == *old(self)
                    &&& old(self).wants(run as int)
                    &&& forall|earlier: int| 0 <= earlier < run ==> !old(self).wants(earlier)
                },
                Ok(MergeStep::Emit(entry)) => {
                    &&& forall|run: int| !old(self).wants(run)
                    &&& final(self).emitted() == old(self).emitted().push(entry@)
                    &&& merge_of_kind(old(self).kind())(values_for(old(self).fed(), entry.key@))
                        == Ok::<Seq<u8>, Error>(entry.value@)
                    &&& forall|run: int|
                        0 <= run < old(self).run_count() ==> final(self).is_exhausted(run) == old(
                            self,
                        ).is_exhausted(run) && final(self).head(run) == (if old(self).head(
                            run,
                        ) matches Some(head) && head.0 == entry.key@ {
                            None
                        } else {
                            old(self).head(run)
                        })
                },
                Ok(MergeStep::Done) => {
                    &&& *final(self) == *old(self)
                    &&& forall|run: int|
                        0 <= run < old(self).run_count() ==> old(self).is_exhausted(run)
                    &&& is_merge_of(
                        old(self).emitted(),
                        old(self).fed(),
                        merge_of_kind(old(self).kind()),
                    )
                    &&& all_merges_ok(old(self).fed(), merge_of_kind(old(self).kind()))
                },
                Err(e) => {
                    &&& *final(self) == *old(self)
                    &&& forall|run: int| !old(self).wants(run)
                    &&& merge_fails_with(old(self).fed(), merge_of_kind(old(self).kind()), e)
                },
            },
    {
        let count = self.heads.len();
        let ghost fed = self.fed@;
        let ghost out = self.emitted@;
        let ghost places = self.cursors();
        let ghost merge = merge_of_kind(self.kind);
        let mut run: usize = 0;
        while run < count
            invariant
                run <= count,
                count == self.heads@.len(),
                self.exhausted@.len() == count,
                *self == *old(self),
                old(self).wf(),
                forall|earlier: int| 0 <= earlier < run ==> !self.wants(earlier),
            decreases count - run,
        {
            if self.heads[run].is_none() && !self.exhausted[run] {
                return Ok(MergeStep::Need(run));
            }
            run += 1;
        }
        let mut least: Option<usize> = None;
        let mut run: usize = 0;
        while run < count
            invariant
                run <= count,
                count == self.heads@.len(),
                *self == *old(self),
                old(self).wf(),
                least is None ==> forall|q: int| 0 <= q < run ==> (#[trigger] self.heads@[q]) is None,
                least matches Some(m) ==> m < run && self.heads@[m as int] is Some && forall|q: int|
                    0 <= q < run && (#[trigger] self.heads@[q]) is Some ==> !lex_lt(
                        self.heads@[q].unwrap().key@,
                        self.heads@[m as int].unwrap().key@,
                    ),
            decreases count - run,
        {
            match &self.heads[run] {
                Some(candidate) => {
                    match least {
                        None => {
                            proof {
                                lemma_lex_irreflexive(candidate.key@);
                            }
                            least = Some(run);
                        },
                        Some(m) => {
                            let best = match &self.heads[m] {
                                Some(best) => best,
                                None => candidate,
                            };
                            if compare_keys(candidate.key.as_slice(), best.key.as_slice())
                                == KeyOrder::Before {
                                proof {
                                    lemma_lex_irreflexive(candidate.key@);
                                    assert forall|q: int|
                                        0 <= q < run + 1 && (#[trigger] self.heads@[q])
                                            is Some implies !lex_lt(
                                        self.heads@[q].unwrap().key@,
                                        candidate.key@,
                                    ) by {
                                        if q < run {
                                            let head = self.heads@[q].unwrap().key@;
                                            if lex_lt(head, candidate.key@) {
                                                lemma_lex_transitive(
                                                    head,
                                                    candidate.key@,
                                                    best.key@,
                                                );
                                            }
                                        }
                                    }
                                }
                                least = Some(run);
                            }
                        },
                    }
                },
                None => {},
            }
            run += 1;
        }
        let m = match least {
            Some(m) => m,
            None => {
                proof {
                    assert forall|q: int| 0 <= q < fed.len() implies places[q] == (
                    #[trigger] fed[q]).len() by {
                        assert(self.heads@[q] is None);
                    }
                    lemma_merge_done(fed, places, out, merge);
                    assert forall|q: int| 0 <= q < self.run_count() implies self.is_exhausted(
                        q,
                    ) by {
                        assert(self.heads@[q] is None);
                        assert(!self.wants(q));
                    }
                }
                return Ok(MergeStep::Done);
            },
        };
        let key = match &self.heads[m] {
            Some(head) => slice_to_vec(head.key.as_slice()),
            None => Vec::new(),
        };
        proof {
            assert(self.heads@[m as int].unwrap()@ == fed[m as int].last());
            assert(places[m as int] == fed[m as int].len() - 1);
            assert forall|q: int| 0 <= q < fed.len() && places[q] < fed[q].len() implies !lex_lt(
                (#[trigger] fed[q])[places[q]].0,
                key@,
            ) by {
                if self.heads@[q] is Some {
                    assert(self.heads@[q].unwrap()@ == fed[q].last());
                    assert(places[q] == fed[q].len() - 1);
                } else {
                    assert(places[q] == fed[q].len());
                }
            }
            assert(is_least_head(fed, places, m as int, key@));
            assert forall|q: int| !self.wants(q) by {
                if 0 <= q < count {
                    assert(!self.wants(q));
                }
            }
        }
        let mut values: Vec<Vec<u8>> = Vec::new();
        let mut run: usize = 0;
        proof {
            assert(fed.take(0) =~= Seq::<Seq<(Seq<u8>, Seq<u8>)>>::empty());
            assert(blobs_view(values@) =~= values_for(fed.take(0), key@));
        }
        while run < count
            invariant
                run <= count,
                count == self.heads@.len(),
                *self == *old(self),
                old(self).wf(),
                fed == self.fed@,
                places == self.cursors(),
                out == self.emitted@,
                merge == merge_of_kind(self.kind),
                is_least_head(fed, places, m as int, key@),
                blobs_view(values@) == values_for(fed.take(run as int), key@),
                run > m ==> values@.len() > 0,
            decreases count - run,
        {
            proof {
                lemma_value_at_head(fed, places, out, merge, m as int, key@, run as int);
                assert(fed.take(run + 1).drop_last() =~= fed.take(run as int));
                assert(fed.take(run + 1).last() == fed[run as int]);
                if self.heads@[run as int] is Some {
                    assert(self.heads@[run as int].unwrap()@ == fed[run as int].last());
                    assert(places[run as int] == fed[run as int].len() - 1);
                } else {
                    assert(places[run as int] == fed[run as int].len());
                }
            }
            match &self.heads[run] {
                Some(head) => {
                    if compare_keys(head.key.as_slice(), key.as_slice()) == KeyOrder::Same {
                        let value = slice_to_vec(head.value.as_slice());
                        proof {
                            assert(blobs_view(values@.push(value)) =~= blobs_view(values@).push(
                                value@,
                            ));
                        }
                        values.push(value);
                    }
                },
                None => {},
            }
            run += 1;
        }
        proof {
            assert(fed.take(count as int) =~= fed);
        }
        let value = match merge_values(self.kind, &values) {
            Ok(value) => value,
            Err(e) => {
                proof {
                    lemma_merge_failure(fed, places, out, merge, m as int, key@, e);
                }
                return Err(e);
            },
        };
        let mut run: usize = 0;
        while run < count
            invariant
                run <= count,
                count == self.heads@.len(),
                count == old(self).heads@.len(),
                self.kind == old(self).kind,
                self.exhausted@ == old(self).exhausted@,
                self.last_emitted == old(self).last_emitted,
                self.fed@ == fed,
                self.emitted@ == out,
                forall|q: int|
                    0 <= q < run ==> (#[trigger] self.heads@[q]) == if old(self).heads@[q]
                        matches Some(head) && head.key@ == key@ {
                        None::<Entry>
                    } else {
                        old(self).heads@[q]
                    },
                forall|q: int| run <= q < count ==> (#[trigger] self.heads@[q]) == old(self).heads@[q],
            decreases count - run,
        {
            let matches = match &self.heads[run] {
                Some(head) => compare_keys(head.key.as_slice(), key.as_slice()) == KeyOrder::Same,
                None => false,
            };
            if matches {
                self.heads.set(run, None);
            }
            run += 1;
        }
        proof {
            let after = self.cursors();
            assert forall|q: int| 0 <= q < fed.len() implies (#[trigger] after[q]) == if head_is(
                fed,
                places,
                q,
                key@,
            ) {
                places[q] + 1
            } else {
                places[q]
            } by {
                if old(self).heads@[q] is Some {
                    assert(old(self).heads@[q].unwrap()@ == fed[q].last());
                    assert(places[q] == fed[q].len() - 1);
                } else {
                    assert(places[q] == fed[q].len());
                }
            }
            assert(cursors_advanced(fed, places, after, key@));
            lemma_merge_step(fed, places, after, out, merge, m as int, key@, value@);
        }
        self.emitted = Ghost(out.push((key@, value@)));
        self.last_emitted = Some(slice_to_vec(key.as_slice()));
        proof {
            assert forall|q: int|
                0 <= q < self.heads@.len() && (#[trigger] self.heads@[q]) is None
                    && !self.exhausted@[q] implies self.fed@[q].len() > 0 && self.emitted@.len()
                > 0 && self.fed@[q].last().0 == self.emitted@.last().0 by {
                assert(!old(self).wants(q));
                assert(old(self).heads@[q] is Some);
                assert(old(self).heads@[q].unwrap()@ == fed[q].last());
            }
            assert forall|q: int|
                0 <= q < self.heads@.len() && (#[trigger] self.heads@[q]) is Some implies {
                &&& self.fed@[q].len() > 0
                &&& self.heads@[q].unwrap()@ == self.fed@[q].last()
                &&& !self.exhausted@[q]
            } by {
                assert(old(self).heads@[q] is Some);
            }
        }
        Ok(MergeStep::Emit(Entry { key, value }))
    }
}

/// The values that the runs hold under a key do not change when a run is
/// given an entry with another key.
proof fn lemma_values_for_update(
    runs: Seq<Seq<(Seq<u8>, Seq<u8>)>>,
    at: int,
    longer: Seq<(Seq<u8>, Seq<u8>)>,
    key: Seq<u8>,
)
    requires
        0 <= at < runs.len(),
        value_in_run(longer, key) == value_in_run(runs[at], key),
    ensures
        values_for(runs.update(at, longer), key) == values_for(runs, key),
    decreases runs.len(),
{
    let after = runs.update(at, longer);
    if at == runs.len() - 1 {
        assert(after.drop_last() =~= runs.drop_last());
    } else {
        assert(after.drop_last() =~= runs.drop_last().update(at, longer));
        lemma_values_for_update(runs.drop_last(), at, longer, key);
    }
}

/// A run that is given an entry with a greater key holds under every other
/// key what it held.
proof fn lemma_value_in_longer_run(run: Seq<(Seq<u8>, Seq<u8>)>, entry: (Seq<u8>, Seq<u8>), key: Seq<u8>)
    requires
        keys_ascending(run.push(entry)),
        keys_ascending(run),
        key != entry.0,
    ensures
        value_in_run(run.push(entry), key) == value_in_run(run, key),
{
    let longer = run.push(entry);
    if holds_key(run, key) {
        let j = choose|j: int| 0 <= j < run.len() && (#[trigger] run[j]).0 == key;
        assert(longer[j] == run[j]);
        lemma_value_at(run, j);
        lemma_value_at(longer, j);
    }
    if holds_key(longer, key) {
        let j = choose|j: int| 0 <= j < longer.len() && (#[trigger] longer[j]).0 == key;
        assert(j < run.len());
        assert(run[j] == longer[j]);
        assert(holds_key(run, key));
    }
}

/// Giving a run whose entries are all consumed an entry that comes after its
/// own entries and after all that is out keeps what holds between the steps
/// of the merge.
proof fn lemma_feed_keeps_state(
    runs: Seq<Seq<(Seq<u8>, Seq<u8>)>>,
    cursors: Seq<int>,
    out: Seq<(Seq<u8>, Seq<u8>)>,
    merge: spec_fn(Seq<Seq<u8>>) -> Result<Seq<u8>, Error>,
    at: int,
    entry: (Seq<u8>, Seq<u8>),
)
    requires
        merge_state(runs, cursors, out, merge),
        0 <= at < runs.len(),
        cursors[at] == runs[at].len(),
        runs[at].len() > 0 ==> lex_lt(runs[at].last().0, entry.0),
        out.len() > 0 ==> lex_lt(out.last().0, entry.0),
    ensures
        merge_state(runs.update(at, runs[at].push(entry)), cursors, out, merge),
{
    let longer = runs[at].push(entry);
    let after = runs.update(at, longer);
    assert(keys_ascending(runs[at]));
    lemma_push_keeps_ascending(runs[at], entry);
    assert forall|i: int| 0 <= i < out.len() implies lex_lt((#[trigger] out[i]).0, entry.0) by {
        if i < out.len() - 1 {
            assert(lex_lt(out[i].0, out[out.len() - 1].0));
            lemma_lex_transitive(out[i].0, out.last().0, entry.0);
        }
    }
    assert forall|r: int| 0 <= r < after.len() implies keys_ascending(#[trigger] after[r]) && (0
        <= cursors[r] <= after[r].len()) by {
        assert(keys_ascending(runs[r]) && (0 <= cursors[r] <= runs[r].len()));
    }
    assert forall|key: Seq<u8>| #[trigger] consumed(after, cursors, key) implies holds_key(
        out,
        key,
    ) by {
        let (r, j) = choose|r: int, j: int|
            0 <= r < after.len() && 0 <= j < cursors[r] && j < after[r].len() && (
            #[trigger] after[r][j]).0 == key;
        assert(runs[r][j].0 == key);
        assert(consumed(runs, cursors, key));
    }
    assert forall|i: int| 0 <= i < out.len() implies consumed(after, cursors, (#[trigger] out[i]).0) by {
        assert(consumed(runs, cursors, out[i].0));
        let (r, j) = choose|r: int, j: int|
            0 <= r < runs.len() && 0 <= j < cursors[r] && j < runs[r].len() && (
            #[trigger] runs[r][j]).0 == out[i].0;
        assert(after[r][j].0 == out[i].0);
    }
    assert forall|i: int, key: Seq<u8>|
        #![trigger out[i], pending(after, cursors, key)]
        0 <= i < out.len() && pending(after, cursors, key) implies lex_lt(out[i].0, key) by {
        let (r, j) = choose|r: int, j: int|
            0 <= r < after.len() && cursors[r] <= j < after[r].len() && (#[trigger] after[r][j]).0
                == key;
        if r == at {
            assert(j == runs[at].len());
            assert(key == entry.0);
        } else {
            assert(runs[r][j].0 == key);
            assert(pending(runs, cursors, key));
        }
    }
    assert forall|i: int| 0 <= i < out.len() implies merge(
        values_for(after, (#[trigger] out[i]).0),
    ) == Ok::<Seq<u8>, Error>(out[i].1) by {
        lemma_lex_irreflexive(entry.0);
        assert(lex_lt(out[i].0, entry.0));
        lemma_value_in_longer_run(runs[at], entry, out[i].0);
        lemma_values_for_update(runs, at, longer, out[i].0);
        assert(merge(values_for(runs, out[i].0)) == Ok::<Seq<u8>, Error>(out[i].1));
    }
}

} // verus!

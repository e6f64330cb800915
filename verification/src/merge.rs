//! The k-way merge of sorted runs: one sorted stream in which each key of any
//! run stands once, with the values that the runs hold under it combined by a
//! conflict-resolution function.

use vstd::prelude::*;
use vstd::slice::slice_to_vec;

use crate::error::Error;
use crate::lex::{compare_keys, lemma_lex_asymmetric, lemma_lex_irreflexive, lemma_lex_total, lemma_lex_transitive, lex_lt, KeyOrder};
use crate::merge_functions::{blobs_view, merge_values, merge_values_spec, MergeKind};
use crate::sorted_run::{keys_ascending, lemma_push_keeps_ascending, SortedRun};

verus! {

/// The pairs of each run of a vector of runs.
pub open spec fn runs_view(runs: Seq<SortedRun>) -> Seq<Seq<(Seq<u8>, Seq<u8>)>> {
    runs.map_values(|run: SortedRun| run@)
}

/// Whether `run` holds `key`.
pub open spec fn holds_key(run: Seq<(Seq<u8>, Seq<u8>)>, key: Seq<u8>) -> bool {
    exists|j: int| 0 <= j < run.len() && (#[trigger] run[j]).0 == key
}

/// The value that `run` holds under `key`.
pub open spec fn value_in_run(run: Seq<(Seq<u8>, Seq<u8>)>, key: Seq<u8>) -> Option<Seq<u8>> {
    if holds_key(run, key) {
        Some(run[choose|j: int| 0 <= j < run.len() && (#[trigger] run[j]).0 == key].1)
    } else {
        None
    }
}

/// Whether at least one of the runs holds `key`.
pub open spec fn key_in_runs(runs: Seq<Seq<(Seq<u8>, Seq<u8>)>>, key: Seq<u8>) -> bool {
    exists|r: int| 0 <= r < runs.len() && holds_key(#[trigger] runs[r], key)
}

/// The values that the runs hold under `key`, in the order of the runs.
pub open spec fn values_for(runs: Seq<Seq<(Seq<u8>, Seq<u8>)>>, key: Seq<u8>) -> Seq<Seq<u8>>
    decreases runs.len(),
{
    if runs.len() == 0 {
        Seq::empty()
    } else {
        let before = values_for(runs.drop_last(), key);
        match value_in_run(runs.last(), key) {
            Some(value) => before.push(value),
            None => before,
        }
    }
}

/// `out` is the merge of `runs` under `merge`: its keys ascend, they are the
/// keys of the runs, and under each stands what `merge` makes of the values
/// that the runs hold under it.
pub open spec fn is_merge_of(
    out: Seq<(Seq<u8>, Seq<u8>)>,
    runs: Seq<Seq<(Seq<u8>, Seq<u8>)>>,
    merge: spec_fn(Seq<Seq<u8>>) -> Result<Seq<u8>, Error>,
) -> bool {
    &&& keys_ascending(out)
    &&& forall|key: Seq<u8>| #[trigger] holds_key(out, key) <==> key_in_runs(runs, key)
    &&& forall|i: int|
        0 <= i < out.len() ==> merge(values_for(runs, (#[trigger] out[i]).0)) == Ok::<
            Seq<u8>,
            Error,
        >(out[i].1)
}

/// The merge of `runs` under `merge` fails with `error`: `merge` fails with it
/// on the least key on which it fails at all.
pub open spec fn merge_fails_with(
    runs: Seq<Seq<(Seq<u8>, Seq<u8>)>>,
    merge: spec_fn(Seq<Seq<u8>>) -> Result<Seq<u8>, Error>,
    error: Error,
) -> bool {
    exists|key: Seq<u8>|
        {
            &&& #[trigger] key_in_runs(runs, key)
            &&& merge(values_for(runs, key)) == Err::<Seq<u8>, Error>(error)
            &&& forall|earlier: Seq<u8>|
                #[trigger] key_in_runs(runs, earlier) && lex_lt(earlier, key) ==> merge(
                    values_for(runs, earlier),
                ) is Ok
        }
}

/// `merge` succeeds on every key of the runs.
pub open spec fn all_merges_ok(
    runs: Seq<Seq<(Seq<u8>, Seq<u8>)>>,
    merge: spec_fn(Seq<Seq<u8>>) -> Result<Seq<u8>, Error>,
) -> bool {
    forall|key: Seq<u8>| #[trigger] key_in_runs(runs, key) ==> merge(values_for(runs, key)) is Ok
}

/// The conflict-resolution function of a kind of merge.
pub open spec fn merge_of_kind(kind: MergeKind) -> spec_fn(Seq<Seq<u8>>) -> Result<Seq<u8>, Error> {
    |values: Seq<Seq<u8>>| merge_values_spec(kind, values)
}

/// A run with ascending keys holds each of its keys once: the value under the
/// key at `at` is the value at `at`.
pub proof fn lemma_value_at(run: Seq<(Seq<u8>, Seq<u8>)>, at: int)
    requires
        keys_ascending(run),
        0 <= at < run.len(),
    ensures
        holds_key(run, run[at].0),
        value_in_run(run, run[at].0) == Some(run[at].1),
{
    let key = run[at].0;
    assert(holds_key(run, key));
    let j = choose|j: int| 0 <= j < run.len() && (#[trigger] run[j]).0 == key;
    lemma_lex_irreflexive(key);
    if j < at {
        assert(lex_lt(run[j].0, run[at].0));
    } else if at < j {
        assert(lex_lt(run[at].0, run[j].0));
    }
}

/// Two merges of the same runs under the same function are the same stream.
pub proof fn lemma_merge_unique(
    a: Seq<(Seq<u8>, Seq<u8>)>,
    b: Seq<(Seq<u8>, Seq<u8>)>,
    runs: Seq<Seq<(Seq<u8>, Seq<u8>)>>,
    merge: spec_fn(Seq<Seq<u8>>) -> Result<Seq<u8>, Error>,
)
    requires
        is_merge_of(a, runs, merge),
        is_merge_of(b, runs, merge),
    ensures
        a == b,
{
    lemma_same_keys_same_length(a, b);
    lemma_same_keys_same_length(b, a);
    assert forall|i: int| 0 <= i < a.len() implies a[i] == b[i] by {
        lemma_same_keys_same_place(a, b, i);
        assert(a[i].0 == b[i].0);
        assert(merge(values_for(runs, a[i].0)) == Ok::<Seq<u8>, Error>(a[i].1));
        assert(merge(values_for(runs, b[i].0)) == Ok::<Seq<u8>, Error>(b[i].1));
    }
    assert(a =~= b);
}

/// A run whose keys all stand in another run is no longer than it.
proof fn lemma_same_keys_same_length(a: Seq<(Seq<u8>, Seq<u8>)>, b: Seq<(Seq<u8>, Seq<u8>)>)
    requires
        keys_ascending(a),
        keys_ascending(b),
        forall|key: Seq<u8>| holds_key(a, key) ==> holds_key(b, key),
    ensures
        a.len() <= b.len(),
    decreases a.len(),
{
    if a.len() > 0 {
        let top = a.last().0;
        assert(holds_key(a, top));
        let at = choose|j: int| 0 <= j < b.len() && (#[trigger] b[j]).0 == top;
        let a0 = a.drop_last();
        let b0 = b.subrange(0, at);
        assert forall|key: Seq<u8>| holds_key(a0, key) implies holds_key(b0, key) by {
            let i = choose|i: int| 0 <= i < a0.len() && (#[trigger] a0[i]).0 == key;
            assert(a[i].0 == key);
            assert(holds_key(a, key));
            assert(lex_lt(a[i].0, a[a.len() - 1].0));
            let j = choose|j: int| 0 <= j < b.len() && (#[trigger] b[j]).0 == key;
            if j >= at {
                if j > at {
                    assert(lex_lt(b[at].0, b[j].0));
                    lemma_lex_asymmetric(key, top);
                } else {
                    lemma_lex_irreflexive(key);
                }
            }
            assert(b0[j].0 == key);
        }
        assert(keys_ascending(a0)) by {
            assert forall|i: int, j: int| 0 <= i < j < a0.len() implies lex_lt(
                #[trigger] a0[i].0,
                #[trigger] a0[j].0,
            ) by {
                assert(lex_lt(a[i].0, a[j].0));
            }
        }
        assert(keys_ascending(b0)) by {
            assert forall|i: int, j: int| 0 <= i < j < b0.len() implies lex_lt(
                #[trigger] b0[i].0,
                #[trigger] b0[j].0,
            ) by {
                assert(lex_lt(b[i].0, b[j].0));
            }
        }
        lemma_same_keys_same_length(a0, b0);
    }
}

/// Two runs of one length with the same keys hold them at the same places.
proof fn lemma_same_keys_same_place(a: Seq<(Seq<u8>, Seq<u8>)>, b: Seq<(Seq<u8>, Seq<u8>)>, at: int)
    requires
        keys_ascending(a),
        keys_ascending(b),
        a.len() == b.len(),
        forall|key: Seq<u8>| holds_key(a, key) <==> holds_key(b, key),
        0 <= at < a.len(),
    ensures
        a[at].0 == b[at].0,
    decreases a.len(),
{
    let n = a.len() - 1;
    let top = a.last().0;
    assert(holds_key(a, top));
    let jb = choose|j: int| 0 <= j < b.len() && (#[trigger] b[j]).0 == top;
    assert(holds_key(b, b.last().0));
    let ja = choose|j: int| 0 <= j < a.len() && (#[trigger] a[j]).0 == b.last().0;
    if jb < n {
        assert(lex_lt(b[jb].0, b[n].0));
        if ja < n {
            assert(lex_lt(a[ja].0, a[n].0));
            lemma_lex_asymmetric(top, b.last().0);
        }
    }
    assert(b.last().0 == top) by {
        if jb < n && ja == n {
            lemma_lex_irreflexive(top);
        }
    }
    if at < n {
        let a0 = a.drop_last();
        let b0 = b.drop_last();
        assert forall|key: Seq<u8>| holds_key(a0, key) <==> holds_key(b0, key) by {
            if holds_key(a0, key) {
                let i = choose|i: int| 0 <= i < a0.len() && (#[trigger] a0[i]).0 == key;
                assert(a[i].0 == key);
                assert(holds_key(a, key));
                assert(lex_lt(a[i].0, a[n].0));
                let j = choose|j: int| 0 <= j < b.len() && (#[trigger] b[j]).0 == key;
                if j == n {
                    lemma_lex_irreflexive(key);
                }
                assert(b0[j].0 == key);
            }
            if holds_key(b0, key) {
                let i = choose|i: int| 0 <= i < b0.len() && (#[trigger] b0[i]).0 == key;
                assert(b[i].0 == key);
                assert(holds_key(b, key));
                assert(lex_lt(b[i].0, b[n].0));
                let j = choose|j: int| 0 <= j < a.len() && (#[trigger] a[j]).0 == key;
                if j == n {
                    lemma_lex_irreflexive(key);
                }
                assert(a0[j].0 == key);
            }
        }
        assert(keys_ascending(a0)) by {
            assert forall|i: int, j: int| 0 <= i < j < a0.len() implies lex_lt(
                #[trigger] a0[i].0,
                #[trigger] a0[j].0,
            ) by {
                assert(lex_lt(a[i].0, a[j].0));
            }
        }
        assert(keys_ascending(b0)) by {
            assert forall|i: int, j: int| 0 <= i < j < b0.len() implies lex_lt(
                #[trigger] b0[i].0,
                #[trigger] b0[j].0,
            ) by {
                assert(lex_lt(b[i].0, b[j].0));
            }
        }
        lemma_same_keys_same_place(a0, b0, at);
    }
}


/// Some run holds `key` before its cursor.
pub open spec fn consumed(runs: Seq<Seq<(Seq<u8>, Seq<u8>)>>, cursors: Seq<int>, key: Seq<u8>) -> bool {
    exists|r: int, j: int|
        0 <= r < runs.len() && 0 <= j < cursors[r] && j < runs[r].len() && (#[trigger] runs[r][j]).0
            == key
}

/// Some run holds `key` at its cursor or after it.
pub open spec fn pending(runs: Seq<Seq<(Seq<u8>, Seq<u8>)>>, cursors: Seq<int>, key: Seq<u8>) -> bool {
    exists|r: int, j: int|
        0 <= r < runs.len() && cursors[r] <= j < runs[r].len() && (#[trigger] runs[r][j]).0 == key
}

/// What holds between two steps of the merge: `out` is the merge of what the
/// cursors have passed, and all that they have not passed comes later.
pub open spec fn merge_state(
    runs: Seq<Seq<(Seq<u8>, Seq<u8>)>>,
    cursors: Seq<int>,
    out: Seq<(Seq<u8>, Seq<u8>)>,
    merge: spec_fn(Seq<Seq<u8>>) -> Result<Seq<u8>, Error>,
) -> bool {
    &&& cursors.len() == runs.len()
    &&& forall|r: int|
        0 <= r < runs.len() ==> keys_ascending(#[trigger] runs[r]) && (0 <= cursors[r]
            <= runs[r].len())
    &&& keys_ascending(out)
    &&& forall|key: Seq<u8>| #[trigger] consumed(runs, cursors, key) ==> holds_key(out, key)
    &&& forall|i: int| 0 <= i < out.len() ==> consumed(runs, cursors, (#[trigger] out[i]).0)
    &&& forall|i: int, key: Seq<u8>|
        #![trigger out[i], pending(runs, cursors, key)]
        0 <= i < out.len() && pending(runs, cursors, key) ==> lex_lt(out[i].0, key)
    &&& forall|i: int|
        0 <= i < out.len() ==> merge(values_for(runs, (#[trigger] out[i]).0)) == Ok::<
            Seq<u8>,
            Error,
        >(out[i].1)
}

/// The run `least` has a pair at its cursor, its key is `key`, and no run has
/// a smaller key at its cursor.
pub open spec fn is_least_head(
    runs: Seq<Seq<(Seq<u8>, Seq<u8>)>>,
    cursors: Seq<int>,
    least: int,
    key: Seq<u8>,
) -> bool {
    &&& 0 <= least < runs.len()
    &&& cursors[least] < runs[least].len()
    &&& runs[least][cursors[least]].0 == key
    &&& forall|r: int|
        0 <= r < runs.len() && cursors[r] < runs[r].len() ==> !lex_lt(
            (#[trigger] runs[r])[cursors[r]].0,
            key,
        )
}

/// Whether the run `r` has `key` at its cursor.
pub open spec fn head_is(runs: Seq<Seq<(Seq<u8>, Seq<u8>)>>, cursors: Seq<int>, r: int, key: Seq<u8>) -> bool {
    cursors[r] < runs[r].len() && runs[r][cursors[r]].0 == key
}

/// `after` is `before` with each cursor that stood on `key` moved one pair on.
pub open spec fn cursors_advanced(
    runs: Seq<Seq<(Seq<u8>, Seq<u8>)>>,
    before: Seq<int>,
    after: Seq<int>,
    key: Seq<u8>,
) -> bool {
    &&& before.len() == runs.len()
    &&& after.len() == runs.len()
    &&& forall|r: int|
        0 <= r < runs.len() ==> (#[trigger] after[r]) == if head_is(runs, before, r, key) {
            before[r] + 1
        } else {
            before[r]
        }
}

/// The places of the cursors as mathematical integers.
pub open spec fn positions(cursors: Seq<usize>) -> Seq<int> {
    cursors.map_values(|cursor: usize| cursor as int)
}

/// The pairs that the cursors have not passed yet.
spec fn pending_total(runs: Seq<Seq<(Seq<u8>, Seq<u8>)>>, cursors: Seq<usize>) -> int
    decreases runs.len(),
{
    if runs.len() == 0 || cursors.len() != runs.len() {
        0
    } else {
        pending_total(runs.drop_last(), cursors.drop_last()) + runs.last().len() - cursors.last()
    }
}

proof fn lemma_pending_advance(
    runs: Seq<Seq<(Seq<u8>, Seq<u8>)>>,
    cursors: Seq<usize>,
    r: int,
    next: usize,
)
    requires
        cursors.len() == runs.len(),
        0 <= r < runs.len(),
        next == cursors[r] + 1,
    ensures
        pending_total(runs, cursors.update(r, next)) == pending_total(runs, cursors) - 1,
    decreases runs.len(),
{
    if r == runs.len() - 1 {
        assert(cursors.update(r, next).drop_last() =~= cursors.drop_last());
    } else {
        assert(cursors.update(r, next).drop_last() =~= cursors.drop_last().update(r, next));
        lemma_pending_advance(runs.drop_last(), cursors.drop_last(), r, next);
    }
}

proof fn lemma_pending_nonnegative(runs: Seq<Seq<(Seq<u8>, Seq<u8>)>>, cursors: Seq<usize>)
    requires
        cursors.len() == runs.len(),
        forall|r: int| 0 <= r < runs.len() ==> cursors[r] <= (#[trigger] runs[r]).len(),
    ensures
        pending_total(runs, cursors) >= 0,
    decreases runs.len(),
{
    if runs.len() > 0 {
        assert(cursors.last() <= runs[runs.len() - 1].len());
        assert forall|r: int| 0 <= r < runs.drop_last().len() implies cursors.drop_last()[r] <= (
        #[trigger] runs.drop_last()[r]).len() by {
            assert(cursors[r] <= runs[r].len());
        }
        lemma_pending_nonnegative(runs.drop_last(), cursors.drop_last());
    }
}

/// Before the first step nothing is passed and nothing is out.
pub proof fn lemma_merge_start(
    runs: Seq<Seq<(Seq<u8>, Seq<u8>)>>,
    cursors: Seq<int>,
    merge: spec_fn(Seq<Seq<u8>>) -> Result<Seq<u8>, Error>,
)
    requires
        cursors.len() == runs.len(),
        forall|r: int| 0 <= r < runs.len() ==> keys_ascending(#[trigger] runs[r]) && cursors[r] == 0,
    ensures
        merge_state(runs, cursors, Seq::empty(), merge),
{
    let out = Seq::<(Seq<u8>, Seq<u8>)>::empty();
    assert forall|key: Seq<u8>| #[trigger] consumed(runs, cursors, key) implies holds_key(
        out,
        key,
    ) by {
        let (r, j) = choose|r: int, j: int|
            0 <= r < runs.len() && 0 <= j < cursors[r] && j < runs[r].len() && (
            #[trigger] runs[r][j]).0 == key;
        assert(keys_ascending(runs[r]) && cursors[r] == 0);
    }
    assert forall|r: int| 0 <= r < runs.len() implies keys_ascending(#[trigger] runs[r]) && (0
        <= cursors[r] <= runs[r].len()) by {
        assert(keys_ascending(runs[r]));
        assert(cursors[r] == 0);
        assert(runs[r].len() >= 0);
    }
    assert(keys_ascending(out));
    assert forall|i: int| 0 <= i < out.len() implies consumed(runs, cursors, (#[trigger] out[i]).0) by {}
    assert forall|i: int, key: Seq<u8>|
        #![trigger out[i], pending(runs, cursors, key)]
        0 <= i < out.len() && pending(runs, cursors, key) implies lex_lt(out[i].0, key) by {}
    assert forall|i: int| 0 <= i < out.len() implies merge(
        values_for(runs, (#[trigger] out[i]).0),
    ) == Ok::<Seq<u8>, Error>(out[i].1) by {}
}

/// When every cursor has passed its whole run, what is out is the merge.
pub proof fn lemma_merge_done(
    runs: Seq<Seq<(Seq<u8>, Seq<u8>)>>,
    cursors: Seq<int>,
    out: Seq<(Seq<u8>, Seq<u8>)>,
    merge: spec_fn(Seq<Seq<u8>>) -> Result<Seq<u8>, Error>,
)
    requires
        merge_state(runs, cursors, out, merge),
        forall|r: int| 0 <= r < runs.len() ==> cursors[r] == (#[trigger] runs[r]).len(),
    ensures
        is_merge_of(out, runs, merge),
        all_merges_ok(runs, merge),
{
    assert forall|key: Seq<u8>| #[trigger] holds_key(out, key) <==> key_in_runs(runs, key) by {
        if holds_key(out, key) {
            let i = choose|i: int| 0 <= i < out.len() && (#[trigger] out[i]).0 == key;
            assert(consumed(runs, cursors, out[i].0));
            let (r, j) = choose|r: int, j: int|
                0 <= r < runs.len() && 0 <= j < cursors[r] && j < runs[r].len() && (
                #[trigger] runs[r][j]).0 == key;
            assert(holds_key(runs[r], key));
        }
        if key_in_runs(runs, key) {
            let r = choose|r: int| 0 <= r < runs.len() && holds_key(#[trigger] runs[r], key);
            let j = choose|j: int| 0 <= j < runs[r].len() && (#[trigger] runs[r][j]).0 == key;
            assert(cursors[r] == runs[r].len());
            assert(consumed(runs, cursors, key));
        }
    }
    assert forall|key: Seq<u8>| #[trigger] key_in_runs(runs, key) implies merge(
        values_for(runs, key),
    ) is Ok by {
        assert(holds_key(out, key));
        let i = choose|i: int| 0 <= i < out.len() && (#[trigger] out[i]).0 == key;
        assert(merge(values_for(runs, out[i].0)) == Ok::<Seq<u8>, Error>(out[i].1));
    }
}

/// At a step, no cursor has passed the least key at the cursors.
pub proof fn lemma_least_not_consumed(
    runs: Seq<Seq<(Seq<u8>, Seq<u8>)>>,
    cursors: Seq<int>,
    out: Seq<(Seq<u8>, Seq<u8>)>,
    merge: spec_fn(Seq<Seq<u8>>) -> Result<Seq<u8>, Error>,
    least: int,
    key: Seq<u8>,
)
    requires
        merge_state(runs, cursors, out, merge),
        is_least_head(runs, cursors, least, key),
    ensures
        !consumed(runs, cursors, key),
        !holds_key(out, key),
        out.len() > 0 ==> lex_lt(out.last().0, key),
{
    assert(runs[least][cursors[least]].0 == key);
    assert(pending(runs, cursors, key));
    lemma_lex_irreflexive(key);
    if holds_key(out, key) {
        let i = choose|i: int| 0 <= i < out.len() && (#[trigger] out[i]).0 == key;
        assert(lex_lt(out[i].0, key));
    }
    if out.len() > 0 {
        assert(lex_lt(out[out.len() - 1].0, key));
    }
}

/// At a step, a run holds the least key at the cursors exactly if the key
/// stands at its cursor.
pub proof fn lemma_value_at_head(
    runs: Seq<Seq<(Seq<u8>, Seq<u8>)>>,
    cursors: Seq<int>,
    out: Seq<(Seq<u8>, Seq<u8>)>,
    merge: spec_fn(Seq<Seq<u8>>) -> Result<Seq<u8>, Error>,
    least: int,
    key: Seq<u8>,
    r: int,
)
    requires
        merge_state(runs, cursors, out, merge),
        is_least_head(runs, cursors, least, key),
        0 <= r < runs.len(),
    ensures
        head_is(runs, cursors, r, key) ==> value_in_run(runs[r], key) == Some(
            runs[r][cursors[r]].1,
        ),
        !head_is(runs, cursors, r, key) ==> value_in_run(runs[r], key) is None,
{
    let run = runs[r];
    assert(keys_ascending(run));
    if head_is(runs, cursors, r, key) {
        lemma_value_at(run, cursors[r] as int);
    } else if holds_key(run, key) {
        let j = choose|j: int| 0 <= j < run.len() && (#[trigger] run[j]).0 == key;
        lemma_least_not_consumed(runs, cursors, out, merge, least, key);
        if j < cursors[r] {
            assert(runs[r][j].0 == key);
            assert(consumed(runs, cursors, key));
        } else {
            assert(j > cursors[r]);
            assert(lex_lt(run[cursors[r]].0, run[j].0));
        }
    }
}

/// One step of the merge keeps what holds between steps.
pub proof fn lemma_merge_step(
    runs: Seq<Seq<(Seq<u8>, Seq<u8>)>>,
    before: Seq<int>,
    after: Seq<int>,
    out: Seq<(Seq<u8>, Seq<u8>)>,
    merge: spec_fn(Seq<Seq<u8>>) -> Result<Seq<u8>, Error>,
    least: int,
    key: Seq<u8>,
    value: Seq<u8>,
)
    requires
        merge_state(runs, before, out, merge),
        is_least_head(runs, before, least, key),
        cursors_advanced(runs, before, after, key),
        merge(values_for(runs, key)) == Ok::<Seq<u8>, Error>(value),
    ensures
        merge_state(runs, after, out.push((key, value)), merge),
{
    let next = out.push((key, value));
    lemma_least_not_consumed(runs, before, out, merge, least, key);
    lemma_push_keeps_ascending(out, (key, value));
    assert forall|r: int| 0 <= r < runs.len() implies keys_ascending(#[trigger] runs[r])
        && after[r] <= runs[r].len() by {
        assert(before[r] <= runs[r].len());
    }
    assert forall|k: Seq<u8>| #[trigger] consumed(runs, after, k) implies holds_key(next, k) by {
        let (r, j) = choose|r: int, j: int|
            0 <= r < runs.len() && 0 <= j < after[r] && j < runs[r].len() && (#[trigger] runs[r][j]).0
                == k;
        if j < before[r] {
            assert(consumed(runs, before, k));
            let i = choose|i: int| 0 <= i < out.len() && (#[trigger] out[i]).0 == k;
            assert(next[i].0 == k);
        } else {
            assert(head_is(runs, before, r, key));
            assert(next[out.len() as int].0 == k);
        }
    }
    assert forall|i: int| 0 <= i < next.len() implies consumed(runs, after, (#[trigger] next[i]).0) by {
        if i < out.len() {
            assert(consumed(runs, before, out[i].0));
            let (r, j) = choose|r: int, j: int|
                0 <= r < runs.len() && 0 <= j < before[r] && j < runs[r].len() && (
                #[trigger] runs[r][j]).0 == out[i].0;
            assert(after[r] >= before[r]);
            assert(runs[r][j].0 == next[i].0);
        } else {
            assert(head_is(runs, before, least, key));
            assert(after[least] == before[least] + 1);
            assert(runs[least][before[least]].0 == key);
        }
    }
    assert forall|i: int, k: Seq<u8>|
        #![trigger next[i], pending(runs, after, k)]
        0 <= i < next.len() && pending(runs, after, k) implies lex_lt(next[i].0, k) by {
        let (r, j) = choose|r: int, j: int|
            0 <= r < runs.len() && after[r] <= j < runs[r].len() && (#[trigger] runs[r][j]).0 == k;
        assert(before[r] <= after[r]);
        assert(pending(runs, before, k));
        if i < out.len() {
            assert(lex_lt(out[i].0, k));
        } else {
            let head = runs[r][before[r]].0;
            assert(keys_ascending(runs[r]));
            if head_is(runs, before, r, key) {
                assert(lex_lt(runs[r][before[r]].0, runs[r][j].0));
            } else {
                assert(!lex_lt(head, key));
                lemma_lex_total(head, key);
                if j > before[r] {
                    assert(lex_lt(runs[r][before[r]].0, runs[r][j].0));
                    lemma_lex_transitive(key, head, k);
                }
            }
        }
    }
    assert forall|i: int| 0 <= i < next.len() implies merge(
        values_for(runs, (#[trigger] next[i]).0),
    ) == Ok::<Seq<u8>, Error>(next[i].1) by {
        if i < out.len() {
            assert(merge(values_for(runs, out[i].0)) == Ok::<Seq<u8>, Error>(out[i].1));
        }
    }
}

/// A step on which the conflict-resolution function fails is the failure of
/// the whole merge.
pub proof fn lemma_merge_failure(
    runs: Seq<Seq<(Seq<u8>, Seq<u8>)>>,
    cursors: Seq<int>,
    out: Seq<(Seq<u8>, Seq<u8>)>,
    merge: spec_fn(Seq<Seq<u8>>) -> Result<Seq<u8>, Error>,
    least: int,
    key: Seq<u8>,
    error: Error,
)
    requires
        merge_state(runs, cursors, out, merge),
        is_least_head(runs, cursors, least, key),
        merge(values_for(runs, key)) == Err::<Seq<u8>, Error>(error),
    ensures
        merge_fails_with(runs, merge, error),
        !all_merges_ok(runs, merge),
{
    assert(runs[least][cursors[least]].0 == key);
    assert(holds_key(runs[least], key));
    assert(key_in_runs(runs, key));
    assert forall|earlier: Seq<u8>| #[trigger]
        key_in_runs(runs, earlier) && lex_lt(earlier, key) implies merge(
        values_for(runs, earlier),
    ) is Ok by {
        let r = choose|r: int| 0 <= r < runs.len() && holds_key(#[trigger] runs[r], earlier);
        let j = choose|j: int| 0 <= j < runs[r].len() && (#[trigger] runs[r][j]).0 == earlier;
        if j < cursors[r] {
            assert(consumed(runs, cursors, earlier));
            assert(holds_key(out, earlier));
            let i = choose|i: int| 0 <= i < out.len() && (#[trigger] out[i]).0 == earlier;
            assert(merge(values_for(runs, out[i].0)) == Ok::<Seq<u8>, Error>(out[i].1));
        } else {
            let head = runs[r][cursors[r]].0;
            assert(keys_ascending(runs[r]));
            assert(!lex_lt(head, key));
            if j > cursors[r] {
                assert(lex_lt(runs[r][cursors[r]].0, runs[r][j].0));
                lemma_lex_transitive(head, earlier, key);
            }
        }
    }
}

/// The merge of sorted runs: the single sorted run in which each key of any
/// input run stands once, and under it what the merge of the given kind makes
/// of the values that the runs hold under that key, in the order of the runs.
/// A failure of the conflict-resolution function on any key fails the whole
/// merge.
pub fn merge_runs(runs: &Vec<SortedRun>, kind: MergeKind) -> (merged: Result<SortedRun, Error>)
    requires
        forall|r: int| 0 <= r < runs@.len() ==> (#[trigger] runs@[r]).wf(),
    ensures
        merged is Ok <==> all_merges_ok(runs_view(runs@), merge_of_kind(kind)),
        merged matches Ok(out) ==> out.wf() && is_merge_of(
            out@,
            runs_view(runs@),
            merge_of_kind(kind),
        ),
        merged matches Err(e) ==> merge_fails_with(runs_view(runs@), merge_of_kind(kind), e),
{
    let ghost all = runs_view(runs@);
    let ghost merge = merge_of_kind(kind);
    let count = runs.len();
    let mut cursors: Vec<usize> = Vec::new();
    while cursors.len() < count
        invariant
            cursors@.len() <= count,
            forall|r: int| 0 <= r < cursors@.len() ==> cursors@[r] == 0,
        decreases count - cursors@.len(),
    {
        cursors.push(0);
    }
    let mut out = SortedRun::new();
    proof {
        assert forall|r: int| 0 <= r < all.len() implies keys_ascending(#[trigger] all[r])
            && cursors@[r] == 0 by {
            assert(runs@[r].wf());
        }
        lemma_merge_start(all, positions(cursors@), merge);
    }
    loop
        invariant
            count == runs@.len(),
            all == runs_view(runs@),
            merge == merge_of_kind(kind),
            out.wf(),
            merge_state(all, positions(cursors@), out@, merge),
        ensures
            is_merge_of(out@, all, merge),
            all_merges_ok(all, merge),
        decreases pending_total(all, cursors@),
    {
        let mut least: Option<usize> = None;
        let mut r: usize = 0;
        while r < count
            invariant
                r <= count,
                count == runs@.len(),
                all == runs_view(runs@),
                cursors@.len() == count,
                forall|q: int| 0 <= q < count ==> cursors@[q] <= (#[trigger] all[q]).len(),
                least is None ==> forall|q: int|
                    0 <= q < r ==> cursors@[q] == (#[trigger] all[q]).len(),
                least matches Some(m) ==> m < r && cursors@[m as int] < all[m as int].len()
                    && forall|q: int|
                    0 <= q < r && cursors@[q] < all[q].len() ==> !lex_lt(
                        (#[trigger] all[q])[cursors@[q] as int].0,
                        all[m as int][cursors@[m as int] as int].0,
                    ),
            decreases count - r,
        {
            assert(cursors@[r as int] <= all[r as int].len());
            if cursors[r] < runs[r].len() {
                match least {
                    None => {
                        proof {
                            lemma_lex_irreflexive(all[r as int][cursors@[r as int] as int].0);
                        }
                        least = Some(r);
                    },
                    Some(m) => {
                        let order = compare_keys(
                            runs[r].key(cursors[r]),
                            runs[m].key(cursors[m]),
                        );
                        if order == KeyOrder::Before {
                            proof {
                                let new_key = all[r as int][cursors@[r as int] as int].0;
                                let old_key = all[m as int][cursors@[m as int] as int].0;
                                lemma_lex_irreflexive(new_key);
                                assert forall|q: int|
                                    0 <= q < r + 1 && cursors@[q] < all[q].len() implies !lex_lt(
                                    (#[trigger] all[q])[cursors@[q] as int].0,
                                    new_key,
                                ) by {
                                    if q < r {
                                        let head = all[q][cursors@[q] as int].0;
                                        if lex_lt(head, new_key) {
                                            lemma_lex_transitive(head, new_key, old_key);
                                        }
                                    }
                                }
                            }
                            least = Some(r);
                        }
                    },
                }
            }
            r += 1;
        }
        let m = match least {
            Some(m) => m,
            None => {
                proof {
                    assert forall|q: int| 0 <= q < all.len() implies positions(cursors@)[q] == (
                    #[trigger] all[q]).len() by {
                        assert(cursors@[q] == all[q].len());
                    }
                    lemma_merge_done(all, positions(cursors@), out@, merge);
                }
                break ;
            },
        };
        let key = slice_to_vec(runs[m].key(cursors[m]));
        let ghost before = cursors@;
        let ghost places = positions(cursors@);
        proof {
            assert(is_least_head(all, places, m as int, key@)) by {
                assert forall|q: int| 0 <= q < all.len() && places[q] < all[q].len() implies !lex_lt(
                    (#[trigger] all[q])[places[q]].0,
                    key@,
                ) by {
                    assert(places[q] == cursors@[q]);
                }
            }
        }
        let mut values: Vec<Vec<u8>> = Vec::new();
        let mut r: usize = 0;
        proof {
            assert(all.take(0) =~= Seq::<Seq<(Seq<u8>, Seq<u8>)>>::empty());
            assert(blobs_view(values@) =~= values_for(all.take(0), key@));
        }
        while r < count
            invariant
                r <= count,
                count == runs@.len(),
                all == runs_view(runs@),
                before.len() == count,
                cursors@.len() == count,
                merge_state(all, places, out@, merge),
                is_least_head(all, places, m as int, key@),
                places == positions(before),
                forall|q: int|
                    0 <= q < r ==> (#[trigger] cursors@[q]) == if head_is(all, places, q, key@) {
                        before[q] + 1
                    } else {
                        before[q] as int
                    },
                forall|q: int| r <= q < count ==> (#[trigger] cursors@[q]) == before[q],
                blobs_view(values@) == values_for(all.take(r as int), key@),
                r > m ==> values@.len() > 0,
                pending_total(all, cursors@) <= pending_total(all, before),
                r > m ==> pending_total(all, cursors@) < pending_total(all, before),
            decreases count - r,
        {
            proof {
                lemma_value_at_head(all, places, out@, merge, m as int, key@, r as int);
                assert(places[r as int] == before[r as int]);
                assert(all.take(r + 1).drop_last() =~= all.take(r as int));
                assert(all.take(r + 1).last() == all[r as int]);
                assert(before[r as int] <= all[r as int].len());
            }
            if cursors[r] < runs[r].len() && compare_keys(runs[r].key(cursors[r]), key.as_slice())
                == KeyOrder::Same {
                let value = slice_to_vec(runs[r].value(cursors[r]));
                proof {
                    lemma_pending_advance(all, cursors@, r as int, (cursors@[r as int] + 1) as usize);
                    assert(blobs_view(values@.push(value)) =~= blobs_view(values@).push(value@));
                }
                values.push(value);
                let next = cursors[r] + 1;
                cursors.set(r, next);
            }
            r += 1;
        }
        proof {
            assert(all.take(count as int) =~= all);
            assert(cursors_advanced(all, places, positions(cursors@), key@)) by {
                assert forall|q: int| 0 <= q < all.len() implies (#[trigger] positions(cursors@)[q])
                    == if head_is(all, places, q, key@) {
                    places[q] + 1
                } else {
                    places[q]
                } by {
                    assert(positions(cursors@)[q] == cursors@[q]);
                    assert(places[q] == before[q]);
                }
            }
        }
        match merge_values(kind, &values) {
            Ok(value) => {
                proof {
                    lemma_least_not_consumed(all, places, out@, merge, m as int, key@);
                    lemma_merge_step(
                        all,
                        places,
                        positions(cursors@),
                        out@,
                        merge,
                        m as int,
                        key@,
                        value@,
                    );
                }
                let pushed = out.push(key, value);
                assert(pushed is Ok);
                proof {
                    lemma_pending_nonnegative(all, cursors@);
                }
            },
            Err(e) => {
                proof {
                    lemma_merge_failure(all, places, out@, merge, m as int, key@, e);
                }
                return Err(e);
            },
        }
    }
    Ok(out)
}

} // verus!

//! The merge does not depend on the order in which the runs are given, as
//! long as the conflict-resolution function does not.

use vstd::multiset::Multiset;
use vstd::prelude::*;
use vstd::seq_lib::{to_multiset_build, to_multiset_contains, to_multiset_len, to_multiset_remove};

use crate::del_add::DelAdd;
use crate::error::Error;
use crate::key_set::strictly_ascending;
use crate::lex::{lemma_lex_total, lemma_lex_transitive, lex_lt};
use crate::merge::{holds_key, is_merge_of, key_in_runs, lemma_merge_unique, merge_fails_with, merge_of_kind, value_in_run, values_for};
use crate::merge_functions::{all_docids, all_docids_deltas, all_key_set_deltas, delta_side_set, docids_union, is_docids_delta, is_key_set_delta, is_side_key_union, lemma_side_holds_step, lemma_side_key_union, merge_values_spec, side_holds_key, side_key_set, side_key_union, side_union, MergeKind};
use crate::postings::decode_docids_spec;

verus! {

/// `merge` gives the same result on the values that the runs hold under any
/// key, in whatever order those values are listed.
pub open spec fn order_blind_on(
    merge: spec_fn(Seq<Seq<u8>>) -> Result<Seq<u8>, Error>,
    runs: Seq<Seq<(Seq<u8>, Seq<u8>)>>,
) -> bool {
    forall|key: Seq<u8>, other: Seq<Seq<u8>>|
        #![trigger merge(other), values_for(runs, key)]
        other.to_multiset() == values_for(runs, key).to_multiset() ==> merge(other) == merge(
            values_for(runs, key),
        )
}

/// `merge` gives the same result on the same values in any order.
pub open spec fn order_blind(merge: spec_fn(Seq<Seq<u8>>) -> Result<Seq<u8>, Error>) -> bool {
    forall|one: Seq<Seq<u8>>, other: Seq<Seq<u8>>|
        #![trigger merge(one), merge(other)]
        one.to_multiset() == other.to_multiset() ==> merge(one) == merge(other)
}

/// What one run adds to the values under `key`.
spec fn contribution(run: Seq<(Seq<u8>, Seq<u8>)>, key: Seq<u8>) -> Multiset<Seq<u8>> {
    match value_in_run(run, key) {
        Some(value) => Multiset::empty().insert(value),
        None => Multiset::empty(),
    }
}

/// The values under a key are those of the other runs and what one run adds.
proof fn lemma_values_without(runs: Seq<Seq<(Seq<u8>, Seq<u8>)>>, at: int, key: Seq<u8>)
    requires
        0 <= at < runs.len(),
    ensures
        values_for(runs, key).to_multiset() == values_for(runs.remove(at), key).to_multiset().add(
            contribution(runs[at], key),
        ),
    decreases runs.len(),
{
    let rest = runs.drop_last();
    let before = values_for(rest, key);
    if at == runs.len() - 1 {
        assert(runs.remove(at) =~= rest);
        match value_in_run(runs.last(), key) {
            Some(value) => {
                to_multiset_build(before, value);
                assert(before.to_multiset().insert(value) =~= before.to_multiset().add(
                    contribution(runs[at], key),
                ));
            },
            None => {
                assert(before.to_multiset() =~= before.to_multiset().add(
                    contribution(runs[at], key),
                ));
            },
        }
    } else {
        let removed = runs.remove(at);
        assert(removed.drop_last() =~= rest.remove(at));
        assert(removed.last() == runs.last());
        lemma_values_without(rest, at, key);
        let inner = values_for(rest.remove(at), key);
        match value_in_run(runs.last(), key) {
            Some(value) => {
                to_multiset_build(before, value);
                to_multiset_build(inner, value);
                assert(before.to_multiset().insert(value) =~= inner.to_multiset().insert(value).add(
                    contribution(runs[at], key),
                ));
            },
            None => {},
        }
    }
}

/// Shuffled runs hold the same values under each key, in another order.
proof fn lemma_values_shuffled(
    runs: Seq<Seq<(Seq<u8>, Seq<u8>)>>,
    shuffled: Seq<Seq<(Seq<u8>, Seq<u8>)>>,
    key: Seq<u8>,
)
    requires
        runs.to_multiset() == shuffled.to_multiset(),
    ensures
        values_for(runs, key).to_multiset() == values_for(shuffled, key).to_multiset(),
    decreases runs.len(),
{
    to_multiset_len(runs);
    to_multiset_len(shuffled);
    if runs.len() > 0 {
        let last = runs.last();
        let rest = runs.drop_last();
        assert(runs =~= rest.push(last));
        to_multiset_build(rest, last);
        assert(runs.contains(last)) by {
            assert(runs[runs.len() - 1] == last);
        }
        to_multiset_contains(runs, last);
        to_multiset_contains(shuffled, last);
        let at = choose|i: int| 0 <= i < shuffled.len() && shuffled[i] == last;
        to_multiset_remove(shuffled, at);
        assert(rest.to_multiset() =~= shuffled.remove(at).to_multiset());
        lemma_values_shuffled(rest, shuffled.remove(at), key);
        lemma_values_without(shuffled, at, key);
        lemma_values_without(runs, runs.len() - 1, key);
        assert(runs.remove(runs.len() - 1) =~= rest);
    }
}

/// Shuffled runs hold the same keys.
proof fn lemma_keys_shuffled(
    runs: Seq<Seq<(Seq<u8>, Seq<u8>)>>,
    shuffled: Seq<Seq<(Seq<u8>, Seq<u8>)>>,
    key: Seq<u8>,
)
    requires
        runs.to_multiset() == shuffled.to_multiset(),
        key_in_runs(runs, key),
    ensures
        key_in_runs(shuffled, key),
{
    let r = choose|r: int| 0 <= r < runs.len() && holds_key(#[trigger] runs[r], key);
    assert(runs.contains(runs[r]));
    to_multiset_contains(runs, runs[r]);
    to_multiset_contains(shuffled, runs[r]);
    let at = choose|i: int| 0 <= i < shuffled.len() && shuffled[i] == runs[r];
    assert(holds_key(shuffled[at], key));
}

/// A merge of the runs is a merge of the same runs in any other order.
pub proof fn lemma_merge_of_shuffled(
    out: Seq<(Seq<u8>, Seq<u8>)>,
    runs: Seq<Seq<(Seq<u8>, Seq<u8>)>>,
    shuffled: Seq<Seq<(Seq<u8>, Seq<u8>)>>,
    merge: spec_fn(Seq<Seq<u8>>) -> Result<Seq<u8>, Error>,
)
    requires
        runs.to_multiset() == shuffled.to_multiset(),
        order_blind_on(merge, runs),
        is_merge_of(out, runs, merge),
    ensures
        is_merge_of(out, shuffled, merge),
{
    assert forall|key: Seq<u8>| #[trigger] holds_key(out, key) <==> key_in_runs(shuffled, key) by {
        if holds_key(out, key) {
            assert(key_in_runs(runs, key));
            lemma_keys_shuffled(runs, shuffled, key);
        }
        if key_in_runs(shuffled, key) {
            lemma_keys_shuffled(shuffled, runs, key);
        }
    }
    assert forall|i: int| 0 <= i < out.len() implies merge(
        values_for(shuffled, (#[trigger] out[i]).0),
    ) == Ok::<Seq<u8>, Error>(out[i].1) by {
        lemma_values_shuffled(runs, shuffled, out[i].0);
        assert(merge(values_for(runs, out[i].0)) == Ok::<Seq<u8>, Error>(out[i].1));
    }
}

/// Merging is order-independent: for a conflict-resolution function that does
/// not depend on the order of the values, the merge of the runs and the merge
/// of the same runs shuffled are the same stream, byte for byte.
pub proof fn lemma_merge_order_independent(
    out: Seq<(Seq<u8>, Seq<u8>)>,
    out_shuffled: Seq<(Seq<u8>, Seq<u8>)>,
    runs: Seq<Seq<(Seq<u8>, Seq<u8>)>>,
    shuffled: Seq<Seq<(Seq<u8>, Seq<u8>)>>,
    merge: spec_fn(Seq<Seq<u8>>) -> Result<Seq<u8>, Error>,
)
    requires
        runs.to_multiset() == shuffled.to_multiset(),
        order_blind_on(merge, runs),
        is_merge_of(out, runs, merge),
        is_merge_of(out_shuffled, shuffled, merge),
    ensures
        out == out_shuffled,
{
    lemma_merge_of_shuffled(out, runs, shuffled, merge);
    lemma_merge_unique(out, out_shuffled, shuffled, merge);
}

/// A merge that fails on the runs fails in the same way on the same runs in
/// any other order.
pub proof fn lemma_merge_failure_order_independent(
    runs: Seq<Seq<(Seq<u8>, Seq<u8>)>>,
    shuffled: Seq<Seq<(Seq<u8>, Seq<u8>)>>,
    merge: spec_fn(Seq<Seq<u8>>) -> Result<Seq<u8>, Error>,
    error: Error,
)
    requires
        runs.to_multiset() == shuffled.to_multiset(),
        order_blind_on(merge, runs),
        merge_fails_with(runs, merge, error),
    ensures
        merge_fails_with(shuffled, merge, error),
{
    let key = choose|key: Seq<u8>|
        {
            &&& #[trigger] key_in_runs(runs, key)
            &&& merge(values_for(runs, key)) == Err::<Seq<u8>, Error>(error)
            &&& forall|earlier: Seq<u8>|
                #[trigger] key_in_runs(runs, earlier) && lex_lt(earlier, key) ==> merge(
                    values_for(runs, earlier),
                ) is Ok
        };
    lemma_keys_shuffled(runs, shuffled, key);
    lemma_values_shuffled(runs, shuffled, key);
    assert(merge(values_for(shuffled, key)) == merge(values_for(runs, key)));
    assert forall|earlier: Seq<u8>| #[trigger]
        key_in_runs(shuffled, earlier) && lex_lt(earlier, key) implies merge(
        values_for(shuffled, earlier),
    ) is Ok by {
        lemma_keys_shuffled(shuffled, runs, earlier);
        lemma_values_shuffled(runs, shuffled, earlier);
        assert(merge(values_for(shuffled, earlier)) == merge(values_for(runs, earlier)));
    }
}

/// Values listed in another order hold the same items.
proof fn lemma_same_items(one: Seq<Seq<u8>>, other: Seq<Seq<u8>>, i: int) -> (j: int)
    requires
        one.to_multiset() == other.to_multiset(),
        0 <= i < one.len(),
    ensures
        0 <= j < other.len(),
        other[j] == one[i],
{
    assert(one.contains(one[i]));
    to_multiset_contains(one, one[i]);
    to_multiset_contains(other, one[i]);
    choose|j: int| 0 <= j < other.len() && other[j] == one[i]
}

/// The union of stored sets, the unions of the sides of deltas, and the
/// merge that ignores values do not depend on the order of the values.
pub proof fn lemma_unions_order_blind(kind: MergeKind)
    requires
        kind != MergeKind::KeepFirst,
        kind != MergeKind::KeepLatest,
    ensures
        order_blind(merge_of_kind(kind)),
{
    let merge = merge_of_kind(kind);
    assert forall|one: Seq<Seq<u8>>, other: Seq<Seq<u8>>|
        #![trigger merge(one), merge(other)]
        one.to_multiset() == other.to_multiset() implies merge(one) == merge(other) by {
        to_multiset_len(one);
        to_multiset_len(other);
        if one.len() == 1 {
            let j = lemma_same_items(one, other, 0);
        } else {
            assert(all_docids(one) == all_docids(other)) by {
                if all_docids(one) {
                    assert forall|i: int| 0 <= i < other.len() implies decode_docids_spec(
                        #[trigger] other[i],
                    ) is Some by {
                        let j = lemma_same_items(other, one, i);
                        assert(decode_docids_spec(one[j]) is Some);
                    }
                }
                if all_docids(other) {
                    assert forall|i: int| 0 <= i < one.len() implies decode_docids_spec(
                        #[trigger] one[i],
                    ) is Some by {
                        let j = lemma_same_items(one, other, i);
                        assert(decode_docids_spec(other[j]) is Some);
                    }
                }
            }
            assert(all_docids_deltas(one) == all_docids_deltas(other)) by {
                if all_docids_deltas(one) {
                    assert forall|i: int| 0 <= i < other.len() implies is_docids_delta(
                        #[trigger] other[i],
                    ) by {
                        let j = lemma_same_items(other, one, i);
                        assert(is_docids_delta(one[j]));
                    }
                }
                if all_docids_deltas(other) {
                    assert forall|i: int| 0 <= i < one.len() implies is_docids_delta(
                        #[trigger] one[i],
                    ) by {
                        let j = lemma_same_items(one, other, i);
                        assert(is_docids_delta(other[j]));
                    }
                }
            }
            assert(docids_union(one) =~= docids_union(other)) by {
                assert forall|id: u32| docids_union(one).contains(id) implies docids_union(
                    other,
                ).contains(id) by {
                    let i = choose|i: int|
                        0 <= i < one.len() && decode_docids_spec(#[trigger] one[i]) is Some
                            && decode_docids_spec(one[i]).unwrap().contains(id);
                    let j = lemma_same_items(one, other, i);
                    assert(decode_docids_spec(other[j]) is Some);
                }
                assert forall|id: u32| docids_union(other).contains(id) implies docids_union(
                    one,
                ).contains(id) by {
                    let i = choose|i: int|
                        0 <= i < other.len() && decode_docids_spec(#[trigger] other[i]) is Some
                            && decode_docids_spec(other[i]).unwrap().contains(id);
                    let j = lemma_same_items(other, one, i);
                    assert(decode_docids_spec(one[j]) is Some);
                }
            }
            assert(all_key_set_deltas(one) == all_key_set_deltas(other)) by {
                if all_key_set_deltas(one) {
                    assert forall|i: int| 0 <= i < other.len() implies is_key_set_delta(
                        #[trigger] other[i],
                    ) by {
                        let j = lemma_same_items(other, one, i);
                        assert(is_key_set_delta(one[j]));
                    }
                }
                if all_key_set_deltas(other) {
                    assert forall|i: int| 0 <= i < one.len() implies is_key_set_delta(
                        #[trigger] one[i],
                    ) by {
                        let j = lemma_same_items(one, other, i);
                        assert(is_key_set_delta(other[j]));
                    }
                }
            }
            lemma_side_union_shuffled(one, other, DelAdd::Deletion);
            lemma_side_union_shuffled(one, other, DelAdd::Addition);
            lemma_side_key_union_shuffled(one, other, DelAdd::Deletion);
            lemma_side_key_union_shuffled(one, other, DelAdd::Addition);
        }
        assert(merge(one) == merge_values_spec(kind, one));
        assert(merge(other) == merge_values_spec(kind, other));
    }
}

/// The union of one side of the deltas does not depend on their order.
proof fn lemma_side_union_shuffled(one: Seq<Seq<u8>>, other: Seq<Seq<u8>>, side: DelAdd)
    requires
        one.to_multiset() == other.to_multiset(),
    ensures
        side_union(one, side) == side_union(other, side),
{
    assert forall|id: u32| side_union(one, side).contains(id) implies side_union(
        other,
        side,
    ).contains(id) by {
        let i = choose|i: int|
            0 <= i < one.len() && delta_side_set(#[trigger] one[i], side).contains(id);
        let j = lemma_same_items(one, other, i);
        assert(delta_side_set(other[j], side).contains(id));
    }
    assert forall|id: u32| side_union(other, side).contains(id) implies side_union(
        one,
        side,
    ).contains(id) by {
        let i = choose|i: int|
            0 <= i < other.len() && delta_side_set(#[trigger] other[i], side).contains(id);
        let j = lemma_same_items(other, one, i);
        assert(delta_side_set(one[j], side).contains(id));
    }
    assert(side_union(one, side) =~= side_union(other, side));
}

/// Some ascending list holds `key` and the keys of the ascending list `keys`.
proof fn lemma_with_key(keys: Seq<Seq<u8>>, key: Seq<u8>) -> (out: Seq<Seq<u8>>)
    requires
        strictly_ascending(keys),
    ensures
        strictly_ascending(out),
        forall|k: Seq<u8>| #[trigger] out.contains(k) <==> keys.contains(k) || k == key,
    decreases keys.len(),
{
    if keys.len() == 0 {
        let out = seq![key];
        assert(out[0] == key);
        out
    } else {
        let last = keys.last();
        let rest = keys.drop_last();
        assert(keys =~= rest.push(last));
        if key == last {
            assert(keys[keys.len() - 1] == key);
            keys
        } else {
            lemma_lex_total(last, key);
            assert(strictly_ascending(rest)) by {
                assert forall|i: int, j: int| 0 <= i < j < rest.len() implies lex_lt(rest[i], rest[j]) by {
                    assert(rest[i] == keys[i] && rest[j] == keys[j]);
                }
            }
            let inner = lemma_with_key(rest, key);
            let out = if lex_lt(last, key) {
                keys.push(key)
            } else {
                inner.push(last)
            };
            let front = out.drop_last();
            assert(out =~= front.push(out.last()));
            assert(front =~= if lex_lt(last, key) {
                keys
            } else {
                inner
            });
            assert forall|i: int, j: int| 0 <= i < j < out.len() implies lex_lt(out[i], out[j]) by {
                if j == out.len() - 1 {
                    assert(front.contains(front[i]));
                    if lex_lt(last, key) {
                        if i < keys.len() - 1 {
                            lemma_lex_transitive(keys[i], last, key);
                        }
                    } else {
                        if front[i] != key {
                            assert(rest.contains(front[i]));
                            let at = choose|at: int| 0 <= at < rest.len() && rest[at] == front[i];
                            assert(keys[at] == front[i]);
                        }
                    }
                } else {
                    assert(out[i] == front[i] && out[j] == front[j]);
                }
            }
            assert forall|k: Seq<u8>| #[trigger] out.contains(k) <==> keys.contains(k) || k == key by {
                if out.contains(k) {
                    let at = choose|at: int| 0 <= at < out.len() && out[at] == k;
                    if at < out.len() - 1 {
                        assert(front.contains(front[at]));
                        if !lex_lt(last, key) && k != key {
                            assert(rest.contains(k));
                            let inner = choose|inner: int| 0 <= inner < rest.len() && rest[inner] == k;
                            assert(keys[inner] == k);
                        }
                    } else if !lex_lt(last, key) {
                        assert(keys[keys.len() - 1] == k);
                    }
                }
                if keys.contains(k) {
                    let at = choose|at: int| 0 <= at < keys.len() && keys[at] == k;
                    if lex_lt(last, key) {
                        assert(out[at] == k);
                    } else if at == keys.len() - 1 {
                        assert(out[out.len() - 1] == k);
                    } else {
                        assert(rest[at] == k);
                        assert(front.contains(k));
                        let inner = choose|inner: int| 0 <= inner < front.len() && front[inner] == k;
                        assert(out[inner] == k);
                    }
                }
                if k == key {
                    if lex_lt(last, key) {
                        assert(out[out.len() - 1] == k);
                    } else {
                        assert(front.contains(k));
                        let inner = choose|inner: int| 0 <= inner < front.len() && front[inner] == k;
                        assert(out[inner] == k);
                    }
                }
            }
            out
        }
    }
}

/// Some ascending list holds the keys of `more` and those of the ascending
/// list `keys`.
proof fn lemma_with_keys(keys: Seq<Seq<u8>>, more: Seq<Seq<u8>>) -> (out: Seq<Seq<u8>>)
    requires
        strictly_ascending(keys),
    ensures
        strictly_ascending(out),
        forall|k: Seq<u8>| #[trigger] out.contains(k) <==> keys.contains(k) || more.contains(k),
    decreases more.len(),
{
    if more.len() == 0 {
        keys
    } else {
        let rest = more.drop_last();
        let inner = lemma_with_keys(keys, rest);
        let out = lemma_with_key(inner, more.last());
        assert forall|k: Seq<u8>| #[trigger] out.contains(k) <==> keys.contains(k) || more.contains(
            k,
        ) by {
            if rest.contains(k) {
                let at = choose|at: int| 0 <= at < rest.len() && rest[at] == k;
                assert(more[at] == k);
            }
            if more.contains(k) {
                let at = choose|at: int| 0 <= at < more.len() && more[at] == k;
                if at < more.len() - 1 {
                    assert(rest[at] == k);
                }
            }
            assert(more[more.len() - 1] == more.last());
        }
        out
    }
}

/// The deltas have a union on each side, whatever they hold.
pub proof fn lemma_side_key_union_exists(values: Seq<Seq<u8>>, side: DelAdd)
    ensures
        is_side_key_union(side_key_union(values, side), values, side),
    decreases values.len(),
{
    if values.len() == 0 {
        let none = Seq::<Seq<u8>>::empty();
        assert(is_side_key_union(none, values, side));
    } else {
        let n = values.len() - 1;
        let rest = values.take(n);
        lemma_side_key_union_exists(rest, side);
        let out = lemma_with_keys(side_key_union(rest, side), side_key_set(values[n], side));
        assert(values.take(n + 1) =~= values);
        assert forall|key: Seq<u8>| out.contains(key) <==> #[trigger] side_holds_key(
            values,
            side,
            key,
        ) by {
            lemma_side_holds_step(values, side, n, key);
        }
        assert(is_side_key_union(out, values, side));
    }
}

/// The union of one side of deltas of sets of keys does not depend on their
/// order.
proof fn lemma_side_key_union_shuffled(one: Seq<Seq<u8>>, other: Seq<Seq<u8>>, side: DelAdd)
    requires
        one.to_multiset() == other.to_multiset(),
    ensures
        side_key_union(one, side) == side_key_union(other, side),
{
    lemma_side_key_union_exists(one, side);
    let keys = side_key_union(one, side);
    assert forall|key: Seq<u8>| keys.contains(key) <==> #[trigger] side_holds_key(
        other,
        side,
        key,
    ) by {
        if side_holds_key(one, side, key) {
            let i = choose|i: int|
                0 <= i < one.len() && side_key_set(#[trigger] one[i], side).contains(key);
            let j = lemma_same_items(one, other, i);
            assert(side_key_set(other[j], side).contains(key));
        }
        if side_holds_key(other, side, key) {
            let i = choose|i: int|
                0 <= i < other.len() && side_key_set(#[trigger] other[i], side).contains(key);
            let j = lemma_same_items(other, one, i);
            assert(side_key_set(one[j], side).contains(key));
        }
    }
    lemma_side_key_union(keys, other, side);
}

} // verus!

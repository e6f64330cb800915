//! Reconciliation: what a delta makes of the value that the persisted store
//! holds under its key.

use vstd::prelude::*;
use vstd::slice::slice_to_vec;

use crate::del_add::{decode_delta_spec, DelAdd, DeltaValue};
use crate::docids::DocIds;
use crate::error::Error;
use crate::helpers::{spec_valid_lmdb_key, valid_lmdb_key};
use crate::merge_functions::{delta_side_set, is_docids_delta};
use crate::postings::{decode_docids, decode_docids_spec, encode_docids, encode_docids_spec, lemma_docids_encode_decode};
use crate::sorted_run::{keys_of, SortedRun};

verus! {

/// What a commit does to the value under one key.
#[derive(Debug, PartialEq, Eq)]
pub enum Change {
    /// The store is left as it is.
    Keep,
    /// The value is stored under the key, in place of what was there.
    Put(Vec<u8>),
    /// The key is removed from the store.
    Delete,
}

/// A change as mathematics sees it.
pub enum ChangeView {
    Keep,
    Put(Seq<u8>),
    Delete,
}

impl View for Change {
    type V = ChangeView;

    open spec fn view(&self) -> ChangeView {
        match self {
            Change::Keep => ChangeView::Keep,
            Change::Put(value) => ChangeView::Put(value@),
            Change::Delete => ChangeView::Delete,
        }
    }
}

/// A write to one key of a table.
#[derive(Debug, PartialEq, Eq)]
pub enum WriteOp {
    Put { key: Vec<u8>, value: Vec<u8> },
    Delete { key: Vec<u8> },
}

/// A write as mathematics sees it.
pub enum WriteOpView {
    Put { key: Seq<u8>, value: Seq<u8> },
    Delete { key: Seq<u8> },
}

impl View for WriteOp {
    type V = WriteOpView;

    open spec fn view(&self) -> WriteOpView {
        match self {
            WriteOp::Put { key, value } => WriteOpView::Put { key: key@, value: value@ },
            WriteOp::Delete { key } => WriteOpView::Delete { key: key@ },
        }
    }
}

/// The writes of a vector of writes.
pub open spec fn writes_view(ops: Seq<WriteOp>) -> Seq<WriteOpView> {
    ops.map_values(|op: WriteOp| op@)
}

/// The table after the change to one key.
pub open spec fn apply_change(table: Map<Seq<u8>, Seq<u8>>, key: Seq<u8>, change: ChangeView) -> Map<
    Seq<u8>,
    Seq<u8>,
> {
    match change {
        ChangeView::Keep => table,
        ChangeView::Put(value) => table.insert(key, value),
        ChangeView::Delete => table.remove(key),
    }
}

/// What the table holds under `key`.
pub open spec fn lookup(table: Map<Seq<u8>, Seq<u8>>, key: Seq<u8>) -> Option<Seq<u8>> {
    if table.dom().contains(key) {
        Some(table[key])
    } else {
        None
    }
}

/// The bytes of an optional stored value.
pub open spec fn stored_view(stored: Option<&[u8]>) -> Option<Seq<u8>> {
    match stored {
        Some(bytes) => Some(bytes@),
        None => None,
    }
}

/// The document ids that a stored value holds: none where nothing is stored.
/// `None` where the stored bytes are no stored set.
pub open spec fn stored_docids(stored: Option<Seq<u8>>) -> Option<Set<u32>> {
    match stored {
        Some(bytes) => decode_docids_spec(bytes),
        None => Some(Set::empty()),
    }
}

/// The reconciled set: what was stored, without the deletion, with the
/// addition.
pub open spec fn reconcile_docids(stored: Set<u32>, deletion: Set<u32>, addition: Set<u32>) -> Set<u32> {
    stored.difference(deletion).union(addition)
}

/// The value to store for a set of document ids: none for the empty set.
pub open spec fn docids_to_store(set: Set<u32>) -> Option<Seq<u8>> {
    if set == Set::<u32>::empty() {
        None
    } else {
        Some(encode_docids_spec(set))
    }
}

/// What a postings-shaped database holds under a key after the delta `delta`
/// has met the stored value `stored`: the stored set without the deletion
/// side and with the addition side, and nothing where that set is empty.
pub open spec fn reconcile_postings_spec(delta: Seq<u8>, stored: Option<Seq<u8>>) -> Result<
    Option<Seq<u8>>,
    Error,
> {
    if !is_docids_delta(delta) || stored_docids(stored) is None {
        Err(Error::Decoding)
    } else {
        Ok(
            docids_to_store(
                reconcile_docids(
                    stored_docids(stored).unwrap(),
                    delta_side_set(delta, DelAdd::Deletion),
                    delta_side_set(delta, DelAdd::Addition),
                ),
            ),
        )
    }
}

/// What a database of single values holds under a key after the delta: with
/// an addition the addition, with a deletion only nothing, and with neither
/// what it held.
pub open spec fn reconcile_value_spec(delta: Seq<u8>) -> Result<ChangeView, Error> {
    match decode_delta_spec(delta) {
        None => Err(Error::Decoding),
        Some(sides) => match (sides.deletion, sides.addition) {
            (None, None) => Ok(ChangeView::Keep),
            (_, Some(new)) => Ok(ChangeView::Put(new)),
            (Some(_), None) => Ok(ChangeView::Delete),
        },
    }
}

/// Delta reconciliation is idempotent for postings: a delta that only deletes
/// leaves, applied twice, what it leaves applied once: the stored set
/// without the deleted ids.
pub proof fn lemma_deletion_idempotent(delta: Seq<u8>, stored: Option<Seq<u8>>)
    requires
        reconcile_postings_spec(delta, stored) is Ok,
        delta_side_set(delta, DelAdd::Addition) == Set::<u32>::empty(),
    ensures
        ({
            let once = reconcile_postings_spec(delta, stored).unwrap();
            &&& reconcile_postings_spec(delta, once) == Ok::<Option<Seq<u8>>, Error>(once)
            &&& stored_docids(once) == Some(
                stored_docids(stored).unwrap().difference(delta_side_set(delta, DelAdd::Deletion)),
            )
        }),
{
    let before = stored_docids(stored).unwrap();
    let deletion = delta_side_set(delta, DelAdd::Deletion);
    let addition = delta_side_set(delta, DelAdd::Addition);
    let left = reconcile_docids(before, deletion, addition);
    assert(left =~= before.difference(deletion));
    let once = reconcile_postings_spec(delta, stored).unwrap();
    lemma_docids_encode_decode(left);
    assert(stored_docids(once) == Some(left));
    assert(reconcile_docids(left, deletion, addition) =~= left);
}

/// What a postings-shaped table holds under a key after the change that a
/// delta asks for: the set it held, without the deletion side of the delta
/// and with its addition side. No other key is touched.
pub proof fn lemma_postings_change_applied(
    table: Map<Seq<u8>, Seq<u8>>,
    key: Seq<u8>,
    delta: Seq<u8>,
)
    requires
        spec_valid_lmdb_key(key),
        postings_change_spec(key, delta, lookup(table, key)) is Ok,
    ensures
        ({
            let change = postings_change_spec(key, delta, lookup(table, key)).unwrap();
            let after = apply_change(table, key, change);
            &&& stored_docids(lookup(after, key)) == Some(
                reconcile_docids(
                    stored_docids(lookup(table, key)).unwrap(),
                    delta_side_set(delta, DelAdd::Deletion),
                    delta_side_set(delta, DelAdd::Addition),
                ),
            )
            &&& forall|other: Seq<u8>| other != key ==> lookup(after, other) == lookup(table, other)
        }),
{
    let set = reconcile_docids(
        stored_docids(lookup(table, key)).unwrap(),
        delta_side_set(delta, DelAdd::Deletion),
        delta_side_set(delta, DelAdd::Addition),
    );
    lemma_docids_encode_decode(set);
}

/// A delta that only deletes leaves the table, applied twice, as it leaves it
/// applied once.
pub proof fn lemma_deletion_idempotent_on_table(
    table: Map<Seq<u8>, Seq<u8>>,
    key: Seq<u8>,
    delta: Seq<u8>,
)
    requires
        postings_change_spec(key, delta, lookup(table, key)) is Ok,
        delta_side_set(delta, DelAdd::Addition) == Set::<u32>::empty(),
    ensures
        ({
            let once = apply_change(
                table,
                key,
                postings_change_spec(key, delta, lookup(table, key)).unwrap(),
            );
            &&& postings_change_spec(key, delta, lookup(once, key)) is Ok
            &&& apply_change(
                once,
                key,
                postings_change_spec(key, delta, lookup(once, key)).unwrap(),
            ) == once
        }),
{
    if spec_valid_lmdb_key(key) {
        lemma_deletion_idempotent(delta, lookup(table, key));
        let first = postings_change_spec(key, delta, lookup(table, key)).unwrap();
        let once = apply_change(table, key, first);
        let second = postings_change_spec(key, delta, lookup(once, key)).unwrap();
        assert(apply_change(once, key, second) =~= once);
    }
}

/// The ids of one side of a delta; none where the side is absent.
fn side_ids(delta: &DeltaValue, side: DelAdd) -> (ids: Result<DocIds, Error>)
    ensures
        ids matches Ok(set) ==> match delta.get_spec(side) {
            Some(payload) => decode_docids_spec(payload) == Some(set@),
            None => set@ == Set::<u32>::empty(),
        },
        ids matches Err(e) ==> e == Error::Decoding && delta.get_spec(side) is Some
            && decode_docids_spec(delta.get_spec(side).unwrap()) is None,
{
    match delta.get(side) {
        Some(payload) => decode_docids(payload.as_slice()),
        None => Ok(DocIds::new()),
    }
}

/// Reconciles the delta of a key of a postings-shaped database with the value
/// that the database holds under that key. Gives the value to store, or
/// `None` where the key is to be removed.
pub fn reconcile_postings(delta: &[u8], stored: Option<&[u8]>) -> (value: Result<
    Option<Vec<u8>>,
    Error,
>)
    ensures
        value matches Ok(Some(bytes)) ==> reconcile_postings_spec(delta@, stored_view(stored))
            == Ok::<Option<Seq<u8>>, Error>(Some(bytes@)),
        value matches Ok(None) ==> reconcile_postings_spec(delta@, stored_view(stored)) == Ok::<
            Option<Seq<u8>>,
            Error,
        >(None),
        value matches Err(e) ==> reconcile_postings_spec(delta@, stored_view(stored)) == Err::<
            Option<Seq<u8>>,
            Error,
        >(e),
{
    let sides = match DeltaValue::decode(delta) {
        Ok(sides) => sides,
        Err(e) => {
            return Err(e);
        },
    };
    let deletion = match side_ids(&sides, DelAdd::Deletion) {
        Ok(set) => set,
        Err(e) => {
            return Err(e);
        },
    };
    let addition = match side_ids(&sides, DelAdd::Addition) {
        Ok(set) => set,
        Err(e) => {
            return Err(e);
        },
    };
    let before = match stored {
        Some(bytes) => match decode_docids(bytes) {
            Ok(set) => set,
            Err(e) => {
                return Err(e);
            },
        },
        None => DocIds::new(),
    };
    let after = before.difference(&deletion).union(&addition);
    if after.is_empty() {
        Ok(None)
    } else {
        Ok(Some(encode_docids(&after)))
    }
}

/// Reconciles the delta of a key of a database of single values.
pub fn reconcile_value(delta: &[u8]) -> (change: Result<Change, Error>)
    ensures
        change matches Ok(c) ==> reconcile_value_spec(delta@) == Ok::<ChangeView, Error>(c@),
        change matches Err(e) ==> reconcile_value_spec(delta@) == Err::<ChangeView, Error>(e),
{
    let sides = match DeltaValue::decode(delta) {
        Ok(sides) => sides,
        Err(e) => {
            return Err(e);
        },
    };
    match (sides.deletion, sides.addition) {
        (None, None) => Ok(Change::Keep),
        (_, Some(new)) => Ok(Change::Put(new)),
        (Some(_), None) => Ok(Change::Delete),
    }
}

/// The change that the delta under `key` makes to a postings-shaped database
/// that holds `stored` under `key`. A key that the store cannot hold is passed
/// over.
pub open spec fn postings_change_spec(key: Seq<u8>, delta: Seq<u8>, stored: Option<Seq<u8>>) -> Result<
    ChangeView,
    Error,
> {
    if !spec_valid_lmdb_key(key) {
        Ok(ChangeView::Keep)
    } else {
        match reconcile_postings_spec(delta, stored) {
            Ok(Some(value)) => Ok(ChangeView::Put(value)),
            Ok(None) => Ok(ChangeView::Delete),
            Err(e) => Err(e),
        }
    }
}

/// The change that the delta under `key` makes to a database of single
/// values. A key that the store cannot hold is passed over.
pub open spec fn value_change_spec(key: Seq<u8>, delta: Seq<u8>) -> Result<ChangeView, Error> {
    if !spec_valid_lmdb_key(key) {
        Ok(ChangeView::Keep)
    } else {
        reconcile_value_spec(delta)
    }
}

/// Decides what to do to one key of a postings-shaped database.
pub fn postings_change(key: &[u8], delta: &[u8], stored: Option<&[u8]>) -> (change: Result<
    Change,
    Error,
>)
    ensures
        change matches Ok(c) ==> postings_change_spec(key@, delta@, stored_view(stored)) == Ok::<
            ChangeView,
            Error,
        >(c@),
        change matches Err(e) ==> postings_change_spec(key@, delta@, stored_view(stored)) == Err::<
            ChangeView,
            Error,
        >(e),
{
    if !valid_lmdb_key(key) {
        return Ok(Change::Keep);
    }
    match reconcile_postings(delta, stored) {
        Ok(Some(value)) => Ok(Change::Put(value)),
        Ok(None) => Ok(Change::Delete),
        Err(e) => Err(e),
    }
}

/// Decides what to do to one key of a database of single values.
pub fn value_change(key: &[u8], delta: &[u8]) -> (change: Result<Change, Error>)
    ensures
        change matches Ok(c) ==> value_change_spec(key@, delta@) == Ok::<ChangeView, Error>(c@),
        change matches Err(e) ==> value_change_spec(key@, delta@) == Err::<ChangeView, Error>(e),
{
    if !valid_lmdb_key(key) {
        return Ok(Change::Keep);
    }
    reconcile_value(delta)
}

/// The writes of a sequence of changes to the keys of `entries`, one change
/// per entry: a write for each change that is no `Keep`, in the order of the
/// entries.
pub open spec fn writes_of(keys: Seq<Seq<u8>>, changes: Seq<ChangeView>) -> Seq<WriteOpView>
    decreases changes.len(),
{
    if changes.len() == 0 || keys.len() != changes.len() {
        Seq::empty()
    } else {
        let before = writes_of(keys.drop_last(), changes.drop_last());
        match changes.last() {
            ChangeView::Keep => before,
            ChangeView::Put(value) => before.push(WriteOpView::Put { key: keys.last(), value }),
            ChangeView::Delete => before.push(WriteOpView::Delete { key: keys.last() }),
        }
    }
}

/// The stored values, as optional byte strings.
pub open spec fn stored_values_view(stored: Seq<Option<Vec<u8>>>) -> Seq<Option<Seq<u8>>> {
    stored.map_values(
        |value: Option<Vec<u8>>|
            match value {
                Some(bytes) => Some(bytes@),
                None => None,
            },
    )
}

/// The changes that a merged stream of deltas makes to a postings-shaped
/// database, one per entry; `stored[i]` is what the database holds under the
/// key of entry `i`. Fails with the failure of the first entry that fails.
pub open spec fn postings_changes_spec(
    entries: Seq<(Seq<u8>, Seq<u8>)>,
    stored: Seq<Option<Seq<u8>>>,
) -> Result<Seq<ChangeView>, Error>
    decreases entries.len(),
{
    if entries.len() == 0 || stored.len() != entries.len() {
        Ok(Seq::empty())
    } else {
        match postings_changes_spec(entries.drop_last(), stored.drop_last()) {
            Err(e) => Err(e),
            Ok(before) => match postings_change_spec(
                entries.last().0,
                entries.last().1,
                stored.last(),
            ) {
                Err(e) => Err(e),
                Ok(change) => Ok(before.push(change)),
            },
        }
    }
}

/// The changes that a merged stream of deltas makes to a database of single
/// values, one per entry. Fails with the failure of the first entry that
/// fails.
pub open spec fn value_changes_spec(entries: Seq<(Seq<u8>, Seq<u8>)>) -> Result<
    Seq<ChangeView>,
    Error,
>
    decreases entries.len(),
{
    if entries.len() == 0 {
        Ok(Seq::empty())
    } else {
        match value_changes_spec(entries.drop_last()) {
            Err(e) => Err(e),
            Ok(before) => match value_change_spec(entries.last().0, entries.last().1) {
                Err(e) => Err(e),
                Ok(change) => Ok(before.push(change)),
            },
        }
    }
}

/// Adds to `ops` the write that `change` asks for under `key`, if it asks
/// for one.
pub(crate) fn push_write(ops: &mut Vec<WriteOp>, key: &[u8], change: Change)
    ensures
        writes_view(final(ops)@) == (match change@ {
            ChangeView::Keep => writes_view(old(ops)@),
            ChangeView::Put(value) => writes_view(old(ops)@).push(
                WriteOpView::Put { key: key@, value },
            ),
            ChangeView::Delete => writes_view(old(ops)@).push(WriteOpView::Delete { key: key@ }),
        }),
{
    match change {
        Change::Keep => {},
        Change::Put(value) => {
            let op = WriteOp::Put { key: slice_to_vec(key), value };
            assert(writes_view(ops@.push(op)) =~= writes_view(ops@).push(op@));
            ops.push(op);
        },
        Change::Delete => {
            let op = WriteOp::Delete { key: slice_to_vec(key) };
            assert(writes_view(ops@.push(op)) =~= writes_view(ops@).push(op@));
            ops.push(op);
        },
    }
}

/// Writes a merged stream of deltas into a postings-shaped database:
/// reconciles each entry with the value that the database holds under its
/// key, `stored[i]` for entry `i`, and gives the writes to make, in key order.
/// Nothing is to be written if any entry fails.
pub fn write_entries_into_database(merged: &SortedRun, stored: &Vec<Option<Vec<u8>>>) -> (writes:
    Result<Vec<WriteOp>, Error>)
    requires
        stored@.len() == merged@.len(),
    ensures
        writes matches Ok(ops) ==> postings_changes_spec(merged@, stored_values_view(stored@))
            is Ok && writes_view(ops@) == writes_of(
            keys_of(merged@),
            postings_changes_spec(merged@, stored_values_view(stored@)).unwrap(),
        ),
        writes matches Err(e) ==> postings_changes_spec(merged@, stored_values_view(stored@))
            == Err::<Seq<ChangeView>, Error>(e),
{
    let ghost entries = merged@;
    let ghost held = stored_values_view(stored@);
    let mut ops: Vec<WriteOp> = Vec::new();
    let mut i: usize = 0;
    assert(writes_view(ops@) =~= Seq::<WriteOpView>::empty());
    while i < merged.len()
        invariant
            i <= merged@.len(),
            entries == merged@,
            held == stored_values_view(stored@),
            held.len() == entries.len(),
            postings_changes_spec(entries.take(i as int), held.take(i as int)) is Ok,
            writes_view(ops@) == writes_of(
                keys_of(entries.take(i as int)),
                postings_changes_spec(entries.take(i as int), held.take(i as int)).unwrap(),
            ),
        decreases merged@.len() - i,
    {
        let found: Option<&[u8]> = match &stored[i] {
            Some(bytes) => Some(bytes.as_slice()),
            None => None,
        };
        proof {
            assert(entries.take(i + 1).drop_last() =~= entries.take(i as int));
            assert(held.take(i + 1).drop_last() =~= held.take(i as int));
            assert(entries.take(i + 1).last() == entries[i as int]);
            assert(held.take(i + 1).last() == held[i as int]);
            assert(stored_view(found) == held[i as int]);
            assert(keys_of(entries.take(i + 1)).drop_last() =~= keys_of(entries.take(i as int)));
            assert(keys_of(entries.take(i + 1)).last() == entries[i as int].0);
        }
        match postings_change(merged.key(i), merged.value(i), found) {
            Ok(change) => {
                proof {
                    let all = postings_changes_spec(entries.take(i + 1), held.take(i + 1)).unwrap();
                    assert(all.drop_last() =~= postings_changes_spec(
                        entries.take(i as int),
                        held.take(i as int),
                    ).unwrap());
                    assert(all.last() == change@);
                    lemma_postings_changes_len(entries.take(i + 1), held.take(i + 1));
                }
                push_write(&mut ops, merged.key(i), change);
            },
            Err(e) => {
                proof {
                    lemma_postings_failure_stays(entries, held, i + 1);
                }
                return Err(e);
            },
        }
        i += 1;
    }
    proof {
        assert(entries.take(i as int) =~= entries);
        assert(held.take(i as int) =~= held);
    }
    Ok(ops)
}

/// There is one change per entry.
proof fn lemma_postings_changes_len(entries: Seq<(Seq<u8>, Seq<u8>)>, stored: Seq<Option<Seq<u8>>>)
    requires
        stored.len() == entries.len(),
        postings_changes_spec(entries, stored) is Ok,
    ensures
        postings_changes_spec(entries, stored).unwrap().len() == entries.len(),
    decreases entries.len(),
{
    if entries.len() > 0 {
        lemma_postings_changes_len(entries.drop_last(), stored.drop_last());
    }
}

/// There is one change per entry.
proof fn lemma_value_changes_len(entries: Seq<(Seq<u8>, Seq<u8>)>)
    requires
        value_changes_spec(entries) is Ok,
    ensures
        value_changes_spec(entries).unwrap().len() == entries.len(),
    decreases entries.len(),
{
    if entries.len() > 0 {
        lemma_value_changes_len(entries.drop_last());
    }
}

/// A stream that fails on its first `n` entries fails in the same way as a
/// whole.
proof fn lemma_postings_failure_stays(
    entries: Seq<(Seq<u8>, Seq<u8>)>,
    stored: Seq<Option<Seq<u8>>>,
    n: int,
)
    requires
        stored.len() == entries.len(),
        0 <= n <= entries.len(),
        postings_changes_spec(entries.take(n), stored.take(n)) is Err,
    ensures
        postings_changes_spec(entries, stored) == postings_changes_spec(
            entries.take(n),
            stored.take(n),
        ),
    decreases entries.len() - n,
{
    if n == entries.len() {
        assert(entries.take(n) =~= entries);
        assert(stored.take(n) =~= stored);
    } else {
        assert(entries.take(n + 1).drop_last() =~= entries.take(n));
        assert(stored.take(n + 1).drop_last() =~= stored.take(n));
        lemma_postings_failure_stays(entries, stored, n + 1);
    }
}

/// A stream that fails on its first `n` entries fails in the same way as a
/// whole.
proof fn lemma_value_failure_stays(entries: Seq<(Seq<u8>, Seq<u8>)>, n: int)
    requires
        0 <= n <= entries.len(),
        value_changes_spec(entries.take(n)) is Err,
    ensures
        value_changes_spec(entries) == value_changes_spec(entries.take(n)),
    decreases entries.len() - n,
{
    if n == entries.len() {
        assert(entries.take(n) =~= entries);
    } else {
        assert(entries.take(n + 1).drop_last() =~= entries.take(n));
        lemma_value_failure_stays(entries, n + 1);
    }
}

/// Writes a merged stream of deltas into a database of single values, such as
/// the facet values of the documents: gives the writes to make, in key order.
/// Nothing is to be written if any entry fails.
pub fn write_values_into_database(merged: &SortedRun) -> (writes: Result<Vec<WriteOp>, Error>)
    ensures
        writes matches Ok(ops) ==> value_changes_spec(merged@) is Ok && writes_view(ops@)
            == writes_of(keys_of(merged@), value_changes_spec(merged@).unwrap()),
        writes matches Err(e) ==> value_changes_spec(merged@) == Err::<Seq<ChangeView>, Error>(e),
{
    let ghost entries = merged@;
    let mut ops: Vec<WriteOp> = Vec::new();
    let mut i: usize = 0;
    assert(writes_view(ops@) =~= Seq::<WriteOpView>::empty());
    while i < merged.len()
        invariant
            i <= merged@.len(),
            entries == merged@,
            value_changes_spec(entries.take(i as int)) is Ok,
            writes_view(ops@) == writes_of(
                keys_of(entries.take(i as int)),
                value_changes_spec(entries.take(i as int)).unwrap(),
            ),
        decreases merged@.len() - i,
    {
        proof {
            assert(entries.take(i + 1).drop_last() =~= entries.take(i as int));
            assert(entries.take(i + 1).last() == entries[i as int]);
            assert(keys_of(entries.take(i + 1)).drop_last() =~= keys_of(entries.take(i as int)));
            assert(keys_of(entries.take(i + 1)).last() == entries[i as int].0);
        }
        match value_change(merged.key(i), merged.value(i)) {
            Ok(change) => {
                proof {
                    let all = value_changes_spec(entries.take(i + 1)).unwrap();
                    assert(all.drop_last() =~= value_changes_spec(entries.take(i as int)).unwrap());
                    assert(all.last() == change@);
                    lemma_value_changes_len(entries.take(i + 1));
                }
                push_write(&mut ops, merged.key(i), change);
            },
            Err(e) => {
                proof {
                    lemma_value_failure_stays(entries, i + 1);
                }
                return Err(e);
            },
        }
        i += 1;
    }
    proof {
        assert(entries.take(i as int) =~= entries);
    }
    Ok(ops)
}

} // verus!

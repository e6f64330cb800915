//! Committing raw documents: the merged records of a batch become writes to
//! the documents table, operations on the index of external ids, and a new
//! set of document ids.

use vstd::prelude::*;
use vstd::slice::slice_subrange;
use vstd::string::StringExecFns;
use vstd::utf8::{decode_utf8, encode_utf8_decode_utf8, valid_utf8};

use crate::be::{push_u32_be, read_u32_be, u32_from_be, u32_to_be};
use crate::del_add::{decode_delta_spec, DeltaValue};
use crate::docids::DocIds;
use crate::error::Error;
use crate::helpers::str_from_utf8;
use crate::reconcile::{WriteOp, WriteOpView};
use crate::record::{decode_record, decode_record_spec, encode_fields, encode_fields_spec, fields_view, Field};
use crate::sorted_run::SortedRun;

verus! {

/// What happens to a document in the index of external ids.
#[derive(Clone, Copy, Debug, PartialEq, Eq, Structural)]
pub enum DocumentOperationKind {
    Create,
    Delete,
}

/// An operation on the index of external ids.
#[derive(Debug, PartialEq, Eq)]
pub struct DocumentOperation {
    pub external_id: String,
    pub internal_id: u32,
    pub kind: DocumentOperationKind,
}

/// What the commit makes of one merged record: the document is written with
/// the record `record`, or removed where there is none.
#[derive(Debug, PartialEq, Eq)]
pub struct DocumentChange {
    pub internal_id: u32,
    pub external_id: String,
    pub record: Option<Vec<u8>>,
}

/// A document change as mathematics sees it.
pub struct DocumentChangeView {
    pub internal_id: u32,
    pub external_id: Seq<char>,
    pub record: Option<Seq<u8>>,
}

impl View for DocumentChange {
    type V = DocumentChangeView;

    open spec fn view(&self) -> DocumentChangeView {
        DocumentChangeView {
            internal_id: self.internal_id,
            external_id: self.external_id@,
            record: match self.record {
                Some(bytes) => Some(bytes@),
                None => None,
            },
        }
    }
}

/// The addition sides of the fields of a merged record, each under the id of
/// its field; fields without one are left out. Nothing where the value of a
/// field is no delta.
pub open spec fn additions_of(fields: Seq<(u16, Seq<u8>)>) -> Option<Seq<(u16, Seq<u8>)>>
    decreases fields.len(),
{
    if fields.len() == 0 {
        Some(Seq::empty())
    } else {
        match (additions_of(fields.drop_last()), decode_delta_spec(fields.last().1)) {
            (Some(before), Some(delta)) => match delta.addition {
                Some(added) => Some(before.push((fields.last().0, added))),
                None => Some(before),
            },
            _ => None,
        }
    }
}

/// What the commit makes of the merged record `value` under `key`. The key
/// is the internal id, four bytes big-endian, and the external id after it;
/// the value is a record whose fields hold deltas. The document is written
/// with the addition sides of its fields, or removed where no field has one.
pub open spec fn document_change_spec(key: Seq<u8>, value: Seq<u8>) -> Result<
    DocumentChangeView,
    Error,
> {
    if key.len() < 4 || !valid_utf8(key.skip(4)) {
        Err(Error::Decoding)
    } else {
        match decode_record_spec(value) {
            None => Err(Error::Decoding),
            Some(fields) => match additions_of(fields) {
                None => Err(Error::Decoding),
                Some(added) => Ok(
                    DocumentChangeView {
                        internal_id: u32_from_be(key.subrange(0, 4)),
                        external_id: decode_utf8(key.skip(4)),
                        record: if added.len() == 0 {
                            None
                        } else {
                            Some(encode_fields_spec(added))
                        },
                    },
                ),
            },
        }
    }
}

/// A list of fields that holds no delta among its first `n` holds none as a
/// whole.
proof fn lemma_additions_fail(fields: Seq<(u16, Seq<u8>)>, n: int)
    requires
        0 <= n <= fields.len(),
        additions_of(fields.take(n)) is None,
    ensures
        additions_of(fields) is None,
    decreases fields.len() - n,
{
    if n == fields.len() {
        assert(fields.take(n) =~= fields);
    } else {
        assert(fields.take(n + 1).drop_last() =~= fields.take(n));
        lemma_additions_fail(fields, n + 1);
    }
}

/// Decides what the commit does with one merged record.
pub fn document_change(key: &[u8], value: &[u8]) -> (change: Result<DocumentChange, Error>)
    ensures
        change matches Ok(c) ==> document_change_spec(key@, value@) == Ok::<
            DocumentChangeView,
            Error,
        >(c@),
        change matches Err(e) ==> document_change_spec(key@, value@) == Err::<
            DocumentChangeView,
            Error,
        >(e),
{
    if key.len() < 4 {
        return Err(Error::Decoding);
    }
    let internal_id = read_u32_be(key, 0);
    let external_id = match str_from_utf8(slice_subrange(key, 4, key.len())) {
        Some(text) => text,
        None => {
            assert(key@.subrange(4, key@.len() as int) =~= key@.skip(4));
            return Err(Error::Decoding);
        },
    };
    proof {
        assert(key@.subrange(4, key@.len() as int) =~= key@.skip(4));
        encode_utf8_decode_utf8(external_id@);
    }
    let fields = match decode_record(value) {
        Ok(fields) => fields,
        Err(e) => {
            return Err(e);
        },
    };
    let ghost all = fields_view(fields@);
    let mut added: Vec<Field> = Vec::new();
    let mut i: usize = 0;
    proof {
        assert(all.take(0) =~= Seq::<(u16, Seq<u8>)>::empty());
        assert(fields_view(added@) =~= Seq::<(u16, Seq<u8>)>::empty());
    }
    while i < fields.len()
        invariant
            i <= fields@.len(),
            all == fields_view(fields@),
            key@.len() >= 4,
            valid_utf8(key@.skip(4)),
            decode_record_spec(value@) == Some(all),
            additions_of(all.take(i as int)) == Some(fields_view(added@)),
        decreases fields@.len() - i,
    {
        proof {
            assert(all.take(i + 1).drop_last() =~= all.take(i as int));
            assert(all.take(i + 1).last() == all[i as int]);
        }
        let delta = match DeltaValue::decode(fields[i].value.as_slice()) {
            Ok(delta) => delta,
            Err(e) => {
                proof {
                    lemma_additions_fail(all, i + 1);
                }
                return Err(e);
            },
        };
        match delta.addition {
            Some(addition) => {
                let field = Field { id: fields[i].id, value: addition };
                assert(fields_view(added@.push(field)) =~= fields_view(added@).push(field@));
                added.push(field);
            },
            None => {},
        }
        i += 1;
    }
    proof {
        assert(all.take(i as int) =~= all);
    }
    let record = if added.len() == 0 {
        None
    } else {
        Some(encode_fields(&added))
    };
    Ok(DocumentChange { internal_id, external_id: String::from_str(external_id), record })
}

/// The write to the documents table that a change asks for.
pub open spec fn document_write(change: DocumentChangeView) -> WriteOpView {
    match change.record {
        Some(record) => WriteOpView::Put { key: u32_to_be(change.internal_id), value: record },
        None => WriteOpView::Delete { key: u32_to_be(change.internal_id) },
    }
}

/// The kind of operation on the index of external ids that a change asks
/// for.
pub open spec fn operation_kind(change: DocumentChangeView) -> DocumentOperationKind {
    if change.record is Some {
        DocumentOperationKind::Create
    } else {
        DocumentOperationKind::Delete
    }
}

/// The set of document ids after a change.
pub open spec fn docids_after_change(docids: Set<u32>, change: DocumentChangeView) -> Set<u32> {
    if change.record is Some {
        docids.insert(change.internal_id)
    } else {
        docids.remove(change.internal_id)
    }
}

/// The set of document ids after a sequence of changes.
pub open spec fn docids_after(docids: Set<u32>, changes: Seq<DocumentChangeView>) -> Set<u32>
    decreases changes.len(),
{
    if changes.len() == 0 {
        docids
    } else {
        docids_after_change(docids_after(docids, changes.drop_last()), changes.last())
    }
}

/// The changes that the merged records of a batch ask for, one per record.
/// Fails with the failure of the first record that fails.
pub open spec fn document_changes_spec(entries: Seq<(Seq<u8>, Seq<u8>)>) -> Result<
    Seq<DocumentChangeView>,
    Error,
>
    decreases entries.len(),
{
    if entries.len() == 0 {
        Ok(Seq::empty())
    } else {
        match document_changes_spec(entries.drop_last()) {
            Err(e) => Err(e),
            Ok(before) => match document_change_spec(entries.last().0, entries.last().1) {
                Err(e) => Err(e),
                Ok(change) => Ok(before.push(change)),
            },
        }
    }
}

/// What the commit of the documents of a batch does.
pub struct DocumentsPlan {
    /// The writes to the documents table, one per record, in key order.
    pub writes: Vec<WriteOp>,
    /// The operations on the index of external ids, one per record.
    pub operations: Vec<DocumentOperation>,
    /// The ids of the documents of the index after the commit.
    pub docids: DocIds,
}

/// The operation on the index of external ids, as mathematics sees it.
pub open spec fn operation_view(operation: DocumentOperation) -> (
    Seq<char>,
    u32,
    DocumentOperationKind,
) {
    (operation.external_id@, operation.internal_id, operation.kind)
}

/// Whether the plan is what the changes ask for.
pub open spec fn plan_matches(
    plan: DocumentsPlan,
    docids: Set<u32>,
    changes: Seq<DocumentChangeView>,
) -> bool {
    &&& plan.writes@.len() == changes.len()
    &&& plan.operations@.len() == changes.len()
    &&& forall|i: int|
        0 <= i < changes.len() ==> (#[trigger] plan.writes@[i])@ == document_write(changes[i])
    &&& forall|i: int|
        0 <= i < changes.len() ==> operation_view(#[trigger] plan.operations@[i]) == (
            changes[i].external_id,
            changes[i].internal_id,
            operation_kind(changes[i]),
        )
    &&& plan.docids@ == docids_after(docids, changes)
}

/// A batch that fails on its first `n` records fails in the same way as a
/// whole.
proof fn lemma_documents_failure_stays(entries: Seq<(Seq<u8>, Seq<u8>)>, n: int)
    requires
        0 <= n <= entries.len(),
        document_changes_spec(entries.take(n)) is Err,
    ensures
        document_changes_spec(entries) == document_changes_spec(entries.take(n)),
    decreases entries.len() - n,
{
    if n == entries.len() {
        assert(entries.take(n) =~= entries);
    } else {
        assert(entries.take(n + 1).drop_last() =~= entries.take(n));
        lemma_documents_failure_stays(entries, n + 1);
    }
}

/// Commits the documents of a batch, merged so that the latest record of a
/// document wins. A record with an addition on any field is written, its
/// document created in the index of external ids and its id added to the
/// ids of the index; a record without is removed from all three. Nothing is
/// to be written if any record fails.
pub fn write_documents(merged: &SortedRun, docids: DocIds) -> (plan: Result<DocumentsPlan, Error>)
    ensures
        plan matches Ok(p) ==> document_changes_spec(merged@) is Ok && plan_matches(
            p,
            docids@,
            document_changes_spec(merged@).unwrap(),
        ),
        plan matches Err(e) ==> document_changes_spec(merged@) == Err::<
            Seq<DocumentChangeView>,
            Error,
        >(e),
{
    let ghost entries = merged@;
    let ghost start = docids@;
    let mut plan = DocumentsPlan { writes: Vec::new(), operations: Vec::new(), docids };
    let mut i: usize = 0;
    while i < merged.len()
        invariant
            i <= merged@.len(),
            entries == merged@,
            document_changes_spec(entries.take(i as int)) is Ok,
            plan_matches(plan, start, document_changes_spec(entries.take(i as int)).unwrap()),
        decreases merged@.len() - i,
    {
        proof {
            assert(entries.take(i + 1).drop_last() =~= entries.take(i as int));
            assert(entries.take(i + 1).last() == entries[i as int]);
        }
        let change = match document_change(merged.key(i), merged.value(i)) {
            Ok(change) => change,
            Err(e) => {
                proof {
                    lemma_documents_failure_stays(entries, i + 1);
                }
                return Err(e);
            },
        };
        let ghost before = document_changes_spec(entries.take(i as int)).unwrap();
        let ghost after = document_changes_spec(entries.take(i + 1)).unwrap();
        let ghost old_plan = plan;
        let mut key: Vec<u8> = Vec::new();
        push_u32_be(&mut key, change.internal_id);
        assert(key@ =~= u32_to_be(change.internal_id));
        let kind = match change.record {
            Some(record) => {
                plan.writes.push(WriteOp::Put { key, value: record });
                plan.docids.insert(change.internal_id);
                DocumentOperationKind::Create
            },
            None => {
                plan.writes.push(WriteOp::Delete { key });
                plan.docids.remove(change.internal_id);
                DocumentOperationKind::Delete
            },
        };
        plan.operations.push(
            DocumentOperation {
                external_id: change.external_id,
                internal_id: change.internal_id,
                kind,
            },
        );
        proof {
            assert(after == before.push(change@));
            assert(after.drop_last() =~= before);
            assert forall|k: int| 0 <= k < after.len() implies (#[trigger] plan.writes@[k])@
                == document_write(after[k]) by {
                if k < before.len() {
                    assert(plan.writes@[k] == old_plan.writes@[k]);
                }
            }
            assert forall|k: int| 0 <= k < after.len() implies operation_view(
                #[trigger] plan.operations@[k],
            ) == (after[k].external_id, after[k].internal_id, operation_kind(after[k])) by {
                if k < before.len() {
                    assert(plan.operations@[k] == old_plan.operations@[k]);
                }
            }
        }
        i += 1;
    }
    proof {
        assert(entries.take(i as int) =~= entries);
    }
    Ok(plan)
}

} // verus!

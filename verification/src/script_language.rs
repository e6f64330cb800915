//! Committing the documents of each pair of script and language.

use vstd::prelude::*;

use crate::be::{push_u16_be, u16_to_be};
use crate::docids::DocIds;
use crate::error::Error;
use crate::postings::{decode_docids, decode_docids_spec, encode_docids, encode_docids_spec};
use crate::reconcile::{stored_view, Change, ChangeView};
use crate::typed_chunk::ScriptLanguageDelta;

verus! {

/// The key of a pair of script and language in the store: the script, then
/// the language, two bytes big-endian each.
pub open spec fn script_language_key_spec(script: u16, language: u16) -> Seq<u8> {
    u16_to_be(script) + u16_to_be(language)
}

/// Writes the key of a pair of script and language.
pub fn script_language_key(script: u16, language: u16) -> (key: Vec<u8>)
    ensures
        key@ == script_language_key_spec(script, language),
{
    let mut key: Vec<u8> = Vec::new();
    push_u16_be(&mut key, script);
    push_u16_be(&mut key, language);
    assert(key@ =~= script_language_key_spec(script, language));
    key
}

/// What the store holds for a pair of script and language after a batch:
/// what it held, without the deletion and with the addition, or the addition
/// alone where it held nothing. An empty result removes the pair if the store
/// held it, and changes nothing if not.
pub open spec fn script_language_spec(
    stored: Option<Seq<u8>>,
    deletion: Set<u32>,
    addition: Set<u32>,
) -> Result<ChangeView, Error> {
    match stored {
        None => if addition == Set::<u32>::empty() {
            Ok(ChangeView::Keep)
        } else {
            Ok(ChangeView::Put(encode_docids_spec(addition)))
        },
        Some(bytes) => match decode_docids_spec(bytes) {
            None => Err(Error::Decoding),
            Some(held) => if held.difference(deletion).union(addition) == Set::<u32>::empty() {
                Ok(ChangeView::Delete)
            } else {
                Ok(ChangeView::Put(encode_docids_spec(held.difference(deletion).union(addition))))
            },
        },
    }
}

/// Decides what to do to one pair of script and language, given what the
/// store holds for it.
pub fn script_language_change(stored: Option<&[u8]>, deletion: &DocIds, addition: &DocIds) -> (change:
    Result<Change, Error>)
    ensures
        change matches Ok(c) ==> script_language_spec(stored_view(stored), deletion@, addition@)
            == Ok::<ChangeView, Error>(c@),
        change matches Err(e) ==> script_language_spec(stored_view(stored), deletion@, addition@)
            == Err::<ChangeView, Error>(e),
{
    match stored {
        None => {
            if addition.is_empty() {
                Ok(Change::Keep)
            } else {
                Ok(Change::Put(encode_docids(addition)))
            }
        },
        Some(bytes) => {
            let held = match decode_docids(bytes) {
                Ok(held) => held,
                Err(e) => {
                    return Err(e);
                },
            };
            let after = held.difference(deletion).union(addition);
            if after.is_empty() {
                Ok(Change::Delete)
            } else {
                Ok(Change::Put(encode_docids(&after)))
            }
        },
    }
}

/// What a sequence of batches found for one pair of script and language,
/// taken together: the documents that no longer are in the pair, and those
/// that now are. A later batch takes out what an earlier one put in.
pub open spec fn combined_for(entries: Seq<ScriptLanguageDelta>, script: u16, language: u16) -> (
    Set<u32>,
    Set<u32>,
)
    decreases entries.len(),
{
    if entries.len() == 0 {
        (Set::empty(), Set::empty())
    } else {
        let before = combined_for(entries.drop_last(), script, language);
        let last = entries.last();
        if last.script == script && last.language == language {
            (before.0.union(last.deletion@), before.1.difference(last.deletion@).union(last.addition@))
        } else {
            before
        }
    }
}

/// Whether any of the entries is about the pair.
pub open spec fn mentions(entries: Seq<ScriptLanguageDelta>, script: u16, language: u16) -> bool {
    exists|i: int|
        0 <= i < entries.len() && (#[trigger] entries[i]).script == script && entries[i].language
            == language
}

/// No pair stands twice.
pub open spec fn pairs_distinct(entries: Seq<ScriptLanguageDelta>) -> bool {
    forall|i: int, j: int|
        0 <= i < j < entries.len() ==> !((#[trigger] entries[i]).script == (
        #[trigger] entries[j]).script && entries[i].language == entries[j].language)
}

/// `combined` says of each pair what `entries` say of it taken together, and
/// names each pair once.
pub open spec fn combines(combined: Seq<ScriptLanguageDelta>, entries: Seq<ScriptLanguageDelta>) -> bool {
    &&& pairs_distinct(combined)
    &&& forall|i: int|
        0 <= i < combined.len() ==> mentions(
            entries,
            (#[trigger] combined[i]).script,
            combined[i].language,
        ) && (combined[i].deletion@, combined[i].addition@) == combined_for(
            entries,
            combined[i].script,
            combined[i].language,
        )
    &&& forall|script: u16, language: u16| #[trigger]
        mentions(entries, script, language) ==> mentions(combined, script, language)
}

/// Applying what two batches found one after the other is applying what they
/// found taken together.
pub proof fn lemma_combined_applies(
    held: Set<u32>,
    first_deletion: Set<u32>,
    first_addition: Set<u32>,
    deletion: Set<u32>,
    addition: Set<u32>,
)
    ensures
        held.difference(first_deletion).union(first_addition).difference(deletion).union(addition)
            == held.difference(first_deletion.union(deletion)).union(
            first_addition.difference(deletion).union(addition),
        ),
{
    assert(held.difference(first_deletion).union(first_addition).difference(deletion).union(
        addition,
    ) =~= held.difference(first_deletion.union(deletion)).union(
        first_addition.difference(deletion).union(addition),
    ));
}

/// Takes together what the batches of a group found for each pair of script
/// and language, so that each pair is reconciled with the store once.
pub fn combine_script_languages(entries: Vec<ScriptLanguageDelta>) -> (combined: Vec<
    ScriptLanguageDelta,
>)
    ensures
        combines(combined@, entries@),
{
    let ghost all = entries@;
    let mut entries = entries;
    let mut combined: Vec<ScriptLanguageDelta> = Vec::new();
    let ghost mut taken: int = 0;
    proof {
        assert(all.take(0) =~= Seq::<ScriptLanguageDelta>::empty());
        assert(all.skip(0) =~= all);
    }
    while entries.len() > 0
        invariant
            0 <= taken <= all.len(),
            entries@ == all.skip(taken),
            combines(combined@, all.take(taken)),
        decreases entries@.len(),
    {
        let entry = entries.remove(0);
        let ghost seen = all.take(taken);
        let ghost next = all.take(taken + 1);
        let ghost before = combined@;
        proof {
            assert(entry == all[taken]);
            assert(next.drop_last() =~= seen);
            assert(next.last() == entry);
            assert(entries@ =~= all.skip(taken + 1));
        }
        let mut at: usize = 0;
        while at < combined.len()
            invariant
                at <= combined@.len(),
                forall|k: int|
                    0 <= k < at ==> !((#[trigger] combined@[k]).script == entry.script
                        && combined@[k].language == entry.language),
            ensures
                at <= combined@.len(),
                forall|k: int|
                    0 <= k < at ==> !((#[trigger] combined@[k]).script == entry.script
                        && combined@[k].language == entry.language),
                at < combined@.len() ==> combined@[at as int].script == entry.script
                    && combined@[at as int].language == entry.language,
            decreases combined@.len() - at,
        {
            if combined[at].script == entry.script && combined[at].language == entry.language {
                break ;
            }
            at += 1;
        }
        if at < combined.len() {
            let found = combined.remove(at);
            let merged = ScriptLanguageDelta {
                script: entry.script,
                language: entry.language,
                deletion: found.deletion.union(&entry.deletion),
                addition: found.addition.difference(&entry.deletion).union(&entry.addition),
            };
            combined.insert(at, merged);
            proof {
                assert(combined@ =~= before.update(at as int, merged));
                lemma_combines_update(before, seen, next, at as int, merged);
            }
        } else {
            proof {
                lemma_combines_push(before, seen, next, entry);
            }
            combined.push(entry);
        }
        proof {
            taken = taken + 1;
        }
    }
    proof {
        assert(all.take(taken) =~= all);
    }
    combined
}

/// An entry about a pair that was seen before changes what is said of that
/// pair, and of no other.
proof fn lemma_combines_update(
    before: Seq<ScriptLanguageDelta>,
    seen: Seq<ScriptLanguageDelta>,
    next: Seq<ScriptLanguageDelta>,
    at: int,
    merged: ScriptLanguageDelta,
)
    requires
        combines(before, seen),
        next.len() == seen.len() + 1,
        next.drop_last() == seen,
        0 <= at < before.len(),
        before[at].script == next.last().script,
        before[at].language == next.last().language,
        merged.script == next.last().script,
        merged.language == next.last().language,
        merged.deletion@ == before[at].deletion@.union(next.last().deletion@),
        merged.addition@ == before[at].addition@.difference(next.last().deletion@).union(
            next.last().addition@,
        ),
    ensures
        combines(before.update(at, merged), next),
{
    let after = before.update(at, merged);
    let entry = next.last();
    assert forall|i: int, j: int| 0 <= i < j < after.len() implies !((
    #[trigger] after[i]).script == (#[trigger] after[j]).script && after[i].language
        == after[j].language) by {
        assert(!(before[i].script == before[j].script && before[i].language
            == before[j].language));
    }
    assert forall|i: int| 0 <= i < after.len() implies mentions(
        next,
        (#[trigger] after[i]).script,
        after[i].language,
    ) && (after[i].deletion@, after[i].addition@) == combined_for(
        next,
        after[i].script,
        after[i].language,
    ) by {
        if i == at {
            assert(next[next.len() - 1] == entry);
        } else {
            assert(mentions(seen, before[i].script, before[i].language));
            let k = choose|k: int|
                0 <= k < seen.len() && (#[trigger] seen[k]).script == before[i].script
                    && seen[k].language == before[i].language;
            assert(next[k] == seen[k]);
            if i < at {
                assert(!(before[i].script == before[at].script && before[i].language
                    == before[at].language));
            } else {
                assert(!(before[at].script == before[i].script && before[at].language
                    == before[i].language));
            }
        }
    }
    assert forall|script: u16, language: u16| #[trigger]
        mentions(next, script, language) implies mentions(after, script, language) by {
        let k = choose|k: int|
            0 <= k < next.len() && (#[trigger] next[k]).script == script && next[k].language
                == language;
        if k < seen.len() {
            assert(seen[k] == next[k]);
            assert(mentions(seen, script, language));
            let i = choose|i: int|
                0 <= i < before.len() && (#[trigger] before[i]).script == script
                    && before[i].language == language;
            assert(after[i].script == script && after[i].language == language);
        } else {
            assert(after[at].script == script && after[at].language == language);
        }
    }
}

/// An entry about a pair that was not seen before adds what it says of that
/// pair.
proof fn lemma_combines_push(
    before: Seq<ScriptLanguageDelta>,
    seen: Seq<ScriptLanguageDelta>,
    next: Seq<ScriptLanguageDelta>,
    entry: ScriptLanguageDelta,
)
    requires
        combines(before, seen),
        next.len() == seen.len() + 1,
        next.drop_last() == seen,
        next.last() == entry,
        forall|k: int|
            0 <= k < before.len() ==> !((#[trigger] before[k]).script == entry.script
                && before[k].language == entry.language),
    ensures
        combines(before.push(entry), next),
{
    let after = before.push(entry);
    lemma_not_mentioned(seen, entry.script, entry.language);
    if mentions(seen, entry.script, entry.language) {
        assert(mentions(before, entry.script, entry.language));
        let i = choose|i: int|
            0 <= i < before.len() && (#[trigger] before[i]).script == entry.script
                && before[i].language == entry.language;
        assert(false);
    }
    assert forall|i: int| 0 <= i < after.len() implies mentions(
        next,
        (#[trigger] after[i]).script,
        after[i].language,
    ) && (after[i].deletion@, after[i].addition@) == combined_for(
        next,
        after[i].script,
        after[i].language,
    ) by {
        if i == before.len() {
            assert(next[next.len() - 1] == entry);
            assert(combined_for(seen, entry.script, entry.language).0 =~= Set::<u32>::empty());
            assert(combined_for(seen, entry.script, entry.language).1 =~= Set::<u32>::empty());
            assert(Set::<u32>::empty().union(entry.deletion@) =~= entry.deletion@);
            assert(Set::<u32>::empty().difference(entry.deletion@).union(entry.addition@)
                =~= entry.addition@);
        } else {
            assert(mentions(seen, before[i].script, before[i].language));
            let k = choose|k: int|
                0 <= k < seen.len() && (#[trigger] seen[k]).script == before[i].script
                    && seen[k].language == before[i].language;
            assert(next[k] == seen[k]);
        }
    }
    assert forall|script: u16, language: u16| #[trigger]
        mentions(next, script, language) implies mentions(after, script, language) by {
        let k = choose|k: int|
            0 <= k < next.len() && (#[trigger] next[k]).script == script && next[k].language
                == language;
        if k < seen.len() {
            assert(seen[k] == next[k]);
            assert(mentions(seen, script, language));
            let i = choose|i: int|
                0 <= i < before.len() && (#[trigger] before[i]).script == script
                    && before[i].language == language;
            assert(after[i].script == script && after[i].language == language);
        } else {
            assert(after[before.len() as int].script == script);
        }
    }
}

/// Entries that do not mention a pair say nothing of it.
proof fn lemma_not_mentioned(entries: Seq<ScriptLanguageDelta>, script: u16, language: u16)
    requires
        !mentions(entries, script, language),
    ensures
        combined_for(entries, script, language) == (Set::<u32>::empty(), Set::<u32>::empty()),
    decreases entries.len(),
{
    if entries.len() > 0 {
        assert(entries[entries.len() - 1] == entries.last());
        assert forall|i: int| 0 <= i < entries.drop_last().len() implies !((
        #[trigger] entries.drop_last()[i]).script == script && entries.drop_last()[i].language
            == language) by {
            assert(entries[i] == entries.drop_last()[i]);
        }
        lemma_not_mentioned(entries.drop_last(), script, language);
    }
}

} // verus!

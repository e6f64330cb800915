//! The embeddings of one document in the slots of a multi-vector field.
//!
//! A field keeps one vector sub-index per slot. The embeddings of a document
//! fill the lowest slots without a gap: readers stop at the first free slot.

use vstd::prelude::*;
use vstd::slice::slice_to_vec;

use crate::lex::{compare_keys, KeyOrder};

verus! {

/// The number of slots, one per vector sub-index of an embedder.
pub const SLOT_COUNT: usize = 256;

/// The most embeddings that one document may bring in one go.
pub const MAX_EMBEDDINGS: usize = 255;

/// The slots that hold `vectors` in the lowest places.
pub open spec fn slots_of(vectors: Seq<Seq<u8>>) -> Seq<Option<Seq<u8>>> {
    Seq::new(
        SLOT_COUNT as nat,
        |i: int|
            if i < vectors.len() {
                Some(vectors[i])
            } else {
                None
            },
    )
}

/// The occupied slots form a contiguous prefix: no free slot stands before an
/// occupied one.
pub open spec fn packed(slots: Seq<Option<Seq<u8>>>) -> bool {
    forall|i: int, j: int| 0 <= i < j < slots.len() && slots[j] is Some ==> slots[i] is Some
}

/// The number of occupied slots before the first free one.
pub open spec fn occupied(slots: Seq<Option<Seq<u8>>>) -> nat
    decreases slots.len(),
{
    if slots.len() == 0 || slots[0] is None {
        0
    } else {
        1 + occupied(slots.drop_first())
    }
}

/// The vectors in the slots before the first free one.
pub open spec fn vectors_of(slots: Seq<Option<Seq<u8>>>) -> Seq<Seq<u8>> {
    Seq::new(occupied(slots), |i: int| slots[i].unwrap())
}

/// The place of the first vector equal to `vector`, or the number of vectors
/// if there is none.
pub open spec fn position(vectors: Seq<Seq<u8>>, vector: Seq<u8>) -> int
    decreases vectors.len(),
{
    if vectors.len() == 0 || vectors[0] == vector {
        0
    } else {
        1 + position(vectors.drop_first(), vector)
    }
}

/// The vectors without the one at `at`: the last vector takes its place,
/// unless it is the last itself.
pub open spec fn swap_remove(vectors: Seq<Seq<u8>>, at: int) -> Seq<Seq<u8>>
    recommends
        0 <= at < vectors.len(),
{
    if at == vectors.len() - 1 {
        vectors.drop_last()
    } else {
        vectors.update(at, vectors.last()).drop_last()
    }
}

/// The vectors without any vector equal to `vector`: as long as there is one,
/// the first of them is removed and the last vector moved into its place.
pub open spec fn without(vectors: Seq<Seq<u8>>, vector: Seq<u8>) -> Seq<Seq<u8>>
    decreases vectors.len(),
{
    if 0 <= position(vectors, vector) < vectors.len() {
        without(swap_remove(vectors, position(vectors, vector)), vector)
    } else {
        vectors
    }
}

/// The vectors after new embeddings were written over the first of them.
pub open spec fn overwritten(vectors: Seq<Seq<u8>>, embeddings: Seq<Seq<u8>>) -> Seq<Seq<u8>> {
    if embeddings.len() >= vectors.len() {
        embeddings
    } else {
        embeddings + vectors.skip(embeddings.len() as int)
    }
}

/// One operation on the embeddings of a document.
pub enum VectorOp {
    /// Every embedding of the document is removed.
    RemoveAll,
    /// The embeddings that an embedder generated are written into the lowest
    /// slots.
    SetEmbeddings(Vec<Vec<u8>>),
    /// Each embedding equal to the vector is removed.
    Delete(Vec<u8>),
    /// The vector is written into the first free slot.
    Add(Vec<u8>),
}

/// An operation as mathematics sees it.
pub enum VectorOpView {
    RemoveAll,
    SetEmbeddings(Seq<Seq<u8>>),
    Delete(Seq<u8>),
    Add(Seq<u8>),
}

/// The byte strings of a vector of vectors.
pub open spec fn vectors_view(vectors: Seq<Vec<u8>>) -> Seq<Seq<u8>> {
    vectors.map_values(|vector: Vec<u8>| vector@)
}

impl View for VectorOp {
    type V = VectorOpView;

    open spec fn view(&self) -> VectorOpView {
        match self {
            VectorOp::RemoveAll => VectorOpView::RemoveAll,
            VectorOp::SetEmbeddings(embeddings) => VectorOpView::SetEmbeddings(
                vectors_view(embeddings@),
            ),
            VectorOp::Delete(vector) => VectorOpView::Delete(vector@),
            VectorOp::Add(vector) => VectorOpView::Add(vector@),
        }
    }
}

/// Whether the operation is refused: a document brings more embeddings than
/// it may.
pub open spec fn refused(op: VectorOpView) -> bool {
    op matches VectorOpView::SetEmbeddings(embeddings) && embeddings.len() > MAX_EMBEDDINGS
}

/// The vectors of a document after one operation. A refused operation and an
/// addition to a document whose slots are all taken change nothing.
pub open spec fn apply_spec(vectors: Seq<Seq<u8>>, op: VectorOpView) -> Seq<Seq<u8>> {
    match op {
        VectorOpView::RemoveAll => Seq::empty(),
        VectorOpView::SetEmbeddings(embeddings) => if embeddings.len() > MAX_EMBEDDINGS {
            vectors
        } else {
            overwritten(vectors, embeddings)
        },
        VectorOpView::Delete(vector) => without(vectors, vector),
        VectorOpView::Add(vector) => if vectors.len() < SLOT_COUNT {
            vectors.push(vector)
        } else {
            vectors
        },
    }
}

/// The vectors of a document after a sequence of operations.
pub open spec fn apply_all_spec(vectors: Seq<Seq<u8>>, ops: Seq<VectorOpView>) -> Seq<Seq<u8>>
    decreases ops.len(),
{
    if ops.len() == 0 {
        vectors
    } else {
        apply_spec(apply_all_spec(vectors, ops.drop_last()), ops.last())
    }
}

/// The first free slot is a slot or stands just behind them, every slot
/// before it is occupied, and it is free.
pub proof fn lemma_occupied(slots: Seq<Option<Seq<u8>>>)
    ensures
        occupied(slots) <= slots.len(),
        forall|i: int| 0 <= i < occupied(slots) ==> (#[trigger] slots[i]) is Some,
        occupied(slots) < slots.len() ==> slots[occupied(slots) as int] is None,
    decreases slots.len(),
{
    if slots.len() > 0 && slots[0] is Some {
        let rest = slots.drop_first();
        lemma_occupied(rest);
        assert forall|i: int| 0 <= i < occupied(slots) implies (#[trigger] slots[i]) is Some by {
            if i > 0 {
                assert(rest[i - 1] == slots[i]);
            }
        }
        if occupied(slots) < slots.len() {
            assert(rest[occupied(rest) as int] == slots[occupied(slots) as int]);
        }
    }
}

/// Packed slots are the slots of their vectors.
pub proof fn lemma_packed_slots(slots: Seq<Option<Seq<u8>>>)
    requires
        slots.len() == SLOT_COUNT,
        packed(slots),
    ensures
        vectors_of(slots).len() <= SLOT_COUNT,
        slots == slots_of(vectors_of(slots)),
{
    lemma_occupied(slots);
    let n = occupied(slots) as int;
    assert forall|i: int| 0 <= i < slots.len() implies slots[i] == slots_of(vectors_of(slots))[i] by {
        if i >= n && slots[i] is Some {
            if i > n {
                assert(slots[n] is Some);
            }
        }
    }
    assert(slots =~= slots_of(vectors_of(slots)));
}

/// The slots of at most as many vectors as there are slots are packed, and
/// hold those vectors.
pub proof fn lemma_slots_of(vectors: Seq<Seq<u8>>)
    requires
        vectors.len() <= SLOT_COUNT,
    ensures
        slots_of(vectors).len() == SLOT_COUNT,
        packed(slots_of(vectors)),
        occupied(slots_of(vectors)) == vectors.len(),
        vectors_of(slots_of(vectors)) == vectors,
{
    let slots = slots_of(vectors);
    lemma_occupied(slots);
    let n = occupied(slots) as int;
    if n < vectors.len() {
        assert(slots[n] is None);
    }
    if n > vectors.len() {
        assert(slots[vectors.len() as int] is Some);
    }
    assert(vectors_of(slots) =~= vectors);
}

/// The place of the first equal vector is a place among the vectors or just
/// behind them, no vector before it is equal, and the vector at it is.
pub proof fn lemma_position(vectors: Seq<Seq<u8>>, vector: Seq<u8>)
    ensures
        0 <= position(vectors, vector) <= vectors.len(),
        forall|i: int| 0 <= i < position(vectors, vector) ==> (#[trigger] vectors[i]) != vector,
        position(vectors, vector) < vectors.len() ==> vectors[position(vectors, vector)] == vector,
    decreases vectors.len(),
{
    if vectors.len() > 0 && vectors[0] != vector {
        let rest = vectors.drop_first();
        lemma_position(rest, vector);
        assert forall|i: int| 0 <= i < position(vectors, vector) implies (#[trigger] vectors[i])
            != vector by {
            if i > 0 {
                assert(rest[i - 1] == vectors[i]);
            }
        }
        if position(vectors, vector) < vectors.len() {
            assert(rest[position(rest, vector)] == vectors[position(vectors, vector)]);
        }
    }
}

/// After the removal no vector equals the removed one, and there are no more
/// vectors than before.
pub proof fn lemma_without(vectors: Seq<Seq<u8>>, vector: Seq<u8>)
    ensures
        without(vectors, vector).len() <= vectors.len(),
        forall|i: int|
            0 <= i < without(vectors, vector).len() ==> (#[trigger] without(vectors, vector)[i])
                != vector,
        forall|i: int|
            0 <= i < without(vectors, vector).len() ==> vectors.contains(
                #[trigger] without(vectors, vector)[i],
            ),
    decreases vectors.len(),
{
    lemma_position(vectors, vector);
    let at = position(vectors, vector);
    if at < vectors.len() {
        let next = swap_remove(vectors, at);
        lemma_without(next, vector);
        assert forall|i: int| 0 <= i < without(vectors, vector).len() implies vectors.contains(
            #[trigger] without(vectors, vector)[i],
        ) by {
            let item = without(next, vector)[i];
            assert(next.contains(item));
            let k = choose|k: int| 0 <= k < next.len() && next[k] == item;
            if k == at && at != vectors.len() - 1 {
                assert(vectors[vectors.len() - 1] == item);
            } else {
                assert(vectors[k] == item);
            }
        }
    } else {
        assert forall|i: int| 0 <= i < vectors.len() implies vectors.contains(
            #[trigger] vectors[i],
        ) by {}
    }
}

/// The vector packing invariant: after any sequence of operations on the
/// embeddings of a document, its vectors are no more than there are slots, so
/// that the occupied slots form a contiguous prefix.
pub proof fn lemma_packing_invariant(slots: Seq<Option<Seq<u8>>>, ops: Seq<VectorOpView>)
    requires
        slots.len() == SLOT_COUNT,
        packed(slots),
    ensures
        apply_all_spec(vectors_of(slots), ops).len() <= SLOT_COUNT,
        packed(slots_of(apply_all_spec(vectors_of(slots), ops))),
        vectors_of(slots_of(apply_all_spec(vectors_of(slots), ops))) == apply_all_spec(
            vectors_of(slots),
            ops,
        ),
    decreases ops.len(),
{
    lemma_packed_slots(slots);
    if ops.len() > 0 {
        lemma_packing_invariant(slots, ops.drop_last());
        let before = apply_all_spec(vectors_of(slots), ops.drop_last());
        match ops.last() {
            VectorOpView::Delete(vector) => {
                lemma_without(before, vector);
            },
            _ => {},
        }
    }
    lemma_slots_of(apply_all_spec(vectors_of(slots), ops));
}

/// A document brings more embeddings than it may have.
#[derive(Debug, PartialEq, Eq)]
pub struct TooManyEmbeddings {
    /// How many embeddings the document brings.
    pub count: usize,
}

/// The embeddings of one document, slot by slot.
pub struct DocumentVectors {
    slots: Vec<Option<Vec<u8>>>,
}

impl View for DocumentVectors {
    type V = Seq<Option<Seq<u8>>>;

    closed spec fn view(&self) -> Seq<Option<Seq<u8>>> {
        self.slots@.map_values(|slot: Option<Vec<u8>>| slot_view(slot))
    }
}

/// The bytes of an optional vector.
pub open spec fn slot_view(slot: Option<Vec<u8>>) -> Option<Seq<u8>> {
    match slot {
        Some(vector) => Some(vector@),
        None => None,
    }
}

impl DocumentVectors {
    /// Puts `vector` into the slot `slot`, or frees the slot.
    fn set_slot(&mut self, slot: usize, vector: Option<Vec<u8>>)
        requires
            slot < old(self)@.len(),
        ensures
            final(self)@ == old(self)@.update(slot as int, slot_view(vector)),
    {
        let ghost before = self.slots@;
        self.slots.set(slot, vector);
        proof {
            assert forall|k: int| 0 <= k < self@.len() && k != slot implies self@[k] == old(
                self,
            )@[k] by {
                assert(self.slots@[k] == before[k]);
            }
            assert(self@ =~= old(self)@.update(slot as int, slot_view(vector)));
        }
    }

    /// The invariant: there is one slot per sub-index, and the occupied slots
    /// form a contiguous prefix.
    pub open spec fn wf(&self) -> bool {
        self@.len() == SLOT_COUNT && packed(self@)
    }

    /// The vectors of the document, in the order of their slots.
    pub open spec fn vectors(&self) -> Seq<Seq<u8>> {
        vectors_of(self@)
    }

    /// A document without embeddings.
    pub fn new() -> (document: DocumentVectors)
        ensures
            document.wf(),
            document@ == slots_of(Seq::empty()),
            document.vectors() == Seq::<Seq<u8>>::empty(),
    {
        let mut slots: Vec<Option<Vec<u8>>> = Vec::new();
        while slots.len() < SLOT_COUNT
            invariant
                slots@.len() <= SLOT_COUNT,
                forall|i: int| 0 <= i < slots@.len() ==> slots@[i] is None,
            decreases SLOT_COUNT - slots@.len(),
        {
            slots.push(None);
        }
        let document = DocumentVectors { slots };
        proof {
            assert(document@ =~= slots_of(Seq::empty()));
            lemma_slots_of(Seq::empty());
        }
        document
    }

    /// The document whose embeddings are `vectors`, in that order. There may
    /// be no more of them than there are slots.
    pub fn from_vectors(vectors: Vec<Vec<u8>>) -> (document: Option<DocumentVectors>)
        ensures
            document is Some <==> vectors@.len() <= SLOT_COUNT,
            document matches Some(d) ==> d.wf() && d@ == slots_of(vectors_view(vectors@))
                && d.vectors() == vectors_view(vectors@),
    {
        if vectors.len() > SLOT_COUNT {
            return None;
        }
        let mut document = DocumentVectors::new();
        let mut i: usize = 0;
        let ghost all = vectors_view(vectors@);
        assert(all.take(0) =~= Seq::<Seq<u8>>::empty());
        while i < vectors.len()
            invariant
                i <= vectors@.len(),
                vectors@.len() <= SLOT_COUNT,
                all == vectors_view(vectors@),
                document@ == slots_of(all.take(i as int)),
            decreases vectors@.len() - i,
        {
            let vector = slice_to_vec(vectors[i].as_slice());
            document.set_slot(i, Some(vector));
            proof {
                let before = slots_of(all.take(i as int));
                let after = slots_of(all.take(i + 1));
                assert(all[i as int] == vector@);
                assert forall|k: int| 0 <= k < SLOT_COUNT implies before.update(
                    i as int,
                    Some(vector@),
                )[k] == after[k] by {
                    if k < i {
                        assert(all.take(i as int)[k] == all.take(i + 1)[k]);
                    }
                }
                assert(document@ =~= after);
            }
            i += 1;
        }
        proof {
            assert(all.take(i as int) =~= all);
            lemma_slots_of(all);
        }
        Some(document)
    }

    /// The number of embeddings of the document.
    pub fn len(&self) -> (count: usize)
        requires
            self.wf(),
        ensures
            count == self.vectors().len(),
            count <= SLOT_COUNT,
            self@ == slots_of(self.vectors()),
    {
        let mut count: usize = 0;
        proof {
            lemma_packed_slots(self@);
            lemma_occupied(self@);
        }
        while count < SLOT_COUNT && self.slots[count].is_some()
            invariant
                count <= SLOT_COUNT,
                self@.len() == SLOT_COUNT,
                self.slots@.len() == SLOT_COUNT,
                forall|i: int| 0 <= i < count ==> (#[trigger] self@[i]) is Some,
            decreases SLOT_COUNT - count,
        {
            count += 1;
        }
        proof {
            let n = occupied(self@) as int;
            if count < n {
                assert(self@[count as int] is Some);
            }
            if n < count {
                assert(self@[n] is Some);
            }
        }
        count
    }

    /// The vector in the slot `slot`, if the slot is occupied.
    pub fn get(&self, slot: usize) -> (vector: Option<&Vec<u8>>)
        requires
            self.wf(),
            slot < SLOT_COUNT,
        ensures
            vector is Some <==> self@[slot as int] is Some,
            vector matches Some(bytes) ==> self@[slot as int] == Some(bytes@),
    {
        assert(self@[slot as int] == slot_view(self.slots@[slot as int]));
        self.slots[slot].as_ref()
    }

    /// Removes every embedding of the document.
    pub fn remove_all(&mut self)
        requires
            old(self).wf(),
        ensures
            final(self).wf(),
            final(self)@ == slots_of(apply_spec(old(self).vectors(), VectorOpView::RemoveAll)),
            final(self).vectors() == apply_spec(old(self).vectors(), VectorOpView::RemoveAll),
    {
        let mut i: usize = 0;
        while i < SLOT_COUNT
            invariant
                i <= SLOT_COUNT,
                self@.len() == SLOT_COUNT,
                forall|k: int| 0 <= k < i ==> (#[trigger] self@[k]) is None,
            decreases SLOT_COUNT - i,
        {
            self.set_slot(i, None);
            i += 1;
        }
        proof {
            assert(self@ =~= slots_of(Seq::empty()));
            lemma_slots_of(Seq::empty());
        }
    }

    /// Writes the embeddings that an embedder generated for the document into
    /// the lowest slots, over what stands there. More embeddings than a
    /// document may have are refused, and nothing is written.
    pub fn set_embeddings(&mut self, embeddings: &Vec<Vec<u8>>) -> (written: Result<
        (),
        TooManyEmbeddings,
    >)
        requires
            old(self).wf(),
        ensures
            final(self).wf(),
            written is Ok <==> embeddings@.len() <= MAX_EMBEDDINGS,
            written matches Err(e) ==> e.count == embeddings@.len(),
            final(self)@ == slots_of(
                apply_spec(
                    old(self).vectors(),
                    VectorOpView::SetEmbeddings(vectors_view(embeddings@)),
                ),
            ),
            final(self).vectors() == apply_spec(
                old(self).vectors(),
                VectorOpView::SetEmbeddings(vectors_view(embeddings@)),
            ),
    {
        let count = self.len();
        if embeddings.len() > MAX_EMBEDDINGS {
            return Err(TooManyEmbeddings { count: embeddings.len() });
        }
        let ghost before = self.vectors();
        let ghost new = vectors_view(embeddings@);
        let mut i: usize = 0;
        assert(overwritten(before, new.take(0)) =~= before);
        while i < embeddings.len()
            invariant
                i <= embeddings@.len(),
                embeddings@.len() <= MAX_EMBEDDINGS,
                new == vectors_view(embeddings@),
                before.len() <= SLOT_COUNT,
                self@ == slots_of(overwritten(before, new.take(i as int))),
            decreases embeddings@.len() - i,
        {
            let vector = slice_to_vec(embeddings[i].as_slice());
            self.set_slot(i, Some(vector));
            proof {
                let earlier = overwritten(before, new.take(i as int));
                let later = overwritten(before, new.take(i + 1));
                assert(new[i as int] == vector@);
                assert forall|k: int| 0 <= k < SLOT_COUNT implies slots_of(earlier).update(
                    i as int,
                    Some(vector@),
                )[k] == slots_of(later)[k] by {
                    if k < i {
                        assert(new.take(i as int)[k] == new.take(i + 1)[k]);
                        assert(earlier[k] == new[k]);
                        assert(later[k] == new[k]);
                    } else if k > i && k < before.len() {
                        assert(earlier[k] == before[k]);
                        assert(later[k] == before[k]);
                    }
                }
                assert(self@ =~= slots_of(later));
            }
            i += 1;
        }
        proof {
            assert(new.take(i as int) =~= new);
            lemma_slots_of(overwritten(before, new));
        }
        Ok(())
    }

    /// Writes the vector into the first free slot. Tells whether there was
    /// one: with every slot taken nothing is written.
    pub fn add_vector(&mut self, vector: Vec<u8>) -> (added: bool)
        requires
            old(self).wf(),
        ensures
            final(self).wf(),
            added == (old(self).vectors().len() < SLOT_COUNT),
            final(self)@ == slots_of(apply_spec(old(self).vectors(), VectorOpView::Add(vector@))),
            final(self).vectors() == apply_spec(old(self).vectors(), VectorOpView::Add(vector@)),
    {
        let count = self.len();
        if count < SLOT_COUNT {
            let ghost before = self.vectors();
            self.set_slot(count, Some(vector));
            proof {
                assert(self@ =~= slots_of(before.push(vector@)));
                lemma_slots_of(before.push(vector@));
            }
            true
        } else {
            false
        }
    }

    /// Removes each embedding equal to `vector`. When that leaves a gap before
    /// the last occupied slot, the vector of the last occupied slot is moved
    /// into the freed slot. Tells whether any embedding was removed.
    pub fn delete_vector(&mut self, vector: &[u8]) -> (deleted: bool)
        requires
            old(self).wf(),
        ensures
            final(self).wf(),
            deleted == old(self).vectors().contains(vector@),
            final(self)@ == slots_of(
                apply_spec(old(self).vectors(), VectorOpView::Delete(vector@)),
            ),
            final(self).vectors() == apply_spec(old(self).vectors(), VectorOpView::Delete(vector@)),
            final(self).vectors().len() <= old(self).vectors().len(),
            !final(self).vectors().contains(vector@),
    {
        proof {
            lemma_without(old(self).vectors(), vector@);
        }
        let mut count = self.len();
        let ghost before = self.vectors();
        let mut deleted = false;
        let mut i: usize = 0;
        while i < count
            invariant
                i <= count <= SLOT_COUNT,
                self@.len() == SLOT_COUNT,
                packed(self@),
                count == vectors_of(self@).len(),
                self@ == slots_of(vectors_of(self@)),
                without(vectors_of(self@), vector@) == without(before, vector@),
                forall|k: int| 0 <= k < i ==> (#[trigger] vectors_of(self@)[k]) != vector@,
                deleted ==> before.contains(vector@),
                !deleted ==> vectors_of(self@) == before,
            decreases count - i,
        {
            let ghost current = vectors_of(self@);
            proof {
                lemma_position(current, vector@);
            }
            let same = match self.get(i) {
                Some(candidate) => compare_keys(candidate.as_slice(), vector) == KeyOrder::Same,
                None => false,
            };
            assert(same == (current[i as int] == vector@));
            if same {
                proof {
                    if position(current, vector@) < i {
                        assert(current[position(current, vector@)] != vector@);
                    }
                    assert(position(current, vector@) == i);
                    if !deleted {
                        assert(before[i as int] == vector@);
                    }
                }
                let last = count - 1;
                if i != last {
                    let moved = match self.get(last) {
                        Some(bytes) => Some(slice_to_vec(bytes.as_slice())),
                        None => None,
                    };
                    assert(slot_view(moved) == Some(current[last as int]));
                    self.set_slot(i, moved);
                }
                self.set_slot(last, None);
                count = last;
                deleted = true;
                proof {
                    let next = swap_remove(current, i as int);
                    assert forall|k: int| 0 <= k < SLOT_COUNT implies self@[k] == slots_of(
                        next,
                    )[k] by {
                        if k < last && k != i {
                            assert(slots_of(current)[k] == Some(current[k]));
                            assert(next[k] == current[k]);
                        }
                    }
                    assert(self@ =~= slots_of(next));
                    lemma_slots_of(next);
                    assert forall|k: int| 0 <= k < i implies (#[trigger] vectors_of(self@)[k])
                        != vector@ by {
                        assert(current[k] != vector@);
                    }
                }
            } else {
                i += 1;
            }
        }
        proof {
            let current = vectors_of(self@);
            lemma_position(current, vector@);
            if position(current, vector@) < current.len() {
                assert(current[position(current, vector@)] != vector@);
            }
            assert(without(current, vector@) == current);
            if !deleted && before.contains(vector@) {
                let k = choose|k: int| 0 <= k < before.len() && before[k] == vector@;
                assert(current[k] != vector@);
            }
        }
        deleted
    }

    /// Does one operation on the embeddings of the document. An operation that
    /// brings more embeddings than a document may have is refused, and changes
    /// nothing.
    pub fn apply(&mut self, op: VectorOp) -> (done: Result<(), TooManyEmbeddings>)
        requires
            old(self).wf(),
        ensures
            final(self).wf(),
            done is Err <==> refused(op@),
            done matches Err(e) ==> op@ matches VectorOpView::SetEmbeddings(embeddings)
                && e.count == embeddings.len(),
            final(self)@ == slots_of(apply_spec(old(self).vectors(), op@)),
            final(self).vectors() == apply_spec(old(self).vectors(), op@),
    {
        match op {
            VectorOp::RemoveAll => {
                self.remove_all();
                Ok(())
            },
            VectorOp::SetEmbeddings(embeddings) => self.set_embeddings(&embeddings),
            VectorOp::Delete(vector) => {
                self.delete_vector(vector.as_slice());
                Ok(())
            },
            VectorOp::Add(vector) => {
                self.add_vector(vector);
                Ok(())
            },
        }
    }
}

} // verus!

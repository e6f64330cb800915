//! Typed chunks: batches of extracted data, each destined for one logical
//! database, and the accumulator that groups the chunks that can be merged
//! together.

use vstd::prelude::*;
use vstd::string::StringExecFns;

use crate::docids::DocIds;
use crate::sorted_run::SortedRun;
use crate::text::{decimal_spec, push_decimal};

verus! {

/// What one batch found for one pair of script and language: the documents
/// that no longer are in that pair and those that now are.
pub struct ScriptLanguageDelta {
    pub script: u16,
    pub language: u16,
    pub deletion: DocIds,
    pub addition: DocIds,
}

/// A batch of extracted data destined for one logical database.
pub enum TypedChunk {
    FieldIdDocidFacetStrings(SortedRun),
    FieldIdDocidFacetNumbers(SortedRun),
    Documents(SortedRun),
    FieldIdWordCountDocids(SortedRun),
    WordDocids {
        word_docids_reader: SortedRun,
        exact_word_docids_reader: SortedRun,
        word_fid_docids_reader: SortedRun,
    },
    WordPositionDocids(SortedRun),
    WordPairProximityDocids(SortedRun),
    FieldIdFacetStringDocids((SortedRun, SortedRun)),
    FieldIdFacetNumberDocids(SortedRun),
    FieldIdFacetExistsDocids(SortedRun),
    FieldIdFacetIsNullDocids(SortedRun),
    FieldIdFacetIsEmptyDocids(SortedRun),
    GeoPoints(SortedRun),
    VectorPoints {
        remove_vectors: SortedRun,
        embeddings: Option<SortedRun>,
        expected_dimension: usize,
        manual_vectors: SortedRun,
        embedder_name: String,
    },
    ScriptLanguageDocids(Vec<ScriptLanguageDelta>),
}

/// The shape of a typed chunk: which variant it is.
#[derive(Clone, Copy, Debug, PartialEq, Eq, Structural)]
pub enum ChunkShape {
    FieldIdDocidFacetStrings,
    FieldIdDocidFacetNumbers,
    Documents,
    FieldIdWordCountDocids,
    WordDocids,
    WordPositionDocids,
    WordPairProximityDocids,
    FieldIdFacetStringDocids,
    FieldIdFacetNumberDocids,
    FieldIdFacetExistsDocids,
    FieldIdFacetIsNullDocids,
    FieldIdFacetIsEmptyDocids,
    GeoPoints,
    VectorPoints,
    ScriptLanguageDocids,
}

/// What decides whether two chunks can be merged: the shape, and for vector
/// chunks the embedder and the dimension.
pub struct MergeGroup {
    pub shape: ChunkShape,
    pub embedder: Seq<char>,
    pub dimension: usize,
}

/// The text `name { number_of_entries: count }`.
pub open spec fn entries_text_spec(name: Seq<char>, count: nat) -> Seq<char> {
    name + " { number_of_entries: "@ + decimal_spec(count) + " }"@
}

/// Writes the name of a shape and how many entries a chunk of it holds.
fn entries_text(name: &str, count: usize) -> (text: String)
    ensures
        text@ == entries_text_spec(name@, count as nat),
{
    let mut text = String::from_str(name);
    text.append(" { number_of_entries: ");
    push_decimal(&mut text, count as u64);
    text.append(" }");
    text
}

/// Whether two names are the same text.
fn same_name(left: &String, right: &String) -> (same: bool)
    ensures
        same == (left@ == right@),
{
    left.eq(right)
}

impl TypedChunk {
    /// The shape of the chunk.
    pub open spec fn spec_shape(&self) -> ChunkShape {
        match self {
            TypedChunk::FieldIdDocidFacetStrings(_) => ChunkShape::FieldIdDocidFacetStrings,
            TypedChunk::FieldIdDocidFacetNumbers(_) => ChunkShape::FieldIdDocidFacetNumbers,
            TypedChunk::Documents(_) => ChunkShape::Documents,
            TypedChunk::FieldIdWordCountDocids(_) => ChunkShape::FieldIdWordCountDocids,
            TypedChunk::WordDocids { .. } => ChunkShape::WordDocids,
            TypedChunk::WordPositionDocids(_) => ChunkShape::WordPositionDocids,
            TypedChunk::WordPairProximityDocids(_) => ChunkShape::WordPairProximityDocids,
            TypedChunk::FieldIdFacetStringDocids(_) => ChunkShape::FieldIdFacetStringDocids,
            TypedChunk::FieldIdFacetNumberDocids(_) => ChunkShape::FieldIdFacetNumberDocids,
            TypedChunk::FieldIdFacetExistsDocids(_) => ChunkShape::FieldIdFacetExistsDocids,
            TypedChunk::FieldIdFacetIsNullDocids(_) => ChunkShape::FieldIdFacetIsNullDocids,
            TypedChunk::FieldIdFacetIsEmptyDocids(_) => ChunkShape::FieldIdFacetIsEmptyDocids,
            TypedChunk::GeoPoints(_) => ChunkShape::GeoPoints,
            TypedChunk::VectorPoints { .. } => ChunkShape::VectorPoints,
            TypedChunk::ScriptLanguageDocids(_) => ChunkShape::ScriptLanguageDocids,
        }
    }

    /// The group that the chunk belongs to.
    pub open spec fn group(&self) -> MergeGroup {
        match self {
            TypedChunk::VectorPoints { expected_dimension, embedder_name, .. } => MergeGroup {
                shape: ChunkShape::VectorPoints,
                embedder: embedder_name@,
                dimension: *expected_dimension,
            },
            _ => MergeGroup { shape: self.spec_shape(), embedder: Seq::empty(), dimension: 0 },
        }
    }

    /// Every run of the chunk has ascending keys.
    pub open spec fn wf(&self) -> bool {
        match self {
            TypedChunk::FieldIdDocidFacetStrings(run) => run.wf(),
            TypedChunk::FieldIdDocidFacetNumbers(run) => run.wf(),
            TypedChunk::Documents(run) => run.wf(),
            TypedChunk::FieldIdWordCountDocids(run) => run.wf(),
            TypedChunk::WordDocids {
                word_docids_reader,
                exact_word_docids_reader,
                word_fid_docids_reader,
            } => word_docids_reader.wf() && exact_word_docids_reader.wf()
                && word_fid_docids_reader.wf(),
            TypedChunk::WordPositionDocids(run) => run.wf(),
            TypedChunk::WordPairProximityDocids(run) => run.wf(),
            TypedChunk::FieldIdFacetStringDocids(runs) => runs.0.wf() && runs.1.wf(),
            TypedChunk::FieldIdFacetNumberDocids(run) => run.wf(),
            TypedChunk::FieldIdFacetExistsDocids(run) => run.wf(),
            TypedChunk::FieldIdFacetIsNullDocids(run) => run.wf(),
            TypedChunk::FieldIdFacetIsEmptyDocids(run) => run.wf(),
            TypedChunk::GeoPoints(run) => run.wf(),
            TypedChunk::VectorPoints { remove_vectors, embeddings, manual_vectors, .. } => {
                &&& remove_vectors.wf()
                &&& manual_vectors.wf()
                &&& embeddings matches Some(run) ==> run.wf()
            },
            TypedChunk::ScriptLanguageDocids(_) => true,
        }
    }

    /// What `to_debug_string` writes: the shape, and how many entries each run
    /// holds.
    pub open spec fn debug_text(&self) -> Seq<char> {
        match self {
            TypedChunk::FieldIdDocidFacetStrings(run) => entries_text_spec(
                "FieldIdDocidFacetStrings"@,
                run@.len(),
            ),
            TypedChunk::FieldIdDocidFacetNumbers(run) => entries_text_spec(
                "FieldIdDocidFacetNumbers"@,
                run@.len(),
            ),
            TypedChunk::Documents(run) => entries_text_spec("Documents"@, run@.len()),
            TypedChunk::FieldIdWordCountDocids(run) => entries_text_spec(
                "FieldIdWordcountDocids"@,
                run@.len(),
            ),
            TypedChunk::WordDocids {
                word_docids_reader,
                exact_word_docids_reader,
                word_fid_docids_reader,
            } => "WordDocids { word_docids_reader: "@ + decimal_spec(word_docids_reader@.len())
                + ", exact_word_docids_reader: "@ + decimal_spec(exact_word_docids_reader@.len())
                + ", word_fid_docids_reader: "@ + decimal_spec(word_fid_docids_reader@.len())
                + " }"@,
            TypedChunk::WordPositionDocids(run) => entries_text_spec(
                "WordPositionDocids"@,
                run@.len(),
            ),
            TypedChunk::WordPairProximityDocids(run) => entries_text_spec(
                "WordPairProximityDocids"@,
                run@.len(),
            ),
            TypedChunk::FieldIdFacetStringDocids(runs) => entries_text_spec(
                "FieldIdFacetStringDocids"@,
                runs.0@.len(),
            ),
            TypedChunk::FieldIdFacetNumberDocids(run) => entries_text_spec(
                "FieldIdFacetNumberDocids"@,
                run@.len(),
            ),
            TypedChunk::FieldIdFacetExistsDocids(run) => entries_text_spec(
                "FieldIdFacetExistsDocids"@,
                run@.len(),
            ),
            TypedChunk::FieldIdFacetIsNullDocids(run) => entries_text_spec(
                "FieldIdFacetIsNullDocids"@,
                run@.len(),
            ),
            TypedChunk::FieldIdFacetIsEmptyDocids(run) => entries_text_spec(
                "FieldIdFacetIsEmptyDocids"@,
                run@.len(),
            ),
            TypedChunk::GeoPoints(run) => entries_text_spec("GeoPoints"@, run@.len()),
            TypedChunk::VectorPoints {
                remove_vectors,
                embeddings,
                expected_dimension,
                manual_vectors,
                embedder_name,
            } => "VectorPoints { remove_vectors: "@ + decimal_spec(remove_vectors@.len())
                + ", manual_vectors: "@ + decimal_spec(manual_vectors@.len()) + ", embeddings: "@
                + decimal_spec(
                match embeddings {
                    Some(run) => run@.len(),
                    None => 0,
                },
            ) + ", dimension: "@ + decimal_spec(*expected_dimension as nat) + ", embedder_name: "@
                + embedder_name@ + " }"@,
            TypedChunk::ScriptLanguageDocids(entries) => entries_text_spec(
                "ScriptLanguageDocids"@,
                entries@.len(),
            ),
        }
    }

    /// A one-line description of the chunk for logs and profiles: its shape,
    /// and how many entries each of its runs holds.
    pub fn to_debug_string(&self) -> (text: String)
        ensures
            text@ == self.debug_text(),
    {
        match self {
            TypedChunk::FieldIdDocidFacetStrings(run) => entries_text(
                "FieldIdDocidFacetStrings",
                run.len(),
            ),
            TypedChunk::FieldIdDocidFacetNumbers(run) => entries_text(
                "FieldIdDocidFacetNumbers",
                run.len(),
            ),
            TypedChunk::Documents(run) => entries_text("Documents", run.len()),
            TypedChunk::FieldIdWordCountDocids(run) => entries_text(
                "FieldIdWordcountDocids",
                run.len(),
            ),
            TypedChunk::WordDocids {
                word_docids_reader,
                exact_word_docids_reader,
                word_fid_docids_reader,
            } => {
                let mut text = String::from_str("WordDocids { word_docids_reader: ");
                push_decimal(&mut text, word_docids_reader.len() as u64);
                text.append(", exact_word_docids_reader: ");
                push_decimal(&mut text, exact_word_docids_reader.len() as u64);
                text.append(", word_fid_docids_reader: ");
                push_decimal(&mut text, word_fid_docids_reader.len() as u64);
                text.append(" }");
                text
            },
            TypedChunk::WordPositionDocids(run) => entries_text("WordPositionDocids", run.len()),
            TypedChunk::WordPairProximityDocids(run) => entries_text(
                "WordPairProximityDocids",
                run.len(),
            ),
            TypedChunk::FieldIdFacetStringDocids(runs) => entries_text(
                "FieldIdFacetStringDocids",
                runs.0.len(),
            ),
            TypedChunk::FieldIdFacetNumberDocids(run) => entries_text(
                "FieldIdFacetNumberDocids",
                run.len(),
            ),
            TypedChunk::FieldIdFacetExistsDocids(run) => entries_text(
                "FieldIdFacetExistsDocids",
                run.len(),
            ),
            TypedChunk::FieldIdFacetIsNullDocids(run) => entries_text(
                "FieldIdFacetIsNullDocids",
                run.len(),
            ),
            TypedChunk::FieldIdFacetIsEmptyDocids(run) => entries_text(
                "FieldIdFacetIsEmptyDocids",
                run.len(),
            ),
            TypedChunk::GeoPoints(run) => entries_text("GeoPoints", run.len()),
            TypedChunk::VectorPoints {
                remove_vectors,
                embeddings,
                expected_dimension,
                manual_vectors,
                embedder_name,
            } => {
                let embedded: usize = match embeddings {
                    Some(run) => run.len(),
                    None => 0,
                };
                let mut text = String::from_str("VectorPoints { remove_vectors: ");
                push_decimal(&mut text, remove_vectors.len() as u64);
                text.append(", manual_vectors: ");
                push_decimal(&mut text, manual_vectors.len() as u64);
                text.append(", embeddings: ");
                push_decimal(&mut text, embedded as u64);
                text.append(", dimension: ");
                push_decimal(&mut text, *expected_dimension as u64);
                text.append(", embedder_name: ");
                text.append(embedder_name.as_str());
                text.append(" }");
                text
            },
            TypedChunk::ScriptLanguageDocids(entries) => entries_text(
                "ScriptLanguageDocids",
                entries.len(),
            ),
        }
    }

    /// The shape of the chunk.
    pub fn shape(&self) -> (shape: ChunkShape)
        ensures
            shape == self.spec_shape(),
    {
        match self {
            TypedChunk::FieldIdDocidFacetStrings(_) => ChunkShape::FieldIdDocidFacetStrings,
            TypedChunk::FieldIdDocidFacetNumbers(_) => ChunkShape::FieldIdDocidFacetNumbers,
            TypedChunk::Documents(_) => ChunkShape::Documents,
            TypedChunk::FieldIdWordCountDocids(_) => ChunkShape::FieldIdWordCountDocids,
            TypedChunk::WordDocids { .. } => ChunkShape::WordDocids,
            TypedChunk::WordPositionDocids(_) => ChunkShape::WordPositionDocids,
            TypedChunk::WordPairProximityDocids(_) => ChunkShape::WordPairProximityDocids,
            TypedChunk::FieldIdFacetStringDocids(_) => ChunkShape::FieldIdFacetStringDocids,
            TypedChunk::FieldIdFacetNumberDocids(_) => ChunkShape::FieldIdFacetNumberDocids,
            TypedChunk::FieldIdFacetExistsDocids(_) => ChunkShape::FieldIdFacetExistsDocids,
            TypedChunk::FieldIdFacetIsNullDocids(_) => ChunkShape::FieldIdFacetIsNullDocids,
            TypedChunk::FieldIdFacetIsEmptyDocids(_) => ChunkShape::FieldIdFacetIsEmptyDocids,
            TypedChunk::GeoPoints(_) => ChunkShape::GeoPoints,
            TypedChunk::VectorPoints { .. } => ChunkShape::VectorPoints,
            TypedChunk::ScriptLanguageDocids(_) => ChunkShape::ScriptLanguageDocids,
        }
    }

    /// Whether the two chunks can be merged together: they have the same
    /// shape, and vector chunks also the same embedder and the same dimension.
    pub fn mergeable_with(&self, other: &TypedChunk) -> (mergeable: bool)
        ensures
            mergeable == (self.group() == other.group()),
    {
        match (self, other) {
            (
                TypedChunk::VectorPoints {
                    embedder_name: left,
                    expected_dimension: left_dimension,
                    ..
                },
                TypedChunk::VectorPoints {
                    embedder_name: right,
                    expected_dimension: right_dimension,
                    ..
                },
            ) => same_name(left, right) && *left_dimension == *right_dimension,
            _ => self.shape() == other.shape(),
        }
    }
}

/// Accumulates the typed chunks and groups those that can be merged, so that
/// the largest group can be indexed in one go.
pub struct ChunkAccumulator {
    inner: Vec<Vec<TypedChunk>>,
}

impl View for ChunkAccumulator {
    type V = Seq<Seq<TypedChunk>>;

    closed spec fn view(&self) -> Seq<Seq<TypedChunk>> {
        self.inner@.map_values(|group: Vec<TypedChunk>| group@)
    }
}

/// The place of the first group that `chunk` can be merged into, or the
/// number of groups if there is none.
pub open spec fn first_compatible(groups: Seq<Seq<TypedChunk>>, chunk: TypedChunk) -> int
    decreases groups.len(),
{
    if groups.len() == 0 {
        0
    } else if groups[0].len() > 0 && chunk.group() == groups[0][0].group() {
        0
    } else {
        1 + first_compatible(groups.drop_first(), chunk)
    }
}

/// The place of the first among the largest groups. There has to be a group.
pub open spec fn first_longest(groups: Seq<Seq<TypedChunk>>) -> int
    decreases groups.len(),
{
    if groups.len() <= 1 {
        0
    } else {
        let rest = first_longest(groups.drop_last());
        if groups[rest].len() >= groups.last().len() {
            rest
        } else {
            groups.len() - 1
        }
    }
}

/// The chunks can all be merged together.
pub open spec fn uniform(chunks: Seq<TypedChunk>) -> bool {
    forall|i: int| 0 <= i < chunks.len() ==> (#[trigger] chunks[i]).group() == chunks[0].group()
}

/// No group is empty, the chunks of a group can all be merged together, and
/// the chunks of two groups cannot.
pub open spec fn groups_wf(groups: Seq<Seq<TypedChunk>>) -> bool {
    &&& forall|g: int|
        0 <= g < groups.len() ==> (#[trigger] groups[g]).len() > 0 && uniform(groups[g])
    &&& forall|g: int, h: int|
        #![trigger groups[g], groups[h]]
        0 <= g < h < groups.len() ==> groups[g][0].group() != groups[h][0].group()
}

/// A chunk that joins the group it can be merged into leaves the groups in
/// order.
proof fn lemma_join_keeps_wf(groups: Seq<Seq<TypedChunk>>, at: int, chunk: TypedChunk)
    requires
        groups_wf(groups),
        0 <= at < groups.len(),
        chunk.group() == groups[at][0].group(),
    ensures
        groups_wf(groups.update(at, groups[at].push(chunk))),
{
    let after = groups.update(at, groups[at].push(chunk));
    assert forall|g: int| 0 <= g < after.len() implies (#[trigger] after[g]).len() > 0 && uniform(
        after[g],
    ) by {
        assert(groups[g].len() > 0 && uniform(groups[g]));
        if g == at {
            assert forall|i: int| 0 <= i < after[g].len() implies (#[trigger] after[g][i]).group()
                == after[g][0].group() by {
                if i < groups[g].len() {
                    assert(groups[g][i].group() == groups[g][0].group());
                }
            }
        }
    }
    assert forall|g: int, h: int|
        #![trigger after[g], after[h]]
        0 <= g < h < after.len() implies after[g][0].group() != after[h][0].group() by {
        assert(groups[g].len() > 0 && groups[h].len() > 0);
        assert(groups[g][0].group() != groups[h][0].group());
    }
}

/// A chunk that no group can take starts a group of its own and leaves the
/// groups in order.
proof fn lemma_start_keeps_wf(groups: Seq<Seq<TypedChunk>>, chunk: TypedChunk)
    requires
        groups_wf(groups),
        forall|g: int| 0 <= g < groups.len() ==> chunk.group() != (#[trigger] groups[g])[0].group(),
    ensures
        groups_wf(groups.push(seq![chunk])),
{
    let after = groups.push(seq![chunk]);
    assert forall|g: int| 0 <= g < after.len() implies (#[trigger] after[g]).len() > 0 && uniform(
        after[g],
    ) by {
        if g < groups.len() {
            assert(groups[g].len() > 0 && uniform(groups[g]));
        }
    }
    assert forall|g: int, h: int|
        #![trigger after[g], after[h]]
        0 <= g < h < after.len() implies after[g][0].group() != after[h][0].group() by {
        if h < groups.len() {
            assert(groups[g][0].group() != groups[h][0].group());
        } else {
            assert(chunk.group() != groups[g][0].group());
        }
    }
}

/// Taking a group out leaves the groups in order.
proof fn lemma_remove_keeps_wf(groups: Seq<Seq<TypedChunk>>, at: int)
    requires
        groups_wf(groups),
        0 <= at < groups.len(),
    ensures
        groups_wf(groups.remove(at)),
{
    let after = groups.remove(at);
    assert forall|g: int| 0 <= g < after.len() implies (#[trigger] after[g]).len() > 0 && uniform(
        after[g],
    ) by {
        let g0 = if g < at { g } else { g + 1 };
        assert(groups[g0].len() > 0 && uniform(groups[g0]));
    }
    assert forall|g: int, h: int|
        #![trigger after[g], after[h]]
        0 <= g < h < after.len() implies after[g][0].group() != after[h][0].group() by {
        let g0 = if g < at { g } else { g + 1 };
        let h0 = if h < at { h } else { h + 1 };
        assert(groups[g0][0].group() != groups[h0][0].group());
    }
}

/// The first compatible group is a place among the groups or just behind
/// them, no group before it is compatible, and the group at it is.
pub proof fn lemma_first_compatible(groups: Seq<Seq<TypedChunk>>, chunk: TypedChunk)
    ensures
        0 <= first_compatible(groups, chunk) <= groups.len(),
        forall|g: int|
            0 <= g < first_compatible(groups, chunk) ==> !((#[trigger] groups[g]).len() > 0
                && chunk.group() == groups[g][0].group()),
        first_compatible(groups, chunk) < groups.len() ==> groups[first_compatible(
            groups,
            chunk,
        )].len() > 0 && chunk.group() == groups[first_compatible(groups, chunk)][0].group(),
    decreases groups.len(),
{
    if groups.len() > 0 && !(groups[0].len() > 0 && chunk.group() == groups[0][0].group()) {
        let rest = groups.drop_first();
        lemma_first_compatible(rest, chunk);
        assert forall|g: int| 0 <= g < first_compatible(groups, chunk) implies !((
        #[trigger] groups[g]).len() > 0 && chunk.group() == groups[g][0].group()) by {
            if g > 0 {
                assert(rest[g - 1] == groups[g]);
            }
        }
        if first_compatible(groups, chunk) < groups.len() {
            assert(rest[first_compatible(rest, chunk)] == groups[first_compatible(groups, chunk)]);
        }
    }
}

/// The first longest group is a group, no group is longer, and none before it
/// is as long.
pub proof fn lemma_first_longest(groups: Seq<Seq<TypedChunk>>)
    requires
        groups.len() > 0,
    ensures
        0 <= first_longest(groups) < groups.len(),
        forall|g: int|
            0 <= g < groups.len() ==> (#[trigger] groups[g]).len() <= groups[first_longest(
                groups,
            )].len(),
        forall|g: int|
            0 <= g < first_longest(groups) ==> (#[trigger] groups[g]).len() < groups[first_longest(
                groups,
            )].len(),
    decreases groups.len(),
{
    if groups.len() > 1 {
        let rest = groups.drop_last();
        lemma_first_longest(rest);
        let best = first_longest(rest);
        assert(rest[best] == groups[best]);
        assert forall|g: int| 0 <= g < groups.len() implies (#[trigger] groups[g]).len()
            <= groups[first_longest(groups)].len() by {
            if g < groups.len() - 1 {
                assert(rest[g] == groups[g]);
            }
        }
        assert forall|g: int| 0 <= g < first_longest(groups) implies (#[trigger] groups[g]).len()
            < groups[first_longest(groups)].len() by {
            assert(rest[g] == groups[g]);
        }
    }
}

impl ChunkAccumulator {
    /// The invariant of the accumulator.
    pub open spec fn wf(&self) -> bool {
        groups_wf(self@)
    }

    /// The accumulator without any chunk.
    pub fn new() -> (accumulator: ChunkAccumulator)
        ensures
            accumulator.wf(),
            accumulator@.len() == 0,
    {
        ChunkAccumulator { inner: Vec::new() }
    }

    /// The number of groups.
    pub fn len(&self) -> (len: usize)
        ensures
            len == self@.len(),
    {
        self.inner.len()
    }

    /// Puts the chunk into the first group that it can be merged into, behind
    /// the chunks of that group, or starts a new group behind the others if
    /// there is none.
    pub fn insert(&mut self, chunk: TypedChunk)
        requires
            old(self).wf(),
        ensures
            final(self).wf(),
            first_compatible(old(self)@, chunk) < old(self)@.len() ==> final(self)@ == old(
                self,
            )@.update(
                first_compatible(old(self)@, chunk),
                old(self)@[first_compatible(old(self)@, chunk)].push(chunk),
            ),
            first_compatible(old(self)@, chunk) >= old(self)@.len() ==> final(self)@ == old(
                self,
            )@.push(seq![chunk]),
    {
        let ghost groups = self@;
        proof {
            lemma_first_compatible(groups, chunk);
        }
        let mut position: usize = 0;
        while position < self.inner.len()
            invariant
                position <= self@.len(),
                self@ == groups,
                groups_wf(groups),
                forall|g: int|
                    0 <= g < position ==> chunk.group() != (#[trigger] groups[g])[0].group(),
            ensures
                position <= groups.len(),
                self@ == groups,
                forall|g: int|
                    0 <= g < position ==> chunk.group() != (#[trigger] groups[g])[0].group(),
                position < groups.len() ==> chunk.group() == groups[position as int][0].group(),
            decreases self@.len() - position,
        {
            assert(groups[position as int].len() > 0);
            assert(self.inner@[position as int]@ == groups[position as int]);
            if chunk.mergeable_with(&self.inner[position][0]) {
                break ;
            }
            position += 1;
        }
        proof {
            let first = first_compatible(groups, chunk);
            if first < position {
                assert(groups[first].len() > 0);
                assert(chunk.group() != groups[first][0].group());
            }
            if position < first {
                assert(groups[position as int].len() > 0);
            }
            assert(first == position);
        }
        if position < self.inner.len() {
            let mut group = self.inner.remove(position);
            group.push(chunk);
            self.inner.insert(position, group);
            proof {
                lemma_join_keeps_wf(groups, position as int, chunk);
                assert(self@ =~= groups.update(position as int, groups[position as int].push(chunk)));
            }
        } else {
            let mut group: Vec<TypedChunk> = Vec::new();
            group.push(chunk);
            self.inner.push(group);
            proof {
                lemma_start_keeps_wf(groups, chunk);
                assert(self@ =~= groups.push(seq![chunk]));
            }
        }
    }

    /// Takes out the group with the most chunks, the first of them if several
    /// groups are as large. Without any group there is nothing to take.
    pub fn pop_longest(&mut self) -> (group: Option<Vec<TypedChunk>>)
        requires
            old(self).wf(),
        ensures
            final(self).wf(),
            group is None <==> old(self)@.len() == 0,
            group is None ==> final(self)@ == old(self)@,
            group matches Some(chunks) ==> chunks@ == old(self)@[first_longest(old(self)@)]
                && final(self)@ == old(self)@.remove(first_longest(old(self)@)) && chunks@.len() > 0
                && forall|g: int|
                0 <= g < old(self)@.len() ==> (#[trigger] old(self)@[g]).len() <= chunks@.len(),
    {
        let ghost groups = self@;
        if self.inner.len() == 0 {
            return None;
        }
        let mut best: usize = 0;
        let mut g: usize = 1;
        assert(groups.subrange(0, 1).len() == 1);
        while g < self.inner.len()
            invariant
                1 <= g <= groups.len(),
                self@ == groups,
                best < g,
                best == first_longest(groups.subrange(0, g as int)),
            decreases groups.len() - g,
        {
            proof {
                let upto = groups.subrange(0, g + 1);
                assert(upto.drop_last() =~= groups.subrange(0, g as int));
                assert(upto[best as int] == groups[best as int]);
                assert(upto.last() == groups[g as int]);
                assert(self.inner@[g as int]@ == groups[g as int]);
                assert(self.inner@[best as int]@ == groups[best as int]);
            }
            if self.inner[g].len() > self.inner[best].len() {
                best = g;
            }
            g += 1;
        }
        proof {
            assert(groups.subrange(0, g as int) =~= groups);
            lemma_first_longest(groups);
        }
        let chunks = self.inner.remove(best);
        proof {
            lemma_remove_keeps_wf(groups, best as int);
            assert(self@ =~= groups.remove(best as int));
            assert(chunks@ == groups[best as int]);
            assert(groups[best as int].len() > 0);
        }
        Some(chunks)
    }
}

impl Default for ChunkAccumulator {
    fn default() -> (accumulator: ChunkAccumulator)
        ensures
            accumulator.wf(),
            accumulator@.len() == 0,
    {
        ChunkAccumulator::new()
    }
}

/// Chunks that cannot be merged are never in the same group.
pub proof fn lemma_groups_never_mix(accumulator: ChunkAccumulator, g: int, i: int, j: int)
    requires
        accumulator.wf(),
        0 <= g < accumulator@.len(),
        0 <= i < accumulator@[g].len(),
        0 <= j < accumulator@[g].len(),
    ensures
        accumulator@[g][i].group() == accumulator@[g][j].group(),
{
    assert(uniform(accumulator@[g]));
    assert(accumulator@[g][i].group() == accumulator@[g][0].group());
    assert(accumulator@[g][j].group() == accumulator@[g][0].group());
}

} // verus!

//! What the operations compute, stated on sets of vectors.

use crate::tree::Vector;
use vstd::prelude::*;

verus! {

/// Whether `s` holds no vector.
pub open spec fn is_empty(s: Set<Vector>) -> bool {
    forall|x: Vector| !s.contains(x)
}

/// The vectors that follow the value `v` in `s`: `{ x | v x in s }`.
pub open spec fn after(s: Set<Vector>, v: u32) -> Set<Vector> {
    Set::new(|x: Vector| s.contains(seq![v] + x))
}

/// The vectors of `s` without their first value: `{ x | v x in s for some v }`.
pub open spec fn tails(s: Set<Vector>) -> Set<Vector> {
    Set::new(|x: Vector| exists|v: u32| s.contains(#[trigger] (seq![v] + x)))
}

/// The projection of the vector `x` that `tags` asks for: position `i` of `x`
/// is kept when `tags[i]` is 1, and dropped when `tags[i]` is another value or
/// `i` lies beyond the tags.
pub open spec fn project_vector(x: Vector, tags: Seq<u32>) -> Vector
    decreases tags.len(),
{
    if tags.len() == 0 || x.len() == 0 {
        Seq::empty()
    } else if tags[0] == 1 {
        seq![x[0]] + project_vector(x.drop_first(), tags.drop_first())
    } else {
        project_vector(x.drop_first(), tags.drop_first())
    }
}

/// The projections of the vectors of `s`.
pub open spec fn project_set(s: Set<Vector>, tags: Seq<u32>) -> Set<Vector> {
    Set::new(|y: Vector| exists|x: Vector| s.contains(x) && #[trigger] project_vector(x, tags) == y)
}

/// Whether `out` is reached in one step of the relation `rel` from a vector
/// of `set`, where `meta` says level by level what the relation does, and
/// `reads` holds the values that are read at the levels that are read and
/// written:
///
/// - 0: the relation is silent on the level, and the value is carried over;
/// - 1: the relation reads the level: the value must be one that the
///   relation has there, and is carried over;
/// - 2: the relation writes the level: the value is replaced by one that the
///   relation has there, whatever it was;
/// - 3, followed by 4: the relation reads and writes the level: the value
///   must be one that the relation reads (3), the next of `reads`, and is
///   replaced by one that the relation writes after that (4).
///
/// A level of the relation stands for each tag but 0, and a level of the set
/// for each tag but 4. Beyond the last tag the vector is carried over as it
/// is. Before that, a relation without vectors reaches nothing.
pub open spec fn reaches(
    set: Set<Vector>,
    rel: Set<Vector>,
    meta: Seq<u32>,
    out: Vector,
    reads: Seq<u32>,
) -> bool
    decreases meta.len(),
{
    if meta.len() == 0 {
        set.contains(out) && reads.len() == 0
    } else if is_empty(rel) {
        false
    } else if meta[0] == 3 {
        reads.len() > 0 && !is_empty(after(rel, reads[0])) && reaches(
            after(set, reads[0]),
            after(rel, reads[0]),
            meta.drop_first(),
            out,
            reads.drop_first(),
        )
    } else if out.len() == 0 {
        false
    } else if meta[0] == 0 {
        reaches(after(set, out[0]), rel, meta.drop_first(), out.drop_first(), reads)
    } else if is_empty(after(rel, out[0])) {
        false
    } else if meta[0] == 1 {
        reaches(
            after(set, out[0]),
            after(rel, out[0]),
            meta.drop_first(),
            out.drop_first(),
            reads,
        )
    } else if meta[0] == 2 {
        reaches(tails(set), after(rel, out[0]), meta.drop_first(), out.drop_first(), reads)
    } else if meta[0] == 4 {
        reaches(set, after(rel, out[0]), meta.drop_first(), out.drop_first(), reads)
    } else {
        false
    }
}

/// Whether `out` is reached in one step of the relation `rel` from a vector
/// of `set`, for some values read at the levels that are read and written.
pub open spec fn image_contains(
    set: Set<Vector>,
    rel: Set<Vector>,
    meta: Seq<u32>,
    out: Vector,
) -> bool {
    exists|reads: Seq<u32>| reaches(set, rel, meta, out, reads)
}

/// The image of `set` under the relation `rel` with the level tags `meta`.
pub open spec fn image(set: Set<Vector>, rel: Set<Vector>, meta: Seq<u32>) -> Set<Vector> {
    Set::new(|out: Vector| image_contains(set, rel, meta, out))
}

/// The number of positions that `tags` keeps: the length of the projection
/// of a vector that is as long as the tags at least.
pub open spec fn kept(tags: Seq<u32>) -> nat
    decreases tags.len(),
{
    if tags.len() == 0 {
        0
    } else if tags[0] == 1 {
        1 + kept(tags.drop_first())
    } else {
        kept(tags.drop_first())
    }
}

/// Whether every tag is 0 or 1, as projection asks.
pub open spec fn projection_tags(tags: Seq<u32>) -> bool {
    forall|i: int| 0 <= i < tags.len() ==> #[trigger] tags[i] <= 1
}

/// The smallest number above every index: 0 for no index, else the largest
/// index and one.
pub open spec fn span(indices: Seq<u32>) -> nat
    decreases indices.len(),
{
    if indices.len() == 0 {
        0
    } else if indices.last() + 1 > span(indices.drop_last()) {
        (indices.last() + 1) as nat
    } else {
        span(indices.drop_last())
    }
}

/// The tags of a projection onto `indices`: one tag for each position below
/// the span of the indices, 1 where the position is one of them, else 0.
pub open spec fn tags_of(indices: Seq<u32>) -> Seq<u32> {
    Seq::new(
        span(indices),
        |i: int|
            if exists|k: int| 0 <= k < indices.len() && indices[k] == i {
                1u32
            } else {
                0u32
            },
    )
}

/// The projection of a vector that is as long as the tags has as many
/// values as the tags keep.
pub proof fn lemma_projection_length(x: Vector, tags: Seq<u32>)
    requires
        x.len() >= tags.len(),
    ensures
        project_vector(x, tags).len() == kept(tags),
    decreases tags.len(),
{
    if tags.len() > 0 {
        lemma_projection_length(x.drop_first(), tags.drop_first());
    }
}

/// Whether every tag is one of 0 to 4, as a relation asks.
pub open spec fn relation_tags(tags: Seq<u32>) -> bool {
    forall|i: int| 0 <= i < tags.len() ==> #[trigger] tags[i] <= 4
}

/// The number of levels of the set that the tags speak of: one for each tag
/// but 4.
pub open spec fn source_levels(tags: Seq<u32>) -> nat
    decreases tags.len(),
{
    if tags.len() == 0 {
        0
    } else if tags[0] == 4 {
        source_levels(tags.drop_first())
    } else {
        1 + source_levels(tags.drop_first())
    }
}

/// The number of levels of the relation that the tags speak of: one for
/// each tag but 0.
pub open spec fn relation_levels(tags: Seq<u32>) -> nat
    decreases tags.len(),
{
    if tags.len() == 0 {
        0
    } else if tags[0] == 0 {
        relation_levels(tags.drop_first())
    } else {
        1 + relation_levels(tags.drop_first())
    }
}

/// The length of the vectors of an image, for a set of vectors of the
/// length `length`: a tag 3 takes a value away, and a tag 4 adds one.
pub open spec fn image_length(length: int, tags: Seq<u32>) -> int
    decreases tags.len(),
{
    if tags.len() == 0 {
        length
    } else if tags[0] == 3 {
        image_length(length - 1, tags.drop_first())
    } else if tags[0] == 4 {
        image_length(length, tags.drop_first()) + 1
    } else {
        image_length(length - 1, tags.drop_first()) + 1
    }
}

/// The tags of a relation that reads the levels `read` and writes the levels
/// `write`: level by level, below the span of all of them, 3 and then 4 for a
/// level that is read and written, 1 for one that is read, 2 for one that is
/// written, and 0 for any other.
pub open spec fn meta_of(read: Seq<u32>, write: Seq<u32>) -> Seq<u32> {
    meta_upto(read, write, if span(read) > span(write) { span(read) } else { span(write) })
}

/// The tags of a relation for the levels below `level`.
pub open spec fn meta_upto(read: Seq<u32>, write: Seq<u32>, level: nat) -> Seq<u32>
    decreases level,
{
    if level == 0 {
        Seq::empty()
    } else {
        meta_upto(read, write, (level - 1) as nat) + level_tags(read, write, (level - 1) as nat)
    }
}

/// The tags of a relation for the level `level`.
pub open spec fn level_tags(read: Seq<u32>, write: Seq<u32>, level: nat) -> Seq<u32> {
    let is_read = exists|k: int| 0 <= k < read.len() && read[k] == level;
    let is_written = exists|k: int| 0 <= k < write.len() && write[k] == level;
    if is_read && is_written {
        seq![3u32, 4u32]
    } else if is_read {
        seq![1u32]
    } else if is_written {
        seq![2u32]
    } else {
        seq![0u32]
    }
}

} // verus!

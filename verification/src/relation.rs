//! How the image under a relation descends through canonical terms.
//!
//! The lemmas of this module do for the relational product what those of
//! the module `algebra` do for union, difference and projection: they take
//! the terms at hand at one level, with what is known of the images below and
//! to the right, and conclude what the term built at that level stands for.

use crate::algebra::compatible;
use crate::semantics::{after, image, image_contains, image_length, is_empty, reaches, tails};
use crate::tree::{
    canonical, contains, denote, first_vector, height, lemma_first_vector, lemma_head_bound,
    lemma_node_canonical, lemma_node_split, lemma_right_bound, lemma_uniform_length, node, Tree,
    Vector,
};
use vstd::prelude::*;

verus! {

/// Whether every vector of `s` has the length `n`.
pub open spec fn uniform(s: Set<Vector>, n: int) -> bool {
    forall|x: Vector| s.contains(x) ==> x.len() == n
}

/// The vectors of a canonical term have its height as their length.
pub proof fn lemma_uniform(t: Tree)
    requires
        canonical(t),
    ensures
        uniform(denote(t), height(t) as int),
{
    assert forall|x: Vector| denote(t).contains(x) implies x.len() == height(t) by {
        lemma_uniform_length(t, x);
    }
}

/// What follows a value in a set of vectors of one length is a set of
/// vectors that are shorter by one, and so are the tails.
pub proof fn lemma_uniform_after(s: Set<Vector>, n: int, v: u32)
    requires
        uniform(s, n),
    ensures
        uniform(after(s, v), n - 1),
        uniform(tails(s), n - 1),
{
    assert forall|x: Vector| after(s, v).contains(x) implies x.len() == n - 1 by {
        assert(s.contains(seq![v] + x));
        assert((seq![v] + x).len() == x.len() + 1);
    }
    assert forall|x: Vector| tails(s).contains(x) implies x.len() == n - 1 by {
        let u = choose|u: u32| s.contains(#[trigger] (seq![u] + x));
        assert(s.contains(seq![u] + x));
        assert((seq![u] + x).len() == x.len() + 1);
    }
}

/// A canonical term other than the empty set has a vector.
pub proof fn lemma_nonempty(t: Tree)
    requires
        canonical(t),
        t != Tree::False,
    ensures
        !is_empty(denote(t)),
{
    lemma_first_vector(t);
    assert(denote(t).contains(first_vector(t)));
}

/// What follows the value of a node in its set is the set below the node.
pub proof fn lemma_after_down(t: Tree)
    requires
        canonical(t),
        t is Node,
    ensures
        after(denote(t), t.value()) == denote(t.down()),
{
    assert forall|x: Vector| after(denote(t), t.value()).contains(x) <==> denote(
        t.down(),
    ).contains(x) by {
        let y = seq![t.value()] + x;
        assert(y.drop_first() =~= x);
        lemma_node_split(t, y);
        assert(denote(t).contains(y) == contains(t, y));
    }
    assert(after(denote(t), t.value()) =~= denote(t.down()));
}

/// What follows another value than that of a node in its set is what
/// follows it in the set to the right of the node.
pub proof fn lemma_after_right(t: Tree, v: u32)
    requires
        canonical(t),
        t is Node,
        v != t.value(),
    ensures
        after(denote(t), v) == after(denote(t.right()), v),
{
    assert forall|x: Vector| after(denote(t), v).contains(x) <==> after(
        denote(t.right()),
        v,
    ).contains(x) by {
        let y = seq![v] + x;
        lemma_node_split(t, y);
        assert(denote(t).contains(y) == contains(t, y));
        assert(denote(t.right()).contains(y) == contains(t.right(), y));
    }
    assert(after(denote(t), v) =~= after(denote(t.right()), v));
}

/// Nothing follows a value that is below the value of a node, nor any
/// value in the set of a constant.
pub proof fn lemma_after_nothing(t: Tree, v: u32)
    requires
        canonical(t),
        t is Node ==> v < t.value(),
    ensures
        is_empty(after(denote(t), v)),
{
    assert forall|x: Vector| !after(denote(t), v).contains(x) by {
        let y = seq![v] + x;
        assert(denote(t).contains(y) == contains(t, y));
        if contains(t, y) && t is Node {
            lemma_head_bound(t, y);
        }
    }
}

/// Nothing follows the value of a node, or a smaller one, to the right of
/// the node.
pub proof fn lemma_after_beside(t: Tree, v: u32)
    requires
        canonical(t),
        t is Node,
        v <= t.value(),
    ensures
        is_empty(after(denote(t.right()), v)),
{
    assert forall|x: Vector| !after(denote(t.right()), v).contains(x) by {
        let y = seq![v] + x;
        assert(denote(t.right()).contains(y) == contains(t.right(), y));
        if contains(t.right(), y) {
            lemma_right_bound(t, y);
        }
    }
}

/// The tails of the set of a node are the vectors below the node and the
/// tails of the set to its right.
pub proof fn lemma_tails_node(t: Tree)
    requires
        canonical(t),
        t is Node,
    ensures
        tails(denote(t)) == denote(t.down()).union(tails(denote(t.right()))),
{
    assert forall|x: Vector| tails(denote(t)).contains(x) <==> denote(t.down()).union(
        tails(denote(t.right())),
    ).contains(x) by {
        if tails(denote(t)).contains(x) {
            let u = choose|u: u32| denote(t).contains(#[trigger] (seq![u] + x));
            let y = seq![u] + x;
            assert(y.drop_first() =~= x);
            lemma_node_split(t, y);
            assert(denote(t).contains(y) == contains(t, y));
            if u != t.value() {
                assert(denote(t.right()).contains(seq![u] + x));
            }
        }
        if denote(t.down()).contains(x) {
            let y = seq![t.value()] + x;
            assert(y.drop_first() =~= x);
            assert(contains(t, y));
            assert(denote(t).contains(seq![t.value()] + x));
        }
        if tails(denote(t.right())).contains(x) {
            let u = choose|u: u32| denote(t.right()).contains(#[trigger] (seq![u] + x));
            assert(contains(t, seq![u] + x));
            assert(denote(t).contains(seq![u] + x));
        }
    }
    assert(tails(denote(t)) =~= denote(t.down()).union(tails(denote(t.right()))));
}

/// The empty set has no tails.
pub proof fn lemma_tails_nothing()
    ensures
        tails(denote(Tree::False)) == denote(Tree::False),
{
    assert forall|x: Vector| !tails(denote(Tree::False)).contains(x) by {
        if tails(denote(Tree::False)).contains(x) {
            let u = choose|u: u32| denote(Tree::False).contains(#[trigger] (seq![u] + x));
        }
    }
    assert(tails(denote(Tree::False)) =~= denote(Tree::False));
}

/// Nothing follows any value in a set without vectors, and it has no tails.
pub proof fn lemma_nothing_follows(set: Set<Vector>)
    requires
        is_empty(set),
    ensures
        forall|v: u32| is_empty(#[trigger] after(set, v)),
        is_empty(tails(set)),
{
    assert forall|v: u32| is_empty(#[trigger] after(set, v)) by {
        assert forall|x: Vector| !after(set, v).contains(x) by {
            assert(!set.contains(seq![v] + x));
        }
    }
    assert forall|x: Vector| !tails(set).contains(x) by {
        if tails(set).contains(x) {
            let u = choose|u: u32| set.contains(#[trigger] (seq![u] + x));
            assert(set.contains(seq![u] + x));
        }
    }
}

/// Nothing is reached from the empty set.
pub proof fn lemma_reaches_nothing(
    set: Set<Vector>,
    rel: Set<Vector>,
    meta: Seq<u32>,
    out: Vector,
    reads: Seq<u32>,
)
    requires
        is_empty(set),
    ensures
        !reaches(set, rel, meta, out, reads),
    decreases meta.len(),
{
    if meta.len() > 0 && !is_empty(rel) {
        let rest = meta.drop_first();
        lemma_nothing_follows(set);
        if meta[0] == 3 {
            if reads.len() > 0 {
                lemma_reaches_nothing(
                    after(set, reads[0]),
                    after(rel, reads[0]),
                    rest,
                    out,
                    reads.drop_first(),
                );
            }
        } else if out.len() > 0 {
            if meta[0] == 0 {
                lemma_reaches_nothing(after(set, out[0]), rel, rest, out.drop_first(), reads);
            } else if meta[0] == 1 {
                lemma_reaches_nothing(
                    after(set, out[0]),
                    after(rel, out[0]),
                    rest,
                    out.drop_first(),
                    reads,
                );
            } else if meta[0] == 2 {
                lemma_reaches_nothing(tails(set), after(rel, out[0]), rest, out.drop_first(), reads);
            } else if meta[0] == 4 {
                lemma_reaches_nothing(set, after(rel, out[0]), rest, out.drop_first(), reads);
            }
        }
    }
}

/// Nothing is reached from the empty set.
pub proof fn lemma_image_of_nothing(set: Set<Vector>, rel: Set<Vector>, meta: Seq<u32>, out: Vector)
    requires
        is_empty(set),
    ensures
        !image_contains(set, rel, meta, out),
{
    assert forall|reads: Seq<u32>| !reaches(set, rel, meta, out, reads) by {
        lemma_reaches_nothing(set, rel, meta, out, reads);
    }
}

/// The vectors that are reached from a set of vectors of one length have
/// one length, which the tags give.
pub proof fn lemma_reaches_length(
    set: Set<Vector>,
    rel: Set<Vector>,
    meta: Seq<u32>,
    out: Vector,
    reads: Seq<u32>,
    length: int,
)
    requires
        uniform(set, length),
        reaches(set, rel, meta, out, reads),
    ensures
        out.len() == image_length(length, meta),
    decreases meta.len(),
{
    if meta.len() > 0 {
        let rest = meta.drop_first();
        if meta[0] == 3 {
            lemma_uniform_after(set, length, reads[0]);
            lemma_reaches_length(
                after(set, reads[0]),
                after(rel, reads[0]),
                rest,
                out,
                reads.drop_first(),
                length - 1,
            );
        } else {
            lemma_uniform_after(set, length, out[0]);
            if meta[0] == 0 {
                lemma_reaches_length(
                    after(set, out[0]),
                    rel,
                    rest,
                    out.drop_first(),
                    reads,
                    length - 1,
                );
            } else if meta[0] == 1 {
                lemma_reaches_length(
                    after(set, out[0]),
                    after(rel, out[0]),
                    rest,
                    out.drop_first(),
                    reads,
                    length - 1,
                );
            } else if meta[0] == 2 {
                lemma_reaches_length(
                    tails(set),
                    after(rel, out[0]),
                    rest,
                    out.drop_first(),
                    reads,
                    length - 1,
                );
            } else {
                lemma_reaches_length(set, after(rel, out[0]), rest, out.drop_first(), reads, length);
            }
        }
    }
}

/// The vectors that are reached from a set of vectors of one length have
/// one length, which the tags give.
pub proof fn lemma_image_length(
    set: Set<Vector>,
    rel: Set<Vector>,
    meta: Seq<u32>,
    out: Vector,
    length: int,
)
    requires
        uniform(set, length),
        image_contains(set, rel, meta, out),
    ensures
        out.len() == image_length(length, meta),
{
    let reads = choose|reads: Seq<u32>| reaches(set, rel, meta, out, reads);
    lemma_reaches_length(set, rel, meta, out, reads, length);
}

/// A canonical term that stands for an image, and is not the empty set, is
/// as high as the vectors of the image are long.
pub proof fn lemma_image_height(
    set: Set<Vector>,
    rel: Set<Vector>,
    meta: Seq<u32>,
    length: int,
    result: Tree,
)
    requires
        uniform(set, length),
        canonical(result),
        result != Tree::False,
        denote(result) == image(set, rel, meta),
    ensures
        height(result) == image_length(length, meta),
{
    lemma_first_vector(result);
    let x = first_vector(result);
    assert(denote(result).contains(x));
    lemma_image_length(set, rel, meta, x, length);
    lemma_uniform_length(result, x);
}

/// A set in which something follows a value is not empty.
pub proof fn lemma_witness(s: Set<Vector>, v: u32)
    requires
        !is_empty(after(s, v)),
    ensures
        !is_empty(s),
{
    let x = choose|x: Vector| after(s, v).contains(x);
    assert(s.contains(seq![v] + x));
}

/// Puts a node together from the images below it and to its right: where
/// the vectors to the right start above the node's value, and those below are
/// shorter by one, the node is canonical.
pub proof fn lemma_image_node(
    value: u32,
    down: Tree,
    right: Tree,
    below: Set<Vector>,
    below_rel: Set<Vector>,
    below_meta: Seq<u32>,
    below_length: int,
    beside: Set<Vector>,
    beside_rel: Set<Vector>,
    beside_meta: Seq<u32>,
    beside_length: int,
)
    requires
        canonical(down),
        canonical(right),
        down != Tree::False,
        denote(down) == image(below, below_rel, below_meta),
        denote(right) == image(beside, beside_rel, beside_meta),
        uniform(below, below_length),
        uniform(beside, beside_length),
        image_length(beside_length, beside_meta) == image_length(below_length, below_meta) + 1,
        forall|x: Vector| #[trigger] contains(right, x) ==> x.len() > 0 && x[0] > value,
    ensures
        canonical(node(value, down, right)),
{
    lemma_image_height(below, below_rel, below_meta, below_length, down);
    assert forall|x: Vector| #[trigger] contains(right, x) implies x.len() == height(down) + 1
        && x[0] > value by {
        assert(denote(right).contains(x));
        lemma_image_length(beside, beside_rel, beside_meta, x, beside_length);
    }
    lemma_node_canonical(value, down, right);
}

/// From what is reached level by level to the set of a node: where a vector
/// is reached if it starts with `value` and its rest is reached below, or if
/// it is reached beside, the image is the set of the node of `value` with the
/// image below under it and the image beside to its right.
pub proof fn lemma_image_parts(
    set: Set<Vector>,
    rel: Set<Vector>,
    meta: Seq<u32>,
    value: u32,
    below: Set<Vector>,
    below_rel: Set<Vector>,
    beside: Set<Vector>,
    beside_rel: Set<Vector>,
    down: Tree,
    right: Tree,
)
    requires
        meta.len() > 0,
        forall|x: Vector, reads: Seq<u32>| #[trigger]
            reaches(set, rel, meta, x, reads) <==> (x.len() > 0 && x[0] == value && reaches(
                below,
                below_rel,
                meta.drop_first(),
                x.drop_first(),
                reads,
            )) || reaches(beside, beside_rel, meta, x, reads),
        denote(down) == image(below, below_rel, meta.drop_first()),
        denote(right) == image(beside, beside_rel, meta),
    ensures
        down == Tree::False ==> denote(right) == image(set, rel, meta),
        denote(node(value, down, right)) == image(set, rel, meta),
{
    let rest = meta.drop_first();
    let whole = image(set, rel, meta);
    let result = node(value, down, right);
    assert forall|x: Vector| whole.contains(x) <==> (x.len() > 0 && x[0] == value && contains(
        down,
        x.drop_first(),
    )) || contains(right, x) by {
        assert(denote(right).contains(x) == contains(right, x));
        if x.len() > 0 {
            assert(denote(down).contains(x.drop_first()) == contains(down, x.drop_first()));
        }
        if whole.contains(x) {
            let reads = choose|reads: Seq<u32>| reaches(set, rel, meta, x, reads);
            assert(reaches(set, rel, meta, x, reads));
        }
        if x.len() > 0 && x[0] == value && contains(down, x.drop_first()) {
            let reads = choose|reads: Seq<u32>| reaches(below, below_rel, rest, x.drop_first(), reads);
            assert(reaches(set, rel, meta, x, reads));
        }
        if contains(right, x) {
            let reads = choose|reads: Seq<u32>| reaches(beside, beside_rel, meta, x, reads);
            assert(reaches(set, rel, meta, x, reads));
        }
    }
    assert forall|x: Vector| denote(result).contains(x) <==> whole.contains(x) by {
        assert(denote(result).contains(x) == contains(result, x));
    }
    assert(denote(result) =~= whole);
    if down == Tree::False {
        assert(denote(right) =~= whole);
    }
}

/// From what is reached to the image: where the same vectors are reached
/// from two sets by two relations, with the same values read, the images
/// are the same.
pub proof fn lemma_image_same(
    set: Set<Vector>,
    rel: Set<Vector>,
    other_set: Set<Vector>,
    other_rel: Set<Vector>,
    meta: Seq<u32>,
)
    requires
        forall|x: Vector, reads: Seq<u32>| #[trigger]
            reaches(set, rel, meta, x, reads) <==> reaches(other_set, other_rel, meta, x, reads),
    ensures
        image(set, rel, meta) == image(other_set, other_rel, meta),
{
    assert forall|x: Vector| image(set, rel, meta).contains(x) <==> image(
        other_set,
        other_rel,
        meta,
    ).contains(x) by {
        if image(set, rel, meta).contains(x) {
            let reads = choose|reads: Seq<u32>| reaches(set, rel, meta, x, reads);
            assert(reaches(other_set, other_rel, meta, x, reads));
        }
        if image(other_set, other_rel, meta).contains(x) {
            let reads = choose|reads: Seq<u32>| reaches(other_set, other_rel, meta, x, reads);
            assert(reaches(set, rel, meta, x, reads));
        }
    }
    assert(image(set, rel, meta) =~= image(other_set, other_rel, meta));
}

/// The vectors of an image of what is to the right of a node start above
/// the node's value, at a level where the value is carried over.
pub proof fn lemma_image_beside(s: Tree, rel: Set<Vector>, meta: Seq<u32>, right: Tree)
    requires
        canonical(s),
        s is Node,
        meta.len() > 0,
        meta[0] == 0 || meta[0] == 1,
        canonical(right),
        denote(right) == image(denote(s.right()), rel, meta),
    ensures
        forall|x: Vector| #[trigger] contains(right, x) ==> x.len() > 0 && x[0] > s.value(),
        right != Tree::False ==> s.right() != Tree::False,
{
    assert forall|x: Vector| #[trigger] contains(right, x) implies x.len() > 0 && x[0] > s.value()
        && s.right() != Tree::False by {
        assert(denote(right).contains(x));
        let reads = choose|reads: Seq<u32>| reaches(denote(s.right()), rel, meta, x, reads);
        if x[0] <= s.value() {
            lemma_after_beside(s, x[0]);
            if meta[0] == 0 {
                lemma_reaches_nothing(
                    after(denote(s.right()), x[0]),
                    rel,
                    meta.drop_first(),
                    x.drop_first(),
                    reads,
                );
            } else {
                lemma_reaches_nothing(
                    after(denote(s.right()), x[0]),
                    after(rel, x[0]),
                    meta.drop_first(),
                    x.drop_first(),
                    reads,
                );
            }
        }
        if s.right() == Tree::False {
            lemma_reaches_nothing(denote(s.right()), rel, meta, x, reads);
        }
    }
    if right != Tree::False {
        lemma_first_vector(right);
    }
}

/// The vectors of an image under what is to the right of a node of the
/// relation start above that node's value, at a level that is written.
pub proof fn lemma_image_written_beside(set: Set<Vector>, r: Tree, meta: Seq<u32>, right: Tree)
    requires
        canonical(r),
        r is Node,
        meta.len() > 0,
        meta[0] == 1 || meta[0] == 2 || meta[0] == 4,
        denote(right) == image(set, denote(r.right()), meta),
    ensures
        forall|x: Vector| #[trigger] contains(right, x) ==> x.len() > 0 && x[0] > r.value(),
{
    assert forall|x: Vector| #[trigger] contains(right, x) implies x.len() > 0 && x[0]
        > r.value() by {
        assert(denote(right).contains(x));
        let reads = choose|reads: Seq<u32>| reaches(set, denote(r.right()), meta, x, reads);
        if x[0] <= r.value() {
            lemma_after_beside(r, x[0]);
        }
    }
}

/// The image at a level on which the relation is silent: the value of the
/// node is carried over to the image of what is below it, and beside it
/// stands the image of what is to the right of the node.
pub proof fn lemma_image_silent(s: Tree, rel: Tree, meta: Seq<u32>, down: Tree, right: Tree)
    requires
        canonical(s),
        s is Node,
        canonical(rel),
        rel != Tree::False,
        meta.len() > 0,
        meta[0] == 0,
        canonical(down),
        canonical(right),
        denote(down) == image(denote(s.down()), denote(rel), meta.drop_first()),
        denote(right) == image(denote(s.right()), denote(rel), meta),
    ensures
        down == Tree::False ==> denote(right) == image(denote(s), denote(rel), meta),
        down != Tree::False ==> canonical(node(s.value(), down, right)) && denote(
            node(s.value(), down, right),
        ) == image(denote(s), denote(rel), meta),
{
    let rest = meta.drop_first();
    lemma_nonempty(rel);
    lemma_after_down(s);
    assert forall|x: Vector, reads: Seq<u32>| #[trigger]
        reaches(denote(s), denote(rel), meta, x, reads) <==> (x.len() > 0 && x[0] == s.value()
            && reaches(denote(s.down()), denote(rel), rest, x.drop_first(), reads)) || reaches(
            denote(s.right()),
            denote(rel),
            meta,
            x,
            reads,
        ) by {
        if x.len() > 0 {
            if x[0] != s.value() {
                lemma_after_right(s, x[0]);
            } else {
                lemma_after_beside(s, x[0]);
                lemma_reaches_nothing(
                    after(denote(s.right()), x[0]),
                    denote(rel),
                    rest,
                    x.drop_first(),
                    reads,
                );
            }
        }
    }
    lemma_image_parts(
        denote(s),
        denote(rel),
        meta,
        s.value(),
        denote(s.down()),
        denote(rel),
        denote(s.right()),
        denote(rel),
        down,
        right,
    );
    if down != Tree::False {
        lemma_image_beside(s, denote(rel), meta, right);
        lemma_uniform(s.down());
        lemma_uniform(s.right());
        if right == Tree::False {
            assert(canonical(node(s.value(), down, right)));
        } else {
            lemma_image_node(
                s.value(),
                down,
                right,
                denote(s.down()),
                denote(rel),
                rest,
                height(s.down()) as int,
                denote(s.right()),
                denote(rel),
                meta,
                height(s.right()) as int,
            );
        }
    }
}

/// The image at a level that the relation reads or reads and writes, where
/// the value of the set is below the value of the relation: the relation has
/// nothing for the node of the set.
pub proof fn lemma_image_read_below(s: Tree, r: Tree, meta: Seq<u32>)
    requires
        canonical(s),
        s is Node,
        canonical(r),
        r is Node,
        meta.len() > 0,
        meta[0] == 1 || meta[0] == 3,
        s.value() < r.value(),
    ensures
        image(denote(s.right()), denote(r), meta) == image(denote(s), denote(r), meta),
{
    let v = s.value();
    lemma_nonempty(r);
    lemma_after_nothing(r, v);
    assert forall|x: Vector, reads: Seq<u32>| #[trigger]
        reaches(denote(s.right()), denote(r), meta, x, reads) <==> reaches(
            denote(s),
            denote(r),
            meta,
            x,
            reads,
        ) by {
        if meta[0] == 1 {
            if x.len() > 0 && x[0] != v {
                lemma_after_right(s, x[0]);
            }
        } else {
            if reads.len() > 0 && reads[0] != v {
                lemma_after_right(s, reads[0]);
            }
        }
    }
    lemma_image_same(denote(s.right()), denote(r), denote(s), denote(r), meta);
}

/// The image at a level that the relation reads or reads and writes, where
/// the value of the set is above the value of the relation: the set has
/// nothing for the node of the relation.
pub proof fn lemma_image_read_above(s: Tree, r: Tree, meta: Seq<u32>)
    requires
        canonical(s),
        s is Node,
        canonical(r),
        r is Node,
        meta.len() > 0,
        meta[0] == 1 || meta[0] == 3,
        s.value() > r.value(),
    ensures
        image(denote(s), denote(r.right()), meta) == image(denote(s), denote(r), meta),
{
    let rest = meta.drop_first();
    let w = r.value();
    lemma_nonempty(r);
    lemma_after_nothing(s, w);
    lemma_after_beside(r, w);
    assert forall|x: Vector, reads: Seq<u32>| #[trigger]
        reaches(denote(s), denote(r.right()), meta, x, reads) <==> reaches(
            denote(s),
            denote(r),
            meta,
            x,
            reads,
        ) by {
        let u = if meta[0] == 1 {
            if x.len() > 0 {
                x[0]
            } else {
                w
            }
        } else {
            if reads.len() > 0 {
                reads[0]
            } else {
                w
            }
        };
        if u != w {
            lemma_after_right(r, u);
            if !is_empty(after(denote(r.right()), u)) {
                lemma_witness(denote(r.right()), u);
            }
        } else {
            if meta[0] == 1 {
                if x.len() > 0 {
                    lemma_reaches_nothing(
                        after(denote(s), w),
                        after(denote(r), w),
                        rest,
                        x.drop_first(),
                        reads,
                    );
                }
            } else {
                if reads.len() > 0 {
                    lemma_reaches_nothing(
                        after(denote(s), w),
                        after(denote(r), w),
                        rest,
                        x,
                        reads.drop_first(),
                    );
                }
            }
        }
    }
    lemma_image_same(denote(s), denote(r.right()), denote(s), denote(r), meta);
}

/// The image at a level that the relation reads, where the set and the
/// relation have the same value: the value is carried over to the image of
/// what is below the two nodes, and beside it stands the image of what is to
/// their right.
pub proof fn lemma_image_read_level(s: Tree, r: Tree, meta: Seq<u32>, down: Tree, right: Tree)
    requires
        canonical(s),
        s is Node,
        canonical(r),
        r is Node,
        meta.len() > 0,
        meta[0] == 1,
        s.value() == r.value(),
        canonical(down),
        canonical(right),
        denote(down) == image(denote(s.down()), denote(r.down()), meta.drop_first()),
        denote(right) == image(denote(s.right()), denote(r.right()), meta),
    ensures
        down == Tree::False ==> denote(right) == image(denote(s), denote(r), meta),
        down != Tree::False ==> canonical(node(s.value(), down, right)) && denote(
            node(s.value(), down, right),
        ) == image(denote(s), denote(r), meta),
{
    let rest = meta.drop_first();
    let v = s.value();
    lemma_nonempty(r);
    lemma_nonempty(r.down());
    lemma_after_down(s);
    lemma_after_down(r);
    assert forall|x: Vector, reads: Seq<u32>| #[trigger]
        reaches(denote(s), denote(r), meta, x, reads) <==> (x.len() > 0 && x[0] == v && reaches(
            denote(s.down()),
            denote(r.down()),
            rest,
            x.drop_first(),
            reads,
        )) || reaches(denote(s.right()), denote(r.right()), meta, x, reads) by {
        if x.len() > 0 {
            if x[0] != v {
                lemma_after_right(s, x[0]);
                lemma_after_right(r, x[0]);
                if !is_empty(after(denote(r.right()), x[0])) {
                    lemma_witness(denote(r.right()), x[0]);
                }
            } else {
                lemma_after_beside(r, x[0]);
            }
        }
    }
    lemma_image_parts(
        denote(s),
        denote(r),
        meta,
        v,
        denote(s.down()),
        denote(r.down()),
        denote(s.right()),
        denote(r.right()),
        down,
        right,
    );
    if down != Tree::False {
        lemma_image_beside(s, denote(r.right()), meta, right);
        lemma_uniform(s.down());
        lemma_uniform(s.right());
        if right == Tree::False {
            assert(canonical(node(v, down, right)));
        } else {
            lemma_image_node(
                v,
                down,
                right,
                denote(s.down()),
                denote(r.down()),
                rest,
                height(s.down()) as int,
                denote(s.right()),
                denote(r.right()),
                meta,
                height(s.right()) as int,
            );
        }
    }
}

/// At the read of a level that is read and written, where the set and the
/// relation have the same value: what is reached below the two nodes is
/// reached from the two, with their value read first.
proof fn lemma_both_down(s: Tree, r: Tree, meta: Seq<u32>, x: Vector, reads: Seq<u32>)
    requires
        canonical(s),
        s is Node,
        canonical(r),
        r is Node,
        meta.len() > 0,
        meta[0] == 3,
        s.value() == r.value(),
        reaches(denote(s.down()), denote(r.down()), meta.drop_first(), x, reads),
    ensures
        reaches(denote(s), denote(r), meta, x, seq![s.value()] + reads),
{
    let longer = seq![s.value()] + reads;
    lemma_nonempty(r);
    lemma_nonempty(r.down());
    lemma_after_down(s);
    lemma_after_down(r);
    assert(longer.drop_first() =~= reads);
    assert(longer[0] == s.value());
}

/// At the read of a level that is read and written, where the set and the
/// relation have the same value: what is reached to the right of the two
/// nodes is reached from the two.
proof fn lemma_both_right(s: Tree, r: Tree, meta: Seq<u32>, x: Vector, reads: Seq<u32>)
    requires
        canonical(s),
        s is Node,
        canonical(r),
        r is Node,
        meta.len() > 0,
        meta[0] == 3,
        s.value() == r.value(),
        reaches(denote(s.right()), denote(r.right()), meta, x, reads),
    ensures
        reaches(denote(s), denote(r), meta, x, reads),
{
    let u = reads[0];
    lemma_nonempty(r);
    if u <= r.value() {
        lemma_after_beside(r, u);
    } else {
        lemma_after_right(s, u);
        lemma_after_right(r, u);
    }
}

/// At the read of a level that is read and written, where the set and the
/// relation have the same value: what is reached from the two is reached
/// below them, with their value read first, or to their right.
proof fn lemma_both_split(s: Tree, r: Tree, meta: Seq<u32>, x: Vector, reads: Seq<u32>)
    requires
        canonical(s),
        s is Node,
        canonical(r),
        r is Node,
        meta.len() > 0,
        meta[0] == 3,
        s.value() == r.value(),
        reaches(denote(s), denote(r), meta, x, reads),
    ensures
        reaches(denote(s.down()), denote(r.down()), meta.drop_first(), x, reads.drop_first())
            || reaches(denote(s.right()), denote(r.right()), meta, x, reads),
{
    let u = reads[0];
    if u != s.value() {
        lemma_after_right(s, u);
        lemma_after_right(r, u);
        lemma_witness(denote(r.right()), u);
    } else {
        lemma_after_down(s);
        lemma_after_down(r);
    }
}

/// At the read of a level that is read and written, where the set and the
/// relation have the same value: the terms of what is reached below the two
/// nodes and of what is reached to their right have one height.
proof fn lemma_both_heights(s: Tree, r: Tree, meta: Seq<u32>, down: Tree, right: Tree)
    requires
        canonical(s),
        s is Node,
        meta.len() > 0,
        meta[0] == 3,
        canonical(down),
        canonical(right),
        denote(down) == image(denote(s.down()), denote(r.down()), meta.drop_first()),
        denote(right) == image(denote(s.right()), denote(r.right()), meta),
    ensures
        compatible(down, right),
{
    if down != Tree::False && right != Tree::False {
        lemma_uniform(s.down());
        lemma_uniform(s.right());
        lemma_image_height(
            denote(s.down()),
            denote(r.down()),
            meta.drop_first(),
            height(s.down()) as int,
            down,
        );
        lemma_first_vector(right);
        let x = first_vector(right);
        assert(denote(right).contains(x));
        let reads = choose|reads: Seq<u32>|
            reaches(denote(s.right()), denote(r.right()), meta, x, reads);
        if s.right() == Tree::False {
            lemma_reaches_nothing(denote(s.right()), denote(r.right()), meta, x, reads);
        }
        lemma_image_height(
            denote(s.right()),
            denote(r.right()),
            meta,
            height(s.right()) as int,
            right,
        );
    }
}

/// The image at a level that the relation reads and writes, at the read,
/// where the set and the relation have the same value: the value is taken
/// away, and what is reached is what is reached below the two nodes and what
/// is reached to their right.
pub proof fn lemma_image_both_level(s: Tree, r: Tree, meta: Seq<u32>, down: Tree, right: Tree)
    requires
        canonical(s),
        s is Node,
        canonical(r),
        r is Node,
        meta.len() > 0,
        meta[0] == 3,
        s.value() == r.value(),
        canonical(down),
        canonical(right),
        denote(down) == image(denote(s.down()), denote(r.down()), meta.drop_first()),
        denote(right) == image(denote(s.right()), denote(r.right()), meta),
    ensures
        compatible(down, right),
        denote(down).union(denote(right)) == image(denote(s), denote(r), meta),
{
    let rest = meta.drop_first();
    let whole = image(denote(s), denote(r), meta);
    lemma_both_heights(s, r, meta, down, right);
    assert forall|x: Vector| whole.contains(x) <==> denote(down).union(denote(right)).contains(
        x,
    ) by {
        if denote(down).contains(x) {
            let reads = choose|reads: Seq<u32>|
                reaches(denote(s.down()), denote(r.down()), rest, x, reads);
            lemma_both_down(s, r, meta, x, reads);
        }
        if denote(right).contains(x) {
            let reads = choose|reads: Seq<u32>|
                reaches(denote(s.right()), denote(r.right()), meta, x, reads);
            lemma_both_right(s, r, meta, x, reads);
        }
        if whole.contains(x) {
            let reads = choose|reads: Seq<u32>| reaches(denote(s), denote(r), meta, x, reads);
            lemma_both_split(s, r, meta, x, reads);
        }
    }
    assert(denote(down).union(denote(right)) =~= whole);
}

/// The image at a level that the relation writes: each value of the
/// relation is put in front of the image of what the set hands down, which
/// is `below`: the tails of the set for a level that is only written, and the
/// set itself for the write that follows a read.
pub proof fn lemma_image_write(
    set: Set<Vector>,
    length: int,
    below: Set<Vector>,
    r: Tree,
    meta: Seq<u32>,
    down: Tree,
    right: Tree,
)
    requires
        uniform(set, length),
        canonical(r),
        r is Node,
        meta.len() > 0,
        meta[0] == 2 && below == tails(set) || meta[0] == 4 && below == set,
        canonical(down),
        canonical(right),
        denote(down) == image(below, denote(r.down()), meta.drop_first()),
        denote(right) == image(set, denote(r.right()), meta),
    ensures
        down == Tree::False ==> denote(right) == image(set, denote(r), meta),
        down != Tree::False ==> canonical(node(r.value(), down, right)) && denote(
            node(r.value(), down, right),
        ) == image(set, denote(r), meta),
{
    let rest = meta.drop_first();
    let w = r.value();
    lemma_nonempty(r);
    lemma_nonempty(r.down());
    lemma_after_down(r);
    assert forall|x: Vector, reads: Seq<u32>| #[trigger]
        reaches(set, denote(r), meta, x, reads) <==> (x.len() > 0 && x[0] == w && reaches(
            below,
            denote(r.down()),
            rest,
            x.drop_first(),
            reads,
        )) || reaches(set, denote(r.right()), meta, x, reads) by {
        if x.len() > 0 {
            if x[0] != w {
                lemma_after_right(r, x[0]);
                if !is_empty(after(denote(r.right()), x[0])) {
                    lemma_witness(denote(r.right()), x[0]);
                }
            } else {
                lemma_after_beside(r, x[0]);
            }
        }
    }
    lemma_image_parts(
        set,
        denote(r),
        meta,
        w,
        below,
        denote(r.down()),
        set,
        denote(r.right()),
        down,
        right,
    );
    if down != Tree::False {
        lemma_image_written_beside(set, r, meta, right);
        lemma_uniform_after(set, length, 0);
        lemma_image_node(
            w,
            down,
            right,
            below,
            denote(r.down()),
            rest,
            if meta[0] == 2 {
                length - 1
            } else {
                length
            },
            set,
            denote(r.right()),
            meta,
            length,
        );
    }
}

/// Nothing is reached by a relation without vectors while tags are left,
/// and nothing from a set without vectors.
pub proof fn lemma_image_nothing(set: Set<Vector>, rel: Set<Vector>, meta: Seq<u32>)
    requires
        is_empty(set) || (is_empty(rel) && meta.len() > 0),
    ensures
        image(set, rel, meta) == denote(Tree::False),
{
    assert forall|x: Vector| !image(set, rel, meta).contains(x) by {
        if is_empty(set) {
            lemma_image_of_nothing(set, rel, meta, x);
        }
    }
    assert(image(set, rel, meta) =~= denote(Tree::False));
}

/// Beyond the last tag every vector is carried over as it is.
pub proof fn lemma_image_end(set: Set<Vector>, rel: Set<Vector>, meta: Seq<u32>)
    requires
        meta.len() == 0,
    ensures
        image(set, rel, meta) == set,
{
    assert forall|x: Vector| image(set, rel, meta).contains(x) <==> set.contains(x) by {
        if set.contains(x) {
            assert(reaches(set, rel, meta, x, Seq::empty()));
        }
    }
    assert(image(set, rel, meta) =~= set);
}

/// What follows a value in a union, and the tails of a union, are the
/// unions of what follows the value in each set, and of their tails.
pub proof fn lemma_after_union(a: Set<Vector>, b: Set<Vector>, v: u32)
    ensures
        after(a.union(b), v) == after(a, v).union(after(b, v)),
        tails(a.union(b)) == tails(a).union(tails(b)),
{
    assert(after(a.union(b), v) =~= after(a, v).union(after(b, v)));
    assert forall|x: Vector| tails(a.union(b)).contains(x) <==> tails(a).union(tails(b)).contains(
        x,
    ) by {
        if tails(a.union(b)).contains(x) {
            let u = choose|u: u32| a.union(b).contains(#[trigger] (seq![u] + x));
            if a.contains(seq![u] + x) {
                assert(tails(a).contains(x));
            } else {
                assert(b.contains(seq![u] + x));
                assert(tails(b).contains(x));
            }
        }
        if tails(a).contains(x) {
            let u = choose|u: u32| a.contains(#[trigger] (seq![u] + x));
            assert(a.union(b).contains(seq![u] + x));
        }
        if tails(b).contains(x) {
            let u = choose|u: u32| b.contains(#[trigger] (seq![u] + x));
            assert(a.union(b).contains(seq![u] + x));
        }
    }
    assert(tails(a.union(b)) =~= tails(a).union(tails(b)));
}

/// A vector is reached from a union of two sets when it is reached from one
/// of them.
pub proof fn lemma_reaches_union(
    a: Set<Vector>,
    b: Set<Vector>,
    rel: Set<Vector>,
    meta: Seq<u32>,
    out: Vector,
    reads: Seq<u32>,
)
    ensures
        reaches(a.union(b), rel, meta, out, reads) <==> reaches(a, rel, meta, out, reads)
            || reaches(b, rel, meta, out, reads),
    decreases meta.len(),
{
    if meta.len() > 0 && !is_empty(rel) {
        let rest = meta.drop_first();
        if meta[0] == 3 {
            if reads.len() > 0 {
                lemma_after_union(a, b, reads[0]);
                lemma_reaches_union(
                    after(a, reads[0]),
                    after(b, reads[0]),
                    after(rel, reads[0]),
                    rest,
                    out,
                    reads.drop_first(),
                );
            }
        } else if out.len() > 0 {
            lemma_after_union(a, b, out[0]);
            if meta[0] == 0 {
                lemma_reaches_union(
                    after(a, out[0]),
                    after(b, out[0]),
                    rel,
                    rest,
                    out.drop_first(),
                    reads,
                );
            } else if meta[0] == 1 {
                lemma_reaches_union(
                    after(a, out[0]),
                    after(b, out[0]),
                    after(rel, out[0]),
                    rest,
                    out.drop_first(),
                    reads,
                );
            } else if meta[0] == 2 {
                lemma_reaches_union(
                    tails(a),
                    tails(b),
                    after(rel, out[0]),
                    rest,
                    out.drop_first(),
                    reads,
                );
            } else if meta[0] == 4 {
                lemma_reaches_union(a, b, after(rel, out[0]), rest, out.drop_first(), reads);
            }
        }
    }
}

/// The image of a union of two sets is the union of their images.
pub proof fn lemma_image_union(a: Set<Vector>, b: Set<Vector>, rel: Set<Vector>, meta: Seq<u32>)
    ensures
        image(a.union(b), rel, meta) == image(a, rel, meta).union(image(b, rel, meta)),
{
    assert forall|x: Vector| image(a.union(b), rel, meta).contains(x) <==> image(
        a,
        rel,
        meta,
    ).union(image(b, rel, meta)).contains(x) by {
        if image(a.union(b), rel, meta).contains(x) {
            let reads = choose|reads: Seq<u32>| reaches(a.union(b), rel, meta, x, reads);
            lemma_reaches_union(a, b, rel, meta, x, reads);
        }
        if image(a, rel, meta).contains(x) {
            let reads = choose|reads: Seq<u32>| reaches(a, rel, meta, x, reads);
            lemma_reaches_union(a, b, rel, meta, x, reads);
        }
        if image(b, rel, meta).contains(x) {
            let reads = choose|reads: Seq<u32>| reaches(b, rel, meta, x, reads);
            lemma_reaches_union(a, b, rel, meta, x, reads);
        }
    }
    assert(image(a.union(b), rel, meta) =~= image(a, rel, meta).union(image(b, rel, meta)));
}

} // verus!

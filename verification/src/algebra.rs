//! How the set operations descend through canonical terms.
//!
//! Each lemma takes the canonical terms that an operation has at hand at one
//! node, with what is known of the sets of the terms it has computed below
//! and to the right, and concludes that the node it is about to build is
//! canonical and stands for the set that the operation owes.

use crate::semantics::{kept, lemma_projection_length, project_set, project_vector};
use crate::tree::{
    canonical, contains, denote, first_vector, height, lemma_first_vector, lemma_head_bound,
    lemma_node_canonical, lemma_node_split, lemma_right_bound, lemma_uniform_length, node, Tree,
    Vector,
};
use vstd::prelude::*;

verus! {

/// Two terms can be operands of one set operation when their vectors have
/// one length: one of them is the empty set, or their heights are equal.
pub open spec fn compatible(a: Tree, b: Tree) -> bool {
    a == Tree::False || b == Tree::False || height(a) == height(b)
}

/// A canonical term that stands for the empty set is the term `False`.
pub proof fn lemma_empty_is_false(t: Tree)
    requires
        canonical(t),
        forall|x: Vector| !contains(t, x),
    ensures
        t == Tree::False,
{
    if t != Tree::False {
        lemma_first_vector(t);
    }
}

/// A canonical term whose vectors all have the length `n`, and which has
/// one, has the height `n`.
pub proof fn lemma_height_of(t: Tree, n: nat)
    requires
        canonical(t),
        t != Tree::False,
        forall|x: Vector| contains(t, x) ==> x.len() == n,
    ensures
        height(t) == n,
{
    lemma_first_vector(t);
    lemma_uniform_length(t, first_vector(t));
}

/// Union, where the value of `a` is below the value of `b`: the node of `a`
/// stays, and to its right stands the union of the right of `a` with `b`.
pub proof fn lemma_union_below(a: Tree, b: Tree, right: Tree)
    requires
        canonical(a),
        canonical(b),
        a is Node,
        b is Node,
        height(a) == height(b),
        a.value() < b.value(),
        canonical(right),
        denote(right) == denote(a.right()).union(denote(b)),
    ensures
        canonical(node(a.value(), a.down(), right)),
        denote(node(a.value(), a.down(), right)) == denote(a).union(denote(b)),
{
    let result = node(a.value(), a.down(), right);
    assert forall|x: Vector| contains(right, x) <==> contains(a.right(), x) || contains(b, x) by {
        assert(denote(right).contains(x) == contains(right, x));
        assert(denote(a.right()).contains(x) == contains(a.right(), x));
        assert(denote(b).contains(x) == contains(b, x));
    }
    assert forall|x: Vector| #[trigger] contains(right, x) implies x.len() == height(a.down()) + 1
        && x[0] > a.value() by {
        if contains(a.right(), x) {
            lemma_right_bound(a, x);
            lemma_uniform_length(a.right(), x);
        } else {
            lemma_head_bound(b, x);
            lemma_uniform_length(b, x);
        }
    }
    lemma_node_canonical(a.value(), a.down(), right);
    assert forall|x: Vector| denote(result).contains(x) <==> denote(a).union(denote(b)).contains(
        x,
    ) by {
        assert(denote(result).contains(x) == contains(result, x));
        assert(denote(a).contains(x) == contains(a, x));
        assert(denote(b).contains(x) == contains(b, x));
    }
    assert(denote(result) =~= denote(a).union(denote(b)));
}

/// Union, where `a` and `b` have the same value: below the value stands the
/// union of what is below the two, to its right the union of what is to their
/// right.
pub proof fn lemma_union_level(a: Tree, b: Tree, down: Tree, right: Tree)
    requires
        canonical(a),
        canonical(b),
        a is Node,
        b is Node,
        height(a) == height(b),
        a.value() == b.value(),
        canonical(down),
        canonical(right),
        denote(down) == denote(a.down()).union(denote(b.down())),
        denote(right) == denote(a.right()).union(denote(b.right())),
    ensures
        canonical(node(a.value(), down, right)),
        denote(node(a.value(), down, right)) == denote(a).union(denote(b)),
{
    let result = node(a.value(), down, right);
    assert forall|x: Vector| contains(right, x) <==> contains(a.right(), x) || contains(
        b.right(),
        x,
    ) by {
        assert(denote(right).contains(x) == contains(right, x));
        assert(denote(a.right()).contains(x) == contains(a.right(), x));
        assert(denote(b.right()).contains(x) == contains(b.right(), x));
    }
    assert forall|x: Vector| contains(down, x) <==> contains(a.down(), x) || contains(
        b.down(),
        x,
    ) by {
        assert(denote(down).contains(x) == contains(down, x));
        assert(denote(a.down()).contains(x) == contains(a.down(), x));
        assert(denote(b.down()).contains(x) == contains(b.down(), x));
    }
    lemma_first_vector(a.down());
    assert(contains(down, first_vector(a.down())));
    assert forall|x: Vector| contains(down, x) implies x.len() == height(a.down()) by {
        if contains(a.down(), x) {
            lemma_uniform_length(a.down(), x);
        } else {
            lemma_uniform_length(b.down(), x);
        }
    }
    lemma_height_of(down, height(a.down()));
    assert forall|x: Vector| #[trigger] contains(right, x) implies x.len() == height(down) + 1
        && x[0] > a.value() by {
        if contains(a.right(), x) {
            lemma_right_bound(a, x);
            lemma_uniform_length(a.right(), x);
        } else {
            lemma_right_bound(b, x);
            lemma_uniform_length(b.right(), x);
        }
    }
    lemma_node_canonical(a.value(), down, right);
    assert forall|x: Vector| denote(result).contains(x) <==> denote(a).union(denote(b)).contains(
        x,
    ) by {
        assert(denote(result).contains(x) == contains(result, x));
        assert(denote(a).contains(x) == contains(a, x));
        assert(denote(b).contains(x) == contains(b, x));
        assert(contains(right, x) <==> contains(a.right(), x) || contains(b.right(), x));
        if x.len() > 0 {
            let y = x.drop_first();
            assert(contains(down, y) <==> contains(a.down(), y) || contains(b.down(), y));
        }
    }
    assert(denote(result) =~= denote(a).union(denote(b)));
}

/// Difference, where the value of `a` is below the value of `b`: the node of
/// `a` stays, and to its right stands the difference of the right of `a` and
/// `b`.
pub proof fn lemma_minus_below(a: Tree, b: Tree, right: Tree)
    requires
        canonical(a),
        canonical(b),
        a is Node,
        b is Node,
        height(a) == height(b),
        a.value() < b.value(),
        canonical(right),
        denote(right) == denote(a.right()).difference(denote(b)),
    ensures
        canonical(node(a.value(), a.down(), right)),
        denote(node(a.value(), a.down(), right)) == denote(a).difference(denote(b)),
{
    let result = node(a.value(), a.down(), right);
    assert forall|x: Vector| contains(right, x) <==> contains(a.right(), x) && !contains(b, x) by {
        assert(denote(right).contains(x) == contains(right, x));
        assert(denote(a.right()).contains(x) == contains(a.right(), x));
        assert(denote(b).contains(x) == contains(b, x));
    }
    assert forall|x: Vector| #[trigger] contains(right, x) implies x.len() == height(a.down()) + 1
        && x[0] > a.value() by {
        lemma_right_bound(a, x);
        lemma_uniform_length(a.right(), x);
    }
    lemma_node_canonical(a.value(), a.down(), right);
    assert forall|x: Vector| denote(result).contains(x) <==> denote(a).difference(
        denote(b),
    ).contains(x) by {
        assert(denote(result).contains(x) == contains(result, x));
        assert(denote(a).contains(x) == contains(a, x));
        assert(denote(b).contains(x) == contains(b, x));
        if contains(b, x) {
            lemma_head_bound(b, x);
        }
    }
    assert(denote(result) =~= denote(a).difference(denote(b)));
}

/// Difference, where `a` and `b` have the same value: below the value
/// stands the difference of what is below the two, to its right the
/// difference of what is to their right; where nothing is left below, the
/// node collapses to its right.
pub proof fn lemma_minus_level(a: Tree, b: Tree, down: Tree, right: Tree)
    requires
        canonical(a),
        canonical(b),
        a is Node,
        b is Node,
        height(a) == height(b),
        a.value() == b.value(),
        canonical(down),
        canonical(right),
        denote(down) == denote(a.down()).difference(denote(b.down())),
        denote(right) == denote(a.right()).difference(denote(b.right())),
    ensures
        down == Tree::False ==> denote(right) == denote(a).difference(denote(b)),
        down != Tree::False ==> canonical(node(a.value(), down, right)) && denote(
            node(a.value(), down, right),
        ) == denote(a).difference(denote(b)),
{
    let result = node(a.value(), down, right);
    assert forall|x: Vector| contains(right, x) <==> contains(a.right(), x) && !contains(
        b.right(),
        x,
    ) by {
        assert(denote(right).contains(x) == contains(right, x));
        assert(denote(a.right()).contains(x) == contains(a.right(), x));
        assert(denote(b.right()).contains(x) == contains(b.right(), x));
    }
    assert forall|x: Vector| contains(down, x) <==> contains(a.down(), x) && !contains(
        b.down(),
        x,
    ) by {
        assert(denote(down).contains(x) == contains(down, x));
        assert(denote(a.down()).contains(x) == contains(a.down(), x));
        assert(denote(b.down()).contains(x) == contains(b.down(), x));
    }
    if down == Tree::False {
        assert forall|x: Vector| denote(right).contains(x) <==> denote(a).difference(
            denote(b),
        ).contains(x) by {
            assert(denote(right).contains(x) == contains(right, x));
            assert(denote(a).contains(x) == contains(a, x));
            assert(denote(b).contains(x) == contains(b, x));
            lemma_node_split(a, x);
            lemma_node_split(b, x);
            if contains(a.right(), x) {
                lemma_right_bound(a, x);
            }
            if contains(b.right(), x) {
                lemma_right_bound(b, x);
            }
            assert(contains(right, x) <==> contains(a.right(), x) && !contains(b.right(), x));
            if x.len() > 0 {
                let y = x.drop_first();
                assert(contains(down, y) <==> contains(a.down(), y) && !contains(b.down(), y));
                assert(!contains(down, y));
            }
        }
        assert(denote(right) =~= denote(a).difference(denote(b)));
    } else {
        assert forall|x: Vector| contains(down, x) implies x.len() == height(a.down()) by {
            lemma_uniform_length(a.down(), x);
        }
        lemma_height_of(down, height(a.down()));
        assert forall|x: Vector| #[trigger] contains(right, x) implies x.len() == height(down) + 1
            && x[0] > a.value() by {
            lemma_right_bound(a, x);
            lemma_uniform_length(a.right(), x);
        }
        lemma_node_canonical(a.value(), down, right);
        assert forall|x: Vector| denote(result).contains(x) <==> denote(a).difference(
            denote(b),
        ).contains(x) by {
            assert(denote(result).contains(x) == contains(result, x));
            assert(denote(a).contains(x) == contains(a, x));
            assert(denote(b).contains(x) == contains(b, x));
            lemma_node_split(a, x);
            lemma_node_split(b, x);
            if contains(a.right(), x) {
                lemma_right_bound(a, x);
            }
            if contains(b.right(), x) {
                lemma_right_bound(b, x);
            }
            assert(contains(right, x) <==> contains(a.right(), x) && !contains(b.right(), x));
            if x.len() > 0 {
                let y = x.drop_first();
                assert(contains(down, y) <==> contains(a.down(), y) && !contains(b.down(), y));
            }
        }
        assert(denote(result) =~= denote(a).difference(denote(b)));
    }
}

/// Difference, where the value of `a` is above the value of `b`: the node of
/// `b` takes nothing away from `a`.
pub proof fn lemma_minus_above(a: Tree, b: Tree)
    requires
        canonical(a),
        canonical(b),
        a is Node,
        b is Node,
        a.value() > b.value(),
    ensures
        denote(a).difference(denote(b.right())) == denote(a).difference(denote(b)),
{
    assert forall|x: Vector| denote(a).difference(denote(b.right())).contains(x) <==> denote(
        a,
    ).difference(denote(b)).contains(x) by {
        assert(denote(a).contains(x) == contains(a, x));
        assert(denote(b).contains(x) == contains(b, x));
        assert(denote(b.right()).contains(x) == contains(b.right(), x));
        if contains(a, x) {
            lemma_head_bound(a, x);
        }
    }
    assert(denote(a).difference(denote(b.right())) =~= denote(a).difference(denote(b)));
}

/// Whether the vectors of `t` are long enough for `n` levels of tags: `t` is
/// the empty set, or as high as that.
pub open spec fn deep(t: Tree, n: nat) -> bool {
    t == Tree::False || height(t) >= n
}

/// Membership in a projection, with its witness spelled out.
pub proof fn lemma_projected(t: Tree, tags: Seq<u32>, y: Vector)
    requires
        contains(t, y),
    ensures
        project_set(denote(t), tags).contains(project_vector(y, tags)),
{
    assert(denote(t).contains(y));
}

/// A vector of a projection is the projection of a vector of the set, which
/// this lemma returns.
pub proof fn lemma_projection_source(t: Tree, tags: Seq<u32>, x: Vector) -> (y: Vector)
    requires
        project_set(denote(t), tags).contains(x),
    ensures
        contains(t, y),
        project_vector(y, tags) == x,
{
    let y = choose|y: Vector| denote(t).contains(y) && #[trigger] project_vector(y, tags) == x;
    assert(denote(t).contains(y) == contains(t, y));
    y
}

/// The projection of a set is empty for the empty set only, and its
/// vectors have as many values as the tags keep.
pub proof fn lemma_projection_shape(t: Tree, tags: Seq<u32>, r: Tree)
    requires
        canonical(t),
        canonical(r),
        deep(t, tags.len()),
        denote(r) == project_set(denote(t), tags),
    ensures
        r == Tree::False <==> t == Tree::False,
        r != Tree::False ==> height(r) == kept(tags),
{
    if t != Tree::False {
        lemma_first_vector(t);
        lemma_projected(t, tags, first_vector(t));
        assert(denote(r).contains(project_vector(first_vector(t), tags)));
    }
    if r != Tree::False {
        lemma_first_vector(r);
        let x = first_vector(r);
        assert(denote(r).contains(x));
        let y = lemma_projection_source(t, tags, x);
        lemma_uniform_length(t, y);
        lemma_uniform_length(r, x);
        lemma_projection_length(y, tags);
    }
}

/// Projection with no tag left: what is left of a set that is not empty is
/// the empty vector.
pub proof fn lemma_project_end(t: Tree, tags: Seq<u32>)
    requires
        canonical(t),
        t != Tree::False,
        tags.len() == 0,
    ensures
        denote(Tree::True) == project_set(denote(t), tags),
{
    lemma_first_vector(t);
    lemma_projected(t, tags, first_vector(t));
    assert forall|x: Vector| denote(Tree::True).contains(x) <==> project_set(
        denote(t),
        tags,
    ).contains(x) by {
        if denote(Tree::True).contains(x) {
            assert(x =~= project_vector(first_vector(t), tags));
        }
        if project_set(denote(t), tags).contains(x) {
            let y = lemma_projection_source(t, tags, x);
        }
    }
    assert(denote(Tree::True) =~= project_set(denote(t), tags));
}

/// Projection of the empty set.
pub proof fn lemma_project_nothing(tags: Seq<u32>)
    ensures
        denote(Tree::False) == project_set(denote(Tree::False), tags),
{
    assert forall|x: Vector| denote(Tree::False).contains(x) <==> project_set(
        denote(Tree::False),
        tags,
    ).contains(x) by {
        if project_set(denote(Tree::False), tags).contains(x) {
            let y = lemma_projection_source(Tree::False, tags, x);
        }
    }
    assert(denote(Tree::False) =~= project_set(denote(Tree::False), tags));
}

/// Projection at a level that is dropped: the projections of what is below
/// the node and of what is to its right are merged.
pub proof fn lemma_project_drop(t: Tree, tags: Seq<u32>, down: Tree, right: Tree)
    requires
        canonical(t),
        t is Node,
        tags.len() > 0,
        tags[0] != 1,
        height(t) >= tags.len(),
        canonical(down),
        canonical(right),
        denote(down) == project_set(denote(t.down()), tags.drop_first()),
        denote(right) == project_set(denote(t.right()), tags),
    ensures
        compatible(right, down),
        denote(right).union(denote(down)) == project_set(denote(t), tags),
{
    let rest = tags.drop_first();
    lemma_projection_shape(t.down(), rest, down);
    lemma_projection_shape(t.right(), tags, right);
    assert forall|x: Vector| denote(right).union(denote(down)).contains(x) <==> project_set(
        denote(t),
        tags,
    ).contains(x) by {
        if denote(right).contains(x) {
            let y = lemma_projection_source(t.right(), tags, x);
            lemma_projected(t, tags, y);
        }
        if denote(down).contains(x) {
            let y = lemma_projection_source(t.down(), rest, x);
            let z = seq![t.value()] + y;
            assert(z.drop_first() =~= y);
            lemma_projected(t, tags, z);
        }
        if project_set(denote(t), tags).contains(x) {
            let y = lemma_projection_source(t, tags, x);
            lemma_node_split(t, y);
            if y[0] == t.value() {
                lemma_projected(t.down(), rest, y.drop_first());
            } else {
                lemma_projected(t.right(), tags, y);
            }
        }
    }
    assert(denote(right).union(denote(down)) =~= project_set(denote(t), tags));
}

/// Projection at a level that is kept: the node's value stays in front of
/// the projection of what is below the node, and the projection of what is
/// to its right stays to the right.
pub proof fn lemma_project_keep(t: Tree, tags: Seq<u32>, down: Tree, right: Tree)
    requires
        canonical(t),
        t is Node,
        tags.len() > 0,
        tags[0] == 1,
        height(t) >= tags.len(),
        canonical(down),
        canonical(right),
        denote(down) == project_set(denote(t.down()), tags.drop_first()),
        denote(right) == project_set(denote(t.right()), tags),
    ensures
        down != Tree::False,
        canonical(node(t.value(), down, right)),
        denote(node(t.value(), down, right)) == project_set(denote(t), tags),
{
    let rest = tags.drop_first();
    let result = node(t.value(), down, right);
    lemma_projection_shape(t.down(), rest, down);
    lemma_projection_shape(t.right(), tags, right);
    assert forall|x: Vector| #[trigger] contains(right, x) implies x.len() == height(down) + 1
        && x[0] > t.value() by {
        assert(denote(right).contains(x));
        let y = lemma_projection_source(t.right(), tags, x);
        lemma_right_bound(t, y);
        lemma_uniform_length(right, x);
    }
    lemma_node_canonical(t.value(), down, right);
    assert forall|x: Vector| denote(result).contains(x) <==> project_set(denote(t), tags).contains(
        x,
    ) by {
        assert(denote(result).contains(x) == contains(result, x));
        if contains(right, x) {
            assert(denote(right).contains(x));
            let y = lemma_projection_source(t.right(), tags, x);
            lemma_projected(t, tags, y);
        }
        if x.len() > 0 && x[0] == t.value() && contains(down, x.drop_first()) {
            assert(denote(down).contains(x.drop_first()));
            let y = lemma_projection_source(t.down(), rest, x.drop_first());
            let z = seq![t.value()] + y;
            assert(z.drop_first() =~= y);
            assert(project_vector(z, tags) =~= x);
            lemma_projected(t, tags, z);
        }
        if project_set(denote(t), tags).contains(x) {
            let y = lemma_projection_source(t, tags, x);
            lemma_node_split(t, y);
            if y[0] == t.value() {
                lemma_projected(t.down(), rest, y.drop_first());
                assert(x.drop_first() =~= project_vector(y.drop_first(), rest));
                assert(denote(down).contains(x.drop_first()));
            } else {
                lemma_projected(t.right(), tags, y);
                assert(denote(right).contains(x));
            }
        }
    }
    assert(denote(result) =~= project_set(denote(t), tags));
}

} // verus!

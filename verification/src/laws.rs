//! Laws of the library: what holds of the operations taken together.

use crate::semantics::{
    after, image, is_empty, lemma_projection_length, level_tags, meta_of, meta_upto, project_set,
    project_vector, reaches, span, tags_of, tails,
};
use crate::storage::{Ldd, Storage};
use crate::tree::{
    canonical, chain, contains, count, denote, elements, first_vector, lemma_chain,
    lemma_denote_unique, lemma_right_bound, prepend_all, Tree, Vector,
};
use vstd::prelude::*;

verus! {

/// The vectors of a canonical term, listed in order, are the vectors that
/// the term contains, each listed once.
pub proof fn lemma_elements(t: Tree)
    requires
        canonical(t),
    ensures
        forall|x: Vector| elements(t).contains(x) <==> contains(t, x),
        elements(t).no_duplicates(),
        elements(t).len() == count(t),
    decreases t,
{
    match t {
        Tree::False => {},
        Tree::True => {
            assert forall|x: Vector| elements(t).contains(x) <==> contains(t, x) by {
                if contains(t, x) {
                    assert(x =~= Seq::<u32>::empty());
                    assert(elements(t)[0] == x);
                }
            }
        },
        Tree::Node(v, d, r) => {
            lemma_elements(*d);
            lemma_elements(*r);
            let below = prepend_all(v, elements(*d));
            let beside = elements(*r);
            let all = elements(t);
            assert(all == below + beside);
            assert forall|i: int| 0 <= i < below.len() implies (#[trigger] below[i]).len() > 0
                && below[i][0] == v && below[i].drop_first() == elements(*d)[i] by {
                assert(below[i] == seq![v] + elements(*d)[i]);
                assert(below[i].drop_first() =~= elements(*d)[i]);
            }
            assert forall|x: Vector| all.contains(x) <==> contains(t, x) by {
                if all.contains(x) {
                    let i = choose|i: int| 0 <= i < all.len() && all[i] == x;
                    if i < below.len() {
                        assert(all[i] == below[i]);
                        let y = elements(*d)[i];
                        assert(elements(*d).contains(y));
                        assert(elements(*d).contains(y) <==> contains(*d, y));
                        assert(x.drop_first() == y);
                    } else {
                        assert(all[i] == beside[i - below.len()]);
                        assert(beside.contains(x));
                        assert(beside.contains(x) <==> contains(*r, x));
                    }
                }
                if contains(t, x) {
                    if contains(*r, x) {
                        assert(beside.contains(x) <==> contains(*r, x));
                        let j = choose|j: int| 0 <= j < beside.len() && beside[j] == x;
                        assert(all[below.len() + j] == x);
                    } else {
                        let y = x.drop_first();
                        assert(contains(*d, y));
                        assert(elements(*d).contains(y) <==> contains(*d, y));
                        assert(elements(*d).contains(y));
                        let j = choose|j: int| 0 <= j < elements(*d).len() && elements(*d)[j] == y;
                        assert(below[j] =~= x);
                        assert(all[j] == x);
                    }
                }
            }
            assert forall|i: int, j: int| 0 <= i < all.len() && 0 <= j < all.len() && i != j implies all[i]
                != all[j] by {
                if i < below.len() && j < below.len() {
                    assert(all[i] == below[i] && all[j] == below[j]);
                    if below[i] == below[j] {
                        assert(elements(*d)[i] == elements(*d)[j]);
                    }
                } else if i >= below.len() && j >= below.len() {
                    assert(all[i] == beside[i - below.len()] && all[j] == beside[j - below.len()]);
                } else if i < below.len() {
                    assert(all[i] == below[i] && all[j] == beside[j - below.len()]);
                    assert(beside.contains(all[j]));
                    lemma_right_bound(t, all[j]);
                } else {
                    assert(all[j] == below[j] && all[i] == beside[i - below.len()]);
                    assert(beside.contains(all[i]));
                    lemma_right_bound(t, all[i]);
                }
            }
        },
    }
}

/// A walk over the set of one vector yields that vector, and no other.
pub proof fn lemma_singleton_elements(x: Vector)
    ensures
        elements(chain(x)) == seq![x],
    decreases x.len(),
{
    if x.len() == 0 {
        assert(elements(chain(x)) =~= seq![x]) by {
            assert(x =~= Seq::<u32>::empty());
        }
    } else {
        lemma_singleton_elements(x.drop_first());
        let below = prepend_all(x[0], elements(chain(x.drop_first())));
        assert(below.len() == 1);
        assert(below[0] =~= x);
        assert(elements(Tree::False) =~= Seq::<Vector>::empty());
        assert(elements(chain(x)) =~= seq![x]);
    }
}

/// Canonicity: two diagrams of one storage that stand for the same set are
/// the same node, so their handles are equal and have the same hash, which
/// is that of the node's index.
pub proof fn lemma_same_set_same_node(storage: &Storage, a: &Ldd, b: &Ldd)
    requires
        storage.wf(),
        storage.protects(a),
        storage.protects(b),
        storage.set_of(a) == storage.set_of(b),
    ensures
        a.index() == b.index(),
        vstd::std_specs::cmp::PartialEqSpec::eq_spec(a, b),
{
    storage.lemma_handles(a, b);
}

/// The union of a set with itself is the same diagram.
pub proof fn lemma_union_same(storage: &Storage, x: &Ldd, r: &Ldd)
    requires
        storage.wf(),
        storage.protects(x),
        storage.protects(r),
        storage.set_of(r) == storage.set_of(x).union(storage.set_of(x)),
    ensures
        r.index() == x.index(),
{
    assert(storage.set_of(x).union(storage.set_of(x)) =~= storage.set_of(x));
    storage.lemma_handles(r, x);
}

/// The union of a set with the empty set is the same diagram.
pub proof fn lemma_union_empty(storage: &Storage, x: &Ldd, empty: &Ldd, r: &Ldd)
    requires
        storage.wf(),
        storage.protects(x),
        storage.protects(empty),
        storage.protects(r),
        storage.tree_of(empty) == Tree::False,
        storage.set_of(r) == storage.set_of(x).union(storage.set_of(empty)),
    ensures
        r.index() == x.index(),
{
    assert(storage.set_of(x).union(storage.set_of(empty)) =~= storage.set_of(x));
    storage.lemma_handles(r, x);
}

/// The difference of a set and itself is the empty set, the node 0.
pub proof fn lemma_minus_same(storage: &Storage, x: &Ldd, r: &Ldd)
    requires
        storage.wf(),
        storage.protects(x),
        storage.protects(r),
        storage.set_of(r) == storage.set_of(x).difference(storage.set_of(x)),
    ensures
        storage.tree_of(r) == Tree::False,
        r.index() == crate::storage::EMPTY_SET,
{
    storage.lemma_handle(r);
    assert forall|y: Vector| !contains(storage.tree_of(r), y) by {
        assert(denote(storage.tree_of(r)).contains(y) == contains(storage.tree_of(r), y));
    }
    crate::algebra::lemma_empty_is_false(storage.tree_of(r));
}

/// The difference of a set and the empty set is the same diagram.
pub proof fn lemma_minus_empty(storage: &Storage, x: &Ldd, empty: &Ldd, r: &Ldd)
    requires
        storage.wf(),
        storage.protects(x),
        storage.protects(empty),
        storage.protects(r),
        storage.tree_of(empty) == Tree::False,
        storage.set_of(r) == storage.set_of(x).difference(storage.set_of(empty)),
    ensures
        r.index() == x.index(),
{
    assert(storage.set_of(x).difference(storage.set_of(empty)) =~= storage.set_of(x));
    storage.lemma_handles(r, x);
}

/// Whether `p` is the beginning of a vector of `rel`.
pub open spec fn begins(rel: Set<Vector>, p: Vector) -> bool {
    exists|r: Vector| rel.contains(r) && #[trigger] p.is_prefix_of(r)
}

/// The tags of a relation that reads, or that writes, the levels that the
/// tags of a projection keep, and no other: `mark` where the projection has
/// a 1, and 0 elsewhere.
pub open spec fn marked(tags: Seq<u32>, mark: u32) -> Seq<u32> {
    Seq::new(tags.len(), |i: int| if tags[i] == 1 {
        mark
    } else {
        0u32
    })
}

/// A vector begins a vector of what follows a value when the value and the
/// vector begin a vector of the whole; and the empty vector begins a vector
/// of every set that has one.
pub proof fn lemma_begins(rel: Set<Vector>, v: u32, q: Vector)
    ensures
        begins(after(rel, v), q) <==> begins(rel, seq![v] + q),
        begins(rel, Seq::empty()) <==> !is_empty(rel),
{
    if begins(after(rel, v), q) {
        let r = choose|r: Vector| after(rel, v).contains(r) && #[trigger] q.is_prefix_of(r);
        let whole = seq![v] + r;
        assert((seq![v] + q).is_prefix_of(whole)) by {
            assert((seq![v] + q) =~= whole.subrange(0, q.len() as int + 1));
        }
        assert(rel.contains(whole));
    }
    if begins(rel, seq![v] + q) {
        let r = choose|r: Vector| rel.contains(r) && #[trigger] (seq![v] + q).is_prefix_of(r);
        let rest = r.drop_first();
        assert((seq![v] + q)[0] == r[0]);
        assert(seq![v] + rest =~= r);
        assert(q.is_prefix_of(rest)) by {
            assert(q =~= rest.subrange(0, q.len() as int)) by {
                assert forall|i: int| 0 <= i < q.len() implies q[i] == rest[i] by {
                    assert((seq![v] + q)[i + 1] == r[i + 1]);
                }
            }
        }
        assert(after(rel, v).contains(rest));
    }
    if begins(rel, Seq::empty()) {
        let r = choose|r: Vector| rel.contains(r) && #[trigger] Seq::<u32>::empty().is_prefix_of(r);
        assert(rel.contains(r));
    }
    if !is_empty(rel) {
        let r = choose|r: Vector| rel.contains(r);
        assert(Seq::<u32>::empty().is_prefix_of(r));
    }
}

/// A vector of the set is reached by a relation that only reads, or only
/// writes, the levels that a projection keeps, when the relation has the
/// projection of the vector.
pub proof fn lemma_reached(
    set: Set<Vector>,
    rel: Set<Vector>,
    tags: Seq<u32>,
    mark: u32,
    x: Vector,
)
    requires
        mark == 1 || mark == 2,
        set.contains(x),
        x.len() >= tags.len(),
        tags.len() == 0 || begins(rel, project_vector(x, tags)),
    ensures
        reaches(set, rel, marked(tags, mark), x, Seq::empty()),
    decreases tags.len(),
{
    let meta = marked(tags, mark);
    if tags.len() > 0 {
        let rest = tags.drop_first();
        let tail = x.drop_first();
        assert(meta.drop_first() =~= marked(rest, mark));
        assert(seq![x[0]] + tail =~= x);
        lemma_begins(rel, x[0], project_vector(tail, rest));
        lemma_begins(rel, x[0], Seq::empty());
        if begins(rel, project_vector(x, tags)) {
            let r = choose|r: Vector|
                rel.contains(r) && #[trigger] project_vector(x, tags).is_prefix_of(r);
            assert(rel.contains(r));
        }
        if tags[0] == 1 {
            if rest.len() == 0 {
                assert(project_vector(tail, rest) =~= Seq::<u32>::empty());
                assert(project_vector(x, tags) =~= seq![x[0]] + Seq::<u32>::empty());
            }
            lemma_begins(after(rel, x[0]), 0, Seq::empty());
            if begins(after(rel, x[0]), project_vector(tail, rest)) {
                let r = choose|r: Vector|
                    after(rel, x[0]).contains(r) && #[trigger] project_vector(
                        tail,
                        rest,
                    ).is_prefix_of(r);
                assert(after(rel, x[0]).contains(r));
            }
            if mark == 1 {
                assert(after(set, x[0]).contains(tail));
                lemma_reached(after(set, x[0]), after(rel, x[0]), rest, mark, tail);
            } else {
                assert(set.contains(seq![x[0]] + tail));
                assert(tails(set).contains(tail));
                lemma_reached(tails(set), after(rel, x[0]), rest, mark, tail);
            }
        } else {
            assert(after(set, x[0]).contains(tail));
            if rest.len() > 0 {
                assert(project_vector(x, tags) == project_vector(tail, rest));
            }
            lemma_reached(after(set, x[0]), rel, rest, mark, tail);
        }
    }
}

/// What is reached by a relation that only reads, or only writes, the
/// levels that a projection keeps is long enough for the projection, and the
/// relation has its projection; where the relation only reads, it is a vector
/// of the set.
pub proof fn lemma_reached_from(
    set: Set<Vector>,
    rel: Set<Vector>,
    tags: Seq<u32>,
    mark: u32,
    x: Vector,
    reads: Seq<u32>,
)
    requires
        mark == 1 || mark == 2,
        reaches(set, rel, marked(tags, mark), x, reads),
    ensures
        x.len() >= tags.len(),
        tags.len() == 0 ==> set.contains(x),
        tags.len() > 0 ==> begins(rel, project_vector(x, tags)),
        mark == 1 ==> set.contains(x),
    decreases tags.len(),
{
    let meta = marked(tags, mark);
    if tags.len() > 0 {
        let rest = tags.drop_first();
        let tail = x.drop_first();
        assert(meta.drop_first() =~= marked(rest, mark));
        assert(seq![x[0]] + tail =~= x);
        lemma_begins(rel, x[0], project_vector(tail, rest));
        lemma_begins(rel, x[0], Seq::empty());
        lemma_begins(rel, 0, Seq::empty());
        if tags[0] == 1 {
            if mark == 1 {
                lemma_reached_from(after(set, x[0]), after(rel, x[0]), rest, mark, tail, reads);
            } else {
                lemma_reached_from(tails(set), after(rel, x[0]), rest, mark, tail, reads);
            }
            if rest.len() == 0 {
                assert(project_vector(tail, rest) =~= Seq::<u32>::empty());
                lemma_begins(after(rel, x[0]), 0, Seq::empty());
            }
        } else {
            lemma_reached_from(after(set, x[0]), rel, rest, mark, tail, reads);
            if rest.len() == 0 {
                assert(project_vector(x, tags) =~= Seq::<u32>::empty());
            }
        }
    }
}

/// The tags of a relation that reads the levels `indices` and writes none,
/// or writes them and reads none, are the tags of the projection onto the
/// levels, with the mark of reading, or of writing, in place of 1.
pub proof fn lemma_meta_marked(indices: Seq<u32>)
    ensures
        meta_of(indices, Seq::empty()) == marked(tags_of(indices), 1),
        meta_of(Seq::empty(), indices) == marked(tags_of(indices), 2),
{
    let none = Seq::<u32>::empty();
    lemma_meta_upto(indices, span(indices));
    assert(span(none) == 0);
    assert(meta_upto(indices, none, span(indices)) =~= marked(tags_of(indices), 1));
    assert(meta_upto(none, indices, span(indices)) =~= marked(tags_of(indices), 2));
}

/// The tags below a level of a relation that only reads, or only writes,
/// some levels: one tag for each level.
pub proof fn lemma_meta_upto(indices: Seq<u32>, level: nat)
    ensures
        meta_upto(indices, Seq::empty(), level) == Seq::new(
            level,
            |i: int|
                if exists|k: int| 0 <= k < indices.len() && indices[k] == i {
                    1u32
                } else {
                    0u32
                },
        ),
        meta_upto(Seq::empty(), indices, level) == Seq::new(
            level,
            |i: int|
                if exists|k: int| 0 <= k < indices.len() && indices[k] == i {
                    2u32
                } else {
                    0u32
                },
        ),
    decreases level,
{
    let none = Seq::<u32>::empty();
    if level > 0 {
        let below = (level - 1) as nat;
        lemma_meta_upto(indices, below);
        assert(!(exists|k: int| 0 <= k < none.len() && none[k] == below));
        assert(meta_upto(indices, none, level) =~= Seq::new(
            level,
            |i: int|
                if exists|k: int| 0 <= k < indices.len() && indices[k] == i {
                    1u32
                } else {
                    0u32
                },
        ));
        assert(meta_upto(none, indices, level) =~= Seq::new(
            level,
            |i: int|
                if exists|k: int| 0 <= k < indices.len() && indices[k] == i {
                    2u32
                } else {
                    0u32
                },
        ));
    } else {
        assert(meta_upto(indices, none, level) =~= Seq::new(
            level,
            |i: int|
                if exists|k: int| 0 <= k < indices.len() && indices[k] == i {
                    1u32
                } else {
                    0u32
                },
        ));
        assert(meta_upto(none, indices, level) =~= Seq::new(
            level,
            |i: int|
                if exists|k: int| 0 <= k < indices.len() && indices[k] == i {
                    2u32
                } else {
                    0u32
                },
        ));
    }
}

/// A relation that only reads: where the relation is the projection of the
/// set onto the levels that it reads, every vector of the set is reached, and
/// no other; so the projection of what is reached is the relation again.
pub proof fn lemma_read_only(set: Set<Vector>, read: Seq<u32>)
    requires
        forall|x: Vector| set.contains(x) ==> x.len() >= span(read),
    ensures
        image(set, project_set(set, tags_of(read)), meta_of(read, Seq::empty())) == set,
        project_set(
            image(set, project_set(set, tags_of(read)), meta_of(read, Seq::empty())),
            tags_of(read),
        ) == project_set(set, tags_of(read)),
{
    let tags = tags_of(read);
    let rel = project_set(set, tags);
    let meta = meta_of(read, Seq::empty());
    lemma_meta_marked(read);
    assert forall|x: Vector| image(set, rel, meta).contains(x) <==> set.contains(x) by {
        if image(set, rel, meta).contains(x) {
            let reads = choose|reads: Seq<u32>| reaches(set, rel, meta, x, reads);
            lemma_reached_from(set, rel, tags, 1, x, reads);
        }
        if set.contains(x) {
            assert(rel.contains(project_vector(x, tags)));
            assert(project_vector(x, tags).is_prefix_of(project_vector(x, tags)));
            lemma_reached(set, rel, tags, 1, x);
        }
    }
    assert(image(set, rel, meta) =~= set);
}

/// A relation that only writes: where the relation is the projection of
/// the set onto the levels that it writes, the projection of what is reached
/// is the relation again.
pub proof fn lemma_write_only(set: Set<Vector>, write: Seq<u32>)
    requires
        forall|x: Vector| set.contains(x) ==> x.len() >= span(write),
    ensures
        project_set(
            image(set, project_set(set, tags_of(write)), meta_of(Seq::empty(), write)),
            tags_of(write),
        ) == project_set(set, tags_of(write)),
{
    let tags = tags_of(write);
    let rel = project_set(set, tags);
    let meta = meta_of(Seq::empty(), write);
    let reached = image(set, rel, meta);
    lemma_meta_marked(write);
    assert forall|y: Vector| project_set(reached, tags).contains(y) <==> rel.contains(y) by {
        if project_set(reached, tags).contains(y) {
            let out = choose|out: Vector|
                reached.contains(out) && #[trigger] project_vector(out, tags) == y;
            let reads = choose|reads: Seq<u32>| reaches(set, rel, meta, out, reads);
            lemma_reached_from(set, rel, tags, 2, out, reads);
            if tags.len() == 0 {
                assert(rel.contains(project_vector(out, tags)));
            } else {
                let r = choose|r: Vector| rel.contains(r) && #[trigger] y.is_prefix_of(r);
                let x = choose|x: Vector| set.contains(x) && #[trigger] project_vector(x, tags) == r;
                lemma_projection_length(x, tags);
                lemma_projection_length(out, tags);
                assert(y =~= r);
            }
        }
        if rel.contains(y) {
            let x = choose|x: Vector| set.contains(x) && #[trigger] project_vector(x, tags) == y;
            assert(y.is_prefix_of(y));
            lemma_reached(set, rel, tags, 2, x);
            assert(reached.contains(x));
        }
    }
    assert(project_set(reached, tags) =~= rel);
}

/// Whether the vector `r` of a relation leads from the vector `x` to the
/// vector `out`, where `meta` says level by level what the relation does:
///
/// - 0: the value of `x` is carried over;
/// - 1: the value of `x` is the next value of `r`, and is carried over;
/// - 2: the value of `x` is replaced by the next value of `r`;
/// - 3, followed by 4: the value of `x` is the next value of `r` (3), and is
///   replaced by the value of `r` after that (4).
///
/// Beyond the last tag the vector is carried over as it is.
pub open spec fn leads(x: Vector, r: Vector, meta: Seq<u32>, out: Vector) -> bool
    decreases meta.len(),
{
    if meta.len() == 0 {
        out == x
    } else if meta[0] == 0 {
        &&& x.len() > 0
        &&& out.len() > 0
        &&& out[0] == x[0]
        &&& leads(x.drop_first(), r, meta.drop_first(), out.drop_first())
    } else if meta[0] == 1 {
        &&& x.len() > 0
        &&& r.len() > 0
        &&& out.len() > 0
        &&& r[0] == x[0]
        &&& out[0] == x[0]
        &&& leads(x.drop_first(), r.drop_first(), meta.drop_first(), out.drop_first())
    } else if meta[0] == 2 {
        &&& x.len() > 0
        &&& r.len() > 0
        &&& out.len() > 0
        &&& out[0] == r[0]
        &&& leads(x.drop_first(), r.drop_first(), meta.drop_first(), out.drop_first())
    } else if meta[0] == 3 {
        &&& x.len() > 0
        &&& r.len() > 0
        &&& r[0] == x[0]
        &&& leads(x.drop_first(), r.drop_first(), meta.drop_first(), out)
    } else if meta[0] == 4 {
        &&& r.len() > 0
        &&& out.len() > 0
        &&& out[0] == r[0]
        &&& leads(x, r.drop_first(), meta.drop_first(), out.drop_first())
    } else {
        false
    }
}

/// The values of `x` at the levels that a relation with the tags `meta`
/// reads and writes.
pub open spec fn reads_of(x: Vector, meta: Seq<u32>) -> Seq<u32>
    decreases meta.len(),
{
    if meta.len() == 0 {
        Seq::empty()
    } else if meta[0] == 4 {
        reads_of(x, meta.drop_first())
    } else if x.len() == 0 {
        Seq::empty()
    } else if meta[0] == 3 {
        seq![x[0]] + reads_of(x.drop_first(), meta.drop_first())
    } else {
        reads_of(x.drop_first(), meta.drop_first())
    }
}

/// What is reached by a relation is reached from a vector of the set by a
/// vector of the relation: the two vectors that are returned.
pub proof fn lemma_led(
    set: Set<Vector>,
    rel: Set<Vector>,
    meta: Seq<u32>,
    out: Vector,
    reads: Seq<u32>,
) -> (from: (Vector, Vector))
    requires
        reaches(set, rel, meta, out, reads),
        !is_empty(rel),
    ensures
        set.contains(from.0),
        rel.contains(from.1),
        leads(from.0, from.1, meta, out),
    decreases meta.len(),
{
    if meta.len() == 0 {
        let r = choose|r: Vector| rel.contains(r);
        (out, r)
    } else {
        let rest = meta.drop_first();
        if meta[0] == 3 {
            let v = reads[0];
            let below = lemma_led(after(set, v), after(rel, v), rest, out, reads.drop_first());
            let x = seq![v] + below.0;
            let r = seq![v] + below.1;
            assert(x.drop_first() =~= below.0);
            assert(r.drop_first() =~= below.1);
            (x, r)
        } else {
            let v = out[0];
            if meta[0] == 0 {
                let below = lemma_led(after(set, v), rel, rest, out.drop_first(), reads);
                let x = seq![v] + below.0;
                assert(x.drop_first() =~= below.0);
                (x, below.1)
            } else if meta[0] == 1 {
                let below = lemma_led(after(set, v), after(rel, v), rest, out.drop_first(), reads);
                let x = seq![v] + below.0;
                let r = seq![v] + below.1;
                assert(x.drop_first() =~= below.0);
                assert(r.drop_first() =~= below.1);
                (x, r)
            } else if meta[0] == 2 {
                let below = lemma_led(tails(set), after(rel, v), rest, out.drop_first(), reads);
                let first = choose|first: u32| set.contains(#[trigger] (seq![first] + below.0));
                let x = seq![first] + below.0;
                let r = seq![v] + below.1;
                assert(x.drop_first() =~= below.0);
                assert(r.drop_first() =~= below.1);
                (x, r)
            } else {
                let below = lemma_led(set, after(rel, v), rest, out.drop_first(), reads);
                let r = seq![v] + below.1;
                assert(r.drop_first() =~= below.1);
                (below.0, r)
            }
        }
    }
}

/// Where a vector of the relation leads from a vector of the set is
/// reached by the relation.
pub proof fn lemma_leads(
    set: Set<Vector>,
    rel: Set<Vector>,
    meta: Seq<u32>,
    x: Vector,
    r: Vector,
    out: Vector,
)
    requires
        set.contains(x),
        rel.contains(r),
        leads(x, r, meta, out),
    ensures
        reaches(set, rel, meta, out, reads_of(x, meta)),
    decreases meta.len(),
{
    if meta.len() > 0 {
        let rest = meta.drop_first();
        if meta[0] == 0 {
            assert(seq![x[0]] + x.drop_first() =~= x);
            lemma_leads(after(set, x[0]), rel, rest, x.drop_first(), r, out.drop_first());
        } else if meta[0] == 1 {
            assert(seq![x[0]] + x.drop_first() =~= x);
            assert(seq![r[0]] + r.drop_first() =~= r);
            assert(after(rel, out[0]).contains(r.drop_first()));
            lemma_leads(
                after(set, x[0]),
                after(rel, r[0]),
                rest,
                x.drop_first(),
                r.drop_first(),
                out.drop_first(),
            );
        } else if meta[0] == 2 {
            assert(seq![x[0]] + x.drop_first() =~= x);
            assert(seq![r[0]] + r.drop_first() =~= r);
            assert(tails(set).contains(x.drop_first()));
            assert(after(rel, out[0]).contains(r.drop_first()));
            lemma_leads(
                tails(set),
                after(rel, r[0]),
                rest,
                x.drop_first(),
                r.drop_first(),
                out.drop_first(),
            );
        } else if meta[0] == 3 {
            assert(seq![x[0]] + x.drop_first() =~= x);
            assert(seq![r[0]] + r.drop_first() =~= r);
            assert(after(rel, x[0]).contains(r.drop_first()));
            let reads = reads_of(x, meta);
            assert(reads[0] == x[0]);
            assert(reads.drop_first() =~= reads_of(x.drop_first(), rest));
            lemma_leads(after(set, x[0]), after(rel, r[0]), rest, x.drop_first(), r.drop_first(), out);
        } else {
            assert(seq![r[0]] + r.drop_first() =~= r);
            assert(after(rel, out[0]).contains(r.drop_first()));
            lemma_leads(set, after(rel, r[0]), rest, x, r.drop_first(), out.drop_first());
        }
    }
}

/// The relational product, vector by vector: what a relation reaches from a
/// set is where a vector of the relation leads from a vector of the set. A
/// relation without vectors reaches nothing; only where there is no tag at
/// all, the set is carried over whatever the relation holds.
pub proof fn lemma_image_pointwise(set: Set<Vector>, rel: Set<Vector>, meta: Seq<u32>)
    ensures
        meta.len() > 0 || !is_empty(rel) ==> image(set, rel, meta) == Set::new(
            |out: Vector|
                exists|x: Vector, r: Vector|
                    set.contains(x) && rel.contains(r) && #[trigger] leads(x, r, meta, out),
        ),
        meta.len() == 0 ==> image(set, rel, meta) == set,
{
    let pointwise = Set::new(
        |out: Vector|
            exists|x: Vector, r: Vector|
                set.contains(x) && rel.contains(r) && #[trigger] leads(x, r, meta, out),
    );
    if meta.len() > 0 || !is_empty(rel) {
        assert forall|out: Vector| image(set, rel, meta).contains(out) <==> pointwise.contains(
            out,
        ) by {
            if image(set, rel, meta).contains(out) {
                let reads = choose|reads: Seq<u32>| reaches(set, rel, meta, out, reads);
                let from = lemma_led(set, rel, meta, out, reads);
                assert(leads(from.0, from.1, meta, out));
            }
            if pointwise.contains(out) {
                let (x, r) = choose|x: Vector, r: Vector|
                    set.contains(x) && rel.contains(r) && #[trigger] leads(x, r, meta, out);
                lemma_leads(set, rel, meta, x, r, out);
            }
        }
        assert(image(set, rel, meta) =~= pointwise);
    }
    if meta.len() == 0 {
        assert forall|out: Vector| image(set, rel, meta).contains(out) <==> set.contains(out) by {
            if set.contains(out) {
                assert(reaches(set, rel, meta, out, Seq::empty()));
            }
        }
        assert(image(set, rel, meta) =~= set);
    }
}

/// Whether `level` is one of `indices`.
pub open spec fn among(indices: Seq<u32>, level: nat) -> bool {
    exists|k: int| 0 <= k < indices.len() && indices[k] == level
}

/// The tags of a relation for the levels from `from` up to `upto`.
pub open spec fn meta_from(read: Seq<u32>, write: Seq<u32>, from: nat, upto: nat) -> Seq<u32>
    decreases upto - from,
{
    if from >= upto {
        Seq::empty()
    } else {
        level_tags(read, write, from) + meta_from(read, write, from + 1, upto)
    }
}

/// The vector of a relation that takes `x` to `out`, as far as the levels
/// from `from` up to `upto` go, where `x` and `out` start at the level
/// `from`: level by level, the value of `x` where the level is read, and then
/// the value of `out` where the level is written.
pub open spec fn pairs(
    x: Vector,
    out: Vector,
    read: Seq<u32>,
    write: Seq<u32>,
    from: nat,
    upto: nat,
) -> Vector
    decreases upto - from,
{
    if from >= upto || x.len() == 0 || out.len() == 0 {
        Seq::empty()
    } else {
        (if among(read, from) {
            seq![x[0]]
        } else {
            Seq::empty()
        }) + (if among(write, from) {
            seq![out[0]]
        } else {
            Seq::empty()
        }) + pairs(x.drop_first(), out.drop_first(), read, write, from + 1, upto)
    }
}

/// Whether `out` is as long as `x` and has the values of `x` at all levels
/// but those below `upto` that are written, where `x` and `out` start at the
/// level `from`.
pub open spec fn carried(x: Vector, out: Vector, write: Seq<u32>, from: nat, upto: nat) -> bool {
    &&& out.len() == x.len()
    &&& forall|i: int|
        0 <= i < x.len() && !(from + i < upto && among(write, (from + i) as nat)) ==> #[trigger] out[i]
            == x[i]
}

/// The tags of a relation below a level are the tags below a lower level,
/// and then those from there on.
pub proof fn lemma_meta_from(read: Seq<u32>, write: Seq<u32>, from: nat, upto: nat)
    requires
        from <= upto,
    ensures
        meta_upto(read, write, upto) == meta_upto(read, write, from) + meta_from(read, write, from, upto),
    decreases upto - from,
{
    if from < upto {
        lemma_meta_from(read, write, from + 1, upto);
        assert(meta_upto(read, write, from + 1) == meta_upto(read, write, from) + level_tags(
            read,
            write,
            from,
        ));
        assert(meta_upto(read, write, upto) =~= meta_upto(read, write, from) + meta_from(
            read,
            write,
            from,
            upto,
        ));
    } else {
        assert(meta_upto(read, write, upto) =~= meta_upto(read, write, from) + meta_from(
            read,
            write,
            from,
            upto,
        ));
    }
}

/// A vector that begins with a value is the beginning of a vector that
/// begins with the value and goes on with what follows.
pub proof fn lemma_prefix_step(v: u32, p: Vector, r: Vector)
    ensures
        (seq![v] + p).is_prefix_of(r) <==> r.len() > 0 && r[0] == v && p.is_prefix_of(r.drop_first()),
{
    let whole = seq![v] + p;
    if whole.is_prefix_of(r) {
        assert(whole[0] == r[0]);
        assert(p =~= r.drop_first().subrange(0, p.len() as int)) by {
            assert forall|i: int| 0 <= i < p.len() implies p[i] == r.drop_first()[i] by {
                assert(whole[i + 1] == r[i + 1]);
            }
        }
    }
    if r.len() > 0 && r[0] == v && p.is_prefix_of(r.drop_first()) {
        assert(whole =~= r.subrange(0, whole.len() as int)) by {
            assert forall|i: int| 0 <= i < whole.len() implies whole[i] == r[i] by {
                if i > 0 {
                    assert(p[i - 1] == r.drop_first()[i - 1]);
                }
            }
        }
    }
}

/// The values are carried over from a level on when the value of the level
/// is, unless the level is written, and the values are carried over from the
/// next level on.
pub proof fn lemma_carried_step(x: Vector, out: Vector, write: Seq<u32>, from: nat, upto: nat)
    requires
        from < upto,
        x.len() > 0,
    ensures
        carried(x, out, write, from, upto) <==> out.len() > 0 && (among(write, from) || out[0] == x[0])
            && carried(x.drop_first(), out.drop_first(), write, from + 1, upto),
{
    let below = x.drop_first();
    let after = out.drop_first();
    if carried(x, out, write, from, upto) {
        assert(among(write, from) || out[0] == x[0]) by {
            assert((from + 0) as nat == from);
        }
        assert forall|i: int|
            0 <= i < below.len() && !(from + 1 + i < upto && among(write, (from + 1 + i) as nat)) implies #[trigger] after[i]
            == below[i] by {
            assert((from + (i + 1)) as nat == (from + 1 + i) as nat);
            assert(out[i + 1] == x[i + 1]);
        }
    }
    if out.len() > 0 && (among(write, from) || out[0] == x[0]) && carried(below, after, write, from + 1, upto) {
        assert forall|i: int|
            0 <= i < x.len() && !(from + i < upto && among(write, (from + i) as nat)) implies #[trigger] out[i]
            == x[i] by {
            if i > 0 {
                assert((from + 1 + (i - 1)) as nat == (from + i) as nat);
                assert(after[i - 1] == below[i - 1]);
            } else {
                assert((from + 0) as nat == from);
            }
        }
    }
}

/// Where a vector of a relation leads, level by level from `from` up to
/// `upto`: the vector `r` leads from `x` to `out` if and only if `x` has all
/// these levels, `out` has the values of `x` but at the levels that are
/// written, and `r` begins with the values of `x` at the levels that are
/// read and of `out` at the levels that are written.
pub proof fn lemma_leads_from(
    x: Vector,
    r: Vector,
    out: Vector,
    read: Seq<u32>,
    write: Seq<u32>,
    from: nat,
    upto: nat,
)
    requires
        from <= upto,
    ensures
        leads(x, r, meta_from(read, write, from, upto), out) <==> x.len() >= upto - from && carried(
            x,
            out,
            write,
            from,
            upto,
        ) && pairs(x, out, read, write, from, upto).is_prefix_of(r),
    decreases upto - from,
{
    let meta = meta_from(read, write, from, upto);
    if from == upto {
        assert(pairs(x, out, read, write, from, upto) =~= Seq::<u32>::empty());
        if carried(x, out, write, from, upto) {
            assert(out =~= x);
        }
    } else {
        let tags = level_tags(read, write, from);
        let rest = meta_from(read, write, from + 1, upto);
        let below = x.drop_first();
        let after = out.drop_first();
        let further = pairs(below, after, read, write, from + 1, upto);
        assert(meta == tags + rest);
        if x.len() > 0 {
            lemma_carried_step(x, out, write, from, upto);
        }
        if among(read, from) && among(write, from) {
            assert(tags == seq![3u32, 4u32]);
            assert(meta[0] == 3);
            assert(meta.drop_first() =~= seq![4u32] + rest);
            assert(meta.drop_first()[0] == 4);
            assert(meta.drop_first().drop_first() =~= rest);
            let middle = r.drop_first();
            assert(leads(x, r, meta, out) <==> x.len() > 0 && r.len() > 0 && r[0] == x[0] && leads(
                below,
                middle,
                meta.drop_first(),
                out,
            ));
            assert(leads(below, middle, meta.drop_first(), out) <==> middle.len() > 0 && out.len() > 0
                && out[0] == middle[0] && leads(below, middle.drop_first(), rest, after));
            if x.len() > 0 && out.len() > 0 {
                lemma_leads_from(below, middle.drop_first(), after, read, write, from + 1, upto);
                assert(pairs(x, out, read, write, from, upto) =~= seq![x[0]] + (seq![out[0]] + further));
                lemma_prefix_step(x[0], seq![out[0]] + further, r);
                lemma_prefix_step(out[0], further, middle);
            }
        } else if among(read, from) {
            assert(tags == seq![1u32]);
            assert(meta[0] == 1);
            assert(meta.drop_first() =~= rest);
            assert(leads(x, r, meta, out) <==> x.len() > 0 && r.len() > 0 && out.len() > 0 && r[0]
                == x[0] && out[0] == x[0] && leads(below, r.drop_first(), rest, after));
            if x.len() > 0 && out.len() > 0 {
                lemma_leads_from(below, r.drop_first(), after, read, write, from + 1, upto);
                assert(pairs(x, out, read, write, from, upto) =~= seq![x[0]] + further);
                lemma_prefix_step(x[0], further, r);
            }
        } else if among(write, from) {
            assert(tags == seq![2u32]);
            assert(meta[0] == 2);
            assert(meta.drop_first() =~= rest);
            assert(leads(x, r, meta, out) <==> x.len() > 0 && r.len() > 0 && out.len() > 0 && out[0]
                == r[0] && leads(below, r.drop_first(), rest, after));
            if x.len() > 0 && out.len() > 0 {
                lemma_leads_from(below, r.drop_first(), after, read, write, from + 1, upto);
                assert(pairs(x, out, read, write, from, upto) =~= seq![out[0]] + further);
                lemma_prefix_step(out[0], further, r);
            }
        } else {
            assert(tags == seq![0u32]);
            assert(meta[0] == 0);
            assert(meta.drop_first() =~= rest);
            assert(leads(x, r, meta, out) <==> x.len() > 0 && out.len() > 0 && out[0] == x[0] && leads(
                below,
                r,
                rest,
                after,
            ));
            if x.len() > 0 && out.len() > 0 {
                lemma_leads_from(below, r, after, read, write, from + 1, upto);
                assert(pairs(x, out, read, write, from, upto) =~= further);
            }
        }
    }
}

/// Whether the vector `r` of a relation that reads the levels `read` and
/// writes the levels `write` takes `x` to `out`: `x` has all the levels that
/// the relation speaks of, `out` is `x` with other values at the levels that
/// are written at most, and `r` begins with the pairs of `x` and `out`: level
/// by level, the value of `x` where the level is read, and then the value of
/// `out` where the level is written.
pub open spec fn moves(x: Vector, r: Vector, out: Vector, read: Seq<u32>, write: Seq<u32>) -> bool {
    let upto = if span(read) > span(write) {
        span(read)
    } else {
        span(write)
    };
    &&& x.len() >= upto
    &&& out.len() == x.len()
    &&& forall|i: int| 0 <= i < x.len() && !among(write, i as nat) ==> #[trigger] out[i] == x[i]
    &&& pairs(x, out, read, write, 0, upto).is_prefix_of(r)
}

/// A step of a relation in closed form: with the tags of a relation that
/// reads the levels `read` and writes the levels `write`, the vector `r` leads
/// from `x` to `out` if and only if it takes `x` to `out`.
pub proof fn lemma_leads_closed(x: Vector, r: Vector, out: Vector, read: Seq<u32>, write: Seq<u32>)
    ensures
        leads(x, r, meta_of(read, write), out) <==> moves(x, r, out, read, write),
{
    let upto = if span(read) > span(write) {
        span(read)
    } else {
        span(write)
    };
    lemma_meta_from(read, write, 0, upto);
    assert(meta_of(read, write) =~= meta_from(read, write, 0, upto));
    lemma_leads_from(x, r, out, read, write, 0, upto);
    lemma_span(write);
    if carried(x, out, write, 0, upto) {
        assert forall|i: int| 0 <= i < x.len() && !among(write, i as nat) implies #[trigger] out[i]
            == x[i] by {
            assert((0 + i) as nat == i as nat);
        }
    }
    if out.len() == x.len() && (forall|i: int|
        0 <= i < x.len() && !among(write, i as nat) ==> #[trigger] out[i] == x[i]) {
        assert forall|i: int|
            0 <= i < x.len() && !(0 + i < upto && among(write, (0 + i) as nat)) implies #[trigger] out[i]
            == x[i] by {
            assert((0 + i) as nat == i as nat);
            if among(write, i as nat) {
                let k = choose|k: int| 0 <= k < write.len() && write[k] == i as nat;
                assert(write[k] < span(write));
            }
        }
    }
}

/// The relational product in closed form: with the tags of a relation that
/// reads the levels `read` and writes the levels `write`, a relation reaches
/// from a set the vectors to which one of its vectors takes a vector of the
/// set. Only where the relation speaks of no level at all and holds no
/// vector, the set is carried over.
pub proof fn lemma_image_closed(set: Set<Vector>, rel: Set<Vector>, read: Seq<u32>, write: Seq<u32>)
    requires
        read.len() > 0 || write.len() > 0 || !is_empty(rel),
    ensures
        image(set, rel, meta_of(read, write)) == Set::new(
            |out: Vector|
                exists|x: Vector, r: Vector|
                    set.contains(x) && rel.contains(r) && #[trigger] moves(x, r, out, read, write),
        ),
{
    let meta = meta_of(read, write);
    let closed = Set::new(
        |out: Vector|
            exists|x: Vector, r: Vector|
                set.contains(x) && rel.contains(r) && #[trigger] moves(x, r, out, read, write),
    );
    lemma_image_pointwise(set, rel, meta);
    lemma_span(read);
    lemma_span(write);
    assert(meta.len() > 0 || !is_empty(rel)) by {
        let upto = if span(read) > span(write) {
            span(read)
        } else {
            span(write)
        };
        if upto > 0 {
            let above = meta_upto(read, write, (upto - 1) as nat);
            assert(meta == above + level_tags(read, write, (upto - 1) as nat));
            assert(level_tags(read, write, (upto - 1) as nat).len() > 0);
        }
    }
    assert forall|out: Vector| image(set, rel, meta).contains(out) <==> closed.contains(out) by {
        if image(set, rel, meta).contains(out) {
            let (x, r) = choose|x: Vector, r: Vector|
                set.contains(x) && rel.contains(r) && #[trigger] leads(x, r, meta, out);
            lemma_leads_closed(x, r, out, read, write);
            assert(moves(x, r, out, read, write));
        }
        if closed.contains(out) {
            let (x, r) = choose|x: Vector, r: Vector|
                set.contains(x) && rel.contains(r) && #[trigger] moves(x, r, out, read, write);
            lemma_leads_closed(x, r, out, read, write);
            assert(leads(x, r, meta, out));
        }
    }
    assert(image(set, rel, meta) =~= closed);
}

/// Whether the indices stand in strictly ascending order.
pub open spec fn ascending(indices: Seq<u32>) -> bool {
    forall|i: int, j: int| 0 <= i < j < indices.len() ==> indices[i] < indices[j]
}

/// The values of the vector `x` at the indices, in the order of the
/// indices.
pub open spec fn select(x: Vector, indices: Seq<u32>) -> Vector {
    Seq::new(indices.len(), |k: int| x[indices[k] as int])
}

/// The span of some indices is above each of them, and just above one of
/// them, if there are any.
pub proof fn lemma_span(indices: Seq<u32>)
    ensures
        forall|k: int| 0 <= k < indices.len() ==> indices[k] < span(indices),
        indices.len() > 0 ==> exists|k: int| 0 <= k < indices.len() && indices[k] + 1 == span(indices),
        indices.len() == 0 ==> span(indices) == 0,
    decreases indices.len(),
{
    if indices.len() > 0 {
        let front = indices.drop_last();
        lemma_span(front);
        assert forall|k: int| 0 <= k < indices.len() implies indices[k] < span(indices) by {
            if k < front.len() {
                assert(front[k] == indices[k]);
            }
        }
        if indices.last() + 1 > span(front) {
            assert(indices[indices.len() - 1] + 1 == span(indices));
        } else {
            let k = choose|k: int| 0 <= k < front.len() && front[k] + 1 == span(front);
            assert(indices[k] == front[k]);
        }
    }
}

/// The projection of the part of a vector from the position `from` on keeps
/// the values at the indices from there on: those from the index with the
/// number `start` on, where the indices before it lie below `from`.
proof fn lemma_select_from(x: Vector, indices: Seq<u32>, from: int, start: int)
    requires
        ascending(indices),
        forall|k: int| 0 <= k < indices.len() ==> indices[k] < x.len(),
        0 <= from <= span(indices),
        0 <= start <= indices.len(),
        forall|k: int| 0 <= k < start ==> indices[k] < from,
        forall|k: int| start <= k < indices.len() ==> indices[k] >= from,
    ensures
        project_vector(x.skip(from), tags_of(indices).skip(from)) == Seq::new(
            (indices.len() - start) as nat,
            |k: int| x[indices[start + k] as int],
        ),
    decreases span(indices) - from,
{
    let tags = tags_of(indices);
    let wanted = Seq::new((indices.len() - start) as nat, |k: int| x[indices[start + k] as int]);
    lemma_span(indices);
    if from == span(indices) {
        assert(start == indices.len()) by {
            if start < indices.len() {
                assert(indices[start] < span(indices));
            }
        }
        assert(tags.skip(from).len() == 0);
        assert(project_vector(x.skip(from), tags.skip(from)) =~= wanted);
    } else {
        assert(x.len() >= span(indices)) by {
            let k = choose|k: int| 0 <= k < indices.len() && indices[k] + 1 == span(indices);
            assert(indices[k] < x.len());
        }
        assert(tags.skip(from).drop_first() =~= tags.skip(from + 1));
        assert(x.skip(from).drop_first() =~= x.skip(from + 1));
        assert(tags.skip(from)[0] == tags[from]);
        assert(x.skip(from)[0] == x[from]);
        if start < indices.len() && indices[start] == from {
            assert(tags[from] == 1);
            assert forall|k: int| start + 1 <= k < indices.len() implies indices[k]
                >= from + 1 by {
                assert(indices[start] < indices[k]);
            }
            lemma_select_from(x, indices, from + 1, start + 1);
            assert(project_vector(x.skip(from), tags.skip(from)) =~= wanted);
        } else {
            assert(tags[from] != 1) by {
                if exists|k: int| 0 <= k < indices.len() && indices[k] == from {
                    let k = choose|k: int| 0 <= k < indices.len() && indices[k] == from;
                    if k < start {
                        assert(indices[k] < from);
                    } else if k > start {
                        assert(indices[start] < indices[k]);
                    }
                }
            }
            assert forall|k: int| start <= k < indices.len() implies indices[k] >= from + 1 by {
                if k > start {
                    assert(indices[start] < indices[k]);
                }
            }
            lemma_select_from(x, indices, from + 1, start);
            assert(project_vector(x.skip(from), tags.skip(from)) =~= wanted);
        }
    }
}

/// Projection selects: the projection of a vector onto some indices, which
/// stand in ascending order and lie in the vector, holds the values of the
/// vector at the indices.
pub proof fn lemma_projection_selects(x: Vector, indices: Seq<u32>)
    requires
        ascending(indices),
        forall|k: int| 0 <= k < indices.len() ==> indices[k] < x.len(),
    ensures
        project_vector(x, tags_of(indices)) == select(x, indices),
{
    lemma_select_from(x, indices, 0, 0);
    assert(x.skip(0) =~= x);
    assert(tags_of(indices).skip(0) =~= tags_of(indices));
    assert(select(x, indices) =~= Seq::new(
        (indices.len() - 0) as nat,
        |k: int| x[indices[0 + k] as int],
    ));
}

/// The tags of a projection depend on the indices only, not on their order
/// nor on how often each is given.
pub proof fn lemma_tags_same(indices: Seq<u32>, others: Seq<u32>)
    requires
        forall|level: nat| among(indices, level) <==> among(others, level),
    ensures
        span(indices) == span(others),
        tags_of(indices) == tags_of(others),
{
    lemma_span(indices);
    lemma_span(others);
    assert forall|k: int| 0 <= k < indices.len() implies indices[k] < span(others) by {
        assert(among(indices, indices[k] as nat));
        let j = choose|j: int| 0 <= j < others.len() && others[j] == indices[k] as nat;
        assert(others[j] < span(others));
    }
    assert forall|k: int| 0 <= k < others.len() implies others[k] < span(indices) by {
        assert(among(others, others[k] as nat));
        let j = choose|j: int| 0 <= j < indices.len() && indices[j] == others[k] as nat;
        assert(indices[j] < span(indices));
    }
    if indices.len() > 0 {
        let k = choose|k: int| 0 <= k < indices.len() && indices[k] + 1 == span(indices);
        assert(indices[k] < span(others));
        assert(among(indices, indices[k] as nat));
    }
    if others.len() > 0 {
        let k = choose|k: int| 0 <= k < others.len() && others[k] + 1 == span(others);
        assert(others[k] < span(indices));
        assert(among(others, others[k] as nat));
    }
    assert(span(indices) == span(others));
    assert forall|i: int| 0 <= i < span(indices) implies tags_of(indices)[i] == tags_of(others)[i] by {
        assert(among(indices, i as nat) <==> among(others, i as nat));
    }
    assert(tags_of(indices) =~= tags_of(others));
}

/// Projection selects, whatever the order of the indices: the projection
/// of a vector onto some indices, which lie in the vector, holds the values
/// of the vector at the indices, in ascending order of the indices, each once.
pub proof fn lemma_projection_selects_sorted(x: Vector, indices: Seq<u32>, sorted: Seq<u32>)
    requires
        ascending(sorted),
        forall|level: nat| among(indices, level) <==> among(sorted, level),
        forall|k: int| 0 <= k < indices.len() ==> indices[k] < x.len(),
    ensures
        project_vector(x, tags_of(indices)) == select(x, sorted),
{
    lemma_tags_same(indices, sorted);
    assert forall|k: int| 0 <= k < sorted.len() implies sorted[k] < x.len() by {
        assert(among(sorted, sorted[k] as nat));
        let j = choose|j: int| 0 <= j < indices.len() && indices[j] == sorted[k] as nat;
        assert(indices[j] < x.len());
    }
    lemma_projection_selects(x, sorted);
}

/// A diagram that stands for the set of one vector is the chain of that
/// vector, which is its first vector.
pub proof fn lemma_chain_unique(t: Tree, x: Vector)
    requires
        canonical(t),
        denote(t) == Set::<Vector>::empty().insert(x),
    ensures
        t == chain(x),
        first_vector(t) == x,
{
    lemma_chain(x);
    lemma_denote_unique(t, chain(x));
}

/// Garbage collection is safe: a storage that has the handles of another,
/// as after a collection, holds every handle of the other, with its set.
pub proof fn lemma_collection_safe(before: &Storage, after: &Storage, ldd: &Ldd)
    requires
        after.handles() == before.handles(),
        before.protects(ldd),
    ensures
        after.protects(ldd),
        after.set_of(ldd) == before.set_of(ldd),
{
}

} // verus!

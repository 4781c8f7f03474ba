//! The operations on diagrams.

use crate::algebra::{
    compatible, deep, lemma_minus_above, lemma_minus_below, lemma_minus_level,
    lemma_project_drop, lemma_project_end, lemma_project_keep, lemma_project_nothing,
    lemma_union_below, lemma_union_level,
};
use crate::relation::{
    lemma_image_both_level, lemma_image_end, lemma_image_nothing, lemma_image_read_above,
    lemma_image_read_below, lemma_image_read_level, lemma_image_silent, lemma_image_write,
    lemma_nonempty, lemma_tails_node, lemma_tails_nothing, lemma_uniform,
};
use crate::semantics::{
    image, level_tags, meta_of, meta_upto, project_set, projection_tags, relation_levels,
    relation_tags, source_levels, span, tags_of, tails,
};
use crate::iterators::IterRight;
use crate::storage::cache::{binary_operands, lookup, ordered, ternary_operands};
use crate::storage::{
    cache_binary_op, cache_comm_binary_op, cache_terniary_op, cache_unary_function,
    BinaryOperator, Data, DataRef, Ldd, LddRef, Storage, TernaryOperator, UnaryFunction, Value,
    EMPTY_SET, EMPTY_VECTOR,
};
use crate::tree::{
    canonical, capped, chain, contains, count, denote, first_vector, height, lemma_chain,
    lemma_count, node, size, Tree, Vector,
};
use vstd::prelude::*;

verus! {

/// Returns a diagram that holds only the given vector: `{ vector }`.
pub fn singleton(storage: &mut Storage, vector: &[Value]) -> (r: Ldd)
    requires
        old(storage).wf(),
    ensures
        final(storage).yields(old(storage), &r),
        final(storage).tree_of(&r) == chain(vector@),
        final(storage).set_of(&r) == Set::<Vector>::empty().insert(vector@),
{
    proof {
        storage.lemma_constants();
    }
    let mut root = storage.protect(storage.empty_vector().borrow());
    let empty_set = storage.protect(storage.empty_set().borrow());
    let mut i = vector.len();
    proof {
        assert(vector@.skip(i as int) =~= Seq::<u32>::empty());
    }
    while i > 0
        invariant
            i <= vector.len(),
            storage.wf(),
            !old(storage).handles().contains_key(root.slot()),
            !old(storage).handles().contains_key(empty_set.slot()),
            root.slot() != empty_set.slot(),
            storage.handles() == old(storage).handles().insert(
                empty_set.slot(),
                (empty_set.index(), Tree::False),
            ).insert(root.slot(), (root.index(), chain(vector@.skip(i as int)))),
            storage.collects() == old(storage).collects(),
            storage.reports() == old(storage).reports(),
        decreases i,
    {
        i -= 1;
        proof {
            lemma_chain(vector@.skip(i as int + 1));
            lemma_chain(vector@.skip(i as int));
            assert(vector@.skip(i as int).drop_first() =~= vector@.skip(i as int + 1));
        }
        let next = storage.insert(vector[i], &root, &empty_set);
        storage.release(root);
        root = next;
        proof {
            assert(storage.handles() =~= old(storage).handles().insert(
                empty_set.slot(),
                (empty_set.index(), Tree::False),
            ).insert(root.slot(), (root.index(), chain(vector@.skip(i as int)))));
        }
    }
    storage.release(empty_set);
    proof {
        assert(vector@.skip(0) =~= vector@);
        lemma_chain(vector@);
        assert(storage.handles() =~= old(storage).handles().insert(
            root.slot(),
            (root.index(), chain(vector@)),
        ));
    }
    root
}

/// Returns true iff the set contains the vector.
pub fn element_of(storage: &Storage, vector: &[Value], ldd: &Ldd) -> (r: bool)
    requires
        storage.wf(),
        storage.protects(ldd),
    ensures
        r == storage.set_of(ldd).contains(vector@),
{
    proof {
        storage.lemma_handle(ldd);
    }
    element_of_ref(storage, vector, ldd.borrow())
}

/// Returns true iff the set of the node `ldd` contains the vector.
pub fn element_of_ref(storage: &Storage, vector: &[Value], ldd: LddRef) -> (r: bool)
    requires
        storage.wf(),
        storage.valid(ldd.index()),
    ensures
        r == contains(storage.tree(ldd.index()), vector@),
    decreases vector@.len(),
{
    proof {
        storage.lemma_constants();
        storage.lemma_canonical(ldd.index());
    }
    let ghost tree = storage.tree(ldd.index());
    if vector.len() == 0 {
        proof {
            if contains(tree, vector@) && tree is Node {
                crate::tree::lemma_head_bound(tree, vector@);
            }
        }
        ldd.index() == EMPTY_VECTOR
    } else if ldd.index() == EMPTY_VECTOR {
        false
    } else {
        let mut iter = IterRight::new(storage, ldd);
        loop
            invariant
                tree == storage.tree(ldd.index()),
                iter.wf(),
                iter.storage() == storage,
                storage.wf(),
                vector@.len() > 0,
                canonical(iter.tree()),
                contains(tree, vector@) == contains(iter.tree(), vector@),
            decreases size(iter.tree()),
        {
            let ghost here = iter.tree();
            match iter.next() {
                None => {
                    return false;
                },
                Some(DataRef(value, down, _)) => {
                    if value == vector[0] {
                        let rest = element_of_ref(storage, &vector[1..vector.len()], down);
                        proof {
                            assert(vector@.subrange(1, vector@.len() as int) =~= vector@.drop_first());
                            crate::tree::lemma_node_split(here, vector@);
                        }
                        return rest;
                    } else if value > vector[0] {
                        proof {
                            crate::tree::lemma_node_split(here, vector@);
                            if contains(here.right(), vector@) {
                                crate::tree::lemma_right_bound(here, vector@);
                            }
                        }
                        return false;
                    } else {
                        proof {
                            crate::tree::lemma_node_split(here, vector@);
                        }
                    }
                },
            }
        }
    }
}

/// Returns the height of the node `ldd`: the number of steps down to a
/// constant, if it fits a machine word.
pub fn height_of(storage: &Storage, ldd: LddRef) -> (r: Option<usize>)
    requires
        storage.wf(),
        storage.valid(ldd.index()),
    ensures
        r == (if height(storage.tree(ldd.index())) <= usize::MAX {
            Some(height(storage.tree(ldd.index())) as usize)
        } else {
            None
        }),
{
    let ghost tree = storage.tree(ldd.index());
    let mut current = ldd;
    let mut steps: usize = 0;
    loop
        invariant
            storage.wf(),
            storage.valid(current.index()),
            tree == storage.tree(ldd.index()),
            steps + height(storage.tree(current.index())) == height(tree),
        decreases size(storage.tree(current.index())),
    {
        proof {
            storage.lemma_constants();
        }
        if current.index() == EMPTY_SET || current.index() == EMPTY_VECTOR {
            return Some(steps);
        }
        if steps == usize::MAX {
            return None;
        }
        let DataRef(_, down, _) = storage.get_ref(current);
        steps += 1;
        current = down;
    }
}

/// Returns the number of vectors in the set, which must fit a machine word.
pub fn len(storage: &mut Storage, set: &Ldd) -> (r: usize)
    requires
        old(storage).wf(),
        old(storage).protects(set),
        old(storage).set_of(set).len() <= usize::MAX,
    ensures
        r == old(storage).set_of(set).len(),
        old(storage).set_of(set).finite(),
        final(storage).wf(),
        final(storage).handles() == old(storage).handles(),
        final(storage).same_nodes_as(old(storage)),
        if set.index() == EMPTY_SET || set.index() == EMPTY_VECTOR {
            final(storage).cache() == old(storage).cache()
        } else {
            lookup(final(storage).cache().unary(UnaryFunction::Len), (set.index(), 0, 0)) == Some(r)
        },
{
    proof {
        storage.lemma_handle(set);
        lemma_count(storage.tree_of(set));
    }
    len_ref(storage, set.borrow())
}

/// Returns the number of vectors in the set, if it is below the largest
/// machine word.
pub fn checked_len(storage: &mut Storage, set: &Ldd) -> (r: Option<usize>)
    requires
        old(storage).wf(),
        old(storage).protects(set),
    ensures
        old(storage).set_of(set).finite(),
        r == (if old(storage).set_of(set).len() < usize::MAX {
            Some(old(storage).set_of(set).len() as usize)
        } else {
            None
        }),
        final(storage).wf(),
        final(storage).handles() == old(storage).handles(),
        final(storage).same_nodes_as(old(storage)),
        if set.index() == EMPTY_SET || set.index() == EMPTY_VECTOR {
            final(storage).cache() == old(storage).cache()
        } else {
            lookup(final(storage).cache().unary(UnaryFunction::Len), (set.index(), 0, 0)) == Some(
                capped(old(storage).set_of(set).len()),
            )
        },
{
    proof {
        storage.lemma_handle(set);
        lemma_count(storage.tree_of(set));
    }
    let n = len_ref(storage, set.borrow());
    if n == usize::MAX {
        None
    } else {
        Some(n)
    }
}

/// Returns the number of vectors in the set of the node `set`, or the
/// largest machine word where they are more.
pub fn len_ref(storage: &mut Storage, set: LddRef) -> (r: usize)
    requires
        old(storage).wf(),
        old(storage).valid(set.index()),
    ensures
        r == capped(count(old(storage).tree(set.index()))),
        final(storage).wf(),
        final(storage).handles() == old(storage).handles(),
        final(storage).same_nodes_as(old(storage)),
        if set.index() == EMPTY_SET || set.index() == EMPTY_VECTOR {
            final(storage).cache() == old(storage).cache()
        } else {
            lookup(final(storage).cache().unary(UnaryFunction::Len), (set.index(), 0, 0)) == Some(r)
        },
    decreases size(old(storage).tree(set.index())), 2nat,
{
    proof {
        storage.lemma_constants();
    }
    if set.index() == EMPTY_SET {
        0
    } else if set.index() == EMPTY_VECTOR {
        1
    } else {
        cache_unary_function(storage, UnaryFunction::Len, set)
    }
}

/// The number of vectors of a proper node: the sum of the numbers below the
/// node and each of its right neighbours, or the largest machine word where
/// that is larger.
pub(crate) fn len_nodes(storage: &mut Storage, set: LddRef) -> (r: usize)
    requires
        old(storage).wf(),
        old(storage).valid(set.index()),
        old(storage).tree(set.index()) is Node,
    ensures
        r == capped(count(old(storage).tree(set.index()))),
        final(storage).wf(),
        final(storage).handles() == old(storage).handles(),
        final(storage).same_nodes_as(old(storage)),
    decreases size(old(storage).tree(set.index())), 0nat,
{
    let ghost tree = storage.tree(set.index());
    let mut result: usize = 0;
    let mut current = set;
    proof {
        storage.lemma_canonical(set.index());
    }
    loop
        invariant
            storage.wf(),
            storage.handles() == old(storage).handles(),
            storage.same_nodes_as(old(storage)),
            old(storage).valid(current.index()),
            canonical(old(storage).tree(current.index())),
            old(storage).tree(current.index()) != Tree::True,
            count(old(storage).tree(current.index())) <= count(tree),
            result == capped((count(tree) - count(old(storage).tree(current.index()))) as nat),
            size(old(storage).tree(current.index())) <= size(tree),
            tree == old(storage).tree(set.index()),
        ensures
            result == capped(count(tree)),
            storage.wf(),
            storage.handles() == old(storage).handles(),
            storage.same_nodes_as(old(storage)),
        decreases size(old(storage).tree(current.index())),
    {
        proof {
            storage.lemma_constants();
        }
        if current.index() == EMPTY_SET {
            break ;
        }
        let ghost before = *storage;
        let DataRef(_, down, right) = storage.get_ref(current);
        let below = len_ref(storage, down);
        result = if below > usize::MAX - result {
            usize::MAX
        } else {
            result + below
        };
        current = right;
        proof {
            assert(storage.extends(old(storage))) by {
                assert forall|n: usize| #[trigger] old(storage).valid(n) implies storage.valid(n)
                    && storage.tree(n) == old(storage).tree(n) by {
                    assert(before.valid(n));
                }
            }
            assert(old(storage).extends(storage)) by {
                assert forall|n: usize| #[trigger] storage.valid(n) implies old(storage).valid(n)
                    && old(storage).tree(n) == storage.tree(n) by {
                    assert(before.valid(n));
                }
            }
        }
    }
    result
}

/// Whether `value` is one of `indices`.
fn is_index(indices: &[Value], value: u64) -> (r: bool)
    ensures
        r == exists|k: int| 0 <= k < indices@.len() && indices@[k] == value,
{
    let mut k: usize = 0;
    while k < indices.len()
        invariant
            k <= indices@.len(),
            forall|j: int| 0 <= j < k ==> indices@[j] != value,
        decreases indices@.len() - k,
    {
        if indices[k] as u64 == value {
            return true;
        }
        k += 1;
    }
    false
}

/// The smallest number above every index: 0 for no index, else the largest
/// index and one.
fn span_of(indices: &[Value]) -> (r: u64)
    ensures
        r == span(indices@),
        r <= u32::MAX + 1,
{
    let mut length: u64 = 0;
    let mut k: usize = 0;
    proof {
        assert(indices@.take(0) =~= Seq::<u32>::empty());
    }
    while k < indices.len()
        invariant
            k <= indices@.len(),
            length == span(indices@.take(k as int)),
            length <= u32::MAX + 1,
        decreases indices@.len() - k,
    {
        proof {
            assert(indices@.take(k as int + 1).drop_last() =~= indices@.take(k as int));
            assert(indices@.take(k as int + 1).last() == indices@[k as int]);
        }
        if indices[k] as u64 + 1 > length {
            length = indices[k] as u64 + 1;
        }
        k += 1;
    }
    proof {
        assert(indices@.take(k as int) =~= indices@);
    }
    length
}

/// Computes the diagram that tells the [project] function to project onto
/// the given indices: the chain of the tags of the indices.
///
/// The order of the indices and repetitions among them do not matter. The
/// diagram can be kept and used for many projections.
pub fn compute_proj(storage: &mut Storage, proj: &[Value]) -> (r: Ldd)
    requires
        old(storage).wf(),
    ensures
        final(storage).yields(old(storage), &r),
        final(storage).tree_of(&r) == chain(tags_of(proj@)),
{
    let length = span_of(proj);
    let mut result: Vec<Value> = Vec::new();
    let mut i: u64 = 0;
    while i < length
        invariant
            i <= length,
            length == span(proj@),
            result@.len() == i,
            forall|j: int| 0 <= j < i ==> result@[j] == tags_of(proj@)[j],
        decreases length - i,
    {
        if is_index(proj, i) {
            result.push(1);
        } else {
            result.push(0);
        }
        i += 1;
    }
    proof {
        assert(result@ =~= tags_of(proj@));
    }
    singleton(storage, result.as_slice())
}

/// Computes the set of the vectors of `set` projected onto the indices that
/// `proj` stands for, which is the diagram that [compute_proj] computes for
/// the indices.
///
/// The projection of a vector keeps the values at the indices, in their
/// order in the vector, and drops all others:
/// `project(X, proj) = { project(x, proj) | x in X }`.
/// The vectors of the set must be as long as the tags at least.
pub fn project(storage: &mut Storage, set: &Ldd, proj: &Ldd) -> (r: Ldd)
    requires
        old(storage).wf(),
        old(storage).protects(set),
        old(storage).protects(proj),
        old(storage).tree_of(proj) != Tree::False,
        projection_tags(first_vector(old(storage).tree_of(proj))),
        deep(old(storage).tree_of(set), height(old(storage).tree_of(proj))),
    ensures
        final(storage).yields(old(storage), &r),
        final(storage).set_of(&r) == project_set(
            old(storage).set_of(set),
            first_vector(old(storage).tree_of(proj)),
        ),
    decreases size(old(storage).tree_of(set)),
{
    let ghost tree = storage.tree_of(set);
    let ghost guide = storage.tree_of(proj);
    let ghost tags = first_vector(guide);
    proof {
        storage.lemma_handle(set);
        storage.lemma_handle(proj);
        storage.lemma_constants();
        lemma_guide(guide);
    }
    if storage.is_empty_set(set) {
        proof {
            lemma_project_nothing(tags);
        }
        storage.duplicate(set)
    } else if storage.is_empty_vector(proj) {
        // Nothing is kept of what lies below the last tag.
        proof {
            lemma_project_end(tree, tags);
        }
        storage.protect(storage.empty_vector().borrow())
    } else {
        let Data(proj_value, proj_down, proj_right) = storage.get(proj);
        let Data(value, down, right) = storage.get(set);
        proof {
            assert(tags.drop_first() =~= first_vector(guide.down()));
            assert forall|i: int| 0 <= i < tags.drop_first().len() implies #[trigger] tags.drop_first()[i]
                <= 1 by {
                assert(tags[i + 1] <= 1);
            }
            assert(tags[0] <= 1);
        }
        let right_result = project(storage, &right, proj);
        let down_result = project(storage, &down, &proj_down);
        let result = if proj_value == 0 {
            proof {
                lemma_project_drop(
                    tree,
                    tags,
                    storage.tree_of(&down_result),
                    storage.tree_of(&right_result),
                );
            }
            let result = union(storage, &right_result, &down_result);
            storage.release(down_result);
            storage.release(right_result);
            result
        } else {
            proof {
                lemma_project_keep(
                    tree,
                    tags,
                    storage.tree_of(&down_result),
                    storage.tree_of(&right_result),
                );
            }
            if storage.is_empty_set(&down_result) {
                storage.release(down_result);
                right_result
            } else {
                let result = storage.insert(value, &down_result, &right_result);
                storage.release(down_result);
                storage.release(right_result);
                result
            }
        };
        let ghost built = storage.tree_of(&result);
        storage.release(proj_down);
        storage.release(proj_right);
        storage.release(down);
        storage.release(right);
        proof {
            assert(storage.handles() =~= old(storage).handles().insert(
                result.slot(),
                (result.index(), built),
            ));
        }
        result
    }
}

/// The guide of a projection or of a relation is as high as it has tags.
pub proof fn lemma_guide(guide: Tree)
    ensures
        first_vector(guide).len() == height(guide),
        guide is Node ==> first_vector(guide)[0] == guide.value() && first_vector(
            guide,
        ).drop_first() == first_vector(guide.down()),
    decreases guide,
{
    match guide {
        Tree::Node(v, d, _) => {
            lemma_guide(*d);
            assert(first_vector(guide).drop_first() =~= first_vector(*d));
        },
        _ => {},
    }
}

/// Returns the union of the given diagrams.
pub fn union(storage: &mut Storage, a: &Ldd, b: &Ldd) -> (r: Ldd)
    requires
        old(storage).wf(),
        old(storage).protects(a),
        old(storage).protects(b),
        compatible(old(storage).tree_of(a), old(storage).tree_of(b)),
    ensures
        final(storage).yields(old(storage), &r),
        final(storage).set_of(&r) == old(storage).set_of(a).union(old(storage).set_of(b)),
        if a.index() == b.index() || old(storage).tree_of(a) == Tree::False || old(storage).tree_of(b)
            == Tree::False {
            final(storage).cache() == old(storage).cache() && final(storage).same_nodes_as(old(storage))
        } else {
            lookup(
                final(storage).cache().binary(BinaryOperator::Union),
                ordered(a.index(), b.index()),
            ) == Some(r.index())
        },
    decreases size(old(storage).tree_of(a)) + size(old(storage).tree_of(b)), 3nat,
{
    proof {
        storage.lemma_handle(a);
        storage.lemma_handle(b);
        storage.lemma_handles(a, b);
    }
    if a.index() == b.index() {
        let r = storage.duplicate(a);
        proof {
            assert(storage.set_of(&r) =~= old(storage).set_of(a).union(old(storage).set_of(b)));
        }
        r
    } else if storage.is_empty_set(a) {
        let r = storage.duplicate(b);
        proof {
            assert(storage.set_of(&r) =~= old(storage).set_of(a).union(old(storage).set_of(b)));
        }
        r
    } else if storage.is_empty_set(b) {
        let r = storage.duplicate(a);
        proof {
            assert(storage.set_of(&r) =~= old(storage).set_of(a).union(old(storage).set_of(b)));
        }
        r
    } else {
        cache_comm_binary_op(storage, BinaryOperator::Union, a, b)
    }
}

/// The union of two proper nodes of the same height, by the order of their
/// values.
pub(crate) fn union_nodes(storage: &mut Storage, a: &Ldd, b: &Ldd) -> (r: Ldd)
    requires
        binary_operands(old(storage), a, b),
    ensures
        final(storage).yields(old(storage), &r),
        final(storage).set_of(&r) == old(storage).set_of(a).union(old(storage).set_of(b)),
    decreases size(old(storage).tree_of(a)) + size(old(storage).tree_of(b)), 0nat,
{
    let ghost ta = storage.tree_of(a);
    let ghost tb = storage.tree_of(b);
    proof {
        storage.lemma_handle(a);
        storage.lemma_handle(b);
    }
    let Data(a_value, a_down, a_right) = storage.get(a);
    let Data(b_value, b_down, b_right) = storage.get(b);
    let result = if a_value < b_value {
        let right = union(storage, &a_right, b);
        proof {
            lemma_union_below(ta, tb, storage.tree_of(&right));
        }
        let result = storage.insert(a_value, &a_down, &right);
        storage.release(right);
        result
    } else if a_value == b_value {
        let down = union(storage, &a_down, &b_down);
        let right = union(storage, &a_right, &b_right);
        proof {
            lemma_union_level(ta, tb, storage.tree_of(&down), storage.tree_of(&right));
        }
        let result = storage.insert(a_value, &down, &right);
        storage.release(down);
        storage.release(right);
        result
    } else {
        let right = union(storage, a, &b_right);
        proof {
            assert(storage.set_of(&right) =~= denote(tb.right()).union(denote(ta)));
            lemma_union_below(tb, ta, storage.tree_of(&right));
            assert(denote(tb).union(denote(ta)) =~= denote(ta).union(denote(tb)));
        }
        let result = storage.insert(b_value, &b_down, &right);
        storage.release(right);
        result
    };
    let ghost tree = storage.tree_of(&result);
    storage.release(a_down);
    storage.release(a_right);
    storage.release(b_down);
    storage.release(b_right);
    proof {
        assert(storage.handles() =~= old(storage).handles().insert(
            result.slot(),
            (result.index(), tree),
        ));
    }
    result
}

/// Computes the diagram that tells the [relational_product] function what a
/// relation reads and writes: the chain of the tags of the two lists of
/// indices.
///
/// The tag of a level is 1 where it is only read, 2 where it is only
/// written, 0 where it is neither, and a level that is read and written has
/// two tags, 3 and then 4.
pub fn compute_meta(storage: &mut Storage, read_proj: &[Value], write_proj: &[Value]) -> (r: Ldd)
    requires
        old(storage).wf(),
    ensures
        final(storage).yields(old(storage), &r),
        final(storage).tree_of(&r) == chain(meta_of(read_proj@, write_proj@)),
{
    let read_length = span_of(read_proj);
    let write_length = span_of(write_proj);
    let length = if read_length > write_length {
        read_length
    } else {
        write_length
    };
    let mut meta: Vec<Value> = Vec::new();
    let mut i: u64 = 0;
    proof {
        assert(meta@ =~= meta_upto(read_proj@, write_proj@, 0));
    }
    while i < length
        invariant
            i <= length,
            length <= u32::MAX + 1,
            length == (if span(read_proj@) > span(write_proj@) {
                span(read_proj@)
            } else {
                span(write_proj@)
            }),
            meta@ == meta_upto(read_proj@, write_proj@, i as nat),
        decreases length - i,
    {
        let read = is_index(read_proj, i);
        let write = is_index(write_proj, i);
        let ghost before = meta@;
        if read && write {
            meta.push(3);
            meta.push(4);
            assert(meta@ =~= before + seq![3u32, 4u32]);
        } else if read {
            meta.push(1);
            assert(meta@ =~= before + seq![1u32]);
        } else if write {
            meta.push(2);
            assert(meta@ =~= before + seq![2u32]);
        } else {
            meta.push(0);
            assert(meta@ =~= before + seq![0u32]);
        }
        proof {
            assert(meta@ == before + level_tags(read_proj@, write_proj@, i as nat));
        }
        i += 1;
    }
    singleton(storage, meta.as_slice())
}

/// Puts a node together from what was computed below it and to its right,
/// and gives up the handles to the two: where nothing is left below, the
/// node collapses to its right.
pub(crate) fn merge(storage: &mut Storage, value: Value, down: Ldd, right: Ldd) -> (r: Ldd)
    requires
        old(storage).wf(),
        old(storage).protects(&down),
        old(storage).protects(&right),
        down.slot() != right.slot(),
        old(storage).tree_of(&down) != Tree::False ==> canonical(
            node(value, old(storage).tree_of(&down), old(storage).tree_of(&right)),
        ),
    ensures
        final(storage).wf(),
        final(storage).handles() == old(storage).handles().remove(down.slot()).remove(
            right.slot(),
        ).insert(r.slot(), (r.index(), final(storage).tree_of(&r))),
        r.slot() == right.slot() || !old(storage).handles().contains_key(r.slot()),
        r.slot() != down.slot(),
        final(storage).tree_of(&r) == (if old(storage).tree_of(&down) == Tree::False {
            old(storage).tree_of(&right)
        } else {
            node(value, old(storage).tree_of(&down), old(storage).tree_of(&right))
        }),
        canonical(final(storage).tree_of(&r)),
        final(storage).collects() == old(storage).collects(),
        final(storage).reports() == old(storage).reports(),
{
    proof {
        storage.lemma_handle(&right);
    }
    if storage.is_empty_set(&down) {
        let ghost tree = storage.tree_of(&right);
        storage.release(down);
        proof {
            assert(storage.handles() =~= old(storage).handles().remove(down.slot()).remove(
                right.slot(),
            ).insert(right.slot(), (right.index(), tree)));
        }
        right
    } else {
        let result = storage.insert(value, &down, &right);
        let ghost tree = storage.tree_of(&result);
        storage.release(down);
        storage.release(right);
        proof {
            assert(storage.handles() =~= old(storage).handles().remove(down.slot()).remove(
                right.slot(),
            ).insert(result.slot(), (result.index(), tree)));
        }
        result
    }
}

/// Computes the set of the vectors that are reached in one step from the
/// vectors of `set` by the sparse relation `rel`, where `meta` is the diagram
/// that [compute_meta] computes for the levels that the relation reads and
/// writes:
///
/// `relational_product(S, R, read, write) = { x[write := y'] | project(x,
/// read) = x' and (x', y') in R and x in S }`.
///
/// The vectors of the set and of the relation must be long enough for the
/// tags of `meta`.
pub fn relational_product(storage: &mut Storage, set: &Ldd, rel: &Ldd, meta: &Ldd) -> (r: Ldd)
    requires
        ternary_operands(old(storage), set, rel, meta),
    ensures
        final(storage).yields(old(storage), &r),
        final(storage).set_of(&r) == image(
            old(storage).set_of(set),
            old(storage).set_of(rel),
            first_vector(old(storage).tree_of(meta)),
        ),
        if old(storage).tree_of(meta) == Tree::True || old(storage).tree_of(set) == Tree::False || old(storage).tree_of(rel) == Tree::False {
            final(storage).cache() == old(storage).cache() && final(storage).same_nodes_as(old(storage))
        } else {
            lookup(
                final(storage).cache().ternary(TernaryOperator::RelationalProduct),
                (set.index(), rel.index(), meta.index()),
            ) == Some(r.index())
        },
    decreases
            height(old(storage).tree_of(meta)),
            size(old(storage).tree_of(rel)),
            size(old(storage).tree_of(set)),
            3nat,
{
    let ghost tags = first_vector(storage.tree_of(meta));
    proof {
        storage.lemma_handle(set);
        storage.lemma_handle(rel);
        storage.lemma_handle(meta);
        storage.lemma_constants();
        lemma_guide(storage.tree_of(meta));
    }
    if storage.is_empty_vector(meta) {
        // Beyond the last tag, nothing is touched.
        proof {
            lemma_image_end(storage.set_of(set), storage.set_of(rel), tags);
        }
        storage.duplicate(set)
    } else if storage.is_empty_set(set) || storage.is_empty_set(rel) {
        proof {
            lemma_image_nothing(storage.set_of(set), storage.set_of(rel), tags);
        }
        storage.protect(storage.empty_set().borrow())
    } else {
        cache_terniary_op(storage, TernaryOperator::RelationalProduct, set, rel, meta)
    }
}

/// The relational product of a set and a relation that are not empty, while
/// tags are left: by the first tag.
pub(crate) fn relational_product_nodes(storage: &mut Storage, set: &Ldd, rel: &Ldd, meta: &Ldd) -> (r:
    Ldd)
    requires
        ternary_operands(old(storage), set, rel, meta),
        old(storage).tree_of(meta) is Node,
        old(storage).tree_of(set) != Tree::False,
        old(storage).tree_of(rel) != Tree::False,
    ensures
        final(storage).yields(old(storage), &r),
        final(storage).set_of(&r) == image(
            old(storage).set_of(set),
            old(storage).set_of(rel),
            first_vector(old(storage).tree_of(meta)),
        ),
    decreases
            height(old(storage).tree_of(meta)),
            size(old(storage).tree_of(rel)),
            size(old(storage).tree_of(set)),
            1nat,
{
    let ghost tags = first_vector(storage.tree_of(meta));
    proof {
        storage.lemma_handle(meta);
        lemma_guide(storage.tree_of(meta));
        assert(tags[0] <= 4);
    }
    let Data(meta_value, meta_down, meta_right) = storage.get(meta);
    let result = if meta_value == 0 {
        image_silent(storage, set, rel, meta, &meta_down)
    } else if meta_value == 1 {
        image_read(storage, set, rel, meta, &meta_down)
    } else if meta_value == 2 {
        image_write(storage, set, rel, meta, &meta_down)
    } else if meta_value == 3 {
        image_read_first(storage, set, rel, meta, &meta_down)
    } else {
        image_write_second(storage, set, rel, meta, &meta_down)
    };
    let ghost tree = storage.tree_of(&result);
    storage.release(meta_down);
    storage.release(meta_right);
    proof {
        assert(storage.handles() =~= old(storage).handles().insert(
            result.slot(),
            (result.index(), tree),
        ));
    }
    result
}

/// Whether `below` is a handle to what stands below the node of `meta`,
/// and the operands are what a level of the relational product asks for.
pub open spec fn level_operands(storage: &Storage, set: &Ldd, rel: &Ldd, meta: &Ldd, below: &Ldd) -> bool {
    &&& ternary_operands(storage, set, rel, meta)
    &&& storage.tree_of(meta) is Node
    &&& storage.tree_of(set) != Tree::False
    &&& storage.tree_of(rel) != Tree::False
    &&& storage.protects(below)
    &&& storage.tree_of(below) == storage.tree_of(meta).down()
}

/// Tag 0: all values of this level are carried over, with what is reached
/// from below them.
fn image_silent(storage: &mut Storage, set: &Ldd, rel: &Ldd, meta: &Ldd, meta_down: &Ldd) -> (r: Ldd)
    requires
        level_operands(old(storage), set, rel, meta, meta_down),
        old(storage).tree_of(meta).value() == 0,
    ensures
        final(storage).yields(old(storage), &r),
        final(storage).set_of(&r) == image(
            old(storage).set_of(set),
            old(storage).set_of(rel),
            first_vector(old(storage).tree_of(meta)),
        ),
    decreases
            height(old(storage).tree_of(meta)),
            size(old(storage).tree_of(rel)),
            size(old(storage).tree_of(set)),
            0nat,
{
    let ghost ts = storage.tree_of(set);
    let ghost tr = storage.tree_of(rel);
    let ghost tm = storage.tree_of(meta);
    let ghost tags = first_vector(tm);
    proof {
        storage.lemma_handle(set);
        storage.lemma_handle(rel);
        storage.lemma_handle(meta);
        lemma_guide(tm);
        lemma_tags_below(tags);
    }
    let Data(value, down, right) = storage.get(set);
    let right_result = relational_product(storage, &right, rel, meta);
    let down_result = relational_product(storage, &down, rel, meta_down);
    proof {
        lemma_image_silent(
            ts,
            tr,
            tags,
            storage.tree_of(&down_result),
            storage.tree_of(&right_result),
        );
    }
    let result = merge(storage, value, down_result, right_result);
    let ghost tree = storage.tree_of(&result);
    storage.release(down);
    storage.release(right);
    proof {
        assert(storage.handles() =~= old(storage).handles().insert(
            result.slot(),
            (result.index(), tree),
        ));
    }
    result
}

/// Tag 1: the values of this level that the relation has are carried over,
/// with what is reached from below them.
fn image_read(storage: &mut Storage, set: &Ldd, rel: &Ldd, meta: &Ldd, meta_down: &Ldd) -> (r: Ldd)
    requires
        level_operands(old(storage), set, rel, meta, meta_down),
        old(storage).tree_of(meta).value() == 1,
    ensures
        final(storage).yields(old(storage), &r),
        final(storage).set_of(&r) == image(
            old(storage).set_of(set),
            old(storage).set_of(rel),
            first_vector(old(storage).tree_of(meta)),
        ),
    decreases
            height(old(storage).tree_of(meta)),
            size(old(storage).tree_of(rel)),
            size(old(storage).tree_of(set)),
            0nat,
{
    let ghost ts = storage.tree_of(set);
    let ghost tr = storage.tree_of(rel);
    let ghost tm = storage.tree_of(meta);
    let ghost tags = first_vector(tm);
    proof {
        storage.lemma_handle(set);
        storage.lemma_handle(rel);
        storage.lemma_handle(meta);
        lemma_guide(tm);
        lemma_tags_below(tags);
    }
    let Data(set_value, set_down, set_right) = storage.get(set);
    let Data(rel_value, rel_down, rel_right) = storage.get(rel);
    let result = if set_value < rel_value {
        proof {
            lemma_image_read_below(ts, tr, tags);
        }
        relational_product(storage, &set_right, rel, meta)
    } else if set_value == rel_value {
        let down_result = relational_product(storage, &set_down, &rel_down, meta_down);
        let right_result = relational_product(storage, &set_right, &rel_right, meta);
        proof {
            lemma_image_read_level(
                ts,
                tr,
                tags,
                storage.tree_of(&down_result),
                storage.tree_of(&right_result),
            );
        }
        merge(storage, set_value, down_result, right_result)
    } else {
        proof {
            lemma_image_read_above(ts, tr, tags);
        }
        relational_product(storage, set, &rel_right, meta)
    };
    let ghost tree = storage.tree_of(&result);
    storage.release(set_down);
    storage.release(set_right);
    storage.release(rel_down);
    storage.release(rel_right);
    proof {
        assert(storage.handles() =~= old(storage).handles().insert(
            result.slot(),
            (result.index(), tree),
        ));
    }
    result
}

/// The tails of the vectors of a set that is not empty: the union of what
/// stands below the node and below each of its right neighbours.
fn tails_of(storage: &mut Storage, set: &Ldd) -> (r: Ldd)
    requires
        old(storage).wf(),
        old(storage).protects(set),
        old(storage).tree_of(set) is Node,
    ensures
        final(storage).yields(old(storage), &r),
        final(storage).set_of(&r) == tails(old(storage).set_of(set)),
        final(storage).tree_of(&r) != Tree::False,
        height(final(storage).tree_of(&r)) + 1 == height(old(storage).tree_of(set)),
{
    let ghost ts = storage.tree_of(set);
    proof {
        storage.lemma_handle(set);
        storage.lemma_constants();
    }
    let mut combined = storage.protect(storage.empty_set().borrow());
    let mut current = storage.duplicate(set);
    proof {
        assert(storage.set_of(&combined).union(tails(denote(ts))) =~= tails(denote(ts)));
    }
    loop
        invariant_except_break
            storage.protects(&current),
            storage.tree_of(&current) is Node,
            canonical(storage.tree_of(&current)),
            height(storage.tree_of(&current)) == height(ts),
            storage.set_of(&combined).union(tails(storage.set_of(&current))) == tails(denote(ts)),
            storage.handles() == old(storage).handles().insert(
                combined.slot(),
                (combined.index(), storage.tree_of(&combined)),
            ).insert(current.slot(), (current.index(), storage.tree_of(&current))),
            !old(storage).handles().contains_key(current.slot()),
            combined.slot() != current.slot(),
        invariant
            storage.wf(),
            storage.protects(&combined),
            canonical(storage.tree_of(&combined)),
            storage.tree_of(&combined) == Tree::False || height(storage.tree_of(&combined)) + 1
                == height(ts),
            !old(storage).handles().contains_key(combined.slot()),
            storage.collects() == old(storage).collects(),
            storage.reports() == old(storage).reports(),
            ts == old(storage).tree_of(set),
            ts is Node,
        ensures
            storage.set_of(&combined) == tails(denote(ts)),
            storage.tree_of(&combined) != Tree::False,
            storage.handles() == old(storage).handles().insert(
                combined.slot(),
                (combined.index(), storage.tree_of(&combined)),
            ),
        decreases size(storage.tree_of(&current)),
    {
        let ghost tc = storage.tree_of(&combined);
        let ghost here = storage.tree_of(&current);
        let Data(_, set_down, set_right) = storage.get(&current);
        let next = union(storage, &combined, &set_down);
        let ghost tn = storage.tree_of(&next);
        proof {
            lemma_tails_node(here);
            assert(denote(tn).union(tails(denote(here.right()))) =~= tails(denote(ts)));
            lemma_nonempty(here.down());
            let x = choose|x: Vector| denote(here.down()).contains(x);
            assert(denote(tn).contains(x));
            assert(tn != Tree::False);
            assert forall|y: Vector| contains(tn, y) implies y.len() == height(here.down()) by {
                assert(denote(tn).contains(y));
                if denote(tc).contains(y) {
                    crate::tree::lemma_uniform_length(tc, y);
                } else {
                    crate::tree::lemma_uniform_length(here.down(), y);
                }
            }
            crate::algebra::lemma_height_of(tn, height(here.down()));
        }
        storage.release(combined);
        combined = next;
        storage.release(set_down);
        if storage.is_empty_set(&set_right) {
            storage.release(set_right);
            storage.release(current);
            proof {
                lemma_tails_nothing();
                assert(denote(tn).union(tails(denote(Tree::False))) =~= denote(tn));
                assert(storage.handles() =~= old(storage).handles().insert(
                    combined.slot(),
                    (combined.index(), tn),
                ));
            }
            break ;
        }
        storage.release(current);
        current = set_right;
        proof {
            assert(storage.handles() =~= old(storage).handles().insert(
                combined.slot(),
                (combined.index(), tn),
            ).insert(current.slot(), (current.index(), here.right())));
        }
    }
    combined
}

/// Tag 2: whatever the values of this level are, they are replaced by the
/// values that the relation has, each with what is reached from below all of
/// them.
fn image_write(storage: &mut Storage, set: &Ldd, rel: &Ldd, meta: &Ldd, meta_down: &Ldd) -> (r: Ldd)
    requires
        level_operands(old(storage), set, rel, meta, meta_down),
        old(storage).tree_of(meta).value() == 2,
    ensures
        final(storage).yields(old(storage), &r),
        final(storage).set_of(&r) == image(
            old(storage).set_of(set),
            old(storage).set_of(rel),
            first_vector(old(storage).tree_of(meta)),
        ),
    decreases
            height(old(storage).tree_of(meta)),
            size(old(storage).tree_of(rel)),
            size(old(storage).tree_of(set)),
            0nat,
{
    let ghost ts = storage.tree_of(set);
    let ghost tr = storage.tree_of(rel);
    let ghost tm = storage.tree_of(meta);
    let ghost tags = first_vector(tm);
    proof {
        storage.lemma_handle(set);
        storage.lemma_handle(rel);
        storage.lemma_handle(meta);
        lemma_guide(tm);
        lemma_tags_below(tags);
        lemma_uniform(ts);
    }
    // All values of the set are considered.
    let combined = tails_of(storage, set);
    // The values of the relation are written.
    let Data(rel_value, rel_down, rel_right) = storage.get(rel);
    let down_result = relational_product(storage, &combined, &rel_down, meta_down);
    let right_result = relational_product(storage, set, &rel_right, meta);
    proof {
        lemma_image_write(
            denote(ts),
            height(ts) as int,
            tails(denote(ts)),
            tr,
            tags,
            storage.tree_of(&down_result),
            storage.tree_of(&right_result),
        );
    }
    let result = merge(storage, rel_value, down_result, right_result);
    let ghost tree = storage.tree_of(&result);
    storage.release(combined);
    storage.release(rel_down);
    storage.release(rel_right);
    proof {
        assert(storage.handles() =~= old(storage).handles().insert(
            result.slot(),
            (result.index(), tree),
        ));
    }
    result
}

/// Tag 3: the values of this level that the relation reads are taken away,
/// and what is reached from below each of them is put together; the tag 4
/// that follows writes the new values.
fn image_read_first(storage: &mut Storage, set: &Ldd, rel: &Ldd, meta: &Ldd, meta_down: &Ldd) -> (r:
    Ldd)
    requires
        level_operands(old(storage), set, rel, meta, meta_down),
        old(storage).tree_of(meta).value() == 3,
    ensures
        final(storage).yields(old(storage), &r),
        final(storage).set_of(&r) == image(
            old(storage).set_of(set),
            old(storage).set_of(rel),
            first_vector(old(storage).tree_of(meta)),
        ),
    decreases
            height(old(storage).tree_of(meta)),
            size(old(storage).tree_of(rel)),
            size(old(storage).tree_of(set)),
            0nat,
{
    let ghost ts = storage.tree_of(set);
    let ghost tr = storage.tree_of(rel);
    let ghost tm = storage.tree_of(meta);
    let ghost tags = first_vector(tm);
    proof {
        storage.lemma_handle(set);
        storage.lemma_handle(rel);
        storage.lemma_handle(meta);
        lemma_guide(tm);
        lemma_tags_below(tags);
    }
    let Data(set_value, set_down, set_right) = storage.get(set);
    let Data(rel_value, rel_down, rel_right) = storage.get(rel);
    let result = if set_value < rel_value {
        proof {
            lemma_image_read_below(ts, tr, tags);
        }
        relational_product(storage, &set_right, rel, meta)
    } else if set_value == rel_value {
        let down_result = relational_product(storage, &set_down, &rel_down, meta_down);
        let right_result = relational_product(storage, &set_right, &rel_right, meta);
        proof {
            lemma_image_both_level(
                ts,
                tr,
                tags,
                storage.tree_of(&down_result),
                storage.tree_of(&right_result),
            );
        }
        let result = union(storage, &down_result, &right_result);
        storage.release(down_result);
        storage.release(right_result);
        result
    } else {
        proof {
            lemma_image_read_above(ts, tr, tags);
        }
        relational_product(storage, set, &rel_right, meta)
    };
    let ghost tree = storage.tree_of(&result);
    storage.release(set_down);
    storage.release(set_right);
    storage.release(rel_down);
    storage.release(rel_right);
    proof {
        assert(storage.handles() =~= old(storage).handles().insert(
            result.slot(),
            (result.index(), tree),
        ));
    }
    result
}

/// Tag 4: the values that the relation writes after the read are put in
/// front of what is reached from the set, which was pinned by the read.
fn image_write_second(storage: &mut Storage, set: &Ldd, rel: &Ldd, meta: &Ldd, meta_down: &Ldd) -> (r:
    Ldd)
    requires
        level_operands(old(storage), set, rel, meta, meta_down),
        old(storage).tree_of(meta).value() == 4,
    ensures
        final(storage).yields(old(storage), &r),
        final(storage).set_of(&r) == image(
            old(storage).set_of(set),
            old(storage).set_of(rel),
            first_vector(old(storage).tree_of(meta)),
        ),
    decreases
            height(old(storage).tree_of(meta)),
            size(old(storage).tree_of(rel)),
            size(old(storage).tree_of(set)),
            0nat,
{
    let ghost ts = storage.tree_of(set);
    let ghost tr = storage.tree_of(rel);
    let ghost tm = storage.tree_of(meta);
    let ghost tags = first_vector(tm);
    proof {
        storage.lemma_handle(set);
        storage.lemma_handle(rel);
        storage.lemma_handle(meta);
        lemma_guide(tm);
        lemma_tags_below(tags);
        lemma_uniform(ts);
    }
    // The values of the relation are written.
    let Data(rel_value, rel_down, rel_right) = storage.get(rel);
    let down_result = relational_product(storage, set, &rel_down, meta_down);
    let right_result = relational_product(storage, set, &rel_right, meta);
    proof {
        lemma_image_write(
            denote(ts),
            height(ts) as int,
            denote(ts),
            tr,
            tags,
            storage.tree_of(&down_result),
            storage.tree_of(&right_result),
        );
    }
    let result = merge(storage, rel_value, down_result, right_result);
    let ghost tree = storage.tree_of(&result);
    storage.release(rel_down);
    storage.release(rel_right);
    proof {
        assert(storage.handles() =~= old(storage).handles().insert(
            result.slot(),
            (result.index(), tree),
        ));
    }
    result
}

/// The tags below the first are tags of a relation too, and speak of one
/// level less of the set, but for a tag 4, and of one level less of the
/// relation, but for a tag 0.
pub proof fn lemma_tags_below(tags: Seq<u32>)
    requires
        tags.len() > 0,
        relation_tags(tags),
    ensures
        relation_tags(tags.drop_first()),
        tags[0] <= 4,
        source_levels(tags) == source_levels(tags.drop_first()) + (if tags[0] == 4 {
            0nat
        } else {
            1nat
        }),
        relation_levels(tags) == relation_levels(tags.drop_first()) + (if tags[0] == 0 {
            0nat
        } else {
            1nat
        }),
{
    assert forall|i: int| 0 <= i < tags.drop_first().len() implies #[trigger] tags.drop_first()[i]
        <= 4 by {
        assert(tags[i + 1] <= 4);
    }
    assert(tags[0] <= 4);
}

/// Returns the largest subset of `a` that holds no vector of `b`: the set
/// difference.
pub fn minus(storage: &mut Storage, a: &Ldd, b: &Ldd) -> (r: Ldd)
    requires
        old(storage).wf(),
        old(storage).protects(a),
        old(storage).protects(b),
        compatible(old(storage).tree_of(a), old(storage).tree_of(b)),
    ensures
        final(storage).yields(old(storage), &r),
        final(storage).set_of(&r) == old(storage).set_of(a).difference(old(storage).set_of(b)),
        if a.index() == b.index() || old(storage).tree_of(a) == Tree::False || old(storage).tree_of(b)
            == Tree::False {
            final(storage).cache() == old(storage).cache() && final(storage).same_nodes_as(old(storage))
        } else {
            lookup(
                final(storage).cache().binary(BinaryOperator::Minus),
                (a.index(), b.index(), 0),
            ) == Some(r.index())
        },
    decreases size(old(storage).tree_of(a)) + size(old(storage).tree_of(b)), 3nat,
{
    proof {
        storage.lemma_handle(a);
        storage.lemma_handle(b);
        storage.lemma_handles(a, b);
        storage.lemma_constants();
    }
    if a.index() == b.index() || storage.is_empty_set(a) {
        let r = storage.protect(storage.empty_set().borrow());
        proof {
            assert(storage.set_of(&r) =~= old(storage).set_of(a).difference(old(storage).set_of(b)));
        }
        r
    } else if storage.is_empty_set(b) {
        let r = storage.duplicate(a);
        proof {
            assert(storage.set_of(&r) =~= old(storage).set_of(a).difference(old(storage).set_of(b)));
        }
        r
    } else {
        cache_binary_op(storage, BinaryOperator::Minus, a, b)
    }
}

/// The difference of two proper nodes of the same height, by the order of
/// their values.
pub(crate) fn minus_nodes(storage: &mut Storage, a: &Ldd, b: &Ldd) -> (r: Ldd)
    requires
        binary_operands(old(storage), a, b),
    ensures
        final(storage).yields(old(storage), &r),
        final(storage).set_of(&r) == old(storage).set_of(a).difference(old(storage).set_of(b)),
    decreases size(old(storage).tree_of(a)) + size(old(storage).tree_of(b)), 0nat,
{
    let ghost ta = storage.tree_of(a);
    let ghost tb = storage.tree_of(b);
    proof {
        storage.lemma_handle(a);
        storage.lemma_handle(b);
    }
    let Data(a_value, a_down, a_right) = storage.get(a);
    let Data(b_value, b_down, b_right) = storage.get(b);
    let result = if a_value < b_value {
        let right = minus(storage, &a_right, b);
        proof {
            lemma_minus_below(ta, tb, storage.tree_of(&right));
        }
        let result = storage.insert(a_value, &a_down, &right);
        storage.release(right);
        result
    } else if a_value == b_value {
        let down = minus(storage, &a_down, &b_down);
        let right = minus(storage, &a_right, &b_right);
        proof {
            lemma_minus_level(ta, tb, storage.tree_of(&down), storage.tree_of(&right));
        }
        if storage.is_empty_set(&down) {
            storage.release(down);
            right
        } else {
            let result = storage.insert(a_value, &down, &right);
            storage.release(down);
            storage.release(right);
            result
        }
    } else {
        let result = minus(storage, a, &b_right);
        proof {
            lemma_minus_above(ta, tb);
        }
        result
    };
    let ghost tree = storage.tree_of(&result);
    storage.release(a_down);
    storage.release(a_right);
    storage.release(b_down);
    storage.release(b_right);
    proof {
        assert(storage.handles() =~= old(storage).handles().insert(
            result.slot(),
            (result.index(), tree),
        ));
    }
    result
}

} // verus!

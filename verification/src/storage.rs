//! The node store.
//!
//! The [`Storage`] owns every node. It shares nodes maximally: identical
//! nodes (same value, down and right) have one index in the node table, so two
//! diagrams stand for the same set exactly when their indices are equal.
//! Client code holds [`Ldd`] handles, which keep their nodes alive across
//! garbage collection.

use crate::free_list::{
    lemma_linked_empty, lemma_linked_grow, lemma_linked_head, lemma_linked_keep, lemma_linked_none,
    lemma_linked_pop, lemma_linked_push, linked,
};
use crate::node_map::{map_entries, map_get, map_insert, map_new, map_remove, Key, NodeMap};
use crate::semantics::image;
use crate::tree::{canonical, capped, count, denote, first_vector, node, Tree, Vector};
use vstd::prelude::*;

pub mod cache;
pub mod ldd;

pub use self::cache::{
    cache_binary_op, cache_comm_binary_op, cache_terniary_op, cache_unary_function,
    BinaryOperator, OperationCache, TernaryOperator, UnaryFunction,
};
pub use self::ldd::{Ldd, LddRef, ProtSetIter, ProtectionSet};

verus! {

/// The values that vectors are made of.
pub type Value = u32;

/// The index of the node that stands for the empty set.
pub const EMPTY_SET: usize = 0;

/// The index of the node that stands for the set of the empty vector.
pub const EMPTY_VECTOR: usize = 1;

/// A slot of the node table: the node `(value, down, right)` with its marks.
#[derive(Clone, Copy, Debug)]
pub struct Node {
    value: Value,
    down: usize,
    right: usize,  // In a free slot, the next slot of the free list.
    marked: bool,
    filled: bool,  // Whether this slot of the table holds a node.
}

impl Node {
    fn new(value: Value, down: usize, right: usize) -> (node: Node)
        ensures
            node == (Node { value, down, right, marked: false, filled: true }),
    {
        Node { value, down, right, marked: false, filled: true }
    }

    /// Whether the slot holds a node.
    pub closed spec fn spec_is_valid(&self) -> bool {
        self.filled
    }

    /// Returns false if the node has been garbage collected.
    #[verifier::when_used_as_spec(spec_is_valid)]
    pub fn is_valid(&self) -> (valid: bool)
        ensures
            valid == self.is_valid(),
    {
        self.filled
    }
}

/// The user facing data of a node, with protected handles to its children.
pub struct Data(pub Value, pub Ldd, pub Ldd);

/// The user facing data of a node, with borrowed views of its children.
#[derive(Clone, Copy, Debug)]
pub struct DataRef(pub Value, pub LddRef, pub LddRef);

/// The key under which the index holds a node.
pub closed spec fn key_of(node: Node) -> Key {
    (node.value as usize, node.down, node.right)
}

/// Whether `t` occurs in `within`: it is that term, or occurs below or to the
/// right of it.
pub open spec fn occurs_in(t: Tree, within: Tree) -> bool
    decreases within,
{
    t == within || match within {
        Tree::Node(_, d, r) => occurs_in(t, *d) || occurs_in(t, *r),
        _ => false,
    }
}

/// The filled slots of `table` hold the nodes whose unfoldings are `trees`:
/// the two constants stand first, the children of a filled slot are filled,
/// every unfolding is canonical, and no two filled slots have the same one.
#[verifier::opaque]
pub closed spec fn models(table: Seq<Node>, trees: Seq<Tree>) -> bool {
    &&& table.len() == trees.len()
    &&& table.len() >= 2
    &&& table[0].filled
    &&& table[1].filled
    &&& trees[0] == Tree::False
    &&& trees[1] == Tree::True
    &&& forall|n: int|
        2 <= n < table.len() && (#[trigger] table[n]).filled ==> {
            &&& table[n].down < table.len()
            &&& table[n].right < table.len()
            &&& table[table[n].down as int].filled
            &&& table[table[n].right as int].filled
            &&& trees[n] == node(
                table[n].value,
                trees[table[n].down as int],
                trees[table[n].right as int],
            )
            &&& canonical(trees[n])
        }
    &&& forall|n: int, m: int|
        0 <= n < table.len() && 0 <= m < table.len() && table[n].filled && table[m].filled
            && #[trigger] trees[n] == #[trigger] trees[m] ==> n == m
}

/// What a model says of the two constants.
proof fn lemma_model_constants(table: Seq<Node>, trees: Seq<Tree>)
    requires
        models(table, trees),
    ensures
        table.len() == trees.len(),
        table.len() >= 2,
        table[0].filled,
        table[1].filled,
        trees[0] == Tree::False,
        trees[1] == Tree::True,
{
    reveal(models);
}

/// What a model says of a filled slot other than the constants.
proof fn lemma_model_node(table: Seq<Node>, trees: Seq<Tree>, n: int)
    requires
        models(table, trees),
        2 <= n < table.len(),
        table[n].filled,
    ensures
        table[n].down < table.len(),
        table[n].right < table.len(),
        table[table[n].down as int].filled,
        table[table[n].right as int].filled,
        trees[n] == node(table[n].value, trees[table[n].down as int], trees[table[n].right as int]),
        canonical(trees[n]),
{
    reveal(models);
}

/// In a model, filled slots with the same unfolding are the same slot.
proof fn lemma_model_shared(table: Seq<Node>, trees: Seq<Tree>, n: int, m: int)
    requires
        models(table, trees),
        0 <= n < table.len(),
        0 <= m < table.len(),
        table[n].filled,
        table[m].filled,
        trees[n] == trees[m],
    ensures
        n == m,
{
    reveal(models);
}

/// What each slot of `table` holds as its successor in the list of free
/// slots.
pub closed spec fn rights(table: Seq<Node>) -> Seq<usize> {
    Seq::new(table.len(), |n: int| table[n].right)
}

/// Which slots of `table` are filled.
pub closed spec fn fills(table: Seq<Node>) -> Seq<bool> {
    Seq::new(table.len(), |n: int| table[n].filled)
}

/// The free slots of `table` from the third up to the slot `upto` form the
/// list `list`, which starts at `free` and is linked through `right`.
pub closed spec fn free_list(table: Seq<Node>, upto: int, free: Option<usize>, list: Seq<usize>) -> bool {
    linked(rights(table), fills(table), 2, upto, free, list)
}

/// Whether `after` holds the nodes of `before`, with other marks at most.
pub closed spec fn same_nodes(before: Seq<Node>, after: Seq<Node>) -> bool {
    &&& before.len() == after.len()
    &&& forall|n: int|
        0 <= n < before.len() ==> {
            &&& (#[trigger] after[n]).value == before[n].value
            &&& after[n].down == before[n].down
            &&& after[n].right == before[n].right
            &&& after[n].filled == before[n].filled
        }
}

/// Whether the marked slots of `table` are filled, and the children of a
/// marked node are marked.
#[verifier::opaque]
pub closed spec fn marks_closed(table: Seq<Node>) -> bool {
    forall|n: int|
        0 <= n < table.len() && (#[trigger] table[n]).marked ==> {
            &&& table[n].filled
            &&& n >= 2 ==> {
                &&& table[n].down < table.len()
                &&& table[n].right < table.len()
                &&& table[table[n].down as int].marked
                &&& table[table[n].right as int].marked
            }
        }
}

/// The number of slots of `table` that are not marked.
pub closed spec fn count_unmarked(table: Seq<Node>) -> nat
    decreases table.len(),
{
    if table.len() == 0 {
        0
    } else {
        count_unmarked(table.drop_last()) + (if table.last().marked {
            0nat
        } else {
            1nat
        })
    }
}

/// Marking a slot that was not marked leaves one unmarked slot less.
proof fn lemma_mark_counts(table: Seq<Node>, n: int, marked: Node)
    requires
        0 <= n < table.len(),
        !table[n].marked,
        marked.marked,
    ensures
        count_unmarked(table.update(n, marked)) + 1 == count_unmarked(table),
    decreases table.len(),
{
    let after = table.update(n, marked);
    if n == table.len() - 1 {
        assert(after.drop_last() =~= table.drop_last());
    } else {
        assert(after.drop_last() =~= table.drop_last().update(n, marked));
        lemma_mark_counts(table.drop_last(), n, marked);
    }
}

/// A term that occurs in a term that occurs in a third occurs in the third.
pub proof fn lemma_occurs_trans(a: Tree, b: Tree, c: Tree)
    requires
        occurs_in(a, b),
        occurs_in(b, c),
    ensures
        occurs_in(a, c),
    decreases c,
{
    if b != c {
        match c {
            Tree::Node(_, d, r) => {
                if occurs_in(b, *d) {
                    lemma_occurs_trans(a, b, *d);
                } else {
                    lemma_occurs_trans(a, b, *r);
                }
            },
            _ => {},
        }
    }
}

/// When the marks are closed, every node that occurs in the unfolding of a
/// marked node is marked.
proof fn lemma_marked_occurs(table: Seq<Node>, trees: Seq<Tree>, root: int, n: int)
    requires
        models(table, trees),
        marks_closed(table),
        0 <= root < table.len(),
        table[root].marked,
        0 <= n < table.len(),
        table[n].filled,
        occurs_in(trees[n], trees[root]),
    ensures
        table[n].marked,
    decreases trees[root],
{
    reveal(marks_closed);
    lemma_model_constants(table, trees);
    if trees[n] != trees[root] {
        assert(root >= 2);
        assert(table[root].filled);
        lemma_model_node(table, trees, root);
        let d = table[root].down as int;
        let r = table[root].right as int;
        if occurs_in(trees[n], trees[d]) {
            lemma_marked_occurs(table, trees, d, n);
        } else {
            lemma_marked_occurs(table, trees, r, n);
        }
    } else {
        lemma_model_shared(table, trees, n, root);
    }
}

/// Whether the marked slots of `table` are filled, and each child of a
/// marked node is marked or waits on `stack` to be marked.
#[verifier::opaque]
pub closed spec fn marking(table: Seq<Node>, stack: Seq<usize>) -> bool {
    forall|n: int|
        0 <= n < table.len() && (#[trigger] table[n]).marked ==> {
            &&& table[n].filled
            &&& n >= 2 ==> {
                &&& table[n].down < table.len()
                &&& table[n].right < table.len()
                &&& table[table[n].down as int].marked || stack.contains(table[n].down)
                &&& table[table[n].right as int].marked || stack.contains(table[n].right)
            }
        }
}

/// Closed marks are marks in progress, whatever waits.
proof fn lemma_marking_begin(table: Seq<Node>, stack: Seq<usize>)
    requires
        marks_closed(table),
    ensures
        marking(table, stack),
{
    reveal(marks_closed);
    reveal(marking);
}

/// Marks in progress with nothing waiting are closed.
proof fn lemma_marking_end(table: Seq<Node>, stack: Seq<usize>)
    requires
        marking(table, stack),
        stack.len() == 0,
    ensures
        marks_closed(table),
{
    reveal(marks_closed);
    reveal(marking);
}

/// A marked node need not wait.
proof fn lemma_marking_pop(table: Seq<Node>, stack: Seq<usize>, current: usize)
    requires
        marking(table, stack.push(current)),
        current < table.len(),
        table[current as int].marked,
    ensures
        marking(table, stack),
{
    reveal(marking);
    let pending = stack.push(current);
    assert forall|m: usize| pending.contains(m) implies m == current || stack.contains(m) by {
        let i = choose|i: int| 0 <= i < pending.len() && pending[i] == m;
        if i < stack.len() {
            assert(stack[i] == m);
        }
    }
}

/// A node is marked while its children wait: a constant has none.
proof fn lemma_marking_mark(
    before: Seq<Node>,
    after: Seq<Node>,
    stack: Seq<usize>,
    grown: Seq<usize>,
    current: usize,
)
    requires
        marking(before, stack.push(current)),
        current < before.len(),
        before[current as int].filled,
        after =~= before.update(current as int, after[current as int]),
        after[current as int].marked,
        after[current as int].filled,
        after[current as int].down == before[current as int].down,
        after[current as int].right == before[current as int].right,
        current >= 2 ==> {
            &&& before[current as int].down < before.len()
            &&& before[current as int].right < before.len()
            &&& grown == stack.push(before[current as int].down).push(before[current as int].right)
        },
        current < 2 ==> grown == stack,
    ensures
        marking(after, grown),
{
    reveal(marking);
    let pending = stack.push(current);
    assert forall|m: usize| pending.contains(m) implies m == current || grown.contains(m) by {
        let i = choose|i: int| 0 <= i < pending.len() && pending[i] == m;
        if i < stack.len() {
            assert(stack[i] == m);
            assert(grown[i] == m);
        }
    }
    if current >= 2 {
        assert(grown[stack.len() as int] == before[current as int].down);
        assert(grown[stack.len() as int + 1] == before[current as int].right);
    }
    assert forall|n: int| 0 <= n < after.len() && (#[trigger] after[n]).marked implies {
        &&& after[n].filled
        &&& n >= 2 ==> {
            &&& after[n].down < after.len()
            &&& after[n].right < after.len()
            &&& after[after[n].down as int].marked || grown.contains(after[n].down)
            &&& after[after[n].right as int].marked || grown.contains(after[n].right)
        }
    } by {
        if n != current {
            assert(before[n].marked);
            if n >= 2 {
                let d = before[n].down;
                let r = before[n].right;
                assert(before[d as int].marked || pending.contains(d));
                assert(before[r as int].marked || pending.contains(r));
            }
        }
    }
}

/// Marks every node that can be reached from the node `root`.
///
/// The stack is used for the depth-first exploration; it is empty before
/// and after.
fn mark_node(table: &mut Vec<Node>, stack: &mut Vec<usize>, root: usize, Ghost(trees): Ghost<Seq<Tree>>)
    requires
        models(old(table)@, trees),
        marks_closed(old(table)@),
        root < old(table)@.len(),
        old(table)@[root as int].filled,
        old(stack)@.len() == 0,
    ensures
        final(stack)@.len() == 0,
        same_nodes(old(table)@, final(table)@),
        models(final(table)@, trees),
        marks_closed(final(table)@),
        final(table)@[root as int].marked,
        forall|n: int|
            0 <= n < old(table)@.len() && old(table)@[n].marked ==> (#[trigger] final(table)@[n]).marked,
        forall|n: int|
            0 <= n < old(table)@.len() && (#[trigger] final(table)@[n]).marked && !old(table)@[n].marked
                ==> occurs_in(trees[n], trees[root as int]),
{
    stack.push(root);
    proof {
        assert(stack@[0] == root);
        lemma_model_constants(old(table)@, trees);
        lemma_marking_begin(table@, stack@);
    }
    loop
        invariant
            same_nodes(old(table)@, table@),
            models(old(table)@, trees),
            trees.len() == table@.len(),
            root < table@.len(),
            marking(table@, stack@),
            forall|n: int|
                0 <= n < table@.len() && old(table)@[n].marked ==> (#[trigger] table@[n]).marked,
            forall|i: int|
                0 <= i < stack@.len() ==> {
                    &&& (#[trigger] stack@[i]) < table@.len()
                    &&& table@[stack@[i] as int].filled
                    &&& occurs_in(trees[stack@[i] as int], trees[root as int])
                },
            forall|n: int|
                0 <= n < table@.len() && (#[trigger] table@[n]).marked && !old(table)@[n].marked
                    ==> occurs_in(trees[n], trees[root as int]),
            table@[root as int].marked || stack@.contains(root),
        ensures
            stack@.len() == 0,
        decreases count_unmarked(table@), stack@.len(),
    {
        let ghost before = table@;
        let ghost pending = stack@;
        match stack.pop() {
            None => {
                break ;
            },
            Some(current) => {
                let ghost middle = stack@;
                proof {
                    assert(pending =~= middle.push(current));
                    assert(current == pending[pending.len() - 1]);
                    if pending.contains(root) && root != current {
                        let i = choose|i: int| 0 <= i < pending.len() && pending[i] == root;
                        assert(middle[i] == root);
                    }
                }
                let entry = table[current];
                if !entry.marked {
                    table[current] = Node {
                        value: entry.value,
                        down: entry.down,
                        right: entry.right,
                        marked: true,
                        filled: entry.filled,
                    };
                    proof {
                        lemma_mark_counts(before, current as int, table@[current as int]);
                        assert(table@ =~= before.update(current as int, table@[current as int]));
                    }
                    if current != 0 && current != 1 {
                        proof {
                            lemma_model_node(old(table)@, trees, current as int);
                        }
                        stack.push(entry.down);
                        stack.push(entry.right);
                        proof {
                            let grown = stack@;
                            assert(grown[middle.len() as int] == entry.down);
                            assert(grown[middle.len() as int + 1] == entry.right);
                            if middle.contains(root) {
                                let i = choose|i: int| 0 <= i < middle.len() && middle[i] == root;
                                assert(grown[i] == root);
                            }
                            assert(trees[current as int] == node(
                                entry.value,
                                trees[entry.down as int],
                                trees[entry.right as int],
                            ));
                            assert(occurs_in(trees[entry.down as int], trees[entry.down as int]));
                            assert(occurs_in(trees[entry.right as int], trees[entry.right as int]));
                            assert(occurs_in(trees[entry.down as int], trees[current as int]));
                            assert(occurs_in(trees[entry.right as int], trees[current as int]));
                            lemma_occurs_trans(
                                trees[entry.down as int],
                                trees[current as int],
                                trees[root as int],
                            );
                            lemma_occurs_trans(
                                trees[entry.right as int],
                                trees[current as int],
                                trees[root as int],
                            );
                            assert forall|i: int| 0 <= i < grown.len() implies {
                                &&& (#[trigger] grown[i]) < table@.len()
                                &&& table@[grown[i] as int].filled
                                &&& occurs_in(trees[grown[i] as int], trees[root as int])
                            } by {
                                if i < middle.len() {
                                    assert(grown[i] == middle[i]);
                                }
                            }
                        }
                    }
                    proof {
                        lemma_marking_mark(before, table@, middle, stack@, current);
                    }
                } else {
                    proof {
                        lemma_marking_pop(table@, middle, current);
                    }
                }
            },
        }
    }
    proof {
        lemma_same_nodes_model(old(table)@, table@, trees);
        lemma_marking_end(table@, stack@);
    }
}

/// Marks do not matter to what a table models.
proof fn lemma_same_nodes_model(before: Seq<Node>, after: Seq<Node>, trees: Seq<Tree>)
    requires
        models(before, trees),
        same_nodes(before, after),
    ensures
        models(after, trees),
{
    reveal(models);
    assert forall|n: int| 2 <= n < after.len() && (#[trigger] after[n]).filled implies {
        &&& after[n].down < after.len()
        &&& after[n].right < after.len()
        &&& after[after[n].down as int].filled
        &&& after[after[n].right as int].filled
        &&& trees[n] == node(after[n].value, trees[after[n].down as int], trees[after[n].right as int])
        &&& canonical(trees[n])
    } by {
        assert(before[n].filled);
    }
}

/// Whether the node `n` occurs in the unfolding of a node that `roots` protects.
pub closed spec fn rooted(roots: Map<usize, usize>, trees: Seq<Tree>, n: int) -> bool {
    exists|slot: usize| #[trigger]
        roots.contains_key(slot) && occurs_in(trees[n], trees[roots[slot] as int])
}

/// Whether the slot `n` holds a node while the sweep stands at `position`:
/// before the position, the marked nodes are left, from it on, all nodes.
pub closed spec fn present(table: Seq<Node>, position: int, n: int) -> bool {
    if n < position {
        table[n].marked
    } else {
        table[n].filled
    }
}

/// The index holds exactly the nodes of `table` that are present while the
/// sweep stands at `position`.
#[verifier::opaque]
pub closed spec fn index_sweeping(entries: Map<Key, usize>, table: Seq<Node>, position: int) -> bool {
    &&& forall|key: Key| #[trigger]
        entries.contains_key(key) ==> {
            &&& 2 <= entries[key] < table.len()
            &&& present(table, position, entries[key] as int)
            &&& key_of(table[entries[key] as int]) == key
        }
    &&& forall|n: int|
        2 <= n < table.len() && #[trigger] present(table, position, n) ==> {
            &&& entries.contains_key(key_of(table[n]))
            &&& entries[key_of(table[n])] == n
        }
}

/// The index of a table is the index of a sweep that has not begun.
proof fn lemma_sweep_begin(entries: Map<Key, usize>, table: Seq<Node>)
    requires
        index_agrees(entries, table),
    ensures
        index_sweeping(entries, table, 0),
{
    reveal(index_agrees);
    reveal(index_sweeping);
}

/// A marked node stays in the index when the sweep passes it.
proof fn lemma_sweep_keep(entries: Map<Key, usize>, table: Seq<Node>, position: int)
    requires
        index_sweeping(entries, table, position),
        0 <= position < table.len(),
        table[position].marked,
        table[position].filled,
    ensures
        index_sweeping(entries, table, position + 1),
{
    reveal(index_sweeping);
    assert forall|n: int|
        2 <= n < table.len() && #[trigger] present(table, position + 1, n) implies {
        &&& entries.contains_key(key_of(table[n]))
        &&& entries[key_of(table[n])] == n
    } by {
        assert(present(table, position, n));
    }
}

/// A free slot is not in the index, and the sweep passes it.
proof fn lemma_sweep_skip(entries: Map<Key, usize>, table: Seq<Node>, position: int)
    requires
        index_sweeping(entries, table, position),
        0 <= position < table.len(),
        !table[position].marked,
        !table[position].filled,
    ensures
        index_sweeping(entries, table, position + 1),
{
    reveal(index_sweeping);
    assert forall|n: int|
        2 <= n < table.len() && #[trigger] present(table, position + 1, n) implies {
        &&& entries.contains_key(key_of(table[n]))
        &&& entries[key_of(table[n])] == n
    } by {
        assert(present(table, position, n));
    }
}

/// A node that is not marked leaves the index when the sweep passes it.
proof fn lemma_sweep_drop(entries: Map<Key, usize>, table: Seq<Node>, position: int)
    requires
        index_sweeping(entries, table, position),
        2 <= position < table.len(),
        !table[position].marked,
        table[position].filled,
    ensures
        index_sweeping(entries.remove(key_of(table[position])), table, position + 1),
{
    reveal(index_sweeping);
    let after = entries.remove(key_of(table[position]));
    assert(present(table, position, position));
    assert forall|n: int|
        2 <= n < table.len() && #[trigger] present(table, position + 1, n) implies {
        &&& after.contains_key(key_of(table[n]))
        &&& after[key_of(table[n])] == n
    } by {
        assert(present(table, position, n));
    }
    assert forall|key: Key| #[trigger] after.contains_key(key) implies {
        &&& 2 <= after[key] < table.len()
        &&& present(table, position + 1, after[key] as int)
        &&& key_of(table[after[key] as int]) == key
    } by {
        assert(entries.contains_key(key));
    }
}

/// The index of a sweep that has passed every slot is the index of the
/// table that the sweep leaves.
proof fn lemma_sweep_end(entries: Map<Key, usize>, marked: Seq<Node>, swept: Seq<Node>)
    requires
        index_sweeping(entries, marked, marked.len() as int),
        marked.len() == swept.len(),
        forall|n: int|
            0 <= n < swept.len() ==> {
                &&& (#[trigger] swept[n]).filled == marked[n].marked
                &&& marked[n].marked ==> key_of(swept[n]) == key_of(marked[n])
            },
    ensures
        index_agrees(entries, swept),
{
    reveal(index_sweeping);
    reveal(index_agrees);
    assert forall|n: int| 2 <= n < swept.len() && (#[trigger] swept[n]).filled implies {
        &&& entries.contains_key(key_of(swept[n]))
        &&& entries[key_of(swept[n])] == n
    } by {
        assert(present(marked, marked.len() as int, n));
    }
}

/// The table that a sweep leaves models what the marked table modelled.
proof fn lemma_swept_model(marked: Seq<Node>, swept: Seq<Node>, trees: Seq<Tree>)
    requires
        models(marked, trees),
        marks_closed(marked),
        marked[0].marked,
        marked[1].marked,
        marked.len() == swept.len(),
        forall|n: int|
            0 <= n < swept.len() ==> {
                &&& (#[trigger] swept[n]).filled == marked[n].marked
                &&& marked[n].marked ==> {
                    &&& swept[n].value == marked[n].value
                    &&& swept[n].down == marked[n].down
                    &&& swept[n].right == marked[n].right
                }
            },
    ensures
        models(swept, trees),
{
    reveal(models);
    reveal(marks_closed);
    assert forall|n: int| 2 <= n < swept.len() && (#[trigger] swept[n]).filled implies {
        &&& swept[n].down < swept.len()
        &&& swept[n].right < swept.len()
        &&& swept[swept[n].down as int].filled
        &&& swept[swept[n].right as int].filled
        &&& trees[n] == node(swept[n].value, trees[swept[n].down as int], trees[swept[n].right as int])
        &&& canonical(trees[n])
    } by {
        assert(marked[n].marked);
        assert(marked[n].filled);
    }
    assert forall|n: int, m: int|
        0 <= n < swept.len() && 0 <= m < swept.len() && swept[n].filled && swept[m].filled
            && #[trigger] trees[n] == #[trigger] trees[m] implies n == m by {
        assert(marked[n].marked && marked[m].marked);
    }
}

/// Whether the sweep has passed the slots of `table` before `position`:
/// those slots hold the marked nodes of `marked` without their marks and
/// nothing else, and the other slots are as they were.
#[verifier::opaque]
pub closed spec fn swept_upto(marked: Seq<Node>, table: Seq<Node>, position: int) -> bool {
    &&& table.len() == marked.len()
    &&& forall|n: int| position <= n < marked.len() ==> (#[trigger] table[n]) == marked[n]
    &&& forall|n: int|
        0 <= n < position && n < marked.len() ==> {
            &&& !(#[trigger] table[n]).marked
            &&& table[n].filled == marked[n].marked
            &&& marked[n].marked ==> {
                &&& table[n].value == marked[n].value
                &&& table[n].down == marked[n].down
                &&& table[n].right == marked[n].right
            }
        }
}

/// Before the sweep begins, no slot is passed.
proof fn lemma_swept_begin(marked: Seq<Node>)
    ensures
        swept_upto(marked, marked, 0),
{
    reveal(swept_upto);
}

/// The slot at which the sweep stands is as it was.
proof fn lemma_swept_here(marked: Seq<Node>, table: Seq<Node>, position: int)
    requires
        swept_upto(marked, table, position),
        0 <= position < marked.len(),
    ensures
        table.len() == marked.len(),
        table[position] == marked[position],
{
    reveal(swept_upto);
}

/// The sweep passes a slot: it takes the mark off a marked node, or frees
/// the slot.
proof fn lemma_swept_step(marked: Seq<Node>, before: Seq<Node>, after: Seq<Node>, position: int)
    requires
        swept_upto(marked, before, position),
        0 <= position < marked.len(),
        after =~= before.update(position, after[position]),
        !after[position].marked,
        after[position].filled == marked[position].marked,
        marked[position].marked ==> {
            &&& after[position].value == marked[position].value
            &&& after[position].down == marked[position].down
            &&& after[position].right == marked[position].right
        },
    ensures
        swept_upto(marked, after, position + 1),
{
    reveal(swept_upto);
    assert forall|n: int| position + 1 <= n < marked.len() implies (#[trigger] after[n])
        == marked[n] by {
        assert(before[n] == marked[n]);
    }
    assert forall|n: int| 0 <= n < position + 1 && n < marked.len() implies {
        &&& !(#[trigger] after[n]).marked
        &&& after[n].filled == marked[n].marked
        &&& marked[n].marked ==> {
            &&& after[n].value == marked[n].value
            &&& after[n].down == marked[n].down
            &&& after[n].right == marked[n].right
        }
    } by {
        if n < position {
            assert(after[n] == before[n]);
            assert(!before[n].marked);
        }
    }
}

/// When the sweep has passed every slot, the table holds the marked nodes
/// without their marks and nothing else.
proof fn lemma_swept_all(marked: Seq<Node>, table: Seq<Node>)
    requires
        swept_upto(marked, table, marked.len() as int),
    ensures
        table.len() == marked.len(),
        forall|n: int|
            0 <= n < table.len() ==> {
                &&& !(#[trigger] table[n]).marked
                &&& table[n].filled == marked[n].marked
                &&& marked[n].marked ==> {
                    &&& table[n].value == marked[n].value
                    &&& table[n].down == marked[n].down
                    &&& table[n].right == marked[n].right
                    &&& key_of(table[n]) == key_of(marked[n])
                }
            },
{
    reveal(swept_upto);
}

/// Frees every slot of the table that is not marked, takes it out of the
/// index, and puts it on a new list of free slots; takes the marks off the
/// other slots. Returns the head of the list, the list, and the number of
/// nodes that were freed.
fn sweep_table(table: &mut Vec<Node>, index: &mut NodeMap) -> (r: (
    Option<usize>,
    Ghost<Seq<usize>>,
    usize,
))
    requires
        old(table)@.len() >= 2,
        old(table)@[0].marked,
        old(table)@[1].marked,
        marks_closed(old(table)@),
        index_agrees(map_entries(old(index)), old(table)@),
    ensures
        swept_upto(old(table)@, final(table)@, old(table)@.len() as int),
        free_list(final(table)@, old(table)@.len() as int, r.0, r.1@),
        index_agrees(map_entries(final(index)), final(table)@),
        r.2 == unmarked_nodes(old(table)@, old(table)@.len() as int),
{
    let ghost marked = table@;
    let mut free: Option<usize> = None;
    let ghost mut free_nodes: Seq<usize> = Seq::empty();
    let mut collected: usize = 0;
    let mut position: usize = 0;
    proof {
        lemma_linked_empty(rights(marked), fills(marked), 2, 0);
        lemma_sweep_begin(map_entries(index), marked);
        lemma_swept_begin(marked);
    }
    while position < table.len()
        invariant
            position <= marked.len(),
            table@.len() == marked.len(),
            marked.len() >= 2,
            marked[0].marked,
            marked[1].marked,
            marks_closed(marked),
            swept_upto(marked, table@, position as int),
            free_list(table@, position as int, free, free_nodes),
            forall|k: int| 0 <= k < free_nodes.len() ==> (#[trigger] free_nodes[k]) < position,
            index_sweeping(map_entries(index), marked, position as int),
            collected == unmarked_nodes(marked, position as int),
            collected <= position,
        decreases marked.len() - position,
    {
        let ghost before = table@;
        let ghost list = free_nodes;
        let ghost entries = map_entries(index);
        proof {
            lemma_swept_here(marked, before, position as int);
        }
        let entry = table[position];
        if entry.marked {
            table[position] = Node {
                value: entry.value,
                down: entry.down,
                right: entry.right,
                marked: false,
                filled: entry.filled,
            };
            proof {
                assert(entry.filled) by {
                    reveal(marks_closed);
                }
                assert(rights(table@) =~= rights(before).update(
                    position as int,
                    rights(table@)[position as int],
                ));
                assert(fills(table@) =~= fills(before).update(position as int, true));
                lemma_linked_keep(
                    rights(before),
                    fills(before),
                    2,
                    position as int,
                    free,
                    list,
                    position,
                    rights(table@),
                    fills(table@),
                );
                lemma_sweep_keep(entries, marked, position as int);
                lemma_swept_step(marked, before, table@, position as int);
            }
        } else {
            if entry.filled {
                map_remove(index, (entry.value as usize, entry.down, entry.right));
                collected += 1;
                proof {
                    lemma_sweep_drop(entries, marked, position as int);
                }
            } else {
                proof {
                    lemma_sweep_skip(entries, marked, position as int);
                }
            }
            let next = match free {
                Some(next) => next,
                None => position,
            };
            table[position] = Node {
                value: entry.value,
                down: entry.down,
                right: next,
                marked: false,
                filled: false,
            };
            proof {
                assert(position >= 2);
                assert(rights(table@) =~= rights(before).update(position as int, next));
                assert(fills(table@) =~= fills(before).update(position as int, false));
                lemma_linked_push(
                    rights(before),
                    fills(before),
                    2,
                    position as int,
                    free,
                    list,
                    position,
                    rights(table@),
                    fills(table@),
                );
                lemma_swept_step(marked, before, table@, position as int);
                free_nodes = seq![position] + list;
                assert forall|k: int| 0 <= k < free_nodes.len() implies (#[trigger] free_nodes[k])
                    < position + 1 by {
                    if k > 0 {
                        assert(free_nodes[k] == list[k - 1]);
                    }
                }
            }
            free = Some(position);
        }
        position += 1;
    }
    proof {
        lemma_swept_all(marked, table@);
        lemma_sweep_end(map_entries(index), marked, table@);
    }
    (free, Ghost(free_nodes), collected)
}

/// The number of slots of `table` below `upto` that are filled and not
/// marked: the nodes that a sweep frees there.
pub closed spec fn unmarked_nodes(table: Seq<Node>, upto: int) -> nat
    decreases upto,
{
    if upto <= 0 {
        0
    } else {
        unmarked_nodes(table, upto - 1) + (if table[upto - 1].filled && !table[upto - 1].marked {
            1nat
        } else {
            0nat
        })
    }
}

/// A table with the same nodes has the same index.
proof fn lemma_same_nodes_index(entries: Map<Key, usize>, before: Seq<Node>, after: Seq<Node>)
    requires
        index_agrees(entries, before),
        same_nodes(before, after),
    ensures
        index_agrees(entries, after),
{
    reveal(index_agrees);
    assert forall|n: int| 2 <= n < after.len() && (#[trigger] after[n]).filled implies {
        &&& entries.contains_key(key_of(after[n]))
        &&& entries[key_of(after[n])] == n
    } by {
        assert(before[n].filled);
    }
}

/// A cache that remembers nothing is sound.
proof fn lemma_empty_cache_sound(cache: OperationCache, table: Seq<Node>, trees: Seq<Tree>)
    requires
        cache.is_empty(),
    ensures
        cache_sound(cache, table, trees),
{
    reveal(cache_sound);
    assert(cache.unary(UnaryFunction::Len) =~= Map::empty());
    assert(cache.ternary(TernaryOperator::RelationalProduct) =~= Map::empty());
    assert forall|operator: BinaryOperator, key: Key|
        !(#[trigger] cache.binary(operator).contains_key(key)) by {
        assert(cache.binary(operator) =~= Map::empty());
    }
}

/// Whether `after` is `before` with one more node, in the slot `slot`: a
/// slot that was free, or a new one at the end of the table.
pub closed spec fn adds(
    before: Seq<Node>,
    trees: Seq<Tree>,
    after: Seq<Node>,
    grown: Seq<Tree>,
    slot: int,
) -> bool {
    &&& before.len() == trees.len()
    &&& after.len() == grown.len()
    &&& 2 <= slot < after.len()
    &&& before.len() <= after.len()
    &&& slot < before.len() ==> after.len() == before.len() && !before[slot].filled
    &&& slot >= before.len() ==> slot == before.len() && after.len() == before.len() + 1
    &&& forall|n: int|
        0 <= n < before.len() && n != slot ==> (#[trigger] after[n]) == before[n]
    &&& forall|n: int|
        0 <= n < before.len() && n != slot ==> (#[trigger] grown[n]) == trees[n]
    &&& after[slot].filled
    &&& !after[slot].marked
    &&& after[slot].down < before.len()
    &&& after[slot].right < before.len()
    &&& before[after[slot].down as int].filled
    &&& before[after[slot].right as int].filled
    &&& grown[slot] == node(
        after[slot].value,
        trees[after[slot].down as int],
        trees[after[slot].right as int],
    )
}

/// A table with one more node, which is canonical and has the unfolding of
/// no other node, models the unfoldings with one more.
proof fn lemma_adds_model(
    before: Seq<Node>,
    trees: Seq<Tree>,
    after: Seq<Node>,
    grown: Seq<Tree>,
    slot: int,
)
    requires
        models(before, trees),
        adds(before, trees, after, grown, slot),
        canonical(grown[slot]),
        forall|n: int| 0 <= n < before.len() && before[n].filled ==> #[trigger] trees[n] != grown[slot],
    ensures
        models(after, grown),
{
    reveal(models);
    assert forall|n: int| 2 <= n < after.len() && (#[trigger] after[n]).filled implies {
        &&& after[n].down < after.len()
        &&& after[n].right < after.len()
        &&& after[after[n].down as int].filled
        &&& after[after[n].right as int].filled
        &&& grown[n] == node(after[n].value, grown[after[n].down as int], grown[after[n].right as int])
        &&& canonical(grown[n])
    } by {
        if n != slot {
            assert(before[n].filled);
        }
    }
    assert forall|n: int, m: int|
        0 <= n < after.len() && 0 <= m < after.len() && after[n].filled && after[m].filled
            && #[trigger] grown[n] == #[trigger] grown[m] implies n == m by {
        if n != slot && m != slot {
            assert(trees[n] == trees[m]);
        } else if n != slot {
            assert(trees[n] != grown[slot]);
        } else if m != slot {
            assert(trees[m] != grown[slot]);
        }
    }
}

/// When the index holds nothing under the key of a node, no node of the
/// table has the unfolding of that node.
proof fn lemma_absent(
    entries: Map<Key, usize>,
    table: Seq<Node>,
    trees: Seq<Tree>,
    value: Value,
    down: usize,
    right: usize,
)
    requires
        models(table, trees),
        index_agrees(entries, table),
        !entries.contains_key((value as usize, down, right)),
        down < table.len(),
        right < table.len(),
        table[down as int].filled,
        table[right as int].filled,
    ensures
        forall|n: int|
            0 <= n < table.len() && table[n].filled ==> #[trigger] trees[n] != node(
                value,
                trees[down as int],
                trees[right as int],
            ),
{
    reveal(index_agrees);
    lemma_model_constants(table, trees);
    assert forall|n: int| 0 <= n < table.len() && table[n].filled implies #[trigger] trees[n]
        != node(value, trees[down as int], trees[right as int]) by {
        if n >= 2 && trees[n] == node(value, trees[down as int], trees[right as int]) {
            lemma_model_node(table, trees, n);
            lemma_model_shared(table, trees, table[n].down as int, down as int);
            lemma_model_shared(table, trees, table[n].right as int, right as int);
            assert(key_of(table[n]) == (value as usize, down, right));
        }
    }
}

/// What the index holds under the key of a node is a node with that
/// unfolding.
proof fn lemma_present(
    entries: Map<Key, usize>,
    table: Seq<Node>,
    trees: Seq<Tree>,
    value: Value,
    down: usize,
    right: usize,
)
    requires
        models(table, trees),
        index_agrees(entries, table),
        entries.contains_key((value as usize, down, right)),
    ensures
        2 <= entries[(value as usize, down, right)] < table.len(),
        table[entries[(value as usize, down, right)] as int].filled,
        trees[entries[(value as usize, down, right)] as int] == node(
            value,
            trees[down as int],
            trees[right as int],
        ),
{
    reveal(index_agrees);
    let n = entries[(value as usize, down, right)] as int;
    lemma_model_node(table, trees, n);
}

/// The index of a table with one more node holds that node too.
proof fn lemma_adds_index(
    entries: Map<Key, usize>,
    before: Seq<Node>,
    trees: Seq<Tree>,
    after: Seq<Node>,
    grown: Seq<Tree>,
    slot: usize,
)
    requires
        index_agrees(entries, before),
        adds(before, trees, after, grown, slot as int),
        !entries.contains_key(key_of(after[slot as int])),
    ensures
        index_agrees(entries.insert(key_of(after[slot as int]), slot), after),
{
    reveal(index_agrees);
    let extended = entries.insert(key_of(after[slot as int]), slot);
    assert forall|key: Key| #[trigger] extended.contains_key(key) implies {
        &&& 2 <= extended[key] < after.len()
        &&& after[extended[key] as int].filled
        &&& key_of(after[extended[key] as int]) == key
    } by {
        if key != key_of(after[slot as int]) {
            assert(entries.contains_key(key));
            assert(extended[key] == entries[key]);
            assert(after[entries[key] as int] == before[entries[key] as int]);
        }
    }
    assert forall|n: int| 2 <= n < after.len() && (#[trigger] after[n]).filled implies {
        &&& extended.contains_key(key_of(after[n]))
        &&& extended[key_of(after[n])] == n
    } by {
        if n != slot {
            assert(before[n].filled);
        }
    }
}

/// A sound cache stays sound when the table gets one more node.
proof fn lemma_adds_cache(
    cache: OperationCache,
    before: Seq<Node>,
    trees: Seq<Tree>,
    after: Seq<Node>,
    grown: Seq<Tree>,
    slot: int,
)
    requires
        cache_sound(cache, before, trees),
        adds(before, trees, after, grown, slot),
    ensures
        cache_sound(cache, after, grown),
{
    reveal(cache_sound);
    assert forall|n: usize| filled_at(before, n) implies filled_at(after, n) && grown[n as int]
        == trees[n as int] by {
        assert(after[n as int] == before[n as int]);
    }
}

/// What a binary operator computes, on sets.
pub open spec fn binary_apply(operator: BinaryOperator, a: Set<Vector>, b: Set<Vector>) -> Set<
    Vector,
> {
    match operator {
        BinaryOperator::Union => a.union(b),
        BinaryOperator::Minus => a.difference(b),
    }
}

/// The index holds exactly the filled slots of `table` other than the
/// constants, each under its node.
#[verifier::opaque]
pub closed spec fn index_agrees(entries: Map<Key, usize>, table: Seq<Node>) -> bool {
    &&& forall|key: Key| #[trigger]
        entries.contains_key(key) ==> {
            &&& 2 <= entries[key] < table.len()
            &&& table[entries[key] as int].filled
            &&& key_of(table[entries[key] as int]) == key
        }
    &&& forall|n: int|
        2 <= n < table.len() && (#[trigger] table[n]).filled ==> {
            &&& entries.contains_key(key_of(table[n]))
            &&& entries[key_of(table[n])] == n
        }
}

/// Whether `n` is a filled slot of `table`.
pub closed spec fn filled_at(table: Seq<Node>, n: usize) -> bool {
    n < table.len() && table[n as int].filled
}

/// Every result that `cache` remembers names filled slots of `table`, and is
/// the result of its operator on its operands.
#[verifier::opaque]
pub closed spec fn cache_sound(cache: OperationCache, table: Seq<Node>, trees: Seq<Tree>) -> bool {
    &&& forall|key: Key| #[trigger]
        cache.unary(UnaryFunction::Len).contains_key(key) ==> {
            &&& filled_at(table, key.0)
            &&& cache.unary(UnaryFunction::Len)[key] == capped(count(trees[key.0 as int]))
        }
    &&& forall|operator: BinaryOperator, key: Key| #[trigger]
        cache.binary(operator).contains_key(key) ==> {
            &&& filled_at(table, key.0)
            &&& filled_at(table, key.1)
            &&& filled_at(table, cache.binary(operator)[key])
            &&& denote(trees[cache.binary(operator)[key] as int]) == binary_apply(
                operator,
                denote(trees[key.0 as int]),
                denote(trees[key.1 as int]),
            )
        }
    &&& forall|key: Key| #[trigger]
        cache.ternary(TernaryOperator::RelationalProduct).contains_key(key) ==> {
            &&& filled_at(table, key.0)
            &&& filled_at(table, key.1)
            &&& filled_at(table, key.2)
            &&& filled_at(table, cache.ternary(TernaryOperator::RelationalProduct)[key])
            &&& denote(trees[cache.ternary(TernaryOperator::RelationalProduct)[key] as int])
                == image(
                denote(trees[key.0 as int]),
                denote(trees[key.1 as int]),
                first_vector(trees[key.2 as int]),
            )
        }
}

/// The storage that implements maximal sharing.
pub struct Storage {
    protection_set: ProtectionSet,  // Every handle owns a slot of it.
    table: Vec<Node>,
    index: NodeMap,  // From (value, down, right) to the slot that holds the node.
    cache: OperationCache,
    free: Option<usize>,  // The head of the list of free slots.
    count_until_collection: u64,  // Counts down to the next garbage collection.
    enable_garbage_collection: bool,  // Whether insert collects garbage when the count is zero.
    enable_performance_metrics: bool,
    collected: usize,  // The number of nodes that the last collection freed.
    empty_set: Ldd,
    empty_vector: Ldd,
    trees: Ghost<Seq<Tree>>,  // The unfolding of every filled slot.
    free_nodes: Ghost<Seq<usize>>,  // The list of free slots, starting at its head.
}

impl Storage {
    /// The invariant of the storage.
    pub closed spec fn wf(&self) -> bool {
        &&& self.structure()
        &&& forall|n: int| 0 <= n < self.table@.len() ==> !(#[trigger] self.table@[n]).marked
        &&& free_list(self.table@, self.table@.len() as int, self.free, self.free_nodes@)
    }

    /// The part of the invariant that holds during garbage collection too,
    /// when nodes are marked and the list of free slots is being rebuilt.
    pub closed spec fn structure(&self) -> bool {
        &&& self.protection_set.wf()
        &&& models(self.table@, self.trees@)
        &&& index_agrees(map_entries(&self.index), self.table@)
        &&& forall|slot: usize| #[trigger]
            self.protection_set@.contains_key(slot) ==> self.valid(self.protection_set@[slot])
        &&& self.protection_set@.contains_key(self.empty_set.slot())
        &&& self.protection_set@.contains_key(self.empty_vector.slot())
        &&& self.empty_set.slot() != self.empty_vector.slot()
        &&& self.protection_set@[self.empty_set.slot()] == EMPTY_SET
        &&& self.protection_set@[self.empty_vector.slot()] == EMPTY_VECTOR
        &&& self.empty_set.index() == EMPTY_SET
        &&& self.empty_vector.index() == EMPTY_VECTOR
        &&& cache_sound(self.cache, self.table@, self.trees@)
    }

    /// Whether `n` is the index of a node: a filled slot of the table.
    pub closed spec fn valid(&self, n: usize) -> bool {
        n < self.table@.len() && self.table@[n as int].filled
    }

    /// The unfolding of the node `n`.
    pub closed spec fn tree(&self, n: usize) -> Tree {
        self.trees@[n as int]
    }

    /// The number of slots of the node table, filled or free.
    pub closed spec fn slots(&self) -> nat {
        self.table@.len()
    }

    /// The roots that client code holds: the taken slots of the protection
    /// set, but for the two that the storage keeps for the constants, each
    /// with the node that it protects.
    pub closed spec fn roots(&self) -> Map<usize, usize> {
        self.protection_set@.remove(self.empty_set.slot()).remove(self.empty_vector.slot())
    }

    /// The handles that client code holds: for each root, the node that it
    /// protects and the unfolding of that node.
    pub closed spec fn handles(&self) -> Map<usize, (usize, Tree)> {
        Map::new(
            |slot: usize| self.roots().contains_key(slot),
            |slot: usize| (self.roots()[slot], self.tree(self.roots()[slot])),
        )
    }

    /// Whether `ldd` is a handle of this storage: it owns a root, and the
    /// root protects its node.
    pub open spec fn protects(&self, ldd: &Ldd) -> bool {
        &&& self.handles().contains_key(ldd.slot())
        &&& self.handles()[ldd.slot()].0 == ldd.index()
    }

    /// The unfolding of the node of a handle.
    pub open spec fn tree_of(&self, ldd: &Ldd) -> Tree {
        self.handles()[ldd.slot()].1
    }

    /// The set of vectors that a handle stands for.
    pub open spec fn set_of(&self, ldd: &Ldd) -> Set<Vector> {
        denote(self.tree_of(ldd))
    }

    /// The set of vectors that the node `n` stands for.
    pub open spec fn set_at(&self, n: usize) -> Set<Vector> {
        denote(self.tree(n))
    }

    /// Whether the node `n` can be reached from a root: it is one of the
    /// constants, or occurs in the unfolding of a root.
    pub open spec fn reachable(&self, n: usize) -> bool {
        n == EMPTY_SET || n == EMPTY_VECTOR || exists|slot: usize| #[trigger]
            self.handles().contains_key(slot) && occurs_in(self.tree(n), self.handles()[slot].1)
    }

    /// Whether `ldd` owns a root that protects its node, which is a node.
    spec fn guards(&self, ldd: &Ldd) -> bool {
        &&& self.roots().contains_key(ldd.slot())
        &&& self.roots()[ldd.slot()] == ldd.index()
        &&& self.valid(ldd.index())
    }

    /// Whether every node of `before` is a node of this storage, with the
    /// unfolding that it had.
    pub open spec fn extends(&self, before: &Storage) -> bool {
        forall|n: usize| #[trigger]
            before.valid(n) ==> self.valid(n) && self.tree(n) == before.tree(n)
    }

    /// Whether `ldd` is a handle of this storage to a node that unfolds to
    /// `tree`.
    pub open spec fn holds(&self, ldd: &Ldd, tree: Tree) -> bool {
        self.protects(ldd) && self.tree_of(ldd) == tree
    }

    /// What every operation that returns a diagram leaves behind: the
    /// storage is well formed, `r` is a handle of it in a slot that was free,
    /// every other handle is what it was, and the settings are kept.
    pub open spec fn yields(&self, before: &Storage, r: &Ldd) -> bool {
        &&& self.wf()
        &&& !before.handles().contains_key(r.slot())
        &&& self.handles() == before.handles().insert(r.slot(), (r.index(), self.tree_of(r)))
        &&& canonical(self.tree_of(r))
        &&& self.collects() == before.collects()
        &&& self.reports() == before.reports()
    }

    /// Whether every handle of `before` is a handle of this storage, to the
    /// node and the term that it had, and the settings are kept.
    pub open spec fn preserves(&self, before: &Storage) -> bool {
        &&& forall|slot: usize| #[trigger]
            before.handles().contains_key(slot) ==> self.handles().contains_key(slot)
                && self.handles()[slot] == before.handles()[slot]
        &&& self.collects() == before.collects()
        &&& self.reports() == before.reports()
    }

    /// Whether this storage holds the nodes that `before` holds, no more and
    /// no less, and has its settings.
    pub open spec fn same_nodes_as(&self, before: &Storage) -> bool {
        &&& self.extends(before)
        &&& before.extends(self)
        &&& self.slots() == before.slots()
        &&& self.collects() == before.collects()
        &&& self.reports() == before.reports()
        &&& self.countdown() == before.countdown()
    }

    /// Whether insert collects garbage when its count has run out.
    pub closed spec fn collects(&self) -> bool {
        self.enable_garbage_collection
    }

    /// Whether the storage was asked to report on its work.
    pub closed spec fn reports(&self) -> bool {
        self.enable_performance_metrics
    }

    /// The number of new nodes that insert still creates before it collects
    /// garbage.
    pub closed spec fn countdown(&self) -> u64 {
        self.count_until_collection
    }

    /// The operation cache.
    pub closed spec fn cache(&self) -> OperationCache {
        self.cache
    }

    /// The unfolding of a node is canonical.
    pub proof fn lemma_canonical(&self, n: usize)
        requires
            self.wf(),
            self.valid(n),
        ensures
            canonical(self.tree(n)),
    {
        lemma_model_constants(self.table@, self.trees@);
        if n >= 2 {
            lemma_model_node(self.table@, self.trees@, n as int);
        }
    }

    /// The constants stand at the indices 0 and 1, and every other node
    /// unfolds to a proper node.
    pub proof fn lemma_constants(&self)
        requires
            self.wf(),
        ensures
            self.valid(EMPTY_SET),
            self.valid(EMPTY_VECTOR),
            self.tree(EMPTY_SET) == Tree::False,
            self.tree(EMPTY_VECTOR) == Tree::True,
            forall|n: usize| #[trigger]
                self.valid(n) && n != EMPTY_SET && n != EMPTY_VECTOR ==> self.tree(n) is Node,
    {
        lemma_model_constants(self.table@, self.trees@);
        assert forall|n: usize| #[trigger]
            self.valid(n) && n != EMPTY_SET && n != EMPTY_VECTOR implies self.tree(n) is Node by {
            lemma_model_node(self.table@, self.trees@, n as int);
        }
    }

    /// Maximal sharing: nodes with the same unfolding are the same node.
    pub proof fn lemma_shared(&self, n: usize, m: usize)
        requires
            self.wf(),
            self.valid(n),
            self.valid(m),
            self.tree(n) == self.tree(m),
        ensures
            n == m,
    {
        lemma_model_shared(self.table@, self.trees@, n as int, m as int);
    }

    /// Nodes that stand for the same set are the same node.
    pub proof fn lemma_unique(&self, n: usize, m: usize)
        requires
            self.wf(),
            self.valid(n),
            self.valid(m),
            self.set_at(n) == self.set_at(m),
        ensures
            n == m,
    {
        self.lemma_canonical(n);
        self.lemma_canonical(m);
        crate::tree::lemma_denote_unique(self.tree(n), self.tree(m));
        self.lemma_shared(n, m);
    }

    /// What a handle names: its node is a node of the table and unfolds to
    /// the canonical term of the handle, which is `False` for the node 0
    /// only, and `True` for the node 1 only.
    pub proof fn lemma_handle(&self, ldd: &Ldd)
        requires
            self.wf(),
            self.protects(ldd),
        ensures
            self.valid(ldd.index()),
            self.tree(ldd.index()) == self.tree_of(ldd),
            canonical(self.tree_of(ldd)),
            ldd.index() == EMPTY_SET <==> self.tree_of(ldd) == Tree::False,
            ldd.index() == EMPTY_VECTOR <==> self.tree_of(ldd) == Tree::True,
    {
        assert(self.guards(ldd));
        self.lemma_canonical(ldd.index());
        self.lemma_constants();
    }

    /// Handles to the same node stand for the same term, and handles that
    /// stand for the same set are handles to the same node.
    pub proof fn lemma_handles(&self, a: &Ldd, b: &Ldd)
        requires
            self.wf(),
            self.protects(a),
            self.protects(b),
        ensures
            a.index() == b.index() <==> self.tree_of(a) == self.tree_of(b),
            a.index() == b.index() <==> self.set_of(a) == self.set_of(b),
    {
        self.lemma_handle(a);
        self.lemma_handle(b);
        if self.tree_of(a) == self.tree_of(b) {
            self.lemma_shared(a.index(), b.index());
        }
        if self.set_of(a) == self.set_of(b) {
            self.lemma_unique(a.index(), b.index());
        }
    }

    /// A storage that holds the two constants and no other node.
    pub fn new() -> (storage: Self)
        ensures
            storage.wf(),
            storage.handles() =~= Map::empty(),
            storage.collects(),
            !storage.reports(),
            storage.cache().is_empty(),
            storage.countdown() == 10000,
            storage.freed() == 0,
            storage.slots() == 2,
            forall|n: usize| storage.valid(n) <==> n == EMPTY_SET || n == EMPTY_VECTOR,
    {
        let mut protection_set = ProtectionSet::new();
        let empty_set = Ldd::new(&mut protection_set, EMPTY_SET);
        let empty_vector = Ldd::new(&mut protection_set, EMPTY_VECTOR);
        // The two nodes for 'false' and 'true'; these cannot be created by insert.
        let table = vec![Node::new(0, 0, 0), Node::new(0, 0, 0)];
        let storage = Storage {
            protection_set,
            table,
            index: map_new(),
            cache: OperationCache::new(),
            free: None,
            count_until_collection: 10000,
            enable_garbage_collection: true,
            enable_performance_metrics: false,
            collected: 0,
            empty_set,
            empty_vector,
            trees: Ghost(Seq::empty().push(Tree::False).push(Tree::True)),
            free_nodes: Ghost(Seq::empty()),
        };
        proof {
            reveal(models);
            reveal(index_agrees);
            reveal(cache_sound);
            lemma_linked_empty(rights(storage.table@), fills(storage.table@), 2, 2);
            assert(storage.roots() =~= Map::<usize, usize>::empty());
            assert(storage.cache.unary(UnaryFunction::Len) =~= Map::empty());
            assert(storage.cache.ternary(TernaryOperator::RelationalProduct) =~= Map::empty());
            assert forall|operator: BinaryOperator, key: Key|
                !(#[trigger] storage.cache.binary(operator).contains_key(key)) by {
                assert(storage.cache.binary(operator) =~= Map::empty());
            }
        }
        storage
    }

    /// Marks every node that can be reached from a slot of the protection set.
    fn mark_roots(&mut self)
        requires
            old(self).wf(),
        ensures
            final(self).structure(),
            same_nodes(old(self).table@, final(self).table@),
            marks_closed(final(self).table@),
            final(self).trees@ == old(self).trees@,
            final(self).protection_set == old(self).protection_set,
            final(self).cache == old(self).cache,
            final(self).enable_garbage_collection == old(self).enable_garbage_collection,
            final(self).enable_performance_metrics == old(self).enable_performance_metrics,
            final(self).count_until_collection == old(self).count_until_collection,
            final(self).collected == old(self).collected,
            final(self).empty_set == old(self).empty_set,
            final(self).empty_vector == old(self).empty_vector,
            forall|slot: usize| #[trigger]
                final(self).protection_set@.contains_key(slot) ==> final(self).table@[final(self).protection_set@[slot] as int].marked,
            forall|n: int|
                0 <= n < final(self).table@.len() && (#[trigger] final(self).table@[n]).marked
                    ==> rooted(final(self).protection_set@, final(self).trees@, n),
    {
        let ghost trees = self.trees@;
        let ghost nodes = self.protection_set.live_nodes();
        let ghost mut done: int = 0;
        let mut stack: Vec<usize> = Vec::new();
        let mut iter = self.protection_set.iter();
        proof {
            lemma_model_constants(self.table@, trees);
            assert(marks_closed(self.table@)) by {
                reveal(marks_closed);
            }
        }
        loop
            invariant
                iter.set() == &self.protection_set,
                self.protection_set == old(self).protection_set,
                old(self).wf(),
                0 <= done <= nodes.len(),
                nodes == self.protection_set.live_nodes(),
                iter.remaining() == nodes.skip(done),
                stack@.len() == 0,
                same_nodes(old(self).table@, self.table@),
                models(self.table@, trees),
                marks_closed(self.table@),
                trees == old(self).trees@,
                self.trees == old(self).trees,
                self.index == old(self).index,
                self.cache == old(self).cache,
                self.free == old(self).free,
                self.free_nodes == old(self).free_nodes,
                self.enable_garbage_collection == old(self).enable_garbage_collection,
                self.enable_performance_metrics == old(self).enable_performance_metrics,
                self.count_until_collection == old(self).count_until_collection,
                self.collected == old(self).collected,
                self.empty_set == old(self).empty_set,
                self.empty_vector == old(self).empty_vector,
                forall|i: int|
                    0 <= i < done ==> (#[trigger] nodes[i]) < self.table@.len()
                        && self.table@[nodes[i] as int].marked,
                forall|n: int|
                    0 <= n < self.table@.len() && (#[trigger] self.table@[n]).marked ==> rooted(
                        self.protection_set@,
                        trees,
                        n,
                    ),
            ensures
                done == nodes.len(),
            decreases nodes.len() - done,
        {
            let ghost before = self.table@;
            match iter.next() {
                None => {
                    assert(nodes.skip(done).len() == nodes.len() - done);
                    break ;
                },
                Some(root) => {
                    proof {
                        assert(nodes.skip(done).len() == nodes.len() - done);
                        assert(root == nodes[done]);
                        assert(nodes.skip(done).drop_first() =~= nodes.skip(done + 1));
                    }
                    let ghost slot = self.protection_set.lemma_live_nodes_source(done);
                    assert(old(self).valid(root));
                    mark_node(&mut self.table, &mut stack, root, Ghost(trees));
                    proof {
                        let now = self.table@;
                        assert(same_nodes(old(self).table@, now)) by {
                            assert forall|n: int| 0 <= n < now.len() implies {
                                &&& (#[trigger] now[n]).value == old(self).table@[n].value
                                &&& now[n].down == old(self).table@[n].down
                                &&& now[n].right == old(self).table@[n].right
                                &&& now[n].filled == old(self).table@[n].filled
                            } by {
                                assert(before[n].filled == old(self).table@[n].filled);
                            }
                        }
                        assert forall|n: int|
                            0 <= n < now.len() && (#[trigger] now[n]).marked implies rooted(
                            self.protection_set@,
                            trees,
                            n,
                        ) by {
                            if !before[n].marked {
                                assert(self.protection_set@.contains_key(slot));
                            }
                        }
                        assert forall|i: int| 0 <= i < done + 1 implies (#[trigger] nodes[i])
                            < now.len() && now[nodes[i] as int].marked by {
                            if i < done {
                                assert(before[nodes[i] as int].marked);
                            }
                        }
                        done = done + 1;
                    }
                },
            }
        }
        proof {
            let now = self.table@;
            lemma_same_nodes_index(map_entries(&self.index), old(self).table@, now);
            assert(cache_sound(self.cache, now, trees)) by {
                reveal(cache_sound);
                assert forall|n: usize| filled_at(old(self).table@, n) == filled_at(now, n) by {}
            }
            assert forall|slot: usize| #[trigger]
                self.protection_set@.contains_key(slot) implies now[self.protection_set@[slot] as int].marked
                && self.valid(self.protection_set@[slot]) by {
                self.protection_set.lemma_live_nodes_cover(slot);
                let i = choose|i: int|
                    0 <= i < nodes.len() && nodes[i] == self.protection_set@[slot];
                assert(now[nodes[i] as int].marked);
                assert(old(self).valid(self.protection_set@[slot]));
            }
        }
    }

    /// Frees every slot that is not marked, and takes the marks off the others.
    /// Returns the number of nodes that were freed.
    fn sweep(&mut self) -> (collected: usize)
        requires
            old(self).structure(),
            marks_closed(old(self).table@),
            old(self).cache.is_empty(),
            forall|slot: usize| #[trigger]
                old(self).protection_set@.contains_key(slot) ==> old(self).table@[old(self).protection_set@[slot] as int].marked,
        ensures
            final(self).wf(),
            final(self).table@.len() == old(self).table@.len(),
            collected == unmarked_nodes(old(self).table@, old(self).table@.len() as int),
            final(self).collected == old(self).collected,
            forall|n: int|
                0 <= n < old(self).table@.len() ==> (#[trigger] final(self).table@[n]).filled == old(self).table@[n].marked,
            final(self).trees@ == old(self).trees@,
            final(self).protection_set == old(self).protection_set,
            final(self).cache == old(self).cache,
            final(self).enable_garbage_collection == old(self).enable_garbage_collection,
            final(self).enable_performance_metrics == old(self).enable_performance_metrics,
            final(self).count_until_collection == old(self).count_until_collection,
            final(self).empty_set == old(self).empty_set,
            final(self).empty_vector == old(self).empty_vector,
    {
        let ghost marked = self.table@;
        let ghost trees = self.trees@;
        proof {
            lemma_model_constants(marked, trees);
            assert(marked[0].marked && marked[1].marked) by {
                assert(self.protection_set@.contains_key(self.empty_set.slot()));
                assert(self.protection_set@.contains_key(self.empty_vector.slot()));
            }
        }
        let (free, free_nodes, collected) = sweep_table(&mut self.table, &mut self.index);
        self.free = free;
        self.free_nodes = free_nodes;
        proof {
            let swept = self.table@;
            lemma_swept_all(marked, swept);
            lemma_swept_model(marked, swept, trees);
            lemma_empty_cache_sound(self.cache, swept, trees);
            assert forall|slot: usize| #[trigger]
                self.protection_set@.contains_key(slot) implies self.valid(
                self.protection_set@[slot],
            ) by {
                assert(old(self).valid(self.protection_set@[slot]));
            }
        }
        collected
    }

    /// A node that was marked from the slots of the protection set can be
    /// reached from a root.
    proof fn lemma_marked_reachable(&self, marked: Seq<Node>, n: usize)
        requires
            self.wf(),
            same_nodes(self.table@, marked),
            marks_closed(marked),
            n < marked.len(),
            marked[n as int].marked,
            rooted(self.protection_set@, self.trees@, n as int),
        ensures
            self.valid(n),
            self.reachable(n),
    {
        let trees = self.trees@;
        let roots = self.protection_set@;
        lemma_model_constants(self.table@, trees);
        assert(marked[n as int].filled) by {
            reveal(marks_closed);
        }
        assert(self.table@[n as int].filled);
        let slot = choose|slot: usize| #[trigger]
            roots.contains_key(slot) && occurs_in(trees[n as int], trees[roots[slot] as int]);
        if slot == self.empty_set.slot() {
            lemma_model_shared(self.table@, trees, n as int, 0);
        } else if slot == self.empty_vector.slot() {
            lemma_model_shared(self.table@, trees, n as int, 1);
        } else {
            assert(self.roots().contains_key(slot));
            assert(self.handles().contains_key(slot));
            assert(occurs_in(self.tree(n), self.handles()[slot].1));
        }
    }

    /// A node that can be reached from a root is marked, when the nodes of
    /// all slots of the protection set are marked and the marks are closed.
    proof fn lemma_reachable_marked(&self, marked: Seq<Node>, n: usize)
        requires
            self.wf(),
            same_nodes(self.table@, marked),
            models(marked, self.trees@),
            marks_closed(marked),
            forall|slot: usize| #[trigger]
                self.protection_set@.contains_key(slot) ==> marked[self.protection_set@[slot] as int].marked,
            self.valid(n),
            self.reachable(n),
        ensures
            marked[n as int].marked,
    {
        let trees = self.trees@;
        let roots = self.protection_set@;
        assert(marked[n as int].filled);
        if n == EMPTY_SET {
            assert(roots.contains_key(self.empty_set.slot()));
        } else if n == EMPTY_VECTOR {
            assert(roots.contains_key(self.empty_vector.slot()));
        } else {
            let slot = choose|slot: usize| #[trigger]
                self.handles().contains_key(slot) && occurs_in(self.tree(n), self.handles()[slot].1);
            assert(self.roots().contains_key(slot));
            assert(roots.contains_key(slot));
            assert(self.valid(roots[slot]));
            lemma_marked_occurs(marked, trees, roots[slot] as int, n as int);
        }
    }

    /// The number of nodes among the slots below `upto` that cannot be
    /// reached from a root: the nodes that a collection frees there.
    pub open spec fn garbage(&self, upto: nat) -> nat
        decreases upto,
    {
        if upto == 0 {
            0
        } else {
            self.garbage((upto - 1) as nat) + (if self.valid((upto - 1) as usize) && !self.reachable(
                (upto - 1) as usize,
            ) {
                1nat
            } else {
                0nat
            })
        }
    }

    /// The nodes that are no nodes of a storage that holds the nodes that
    /// can be reached, and no others, are the nodes that cannot be reached.
    proof fn lemma_garbage(&self, after: &Storage, upto: nat)
        requires
            forall|n: usize| #[trigger] after.valid(n) ==> self.valid(n) && self.reachable(n),
            forall|n: usize| self.valid(n) && #[trigger] self.reachable(n) ==> after.valid(n),
        ensures
            self.collected_below(after, upto) == self.garbage(upto),
        decreases upto,
    {
        if upto > 0 {
            self.lemma_garbage(after, (upto - 1) as nat);
            let n = (upto - 1) as usize;
            if self.valid(n) && self.reachable(n) {
                assert(after.valid(n));
            }
            if after.valid(n) {
                assert(self.reachable(n));
            }
        }
    }

    /// The number of nodes of this storage among the slots below `upto`
    /// that are no nodes of `after`.
    spec fn collected_below(&self, after: &Storage, upto: nat) -> nat
        decreases upto,
    {
        if upto == 0 {
            0
        } else {
            self.collected_below(after, (upto - 1) as nat) + (if self.valid((upto - 1) as usize)
                && !after.valid((upto - 1) as usize) {
                1nat
            } else {
                0nat
            })
        }
    }

    /// The count of the freed nodes depends on the nodes only.
    proof fn lemma_collected_same(&self, other: &Storage, after: &Storage, upto: nat)
        requires
            self.table@ == other.table@,
        ensures
            self.collected_below(after, upto) == other.collected_below(after, upto),
        decreases upto,
    {
        if upto > 0 {
            self.lemma_collected_same(other, after, (upto - 1) as nat);
        }
    }

    /// The nodes that a sweep frees are the nodes that are not marked.
    proof fn lemma_collected(&self, marked: Seq<Node>, after: &Storage, upto: nat)
        requires
            same_nodes(self.table@, marked),
            marks_closed(marked),
            after.table@.len() == marked.len(),
            forall|n: int| 0 <= n < marked.len() ==> (#[trigger] after.table@[n]).filled == marked[n].marked,
            upto <= marked.len(),
        ensures
            self.collected_below(after, upto) == unmarked_nodes(marked, upto as int),
        decreases upto,
    {
        if upto > 0 {
            self.lemma_collected(marked, after, (upto - 1) as nat);
            let n = (upto - 1) as int;
            assert(self.table@.len() == self.table.len());
            assert(after.table@[n].filled == marked[n].marked);
            assert(marked[n].marked ==> marked[n].filled) by {
                reveal(marks_closed);
            }
            assert(self.valid(n as usize) == marked[n].filled);
            assert(after.valid(n as usize) == marked[n].marked);
        }
    }

    /// Cleans up all nodes that cannot be reached from a root.
    ///
    /// The operation cache names nodes without protecting them, so it is
    /// cleared first. Then the nodes that can be reached from the roots are
    /// marked, and every slot without a mark is freed and put on the list of
    /// free slots. The storage keeps the number of the nodes that it freed, if
    /// it was asked to report on its work.
    pub fn garbage_collect(&mut self)
        requires
            old(self).wf(),
        ensures
            final(self).wf(),
            final(self).handles() == old(self).handles(),
            final(self).slots() == old(self).slots(),
            forall|n: usize| #[trigger]
                final(self).valid(n) ==> old(self).valid(n) && old(self).reachable(n),
            forall|n: usize|
                old(self).valid(n) && #[trigger] old(self).reachable(n) ==> final(self).valid(n),
            old(self).extends(final(self)),
            final(self).cache().is_empty(),
            final(self).collects() == old(self).collects(),
            final(self).reports() == old(self).reports(),
            final(self).countdown() == old(self).countdown(),
            old(self).reports() ==> final(self).freed() == old(self).garbage(old(self).slots()),
            !old(self).reports() ==> final(self).freed() == old(self).freed(),
    {
        // The cache names nodes that are not protected.
        self.cache.clear();
        let ghost cleared = *self;
        proof {
            lemma_empty_cache_sound(self.cache, self.table@, self.trees@);
            assert(cleared.handles() =~= old(self).handles());
        }
        self.mark_roots();
        let ghost marked = self.table@;
        let collected = self.sweep();
        if self.enable_performance_metrics {
            self.collected = collected;
        }
        proof {
            assert forall|n: usize| #[trigger] self.valid(n) implies old(self).valid(n) && old(self).reachable(n) by {
                cleared.lemma_marked_reachable(marked, n);
                assert(cleared.reachable(n) == old(self).reachable(n));
            }
            assert forall|n: usize| old(self).valid(n) && #[trigger] old(self).reachable(
                n,
            ) implies self.valid(n) by {
                assert(cleared.reachable(n) == old(self).reachable(n));
                cleared.lemma_reachable_marked(marked, n);
            }
            cleared.lemma_collected(marked, self, self.table@.len());
            assert(cleared.collected_below(self, cleared.slots()) == old(self).collected_below(
                self,
                old(self).slots(),
            )) by {
                old(self).lemma_collected_same(&cleared, self, old(self).slots());
            }
            old(self).lemma_garbage(self, old(self).slots());
            assert(self.roots() == old(self).roots());
            assert forall|slot: usize| old(self).roots().contains_key(slot) implies self.tree(
                old(self).roots()[slot],
            ) == old(self).tree(old(self).roots()[slot]) by {}
            assert(self.handles() =~= old(self).handles());
        }
    }

    /// Enables automatic garbage collection, which is enabled by default.
    pub fn enable_garbage_collection(&mut self, enabled: bool)
        requires
            old(self).wf(),
        ensures
            final(self).wf(),
            final(self).collects() == enabled,
            final(self).reports() == old(self).reports(),
            final(self).handles() == old(self).handles(),
            final(self).extends(old(self)),
            old(self).extends(final(self)),
            final(self).countdown() == old(self).countdown(),
            final(self).cache() == old(self).cache(),
    {
        self.enable_garbage_collection = enabled;
        proof {
            assert(self.handles() =~= old(self).handles());
        }
    }

    /// Asks the storage to report on its work, or not to.
    pub fn enable_performance_metrics(&mut self, enabled: bool)
        requires
            old(self).wf(),
        ensures
            final(self).wf(),
            final(self).reports() == enabled,
            final(self).collects() == old(self).collects(),
            final(self).handles() == old(self).handles(),
            final(self).extends(old(self)),
            old(self).extends(final(self)),
            final(self).countdown() == old(self).countdown(),
            final(self).cache() == old(self).cache(),
    {
        self.enable_performance_metrics = enabled;
        proof {
            assert(self.handles() =~= old(self).handles());
        }
    }

    /// The 'false' diagram, which stands for the empty set.
    pub fn empty_set(&self) -> (ldd: &Ldd)
        requires
            self.wf(),
        ensures
            ldd.index() == EMPTY_SET,
            self.valid(ldd.index()),
            self.tree(ldd.index()) == Tree::False,
    {
        proof {
            lemma_model_constants(self.table@, self.trees@);
        }
        &self.empty_set
    }

    /// The 'true' diagram, which stands for the set of the empty vector.
    pub fn empty_vector(&self) -> (ldd: &Ldd)
        requires
            self.wf(),
        ensures
            ldd.index() == EMPTY_VECTOR,
            self.valid(ldd.index()),
            self.tree(ldd.index()) == Tree::True,
    {
        proof {
            lemma_model_constants(self.table@, self.trees@);
        }
        &self.empty_vector
    }

    /// Whether the next insert collects garbage: the count has run out, and
    /// collection is enabled.
    pub open spec fn collection_due(&self) -> bool {
        self.countdown() == 0 && self.collects()
    }

    /// Whether the node `n` is still a node after the safepoint of the next
    /// insert: it is a node, and can be reached from a root if garbage is
    /// collected there.
    pub open spec fn survives(&self, n: usize) -> bool {
        self.valid(n) && (self.collection_due() ==> self.reachable(n))
    }

    /// Whether no slot is free after the safepoint of the next insert, so
    /// that a new node needs a new slot.
    pub open spec fn crowded(&self) -> bool {
        forall|n: usize| 2 <= n < self.slots() ==> #[trigger] self.survives(n)
    }

    /// The count after the safepoint of the next insert: when it has run out,
    /// it starts again at the number of slots of the table.
    pub open spec fn countdown_restarted(&self) -> nat {
        if self.countdown() == 0 {
            self.slots()
        } else {
            self.countdown() as nat
        }
    }

    /// Creates the node `(value, down, right)`, or finds it if the table
    /// holds it already, and returns a handle to it.
    ///
    /// The call is a safepoint: when the count of new nodes has run out, it
    /// first collects garbage, if that is enabled, and starts the count again
    /// at the size of the table. A new node takes a free slot if there is
    /// one, and counts one down.
    pub fn insert(&mut self, value: Value, down: &Ldd, right: &Ldd) -> (r: Ldd)
        requires
            old(self).wf(),
            old(self).protects(down),
            old(self).protects(right),
            canonical(node(value, old(self).tree_of(down), old(self).tree_of(right))),
        ensures
            final(self).yields(old(self), &r),
            final(self).tree_of(&r) == node(value, old(self).tree_of(down), old(self).tree_of(right)),
            forall|n: usize| #[trigger]
                final(self).valid(n) ==> n == r.index() || old(self).survives(n),
            forall|n: usize| #[trigger]
                old(self).survives(n) ==> final(self).valid(n) && final(self).tree(n) == old(self).tree(n),
            final(self).countdown() == old(self).countdown_restarted() - (if old(self).survives(
                r.index(),
            ) {
                0int
            } else {
                1int
            }),
            final(self).slots() == old(self).slots() + (if !old(self).survives(r.index()) && old(self).crowded() {
                1nat
            } else {
                0nat
            }),
            old(self).collection_due() ==> final(self).cache().is_empty(),
            !old(self).collection_due() ==> final(self).cache() == old(self).cache(),
            final(self).freed() == (if old(self).collection_due() && old(self).reports() {
                old(self).garbage(old(self).slots())
            } else {
                old(self).freed() as nat
            }),
    {
        proof {
            assert(old(self).guards(down) && old(self).guards(right));
        }
        let ghost mut collected = *self;
        if self.count_until_collection == 0 {
            if self.enable_garbage_collection {
                self.garbage_collect();
                proof {
                    collected = *self;
                }
            }
            self.count_until_collection = self.table.len() as u64;
        }
        let ghost middle = *self;
        let ghost table = self.table@;
        let ghost trees = self.trees@;
        proof {
            assert(collected.handles().contains_key(down.slot()));
            assert(collected.handles().contains_key(right.slot()));
            assert(collected.handles()[down.slot()] == old(self).handles()[down.slot()]);
            assert(collected.handles()[right.slot()] == old(self).handles()[right.slot()]);
            assert(collected.guards(down) && collected.guards(right));
            assert(middle.valid(down.index()) && middle.valid(right.index()));
            assert(middle.handles() =~= old(self).handles());
        }
        let ghost tree = node(value, trees[down.index() as int], trees[right.index() as int]);
        let ghost entries = map_entries(&self.index);
        proof {
            lemma_model_constants(table, trees);
            assert(tree == node(value, old(self).tree_of(down), old(self).tree_of(right)));
            assert forall|n: usize| #[trigger] middle.valid(n) implies old(self).survives(n) by {
                assert(collected.valid(n));
            }
            assert forall|n: usize| #[trigger] old(self).survives(n) implies middle.valid(n)
                && middle.tree(n) == old(self).tree(n) by {
                if old(self).collection_due() {
                    assert(old(self).reachable(n));
                }
                assert(collected.valid(n));
            }
        }
        let key = (value as usize, down.index(), right.index());
        match map_get(&self.index, key) {
            Some(index) => {
                proof {
                    lemma_present(entries, table, trees, value, down.index(), right.index());
                }
                let r = Ldd::new(&mut self.protection_set, index);
                proof {
                    assert(self.roots() =~= middle.roots().insert(r.slot(), r.index()));
                    assert(self.valid(index));
                    assert(middle.valid(index));
                    assert(old(self).survives(index));
                    assert forall|n: usize| #[trigger] self.valid(n) implies n == r.index() || old(self).survives(n) by {
                        assert(middle.valid(n));
                    }
                    assert forall|n: usize| #[trigger] old(self).survives(n) implies self.valid(n)
                        && self.tree(n) == old(self).tree(n) by {
                        assert(middle.valid(n));
                    }
                    assert(self.handles() =~= middle.handles().insert(r.slot(), (r.index(), tree)));
                    self.lemma_canonical(index);
                }
                r
            },
            None => {
                proof {
                    lemma_absent(entries, table, trees, value, down.index(), right.index());
                }
                self.count_until_collection -= 1;
                let entry = Node::new(value, down.index(), right.index());
                let index = match self.free {
                    Some(first) => {
                        proof {
                            lemma_linked_head(
                                rights(table),
                                fills(table),
                                2,
                                table.len() as int,
                                self.free,
                                self.free_nodes@,
                            );
                            assert(first == self.free_nodes@[0]);
                        }
                        let next = self.table[first].right;
                        if first == next {
                            // The list is now empty as its first element points to itself.
                            self.free = None;
                        } else {
                            // The next element becomes the head of the list.
                            self.free = Some(next);
                        }
                        self.table[first] = entry;
                        self.trees = Ghost(trees.update(first as int, tree));
                        self.free_nodes = Ghost(self.free_nodes@.drop_first());
                        proof {
                            assert(rights(self.table@) =~= rights(table).update(
                                first as int,
                                rights(self.table@)[first as int],
                            ));
                            assert(fills(self.table@) =~= fills(table).update(first as int, true));
                            lemma_linked_pop(
                                rights(table),
                                fills(table),
                                2,
                                middle.free,
                                middle.free_nodes@,
                                rights(self.table@),
                                fills(self.table@),
                            );
                            assert(!middle.valid(first));
                            assert(!old(self).survives(first));
                            assert(middle.slots() == old(self).slots());
                            assert(!old(self).crowded());
                        }
                        first
                    },
                    None => {
                        // No free slot, so the table grows.
                        self.table.push(entry);
                        self.trees = Ghost(trees.push(tree));
                        proof {
                            lemma_linked_none(
                                rights(table),
                                fills(table),
                                2,
                                table.len() as int,
                                self.free_nodes@,
                            );
                            lemma_linked_grow(
                                rights(table),
                                fills(table),
                                2,
                                self.free,
                                self.free_nodes@,
                                entry.right,
                            );
                            assert(rights(self.table@) =~= rights(table).push(entry.right));
                            assert(fills(self.table@) =~= fills(table).push(true));
                            assert(middle.slots() == old(self).slots());
                            assert forall|n: usize| 2 <= n < old(self).slots() implies #[trigger] old(self).survives(n) by {
                                assert(fills(table)[n as int]);
                                assert(middle.valid(n));
                            }
                            assert(old(self).crowded());
                        }
                        self.table.len() - 1
                    },
                };
                map_insert(&mut self.index, key, index);
                proof {
                    assert(key == key_of(self.table@[index as int]));
                    assert(adds(table, trees, self.table@, self.trees@, index as int));
                    lemma_adds_model(table, trees, self.table@, self.trees@, index as int);
                    lemma_adds_index(entries, table, trees, self.table@, self.trees@, index);
                    lemma_adds_cache(self.cache, table, trees, self.table@, self.trees@, index as int);
                    assert(!middle.valid(index));
                    assert forall|slot: usize| #[trigger]
                        self.protection_set@.contains_key(slot) implies self.valid(
                        self.protection_set@[slot],
                    ) by {
                        assert(middle.valid(self.protection_set@[slot]));
                    }
                    assert(self.structure());
                    assert(self.wf());
                }
                let ghost created = *self;
                let r = Ldd::new(&mut self.protection_set, index);
                proof {
                    assert(self.roots() =~= middle.roots().insert(r.slot(), r.index()));
                    assert forall|n: usize| #[trigger] self.valid(n) implies n == r.index() || old(self).survives(n) by {
                        if n != index {
                            assert(middle.valid(n));
                        }
                    }
                    assert forall|n: usize| #[trigger] old(self).survives(n) implies self.valid(n)
                        && self.tree(n) == old(self).tree(n) by {
                        assert(middle.valid(n));
                    }
                    if old(self).survives(index) {
                        assert(middle.valid(index));
                    }
                    assert forall|slot: usize| middle.roots().contains_key(slot) implies self.tree(
                        middle.roots()[slot],
                    ) == middle.tree(middle.roots()[slot]) by {
                        assert(middle.protection_set@.contains_key(slot));
                        assert(middle.valid(middle.roots()[slot]));
                    }
                    assert(self.handles() =~= middle.handles().insert(r.slot(), (r.index(), tree)));
                }
                r
            },
        }
    }

    /// The number that the cache remembers for `operator` on the node `a`.
    /// What it remembers for Len is the number of vectors of `a`, or the
    /// largest machine word where they are more.
    pub fn cached_unary(&self, operator: UnaryFunction, a: LddRef) -> (r: Option<usize>)
        requires
            self.wf(),
        ensures
            r == self::cache::lookup(self.cache().unary(operator), (a.index(), 0, 0)),
            r is Some ==> self.valid(a.index()) && r->0 == capped(count(self.tree(a.index()))),
    {
        proof {
            reveal(cache_sound);
        }
        self.cache.get1(operator, a.index())
    }

    /// Remembers the number of vectors of the node `a` as the result of
    /// `operator` on it.
    pub fn remember_unary(&mut self, operator: UnaryFunction, a: LddRef, result: usize)
        requires
            old(self).wf(),
            old(self).valid(a.index()),
            result == capped(count(old(self).tree(a.index()))),
        ensures
            final(self).wf(),
            final(self).handles() == old(self).handles(),
            final(self).same_nodes_as(old(self)),
            final(self).cache().unary(operator) == old(self).cache().unary(operator).insert(
                (a.index(), 0, 0),
                result,
            ),
    {
        self.cache.insert1(operator, a.index(), result);
        proof {
            reveal(cache_sound);
            assert forall|other: BinaryOperator, key: Key| #[trigger]
                self.cache.binary(other).contains_key(key) implies old(self).cache.binary(
                other,
            ).contains_key(key) by {}
            assert(self.handles() =~= old(self).handles());
        }
    }

    /// The node that the cache remembers for `operator` on the operands `a`
    /// and `b`, with a new handle to it. What it remembers is the result of
    /// the operator on the two sets.
    pub fn cached_binary(&mut self, operator: BinaryOperator, a: &Ldd, b: &Ldd) -> (r: Option<Ldd>)
        requires
            old(self).wf(),
            old(self).protects(a),
            old(self).protects(b),
        ensures
            final(self).same_nodes_as(old(self)),
            final(self).cache() == old(self).cache(),
            self::cache::lookup(old(self).cache().binary(operator), (a.index(), b.index(), 0))
                == match r {
                Some(ldd) => Some(ldd.index()),
                None => None,
            },
            match r {
                Some(ldd) => {
                    &&& final(self).yields(old(self), &ldd)
                    &&& final(self).set_of(&ldd) == binary_apply(
                        operator,
                        old(self).set_of(a),
                        old(self).set_of(b),
                    )
                },
                None => final(self).wf() && final(self).handles() == old(self).handles(),
            },
    {
        proof {
            reveal(cache_sound);
            assert(self.guards(a) && self.guards(b));
        }
        match self.cache.get2(operator, a.index(), b.index()) {
            Some(index) => {
                assert(self.cache.binary(operator).contains_key((a.index(), b.index(), 0)));
                assert(self.valid(index));
                let ldd = self.protect(LddRef::new(index));
                proof {
                    assert(self.tree(ldd.index()) == old(self).tree(ldd.index()));
                    assert(self.set_of(&ldd) == binary_apply(
                        operator,
                        old(self).set_of(a),
                        old(self).set_of(b),
                    ));
                }
                Some(ldd)
            },
            None => None,
        }
    }

    /// Remembers the node of `result` as the result of `operator` on the
    /// operands `a` and `b`.
    pub fn remember_binary(&mut self, operator: BinaryOperator, a: &Ldd, b: &Ldd, result: &Ldd)
        requires
            old(self).wf(),
            old(self).protects(a),
            old(self).protects(b),
            old(self).protects(result),
            old(self).set_of(result) == binary_apply(operator, old(self).set_of(a), old(self).set_of(b)),
        ensures
            final(self).wf(),
            final(self).handles() == old(self).handles(),
            final(self).same_nodes_as(old(self)),
            final(self).cache().binary(operator) == old(self).cache().binary(operator).insert(
                (a.index(), b.index(), 0),
                result.index(),
            ),
    {
        proof {
            assert(self.guards(a) && self.guards(b) && self.guards(result));
        }
        self.cache.insert2(operator, a.index(), b.index(), result.index());
        proof {
            reveal(cache_sound);
            assert forall|other: BinaryOperator, key: Key| #[trigger]
                self.cache.binary(other).contains_key(key) implies {
                &&& filled_at(self.table@, key.0)
                &&& filled_at(self.table@, key.1)
                &&& filled_at(self.table@, self.cache.binary(other)[key])
                &&& denote(self.trees@[self.cache.binary(other)[key] as int]) == binary_apply(
                    other,
                    denote(self.trees@[key.0 as int]),
                    denote(self.trees@[key.1 as int]),
                )
            } by {
                if other == operator && key == (a.index(), b.index(), 0usize) {
                } else {
                    assert(old(self).cache.binary(other).contains_key(key));
                }
            }
            assert(self.handles() =~= old(self).handles());
        }
    }

    /// The node that the cache remembers for `operator` on the operands `a`,
    /// `b` and `c`, with a new handle to it. What it remembers is the image
    /// of the set `a` under the relation `b` with the level tags of `c`.
    pub fn cached_ternary(&mut self, operator: TernaryOperator, a: &Ldd, b: &Ldd, c: &Ldd) -> (r:
        Option<Ldd>)
        requires
            old(self).wf(),
            old(self).protects(a),
            old(self).protects(b),
            old(self).protects(c),
        ensures
            final(self).same_nodes_as(old(self)),
            final(self).cache() == old(self).cache(),
            self::cache::lookup(
                old(self).cache().ternary(operator),
                (a.index(), b.index(), c.index()),
            ) == match r {
                Some(ldd) => Some(ldd.index()),
                None => None,
            },
            match r {
                Some(ldd) => {
                    &&& final(self).yields(old(self), &ldd)
                    &&& final(self).set_of(&ldd) == image(
                        old(self).set_of(a),
                        old(self).set_of(b),
                        first_vector(old(self).tree_of(c)),
                    )
                },
                None => final(self).wf() && final(self).handles() == old(self).handles(),
            },
    {
        proof {
            reveal(cache_sound);
            assert(self.guards(a) && self.guards(b) && self.guards(c));
        }
        match self.cache.get3(operator, a.index(), b.index(), c.index()) {
            Some(index) => {
                assert(self.cache.ternary(operator).contains_key((a.index(), b.index(), c.index())));
                assert(self.valid(index));
                let ldd = self.protect(LddRef::new(index));
                proof {
                    assert(self.tree(ldd.index()) == old(self).tree(ldd.index()));
                    assert(self.set_of(&ldd) == image(
                        old(self).set_of(a),
                        old(self).set_of(b),
                        first_vector(old(self).tree_of(c)),
                    ));
                }
                Some(ldd)
            },
            None => None,
        }
    }

    /// Remembers the node of `result` as the result of `operator` on the
    /// operands `a`, `b` and `c`.
    pub fn remember_ternary(
        &mut self,
        operator: TernaryOperator,
        a: &Ldd,
        b: &Ldd,
        c: &Ldd,
        result: &Ldd,
    )
        requires
            old(self).wf(),
            old(self).protects(a),
            old(self).protects(b),
            old(self).protects(c),
            old(self).protects(result),
            old(self).set_of(result) == image(
                old(self).set_of(a),
                old(self).set_of(b),
                first_vector(old(self).tree_of(c)),
            ),
        ensures
            final(self).wf(),
            final(self).handles() == old(self).handles(),
            final(self).same_nodes_as(old(self)),
            final(self).cache().ternary(operator) == old(self).cache().ternary(operator).insert(
                (a.index(), b.index(), c.index()),
                result.index(),
            ),
    {
        proof {
            assert(self.guards(a) && self.guards(b) && self.guards(c) && self.guards(result));
        }
        self.cache.insert3(operator, a.index(), b.index(), c.index(), result.index());
        proof {
            reveal(cache_sound);
            assert forall|other: BinaryOperator, key: Key| #[trigger]
                self.cache.binary(other).contains_key(key) implies old(self).cache.binary(
                other,
            ).contains_key(key) by {}
            assert(self.handles() =~= old(self).handles());
        }
    }

    /// Whether `ldd` names a node: a slot of the table that is filled.
    pub fn contains(&self, ldd: LddRef) -> (r: bool)
        ensures
            r == self.valid(ldd.index()),
    {
        ldd.index() < self.table.len() && self.table[ldd.index()].is_valid()
    }

    /// The number of slots of the node table, filled or free.
    pub fn size(&self) -> (r: usize)
        ensures
            r == self.slots(),
    {
        self.table.len()
    }

    /// The number of nodes that the last garbage collection freed, as far
    /// as the storage was asked to report on its work.
    pub closed spec fn freed(&self) -> usize {
        self.collected
    }

    /// The number of nodes that the last garbage collection freed, as far
    /// as the storage was asked to report on its work.
    pub fn collected(&self) -> (r: usize)
        ensures
            r == self.freed(),
    {
        self.collected
    }

    /// Whether the storage was asked to report on its work.
    pub fn performance_metrics(&self) -> (r: bool)
        ensures
            r == self.reports(),
    {
        self.enable_performance_metrics
    }

    /// The protection set: every handle owns a slot of it.
    pub closed spec fn guard(&self) -> ProtectionSet {
        self.protection_set
    }

    /// The protection set, to read its counts.
    pub fn protection_set(&self) -> (r: &ProtectionSet)
        ensures
            *r == self.guard(),
    {
        &self.protection_set
    }

    /// The operation cache, to read its sizes.
    pub fn operation_cache(&self) -> (r: &OperationCache)
        ensures
            *r == self.cache(),
    {
        &self.cache
    }

    /// Upgrades a view of a node to a protected handle.
    pub fn protect(&mut self, ldd: LddRef) -> (r: Ldd)
        requires
            old(self).wf(),
            old(self).valid(ldd.index()),
        ensures
            final(self).yields(old(self), &r),
            r.index() == ldd.index(),
            final(self).tree_of(&r) == old(self).tree(ldd.index()),
            final(self).same_nodes_as(old(self)),
            final(self).cache() == old(self).cache(),
    {
        let r = Ldd::new(&mut self.protection_set, ldd.index());
        proof {
            assert(self.roots() =~= old(self).roots().insert(r.slot(), r.index()));
            assert(self.handles() =~= old(self).handles().insert(
                r.slot(),
                (r.index(), old(self).tree(ldd.index())),
            ));
            self.lemma_canonical(ldd.index());
        }
        r
    }

    /// A second handle to the node of a handle.
    pub fn duplicate(&mut self, ldd: &Ldd) -> (r: Ldd)
        requires
            old(self).wf(),
            old(self).protects(ldd),
        ensures
            final(self).yields(old(self), &r),
            r.index() == ldd.index(),
            final(self).tree_of(&r) == old(self).tree_of(ldd),
            final(self).same_nodes_as(old(self)),
            final(self).cache() == old(self).cache(),
    {
        proof {
            assert(self.guards(ldd));
        }
        self.protect(ldd.borrow())
    }

    /// Gives up a handle: its node is no longer protected by it.
    pub fn release(&mut self, ldd: Ldd)
        requires
            old(self).wf(),
            old(self).protects(&ldd),
        ensures
            final(self).wf(),
            final(self).handles() == old(self).handles().remove(ldd.slot()),
            final(self).same_nodes_as(old(self)),
            final(self).cache() == old(self).cache(),
    {
        proof {
            assert(self.guards(&ldd));
        }
        self.protection_set.unprotect(ldd.root());
        proof {
            assert(self.roots() =~= old(self).roots().remove(ldd.slot()));
            assert(self.handles() =~= old(self).handles().remove(ldd.slot()));
        }
    }

    /// Whether the handle stands for the empty set.
    pub fn is_empty_set(&self, ldd: &Ldd) -> (r: bool)
        requires
            self.wf(),
            self.protects(ldd),
        ensures
            r == (self.tree_of(ldd) == Tree::False),
            r == (ldd.index() == EMPTY_SET),
    {
        proof {
            self.lemma_handle(ldd);
        }
        ldd.index() == EMPTY_SET
    }

    /// Whether the handle stands for the set of the empty vector.
    pub fn is_empty_vector(&self, ldd: &Ldd) -> (r: bool)
        requires
            self.wf(),
            self.protects(ldd),
        ensures
            r == (self.tree_of(ldd) == Tree::True),
            r == (ldd.index() == EMPTY_VECTOR),
    {
        proof {
            self.lemma_handle(ldd);
        }
        ldd.index() == EMPTY_VECTOR
    }

    /// The value of the node `ldd`, which is not one of the constants.
    pub fn value(&self, ldd: LddRef) -> (value: Value)
        requires
            self.wf(),
            self.valid(ldd.index()),
            ldd.index() != EMPTY_SET,
            ldd.index() != EMPTY_VECTOR,
        ensures
            value == self.tree(ldd.index()).value(),
    {
        proof {
            lemma_model_node(self.table@, self.trees@, ldd.index() as int);
        }
        self.table[ldd.index()].value
    }

    /// The node below the node `ldd`, which is not one of the constants.
    pub fn down(&mut self, ldd: LddRef) -> (down: Ldd)
        requires
            old(self).wf(),
            old(self).valid(ldd.index()),
            ldd.index() != EMPTY_SET,
            ldd.index() != EMPTY_VECTOR,
        ensures
            final(self).yields(old(self), &down),
            final(self).tree_of(&down) == old(self).tree(ldd.index()).down(),
            final(self).same_nodes_as(old(self)),
            final(self).cache() == old(self).cache(),
    {
        let DataRef(_, down, _) = self.get_ref(ldd);
        self.protect(down)
    }

    /// The node to the right of the node `ldd`, which is not one of the constants.
    pub fn right(&mut self, ldd: LddRef) -> (right: Ldd)
        requires
            old(self).wf(),
            old(self).valid(ldd.index()),
            ldd.index() != EMPTY_SET,
            ldd.index() != EMPTY_VECTOR,
        ensures
            final(self).yields(old(self), &right),
            final(self).tree_of(&right) == old(self).tree(ldd.index()).right(),
            final(self).same_nodes_as(old(self)),
            final(self).cache() == old(self).cache(),
    {
        let DataRef(_, _, right) = self.get_ref(ldd);
        self.protect(right)
    }

    /// The value of the node of `ldd`, which is not one of the constants,
    /// with new handles to the nodes below it and to its right.
    pub fn get(&mut self, ldd: &Ldd) -> (data: Data)
        requires
            old(self).wf(),
            old(self).protects(ldd),
            old(self).tree_of(ldd) is Node,
        ensures
            final(self).wf(),
            data.0 == old(self).tree_of(ldd).value(),
            !old(self).handles().contains_key(data.1.slot()),
            !old(self).handles().contains_key(data.2.slot()),
            data.1.slot() != data.2.slot(),
            final(self).handles() == old(self).handles().insert(
                data.1.slot(),
                (data.1.index(), old(self).tree_of(ldd).down()),
            ).insert(data.2.slot(), (data.2.index(), old(self).tree_of(ldd).right())),
            final(self).same_nodes_as(old(self)),
            final(self).cache() == old(self).cache(),
    {
        proof {
            self.lemma_handle(ldd);
        }
        let DataRef(value, down, right) = self.get_ref(ldd.borrow());
        let down = self.protect(down);
        let right = self.protect(right);
        Data(value, down, right)
    }

    /// The value of the node `ldd`, which is not one of the constants, with
    /// views of the nodes below it and to its right.
    pub fn get_ref(&self, ldd: LddRef) -> (data: DataRef)
        requires
            self.wf(),
            self.valid(ldd.index()),
            ldd.index() != EMPTY_SET,
            ldd.index() != EMPTY_VECTOR,
        ensures
            self.tree(ldd.index()) == node(
                data.0,
                self.tree(data.1.index()),
                self.tree(data.2.index()),
            ),
            self.valid(data.1.index()),
            self.valid(data.2.index()),
    {
        proof {
            lemma_model_node(self.table@, self.trees@, ldd.index() as int);
        }
        let node = &self.table[ldd.index()];
        DataRef(node.value, LddRef::new(node.down), LddRef::new(node.right))
    }
}

impl Default for Storage {
    fn default() -> (storage: Self)
        ensures
            storage.wf(),
            storage.handles() =~= Map::empty(),
    {
        Self::new()
    }
}

} // verus!

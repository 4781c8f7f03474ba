//! Walks over diagrams: along the right neighbours of a node, and over the
//! vectors of a set.

use crate::storage::{DataRef, Ldd, LddRef, Storage, Value, EMPTY_SET, EMPTY_VECTOR};
use crate::tree::{elements, height, node, prepend_all, Tree, Vector};
use vstd::prelude::*;

verus! {

/// Returns an iterator over the node of `ldd` and all its right neighbours.
pub fn iter_right<'a>(storage: &'a Storage, ldd: &Ldd) -> (iter: IterRight<'a>)
    requires
        storage.wf(),
        storage.protects(ldd),
        storage.tree_of(ldd) != Tree::True,
    ensures
        iter.wf(),
        iter.storage() == storage,
        iter.tree() == storage.tree_of(ldd),
{
    proof {
        storage.lemma_handle(ldd);
    }
    IterRight::new(storage, ldd.borrow())
}

/// Returns an iterator over all vectors of the set of `ldd`, in ascending
/// lexicographic order.
pub fn iter<'a>(storage: &'a Storage, ldd: &Ldd) -> (iter: Iter<'a>)
    requires
        storage.wf(),
        storage.protects(ldd),
    ensures
        iter.wf(),
        iter.storage() == storage,
        iter.remaining() == elements(storage.tree_of(ldd)),
{
    proof {
        storage.lemma_handle(ldd);
    }
    Iter::new(storage, ldd.borrow())
}

/// An iterator over a node and its right neighbours.
pub struct IterRight<'a> {
    storage: &'a Storage,
    current: LddRef,
}

impl<'a> IterRight<'a> {
    /// The storage that the iterator reads.
    pub closed spec fn storage(&self) -> &'a Storage {
        self.storage
    }

    /// The term that is left to walk: that of the node where the iterator
    /// stands.
    pub closed spec fn tree(&self) -> Tree {
        self.storage.tree(self.current.index())
    }

    /// The iterator stands at a node of a well-formed storage, which is not
    /// the empty vector.
    pub closed spec fn wf(&self) -> bool {
        &&& self.storage.wf()
        &&& self.storage.valid(self.current.index())
        &&& self.tree() != Tree::True
    }

    /// An iterator over the node `ldd` and its right neighbours.
    pub fn new(storage: &'a Storage, ldd: LddRef) -> (iter: Self)
        requires
            storage.wf(),
            storage.valid(ldd.index()),
            storage.tree(ldd.index()) != Tree::True,
        ensures
            iter.wf(),
            iter.storage() == storage,
            iter.tree() == storage.tree(ldd.index()),
    {
        IterRight { storage, current: ldd }
    }

    /// The value of the node where the iterator stands, with views of the
    /// nodes below it and to its right; the iterator moves on to the right.
    /// `None` when it stands at the empty set.
    pub fn next(&mut self) -> (r: Option<DataRef>)
        requires
            old(self).wf(),
        ensures
            final(self).wf(),
            final(self).storage() == old(self).storage(),
            match r {
                Some(data) => {
                    &&& old(self).tree() == node(
                        data.0,
                        old(self).storage().tree(data.1.index()),
                        old(self).storage().tree(data.2.index()),
                    )
                    &&& old(self).storage().valid(data.1.index())
                    &&& old(self).storage().valid(data.2.index())
                    &&& final(self).tree() == old(self).tree().right()
                },
                None => old(self).tree() == Tree::False && final(self).tree() == Tree::False,
            },
    {
        proof {
            self.storage.lemma_constants();
            self.storage.lemma_canonical(self.current.index());
        }
        if self.current.index() == EMPTY_SET {
            None
        } else {
            // Progress to the right neighbour.
            let data = self.storage.get_ref(self.current);
            self.current = data.2;
            Some(data)
        }
    }
}

/// Puts `prefix` in front of every vector of `xs`.
pub open spec fn with_prefix(prefix: Vector, xs: Seq<Vector>) -> Seq<Vector> {
    Seq::new(xs.len(), |i: int| prefix + xs[i])
}

/// The vectors that are left to the right of the nodes on the path, from
/// the node at depth `depth` upwards: each with the values of the path above
/// its node in front.
pub open spec fn aside(trees: Seq<Tree>, path: Vector, depth: int) -> Seq<Vector>
    decreases depth + 1,
{
    if depth < 0 {
        Seq::empty()
    } else {
        with_prefix(path.take(depth), elements(trees[depth].right())) + aside(
            trees,
            path,
            depth - 1,
        )
    }
}

/// The vectors that are left when the walk stands at the last node of the
/// path: those of that node, and those to the right of the nodes above it.
pub open spec fn ahead(trees: Seq<Tree>, path: Vector) -> Seq<Vector> {
    if trees.len() == 0 {
        Seq::empty()
    } else {
        with_prefix(path.take(trees.len() - 1), elements(trees.last())) + aside(
            trees,
            path,
            trees.len() - 2,
        )
    }
}

/// What is left to the right of a path depends only on the path down to
/// the depth asked for.
pub proof fn lemma_aside_prefix(
    trees: Seq<Tree>,
    path: Vector,
    other_trees: Seq<Tree>,
    other_path: Vector,
    depth: int,
)
    requires
        depth < trees.len(),
        depth < other_trees.len(),
        depth <= path.len(),
        depth <= other_path.len(),
        forall|i: int| 0 <= i <= depth ==> trees[i] == other_trees[i],
        forall|i: int| 0 <= i < depth ==> path[i] == other_path[i],
    ensures
        aside(trees, path, depth) == aside(other_trees, other_path, depth),
    decreases depth + 1,
{
    if depth >= 0 {
        lemma_aside_prefix(trees, path, other_trees, other_path, depth - 1);
        assert(path.take(depth) =~= other_path.take(depth));
    }
}

/// An empty prefix changes nothing.
pub proof fn lemma_no_prefix(xs: Seq<Vector>)
    ensures
        with_prefix(Seq::empty(), xs) == xs,
{
    assert forall|i: int| 0 <= i < xs.len() implies with_prefix(Seq::empty(), xs)[i] == xs[i] by {
        assert(Seq::<u32>::empty() + xs[i] =~= xs[i]);
    }
    assert(with_prefix(Seq::empty(), xs) =~= xs);
}

/// The vectors of a node with a prefix are the vectors below the node with
/// the prefix and the node's value, followed by the vectors to its right
/// with the prefix.
pub proof fn lemma_prefix_node(prefix: Vector, t: Tree)
    requires
        t is Node,
    ensures
        with_prefix(prefix, elements(t)) == with_prefix(
            prefix.push(t.value()),
            elements(t.down()),
        ) + with_prefix(prefix, elements(t.right())),
{
    let below = elements(t.down());
    let beside = elements(t.right());
    let left = with_prefix(prefix, elements(t));
    let right = with_prefix(prefix.push(t.value()), below) + with_prefix(prefix, beside);
    assert(elements(t) == prepend_all(t.value(), below) + beside);
    assert(left.len() == right.len());
    assert forall|i: int| 0 <= i < left.len() implies left[i] == right[i] by {
        if i < below.len() {
            assert(left[i] == prefix + (seq![t.value()] + below[i]));
            assert(prefix + (seq![t.value()] + below[i]) =~= prefix.push(t.value()) + below[i]);
        } else {
            assert(left[i] == prefix + beside[i - below.len()]);
        }
    }
    assert(left =~= right);
}

/// An iterator over the vectors of a set.
pub struct Iter<'a> {
    storage: &'a Storage,
    vector: Vec<Value>,  // The values on the path to the node where the walk stands.
    stack: Vec<LddRef>,  // The nodes on that path; none of them is 'false'.
}

impl<'a> Iter<'a> {
    /// The storage that the iterator reads.
    pub closed spec fn storage(&self) -> &'a Storage {
        self.storage
    }

    /// The unfoldings of the nodes on the path.
    pub closed spec fn path(&self) -> Seq<Tree> {
        Seq::new(self.stack@.len(), |i: int| self.storage.tree(self.stack@[i].index()))
    }

    /// The vectors that the iterator has yet to yield, in their order.
    pub closed spec fn remaining(&self) -> Seq<Vector> {
        ahead(self.path(), self.vector@)
    }

    /// The path leads through proper nodes of a well-formed storage, with one
    /// value for each node above the last. Only a path of one node may end in
    /// the empty vector.
    pub closed spec fn wf(&self) -> bool {
        &&& self.storage.wf()
        &&& self.stack@.len() > 0 ==> self.vector@.len() + 1 == self.stack@.len()
        &&& self.stack@.len() == 0 ==> self.vector@.len() == 0
        &&& forall|i: int|
            0 <= i < self.stack@.len() ==> {
                &&& self.storage.valid((#[trigger] self.stack@[i]).index())
                &&& self.storage.tree(self.stack@[i].index()) is Node || (i == 0
                    && self.stack@.len() == 1 && self.storage.tree(self.stack@[i].index())
                    == Tree::True)
            }
    }

    /// An iterator over the vectors of the node `ldd`.
    pub fn new(storage: &'a Storage, ldd: LddRef) -> (iter: Self)
        requires
            storage.wf(),
            storage.valid(ldd.index()),
        ensures
            iter.wf(),
            iter.storage() == storage,
            iter.remaining() == elements(storage.tree(ldd.index())),
    {
        proof {
            storage.lemma_constants();
        }
        if ldd.index() == EMPTY_SET {
            let iter = Iter { storage, vector: Vec::new(), stack: Vec::new() };
            assert(iter.path() =~= Seq::empty());
            iter
        } else {
            let mut stack: Vec<LddRef> = Vec::new();
            stack.push(ldd);
            let iter = Iter { storage, vector: Vec::new(), stack };
            proof {
                assert(iter.path() =~= seq![storage.tree(ldd.index())]);
                assert(iter.vector@.take(0) =~= Seq::empty());
                lemma_no_prefix(elements(storage.tree(ldd.index())));
                assert(iter.path().last() == storage.tree(ldd.index()));
                assert(aside(iter.path(), iter.vector@, -1) =~= Seq::empty());
            }
            iter
        }
    }

    /// Yields the next vector of the set, or `None` when all were yielded.
    pub fn next(&mut self) -> (r: Option<Vec<Value>>)
        requires
            old(self).wf(),
        ensures
            final(self).wf(),
            final(self).storage() == old(self).storage(),
            match r {
                Some(vector) => {
                    &&& old(self).remaining().len() > 0
                    &&& vector@ == old(self).remaining()[0]
                    &&& final(self).remaining() == old(self).remaining().drop_first()
                },
                None => old(self).remaining().len() == 0 && final(self).remaining().len() == 0,
            },
    {
        let ghost remaining = self.remaining();
        proof {
            self.storage.lemma_constants();
        }
        if self.stack.len() == 0 {
            assert(self.path() =~= Seq::empty());
            return None;
        }
        // Find the next vector by going down the chain.
        let vector: Vec<Value>;
        loop
            invariant_except_break
                self.stack@.len() > 0,
                self.vector@.len() + 1 == self.stack@.len(),
                forall|i: int|
                    0 <= i < self.stack@.len() ==> {
                        &&& self.storage.valid((#[trigger] self.stack@[i]).index())
                        &&& self.storage.tree(self.stack@[i].index()) is Node || (i == 0
                            && self.stack@.len() == 1 && self.storage.tree(self.stack@[i].index())
                            == Tree::True)
                    },
                self.remaining() == remaining,
            invariant
                self.storage == old(self).storage,
                self.storage.wf(),
            ensures
                self.storage == old(self).storage,
                self.storage.wf(),
                self.vector@.len() == self.stack@.len(),
                forall|i: int|
                    0 <= i < self.stack@.len() ==> {
                        &&& self.storage.valid((#[trigger] self.stack@[i]).index())
                        &&& self.storage.tree(self.stack@[i].index()) is Node
                    },
                remaining.len() > 0,
                vector@ == remaining[0],
                aside(self.path(), self.vector@, self.stack@.len() - 1) == remaining.drop_first(),
            decreases height(self.storage.tree(self.stack@[self.stack@.len() - 1].index())),
        {
            let ghost trees = self.path();
            let ghost path = self.vector@;
            let ghost depth = self.stack@.len() - 1;
            let current = self.stack[self.stack.len() - 1];
            proof {
                assert(trees.last() == self.storage.tree(current.index()));
                self.storage.lemma_canonical(current.index());
                self.storage.lemma_constants();
            }
            if current.index() == EMPTY_VECTOR {
                // The set of the empty vector: there is nothing to go down to.
                vector = self.vector.clone();
                self.stack.pop();
                proof {
                    assert(self.path() =~= Seq::empty());
                    assert(elements(Tree::True) =~= seq![Seq::<u32>::empty()]);
                    assert(path.take(0) =~= Seq::empty());
                    assert(with_prefix(path.take(0), elements(Tree::True))[0] =~= Seq::<u32>::empty());
                    assert(vector@ =~= remaining[0]);
                    assert(aside(self.path(), self.vector@, -1) =~= remaining.drop_first());
                }
                break ;
            }
            let DataRef(value, down, _) = self.storage.get_ref(current);
            self.vector.push(value);
            proof {
                let top = trees.last();
                lemma_prefix_node(path.take(depth), top);
                assert(path.take(depth) =~= path);
                assert(self.vector@.take(depth) =~= path);
                assert(self.vector@.take(depth + 1) =~= path.push(value));
                assert(self.vector@ =~= path.push(value));
                lemma_aside_prefix(trees, path, trees, self.vector@, depth - 1);
            }
            if down.index() == EMPTY_VECTOR {
                vector = self.vector.clone();
                proof {
                    assert(self.path() =~= trees);
                    assert(elements(Tree::True) =~= seq![Seq::<u32>::empty()]);
                    let below = with_prefix(path.push(value), elements(Tree::True));
                    assert(below.len() == 1);
                    assert(below[0] =~= path.push(value));
                    assert(remaining =~= below + aside(trees, self.vector@, depth));
                    assert(remaining[0] == below[0]);
                    assert(remaining.drop_first() =~= aside(trees, self.vector@, depth));
                }
                break ;
            } else {
                self.stack.push(down);
                proof {
                    let grown = self.path();
                    assert(grown.last() == self.storage.tree(down.index()));
                    assert(grown[depth] == trees[depth]);
                    lemma_aside_prefix(grown, self.vector@, trees, self.vector@, depth);
                    assert(self.vector@.take(grown.len() - 1) =~= path.push(value));
                    assert(self.storage.tree(down.index()) is Node);
                    assert(self.remaining() =~= remaining);
                }
            }
        }
        // Go up the chain to find the next right neighbour that is not 'false'.
        loop
            invariant_except_break
                self.vector@.len() == self.stack@.len(),
                forall|i: int|
                    0 <= i < self.stack@.len() ==> {
                        &&& self.storage.valid((#[trigger] self.stack@[i]).index())
                        &&& self.storage.tree(self.stack@[i].index()) is Node
                    },
                aside(self.path(), self.vector@, self.stack@.len() - 1) == remaining.drop_first(),
            invariant
                self.storage == old(self).storage,
                self.storage.wf(),
                remaining.len() > 0,
            ensures
                self.wf(),
                self.remaining() == remaining.drop_first(),
            decreases self.stack@.len(),
        {
            if self.stack.len() == 0 {
                proof {
                    assert(self.path() =~= Seq::empty());
                }
                break ;
            }
            let ghost trees = self.path();
            let ghost path = self.vector@;
            let ghost depth = self.stack@.len() - 1;
            let current = self.stack[self.stack.len() - 1];
            self.stack.pop();
            self.vector.pop();
            proof {
                assert(trees[depth] == self.storage.tree(current.index()));
                self.storage.lemma_canonical(current.index());
                self.storage.lemma_constants();
            }
            let DataRef(_, _, right) = self.storage.get_ref(current);
            proof {
                lemma_aside_prefix(trees, path, self.path(), self.vector@, depth - 1);
                assert(path.take(depth) =~= self.vector@);
            }
            if right.index() != EMPTY_SET {
                // This is the first right neighbour.
                self.stack.push(right);
                proof {
                    let grown = self.path();
                    assert(grown.last() == trees[depth].right());
                    assert(self.vector@.take(grown.len() - 1) =~= self.vector@);
                    lemma_aside_prefix(grown, self.vector@, trees, path, depth - 1);
                    assert(self.remaining() =~= remaining.drop_first());
                }
                break ;
            } else {
                proof {
                    assert(elements(Tree::False) =~= Seq::<Vector>::empty());
                    assert(with_prefix(path.take(depth), elements(trees[depth].right()))
                        =~= Seq::<Vector>::empty());
                    assert(aside(trees, path, depth) =~= aside(trees, path, depth - 1));
                }
            }
        }
        Some(vector)
    }
}

} // verus!

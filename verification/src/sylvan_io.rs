//! Reads a model in the binary format of Sylvan's `ldd2bdd`: an initial set
//! of states and a list of transition relations, each a dump of diagram
//! nodes.
//!
//! The format is little-endian. It starts with the length of the state
//! vectors and an unused number, 4 bytes each. A diagram follows as a block:
//! the number of its nodes in 8 bytes, a record of 16 bytes for each node,
//! and the number of its root in 8 bytes. After the block of the initial set
//! come the number of transitions in 4 bytes, then for each transition the
//! number of levels that it reads and the number of levels that it writes,
//! 4 bytes each, followed by the levels that it reads and the levels that it
//! writes, 4 bytes each; then a block for the relation of each transition.
//!
//! The nodes of all blocks are numbered in their order from 2 on; 0 and 1
//! stand for 'false' and 'true'. A record can only name nodes before it.

use crate::operations::compute_meta;
use crate::semantics::meta_of;
use crate::storage::{Ldd, Storage, Value};
use crate::tree::{canonical, chain, height, node, Tree};
use vstd::prelude::*;

verus! {

/// Why a model could not be read.
#[derive(Clone, Copy, Debug, PartialEq, Eq, Structural)]
pub enum LoadError {
    /// The input ends before the model does.
    UnexpectedEof,
    /// The input names a node that it has not defined.
    UndefinedNode(u64),
    /// The node with this number would break the shape of a diagram: there
    /// is nothing below it, 'true' stands to its right, or its right
    /// neighbour has no larger value or stands at another level.
    InvalidNode(u64),
}

/// The 4 bytes at `position` as a little-endian number, if the input has
/// them.
pub open spec fn u32_at(bytes: Seq<u8>, position: int) -> Option<u32> {
    if 0 <= position && position + 4 <= bytes.len() {
        Some(
            (bytes[position] + 256 * bytes[position + 1] + 65536 * bytes[position + 2] + 16777216
                * bytes[position + 3]) as u32,
        )
    } else {
        None
    }
}

/// The 8 bytes at `position` as a little-endian number, if the input has
/// them.
pub open spec fn u64_at(bytes: Seq<u8>, position: int) -> Option<u64> {
    if 0 <= position && position + 8 <= bytes.len() {
        Some(
            (u32_at(bytes, position)->0 + 4294967296 * u32_at(bytes, position + 4)->0) as u64,
        )
    } else {
        None
    }
}

/// The value of a node record, which is made of the words `a` and `b`: its
/// low 16 bits are the top 16 bits of `a`, its high 16 bits the low 16 bits
/// of `b`.
pub open spec fn record_value(a: u64, b: u64) -> u32 {
    ((a >> 48) | ((b & 0xffff) << 16)) as u32
}

/// The number of the node to the right in a node record: the bits 1 to 47 of
/// its first word.
pub open spec fn record_right(a: u64) -> u64 {
    (a & 0x0000ffffffffffff) >> 1
}

/// The number of the node below in a node record: the bits 17 to 63 of its
/// second word.
pub open spec fn record_down(b: u64) -> u64 {
    b >> 17
}

/// The term of the node with the number `number`, where `trees` are the
/// terms of the nodes defined so far.
pub open spec fn lookup(trees: Seq<Tree>, number: u64) -> Option<Tree> {
    if number == 0 {
        Some(Tree::False)
    } else if number == 1 {
        Some(Tree::True)
    } else if number < trees.len() + 2 {
        Some(trees[number - 2])
    } else {
        None
    }
}

/// Reads `remaining` node records from `position` on. Returns the terms of
/// all nodes defined then, and the position after the records.
pub open spec fn parse_nodes(bytes: Seq<u8>, position: int, remaining: nat, trees: Seq<Tree>) -> Result<
    (Seq<Tree>, int),
    LoadError,
>
    decreases remaining,
{
    if remaining == 0 {
        Ok((trees, position))
    } else if u64_at(bytes, position) is None || u64_at(bytes, position + 8) is None {
        Err(LoadError::UnexpectedEof)
    } else {
        let a = u64_at(bytes, position)->0;
        let b = u64_at(bytes, position + 8)->0;
        if lookup(trees, record_down(b)) is None {
            Err(LoadError::UndefinedNode(record_down(b)))
        } else if lookup(trees, record_right(a)) is None {
            Err(LoadError::UndefinedNode(record_right(a)))
        } else {
            let tree = node(
                record_value(a, b),
                lookup(trees, record_down(b))->0,
                lookup(trees, record_right(a))->0,
            );
            if !canonical(tree) {
                Err(LoadError::InvalidNode((trees.len() + 2) as u64))
            } else {
                parse_nodes(bytes, position + 16, (remaining - 1) as nat, trees.push(tree))
            }
        }
    }
}

/// Reads a block from `position` on. Returns the term of its root, the terms
/// of all nodes defined then, and the position after the block.
pub open spec fn parse_ldd(bytes: Seq<u8>, position: int, trees: Seq<Tree>) -> Result<
    (Tree, Seq<Tree>, int),
    LoadError,
> {
    if u64_at(bytes, position) is None {
        Err(LoadError::UnexpectedEof)
    } else {
        match parse_nodes(bytes, position + 8, u64_at(bytes, position)->0 as nat, trees) {
            Err(e) => Err(e),
            Ok((defined, after)) => {
                if u64_at(bytes, after) is None {
                    Err(LoadError::UnexpectedEof)
                } else {
                    let root = u64_at(bytes, after)->0;
                    if 2 <= root < defined.len() + 2 {
                        Ok((defined[root - 2], defined, after + 8))
                    } else {
                        Err(LoadError::UndefinedNode(root))
                    }
                }
            },
        }
    }
}

/// Reads `remaining` numbers of 4 bytes from `position` on, after those of
/// `values`.
pub open spec fn parse_values(bytes: Seq<u8>, position: int, remaining: nat, values: Seq<u32>) -> Result<
    (Seq<u32>, int),
    LoadError,
>
    decreases remaining,
{
    if remaining == 0 {
        Ok((values, position))
    } else if u32_at(bytes, position) is None {
        Err(LoadError::UnexpectedEof)
    } else {
        parse_values(
            bytes,
            position + 4,
            (remaining - 1) as nat,
            values.push(u32_at(bytes, position)->0),
        )
    }
}

/// Reads the levels that a transition reads and writes from `position` on.
pub open spec fn parse_projection(bytes: Seq<u8>, position: int) -> Result<
    (Seq<u32>, Seq<u32>, int),
    LoadError,
> {
    if u32_at(bytes, position) is None || u32_at(bytes, position + 4) is None {
        Err(LoadError::UnexpectedEof)
    } else {
        match parse_values(bytes, position + 8, u32_at(bytes, position)->0 as nat, Seq::empty()) {
            Err(e) => Err(e),
            Ok((read, middle)) => match parse_values(
                bytes,
                middle,
                u32_at(bytes, position + 4)->0 as nat,
                Seq::empty(),
            ) {
                Err(e) => Err(e),
                Ok((write, after)) => Ok((read, write, after)),
            },
        }
    }
}

/// Reads the levels of `remaining` transitions from `position` on, after
/// those of `levels`.
pub open spec fn parse_projections(
    bytes: Seq<u8>,
    position: int,
    remaining: nat,
    levels: Seq<(Seq<u32>, Seq<u32>)>,
) -> Result<(Seq<(Seq<u32>, Seq<u32>)>, int), LoadError>
    decreases remaining,
{
    if remaining == 0 {
        Ok((levels, position))
    } else {
        match parse_projection(bytes, position) {
            Err(e) => Err(e),
            Ok((read, write, after)) => parse_projections(
                bytes,
                after,
                (remaining - 1) as nat,
                levels.push((read, write)),
            ),
        }
    }
}

/// Reads the blocks of `remaining` relations from `position` on, after
/// those of `relations`.
pub open spec fn parse_relations(
    bytes: Seq<u8>,
    position: int,
    remaining: nat,
    trees: Seq<Tree>,
    relations: Seq<Tree>,
) -> Result<Seq<Tree>, LoadError>
    decreases remaining,
{
    if remaining == 0 {
        Ok(relations)
    } else {
        match parse_ldd(bytes, position, trees) {
            Err(e) => Err(e),
            Ok((relation, defined, after)) => parse_relations(
                bytes,
                after,
                (remaining - 1) as nat,
                defined,
                relations.push(relation),
            ),
        }
    }
}

/// What a model holds: the term of the initial set, and for each
/// transition the levels that it reads and writes and the term of its
/// relation.
pub struct Model {
    pub initial: Tree,
    pub levels: Seq<(Seq<u32>, Seq<u32>)>,
    pub relations: Seq<Tree>,
}

/// Reads a model.
pub open spec fn parse_model(bytes: Seq<u8>) -> Result<Model, LoadError> {
    if u32_at(bytes, 0) is None || u32_at(bytes, 4) is None {
        Err(LoadError::UnexpectedEof)
    } else {
        match parse_ldd(bytes, 8, Seq::empty()) {
            Err(e) => Err(e),
            Ok((initial, defined, after)) => {
                if u32_at(bytes, after) is None {
                    Err(LoadError::UnexpectedEof)
                } else {
                    let count = u32_at(bytes, after)->0 as nat;
                    match parse_projections(bytes, after + 4, count, Seq::empty()) {
                        Err(e) => Err(e),
                        Ok((levels, middle)) => match parse_relations(
                            bytes,
                            middle,
                            count,
                            defined,
                            Seq::empty(),
                        ) {
                            Err(e) => Err(e),
                            Ok(relations) => Ok(Model { initial, levels, relations }),
                        },
                    }
                }
            },
        }
    }
}

/// A position in an input.
pub struct Input<'a> {
    bytes: &'a [u8],
    position: usize,
}

impl<'a> Input<'a> {
    /// The bytes of the input.
    pub closed spec fn bytes(&self) -> Seq<u8> {
        self.bytes@
    }

    /// The position of the next byte to read.
    pub closed spec fn position(&self) -> int {
        self.position as int
    }

    /// The position lies in the input, or at its end.
    pub closed spec fn wf(&self) -> bool {
        self.position <= self.bytes@.len()
    }

    /// The start of an input.
    pub fn new(bytes: &'a [u8]) -> (input: Self)
        ensures
            input.wf(),
            input.bytes() == bytes@,
            input.position() == 0,
    {
        Input { bytes, position: 0 }
    }

    /// Reads a number of 4 bytes.
    pub fn read_u32(&mut self) -> (r: Result<u32, LoadError>)
        requires
            old(self).wf(),
        ensures
            final(self).wf(),
            final(self).bytes() == old(self).bytes(),
            match r {
                Ok(value) => u32_at(old(self).bytes(), old(self).position()) == Some(value)
                    && final(self).position() == old(self).position() + 4,
                Err(e) => e == LoadError::UnexpectedEof && u32_at(
                    old(self).bytes(),
                    old(self).position(),
                ) is None && final(self).position() == old(self).position(),
            },
    {
        if self.bytes.len() - self.position < 4 {
            return Err(LoadError::UnexpectedEof);
        }
        let b0 = self.bytes[self.position] as u32;
        let b1 = self.bytes[self.position + 1] as u32;
        let b2 = self.bytes[self.position + 2] as u32;
        let b3 = self.bytes[self.position + 3] as u32;
        self.position += 4;
        Ok(b0 + 256 * b1 + 65536 * b2 + 16777216 * b3)
    }

    /// Reads a number of 8 bytes.
    pub fn read_u64(&mut self) -> (r: Result<u64, LoadError>)
        requires
            old(self).wf(),
        ensures
            final(self).wf(),
            final(self).bytes() == old(self).bytes(),
            match r {
                Ok(value) => u64_at(old(self).bytes(), old(self).position()) == Some(value)
                    && final(self).position() == old(self).position() + 8,
                Err(e) => e == LoadError::UnexpectedEof && u64_at(
                    old(self).bytes(),
                    old(self).position(),
                ) is None && final(self).position() == old(self).position(),
            },
    {
        if self.bytes.len() - self.position < 8 {
            return Err(LoadError::UnexpectedEof);
        }
        let low = match self.read_u32() {
            Ok(low) => low,
            Err(e) => {
                return Err(e);
            },
        };
        let high = match self.read_u32() {
            Ok(high) => high,
            Err(e) => {
                return Err(e);
            },
        };
        Ok(low as u64 + 4294967296 * (high as u64))
    }
}

/// A transition of a model: the levels that it reads and writes, its
/// relation, and the diagram that tells the relational product what the
/// relation reads and writes.
pub struct Transition {
    pub read_proj: Vec<Value>,
    pub write_proj: Vec<Value>,
    pub relation: Ldd,
    pub meta: Ldd,
}

/// Keeps the nodes that were read, under their numbers.
pub struct SylvanReader {
    indexed_set: Vec<Ldd>,  // The node with the number i stands at i - 2.
    heights: Vec<usize>,  // The height of each of these nodes.
    last_index: u64,  // The number of the next node.
}

impl SylvanReader {
    /// The handles to the nodes read so far.
    pub closed spec fn nodes(&self) -> Seq<Ldd> {
        self.indexed_set@
    }

    /// The terms of the nodes read so far, in `storage`.
    pub open spec fn trees(&self, storage: &Storage) -> Seq<Tree> {
        Seq::new(self.nodes().len(), |i: int| storage.tree_of(&self.nodes()[i]))
    }

    /// The reader holds handles of `storage`, in slots of their own, and
    /// knows the height of each node.
    #[verifier::opaque]
    pub closed spec fn wf(&self, storage: &Storage) -> bool {
        &&& self.last_index == self.indexed_set@.len() + 2
        &&& self.heights@.len() == self.indexed_set@.len()
        &&& forall|i: int|
            0 <= i < self.indexed_set@.len() ==> {
                &&& storage.protects(#[trigger] &self.indexed_set@[i])
                &&& storage.tree_of(&self.indexed_set@[i]) is Node
                &&& self.heights@[i] == height(storage.tree_of(&self.indexed_set@[i]))
                &&& self.heights@[i] <= i + 1
            }
        &&& forall|i: int, j: int|
            0 <= i < j < self.indexed_set@.len() ==> (#[trigger] self.indexed_set@[i]).slot() != (
            #[trigger] self.indexed_set@[j]).slot()
    }

    /// A reader that has read nothing.
    pub fn new() -> (reader: Self)
        ensures
            reader.nodes().len() == 0,
            forall|storage: &Storage| reader.wf(storage),
    {
        let reader = Self { indexed_set: Vec::new(), heights: Vec::new(), last_index: 2 };
        proof {
            reveal(SylvanReader::wf);
        }
        reader
    }

    /// A slot that holds no handle of the storage is not a slot of the
    /// reader.
    pub proof fn lemma_avoids(&self, storage: &Storage, slot: usize)
        requires
            self.wf(storage),
            !storage.handles().contains_key(slot),
        ensures
            forall|i: int| 0 <= i < self.nodes().len() ==> (#[trigger] self.nodes()[i]).slot() != slot,
    {
        reveal(SylvanReader::wf);
        assert forall|i: int| 0 <= i < self.nodes().len() implies (#[trigger] self.nodes()[i]).slot()
            != slot by {
            assert(storage.protects(&self.indexed_set@[i]));
        }
    }

    /// The handles of the reader are handles of a storage that preserves
    /// the handles of the storage in which the reader is well formed.
    pub proof fn lemma_preserved(&self, before: &Storage, after: &Storage)
        requires
            self.wf(before),
            after.preserves(before),
        ensures
            self.wf(after),
            self.trees(after) == self.trees(before),
    {
        reveal(SylvanReader::wf);
        assert forall|i: int| 0 <= i < self.indexed_set@.len() implies {
            &&& after.protects(#[trigger] &self.indexed_set@[i])
            &&& after.tree_of(&self.indexed_set@[i]) == before.tree_of(&self.indexed_set@[i])
        } by {
            assert(before.protects(&self.indexed_set@[i]));
        }
        assert(self.trees(after) =~= self.trees(before));
    }

    /// The reader's handles are handles of the storage.
    pub proof fn lemma_held(&self, storage: &Storage)
        requires
            self.wf(storage),
        ensures
            forall|i: int| 0 <= i < self.nodes().len() ==> storage.protects(&#[trigger] self.nodes()[i]),
    {
        reveal(SylvanReader::wf);
    }

    /// The reader stays what it is where its handles are kept, whatever
    /// becomes of the other handles.
    pub proof fn lemma_kept(&self, before: &Storage, after: &Storage)
        requires
            self.wf(before),
            forall|i: int|
                0 <= i < self.nodes().len() ==> after.handles().contains_key(
                    (#[trigger] self.nodes()[i]).slot(),
                ) && after.handles()[self.nodes()[i].slot()] == before.handles()[self.nodes()[i].slot()],
        ensures
            self.wf(after),
            self.trees(after) == self.trees(before),
    {
        reveal(SylvanReader::wf);
        assert forall|i: int| 0 <= i < self.indexed_set@.len() implies {
            &&& after.protects(#[trigger] &self.indexed_set@[i])
            &&& after.tree_of(&self.indexed_set@[i]) == before.tree_of(&self.indexed_set@[i])
        } by {
            assert(before.protects(&self.indexed_set@[i]));
            assert(self.nodes()[i] == self.indexed_set@[i]);
        }
        assert(self.trees(after) =~= self.trees(before));
    }

    /// The number of the next node is the number of nodes read and two.
    pub proof fn lemma_count(&self, storage: &Storage)
        requires
            self.wf(storage),
        ensures
            self.nodes().len() + 2 <= u64::MAX,
    {
        reveal(SylvanReader::wf);
    }

    /// The height of the node with the number `index`, which is defined.
    fn height_from_index(&self, index: u64, Ghost(storage): Ghost<&Storage>) -> (h: usize)
        requires
            self.wf(storage),
            lookup(self.trees(storage), index) is Some,
        ensures
            h == height(lookup(self.trees(storage), index)->0),
            h <= self.nodes().len(),
    {
        proof {
            reveal(SylvanReader::wf);
        }
        if index < 2 {
            assert(height(Tree::False) == 0 && height(Tree::True) == 0);
            0
        } else {
            let count = self.indexed_set.len();
            assert(index - 2 < count);
            let i = (index - 2) as usize;
            assert(storage.protects(&self.indexed_set@[i as int]));
            assert(i as int == index - 2);
            assert(self.trees(storage).len() == self.indexed_set@.len());
            assert(self.trees(storage)[i as int] == storage.tree_of(&self.indexed_set@[i as int]));
            assert(lookup(self.trees(storage), index) == Some(self.trees(storage)[i as int]));
            assert(self.heights@[i as int] == height(storage.tree_of(&self.indexed_set@[i as int])));
            self.heights[i]
        }
    }

    /// A new handle to the node with the number `index`.
    pub fn node_from_index(&self, storage: &mut Storage, index: u64) -> (r: Result<Ldd, LoadError>)
        requires
            old(storage).wf(),
            self.wf(old(storage)),
        ensures
            self.wf(final(storage)),
            self.trees(final(storage)) == self.trees(old(storage)),
            final(storage).preserves(old(storage)),
            match r {
                Ok(ldd) => {
                    &&& final(storage).yields(old(storage), &ldd)
                    &&& lookup(self.trees(old(storage)), index) == Some(final(storage).tree_of(&ldd))
                },
                Err(e) => {
                    &&& final(storage).wf()
                    &&& final(storage).handles() == old(storage).handles()
                    &&& lookup(self.trees(old(storage)), index) is None
                    &&& e == LoadError::UndefinedNode(index)
                },
            },
    {
        proof {
            storage.lemma_constants();
            reveal(SylvanReader::wf);
        }
        let r = if index == 0 {
            Ok(storage.protect(storage.empty_set().borrow()))
        } else if index == 1 {
            Ok(storage.protect(storage.empty_vector().borrow()))
        } else if index - 2 < self.indexed_set.len() as u64 {
            let i = (index - 2) as usize;
            assert(storage.protects(&self.indexed_set@[i as int]));
            Ok(storage.duplicate(&self.indexed_set[i]))
        } else {
            Err(LoadError::UndefinedNode(index))
        };
        proof {
            self.lemma_preserved(old(storage), storage);
        }
        r
    }
}

impl SylvanReader {
    /// Reads one node record and defines the node.
    fn read_node(&mut self, storage: &mut Storage, input: &mut Input) -> (r: Result<(), LoadError>)
        requires
            old(storage).wf(),
            old(self).wf(old(storage)),
            old(input).wf(),
            old(self).nodes().len() * 16 <= old(input).position(),
        ensures
            final(storage).wf(),
            final(storage).preserves(old(storage)),
            final(input).wf(),
            final(input).bytes() == old(input).bytes(),
            match r {
                Ok(()) => {
                    &&& final(self).nodes().len() * 16 <= final(input).position()
                    &&& parse_nodes(
                        old(input).bytes(),
                        old(input).position(),
                        1,
                        old(self).trees(old(storage)),
                    ) == Ok::<(Seq<Tree>, int), LoadError>(
                        (final(self).trees(final(storage)), final(input).position()),
                    )
                    &&& final(self).wf(final(storage))
                    &&& final(self).nodes().len() == old(self).nodes().len() + 1
                    &&& final(self).nodes().drop_last() == old(self).nodes()
                    &&& !old(storage).handles().contains_key(final(self).nodes().last().slot())
                    &&& final(storage).handles() == old(storage).handles().insert(
                        final(self).nodes().last().slot(),
                        (
                            final(self).nodes().last().index(),
                            final(storage).tree_of(&final(self).nodes().last()),
                        ),
                    )
                },
                Err(e) => {
                    &&& parse_nodes(
                        old(input).bytes(),
                        old(input).position(),
                        1,
                        old(self).trees(old(storage)),
                    ) == Err::<(Seq<Tree>, int), LoadError>(e)
                    &&& final(self).wf(final(storage))
                    &&& final(self).nodes() == old(self).nodes()
                    &&& final(storage).handles() == old(storage).handles()
                },
            },
    {
        let ghost trees = self.trees(storage);
        let ghost bytes = input.bytes();
        let ghost start = input.position();
        // A node has the following structure: u64 | u64
        // RmRR RRRR RRRR VVVV | VVVV DcDD DDDD DDDD (little endian)
        // Every character is 4 bits, V = value, D = down, R = right, m = marked, c = copy.
        let a = match input.read_u64() {
            Ok(a) => a,
            Err(e) => {
                return Err(e);
            },
        };
        let b = match input.read_u64() {
            Ok(b) => b,
            Err(e) => {
                return Err(e);
            },
        };
        let right_index = (a & 0x0000ffffffffffff) >> 1;
        let down_index = b >> 17;
        let wide = (a >> 48) | ((b & 0xffff) << 16);
        assert(wide <= 0xffffffff) by (bit_vector)
            requires
                wide == (a >> 48) | ((b & 0xffff) << 16),
        ;
        let value = wide as u32;
        let ghost nodes = self.indexed_set@;
        let down = match self.node_from_index(storage, down_index) {
            Ok(down) => down,
            Err(e) => {
                return Err(e);
            },
        };
        let right = match self.node_from_index(storage, right_index) {
            Ok(right) => right,
            Err(e) => {
                storage.release(down);
                proof {
                    assert(storage.handles() =~= old(storage).handles());
                    self.lemma_preserved(old(storage), storage);
                }
                return Err(e);
            },
        };
        let ghost td = storage.tree_of(&down);
        let ghost tr = storage.tree_of(&right);
        proof {
            reveal(SylvanReader::wf);
            storage.lemma_handle(&down);
            storage.lemma_handle(&right);
            storage.lemma_constants();
            assert(input.position() == start + 16);
            assert(self.indexed_set@.len() * 16 + 16 <= usize::MAX);
        }
        let down_height = self.height_from_index(down_index, Ghost(&*storage));
        let right_height = self.height_from_index(right_index, Ghost(&*storage));
        // The node must have the shape of a node of a diagram.
        let fits = !storage.is_empty_set(&down) && !storage.is_empty_vector(&right) && (
        storage.is_empty_set(&right) || (value < storage.value(right.borrow()) && down_height + 1
            == right_height));
        if !fits {
            storage.release(down);
            storage.release(right);
            proof {
                assert(storage.handles() =~= old(storage).handles());
                self.lemma_preserved(old(storage), storage);
            }
            return Err(LoadError::InvalidNode(self.last_index));
        }
        let ldd = storage.insert(value, &down, &right);
        storage.release(down);
        storage.release(right);
        self.indexed_set.push(ldd);
        self.heights.push(down_height + 1);
        self.last_index += 1;
        proof {
            reveal(SylvanReader::wf);
            let grown = self.indexed_set@;
            let last = grown[grown.len() - 1];
            assert(grown.drop_last() =~= nodes);
            assert(storage.handles() =~= old(storage).handles().insert(
                last.slot(),
                (last.index(), node(value, td, tr)),
            ));
            assert forall|i: int| 0 <= i < grown.len() implies {
                &&& storage.protects(#[trigger] &grown[i])
                &&& storage.tree_of(&grown[i]) is Node
                &&& self.heights@[i] == height(storage.tree_of(&grown[i]))
                &&& self.heights@[i] <= i + 1
            } by {
                if i < nodes.len() {
                    assert(grown[i] == nodes[i]);
                    assert(old(storage).protects(&nodes[i]));
                }
            }
            assert forall|i: int, j: int| 0 <= i < j < grown.len() implies (#[trigger] grown[i]).slot()
                != (#[trigger] grown[j]).slot() by {
                assert(grown[i] == nodes[i]);
                assert(old(storage).protects(&nodes[i]));
                if j < nodes.len() {
                    assert(grown[j] == nodes[j]);
                }
            }
            assert(parse_nodes(bytes, start + 16, 0, trees.push(node(value, td, tr))) == Ok::<
                (Seq<Tree>, int),
                LoadError,
            >((trees.push(node(value, td, tr)), start + 16)));
            assert(canonical(node(value, td, tr)));
            assert(self.trees(storage) =~= trees.push(node(value, td, tr))) by {
                assert forall|i: int| 0 <= i < nodes.len() implies storage.tree_of(&grown[i])
                    == old(storage).tree_of(&nodes[i]) by {
                    assert(grown[i] == nodes[i]);
                    assert(old(storage).protects(&nodes[i]));
                }
            }
        }
        Ok(())
    }
}

/// Reading several node records is reading one, and then the others.
pub proof fn lemma_nodes_step(bytes: Seq<u8>, position: int, remaining: nat, trees: Seq<Tree>)
    requires
        remaining > 0,
    ensures
        match parse_nodes(bytes, position, 1, trees) {
            Ok((defined, after)) => parse_nodes(bytes, position, remaining, trees) == parse_nodes(
                bytes,
                after,
                (remaining - 1) as nat,
                defined,
            ),
            Err(e) => parse_nodes(bytes, position, remaining, trees) == Err::<
                (Seq<Tree>, int),
                LoadError,
            >(e),
        },
{
    if u64_at(bytes, position) is Some && u64_at(bytes, position + 8) is Some {
        let a = u64_at(bytes, position)->0;
        let b = u64_at(bytes, position + 8)->0;
        if lookup(trees, record_down(b)) is Some && lookup(trees, record_right(a)) is Some {
            let tree = node(
                record_value(a, b),
                lookup(trees, record_down(b))->0,
                lookup(trees, record_right(a))->0,
            );
            assert(parse_nodes(bytes, position + 16, 0, trees.push(tree)) == Ok::<
                (Seq<Tree>, int),
                LoadError,
            >((trees.push(tree), position + 16)));
        }
    }
}

impl SylvanReader {
    /// Reads a block: defines its nodes, and returns a new handle to its
    /// root.
    pub fn read_ldd(&mut self, storage: &mut Storage, input: &mut Input) -> (r: Result<Ldd, LoadError>)
        requires
            old(storage).wf(),
            old(self).wf(old(storage)),
            old(input).wf(),
            old(self).nodes().len() * 16 <= old(input).position(),
        ensures
            final(storage).wf(),
            final(storage).preserves(old(storage)),
            final(input).wf(),
            final(input).bytes() == old(input).bytes(),
            match r {
                Ok(ldd) => {
                    &&& parse_ldd(
                        old(input).bytes(),
                        old(input).position(),
                        old(self).trees(old(storage)),
                    ) == Ok::<(Tree, Seq<Tree>, int), LoadError>(
                        (
                            final(storage).tree_of(&ldd),
                            final(self).trees(final(storage)),
                            final(input).position(),
                        ),
                    )
                    &&& final(self).nodes().len() * 16 <= final(input).position()
                    &&& final(storage).protects(&ldd)
                    &&& !old(storage).handles().contains_key(ldd.slot())
                    &&& avoids(final(self).nodes(), ldd.slot())
                    &&& accounts(
                        old(storage),
                        final(storage),
                        final(self).nodes(),
                        Set::<usize>::empty().insert(ldd.slot()),
                    )
                },
                Err(e) => {
                    &&& parse_ldd(
                        old(input).bytes(),
                        old(input).position(),
                        old(self).trees(old(storage)),
                    ) == Err::<(Tree, Seq<Tree>, int), LoadError>(e)
                    &&& accounts(old(storage), final(storage), final(self).nodes(), Set::empty())
                },
            },
            final(self).wf(final(storage)),
            old(self).nodes().len() <= final(self).nodes().len(),
            final(self).nodes().take(old(self).nodes().len() as int) == old(self).nodes(),
            forall|i: int|
                old(self).nodes().len() <= i < final(self).nodes().len() ==> !old(storage).handles().contains_key((#[trigger] final(self).nodes()[i]).slot()),
    {
        let ghost bytes = input.bytes();
        let ghost start = input.position();
        let ghost trees = self.trees(storage);
        let ghost nodes = self.indexed_set@;
        let count = match input.read_u64() {
            Ok(count) => count,
            Err(e) => {
                return Err(e);
            },
        };
        let mut i: u64 = 0;
        proof {
            assert(self.indexed_set@.take(nodes.len() as int) =~= nodes);
        }
        while i < count
            invariant
                i <= count,
                storage.wf(),
                storage.preserves(old(storage)),
                self.wf(storage),
                input.wf(),
                input.bytes() == bytes,
                self.indexed_set@.len() * 16 <= input.position(),
                nodes.len() <= self.indexed_set@.len(),
                self.indexed_set@.take(nodes.len() as int) == nodes,
                nodes == old(self).nodes(),
                bytes == old(input).bytes(),
                start == old(input).position(),
                trees == old(self).trees(old(storage)),
                u64_at(bytes, start) == Some(count),
                forall|k: int|
                    nodes.len() <= k < self.indexed_set@.len() ==> !old(storage).handles().contains_key(
                        (#[trigger] self.indexed_set@[k]).slot(),
                    ),
                accounts(old(storage), storage, self.indexed_set@, Set::empty()),
                parse_nodes(bytes, start + 8, count as nat, trees) == parse_nodes(
                    bytes,
                    input.position(),
                    (count - i) as nat,
                    self.trees(storage),
                ),
            decreases count - i,
        {
            let ghost before = self.indexed_set@;
            let ghost held = *storage;
            proof {
                lemma_nodes_step(bytes, input.position(), (count - i) as nat, self.trees(storage));
            }
            match self.read_node(storage, input) {
                Ok(()) => {},
                Err(e) => {
                    return Err(e);
                },
            }
            proof {
                let grown = self.indexed_set@;
                assert(grown.drop_last() == before);
                assert(grown.take(nodes.len() as int) =~= before.take(nodes.len() as int));
                assert forall|k: int| nodes.len() <= k < grown.len() implies !old(storage).handles().contains_key((#[trigger] grown[k]).slot()) by {
                    if k < before.len() {
                        assert(grown[k] == before[k]);
                    }
                }
                assert forall|slot: usize| #[trigger]
                    storage.handles().contains_key(slot) implies old(storage).handles().contains_key(
                    slot,
                ) || !avoids(grown, slot) by {
                    if slot == grown.last().slot() {
                        assert(grown[grown.len() - 1].slot() == slot);
                    } else {
                        assert(held.handles().contains_key(slot));
                        if !old(storage).handles().contains_key(slot) {
                            assert(!avoids(before, slot));
                            let k = choose|k: int|
                                0 <= k < before.len() && (#[trigger] before[k]).slot() == slot;
                            assert(grown[k] == before[k]);
                        }
                    }
                }
            }
            i += 1;
        }
        let root = match input.read_u64() {
            Ok(root) => root,
            Err(e) => {
                return Err(e);
            },
        };
        if root < 2 || root - 2 >= self.indexed_set.len() as u64 {
            return Err(LoadError::UndefinedNode(root));
        }
        let ghost loaded = *storage;
        let held = match self.node_from_index(storage, root) {
            Ok(held) => held,
            Err(e) => {
                return Err(e);
            },
        };
        proof {
            self.lemma_avoids(&loaded, held.slot());
        }
        Ok(held)
    }
}

/// Reading several numbers is reading one, and then the others.
pub proof fn lemma_values_step(bytes: Seq<u8>, position: int, remaining: nat, values: Seq<u32>)
    requires
        remaining > 0,
        u32_at(bytes, position) is Some,
    ensures
        parse_values(bytes, position, remaining, values) == parse_values(
            bytes,
            position + 4,
            (remaining - 1) as nat,
            values.push(u32_at(bytes, position)->0),
        ),
{
}

/// Reads `count` numbers of 4 bytes.
fn read_values(input: &mut Input, count: u32) -> (r: Result<Vec<Value>, LoadError>)
    requires
        old(input).wf(),
    ensures
        final(input).wf(),
        final(input).bytes() == old(input).bytes(),
        final(input).position() >= old(input).position(),
        match r {
            Ok(values) => parse_values(
                old(input).bytes(),
                old(input).position(),
                count as nat,
                Seq::empty(),
            ) == Ok::<(Seq<u32>, int), LoadError>((values@, final(input).position())),
            Err(e) => parse_values(
                old(input).bytes(),
                old(input).position(),
                count as nat,
                Seq::empty(),
            ) == Err::<(Seq<u32>, int), LoadError>(e),
        },
{
    let ghost bytes = input.bytes();
    let ghost start = input.position();
    let mut values: Vec<Value> = Vec::new();
    let mut i: u32 = 0;
    proof {
        assert(values@ =~= Seq::<u32>::empty());
    }
    while i < count
        invariant
            i <= count,
            input.wf(),
            input.bytes() == bytes,
            bytes == old(input).bytes(),
            start == old(input).position(),
            input.position() >= start,
            parse_values(bytes, start, count as nat, Seq::empty()) == parse_values(
                bytes,
                input.position(),
                (count - i) as nat,
                values@,
            ),
        decreases count - i,
    {
        let ghost position = input.position();
        let ghost before = values@;
        let value = match input.read_u32() {
            Ok(value) => value,
            Err(e) => {
                return Err(e);
            },
        };
        values.push(value);
        proof {
            lemma_values_step(bytes, position, (count - i) as nat, before);
        }
        i += 1;
    }
    Ok(values)
}

/// Reads the levels that a transition reads and the levels that it writes:
/// the two counts first, then the levels.
pub fn read_projection(input: &mut Input) -> (r: Result<(Vec<Value>, Vec<Value>), LoadError>)
    requires
        old(input).wf(),
    ensures
        final(input).wf(),
        final(input).bytes() == old(input).bytes(),
        final(input).position() >= old(input).position(),
        match r {
            Ok((read, write)) => parse_projection(old(input).bytes(), old(input).position()) == Ok::<
                (Seq<u32>, Seq<u32>, int),
                LoadError,
            >((read@, write@, final(input).position())),
            Err(e) => parse_projection(old(input).bytes(), old(input).position()) == Err::<
                (Seq<u32>, Seq<u32>, int),
                LoadError,
            >(e),
        },
{
    let num_read = match input.read_u32() {
        Ok(n) => n,
        Err(e) => {
            return Err(e);
        },
    };
    let num_write = match input.read_u32() {
        Ok(n) => n,
        Err(e) => {
            return Err(e);
        },
    };
    let read_proj = match read_values(input, num_read) {
        Ok(values) => values,
        Err(e) => {
            return Err(e);
        },
    };
    let write_proj = match read_values(input, num_write) {
        Ok(values) => values,
        Err(e) => {
            return Err(e);
        },
    };
    Ok((read_proj, write_proj))
}

impl SylvanReader {
    /// Gives up the handles to all nodes that were read.
    pub fn release(self, storage: &mut Storage)
        requires
            old(storage).wf(),
            self.wf(old(storage)),
        ensures
            final(storage).wf(),
            final(storage).collects() == old(storage).collects(),
            final(storage).reports() == old(storage).reports(),
            forall|slot: usize| #[trigger]
                final(storage).handles().contains_key(slot) <==> old(storage).handles().contains_key(
                    slot,
                ) && avoids(self.nodes(), slot),
            forall|slot: usize| #[trigger]
                final(storage).handles().contains_key(slot) ==> final(storage).handles()[slot] == old(storage).handles()[slot],
    {
        let mut nodes = self.indexed_set;
        let ghost all = nodes@;
        proof {
            reveal(SylvanReader::wf);
        }
        loop
            invariant
                storage.wf(),
                storage.collects() == old(storage).collects(),
                storage.reports() == old(storage).reports(),
                nodes@.len() <= all.len(),
                nodes@ == all.take(nodes@.len() as int),
                all == self.nodes(),
                forall|i: int| 0 <= i < nodes@.len() ==> storage.protects(#[trigger] &nodes@[i]),
                forall|i: int, j: int|
                    0 <= i < j < all.len() ==> (#[trigger] all[i]).slot() != (#[trigger] all[j]).slot(),
                forall|slot: usize| #[trigger]
                    storage.handles().contains_key(slot) ==> old(storage).handles().contains_key(slot),
                forall|slot: usize| #[trigger]
                    old(storage).handles().contains_key(slot) && avoids(all, slot)
                        ==> storage.handles().contains_key(slot) && storage.handles()[slot] == old(storage).handles()[slot],
                forall|slot: usize| #[trigger]
                    storage.handles().contains_key(slot) ==> storage.handles()[slot] == old(storage).handles()[slot],
                forall|i: int|
                    nodes@.len() <= i < all.len() ==> !storage.handles().contains_key(
                        (#[trigger] all[i]).slot(),
                    ),
            ensures
                storage.wf(),
                nodes@.len() == 0,
            decreases nodes@.len(),
        {
            let ghost before = nodes@;
            let ghost held = *storage;
            match nodes.pop() {
                None => {
                    break ;
                },
                Some(ldd) => {
                    proof {
                        assert(ldd == before[before.len() - 1]);
                        assert(held.protects(&before[before.len() - 1]));
                        assert(ldd == all[before.len() - 1]);
                    }
                    storage.release(ldd);
                    proof {
                        assert forall|slot: usize| #[trigger]
                            old(storage).handles().contains_key(slot) && avoids(
                                all,
                                slot,
                            ) implies storage.handles().contains_key(slot) && storage.handles()[slot]
                            == old(storage).handles()[slot] by {
                            assert(all[before.len() - 1].slot() != slot);
                            assert(held.handles().contains_key(slot));
                        }
                        assert(nodes@ =~= all.take(nodes@.len() as int));
                        assert forall|i: int| 0 <= i < nodes@.len() implies storage.protects(
                            #[trigger] &nodes@[i],
                        ) by {
                            assert(nodes@[i] == before[i]);
                            assert(held.protects(&before[i]));
                            assert(all[i].slot() != all[before.len() - 1].slot());
                        }
                        assert forall|slot: usize| #[trigger]
                            storage.handles().contains_key(slot) implies storage.handles()[slot]
                            == old(storage).handles()[slot] by {
                            assert(held.handles().contains_key(slot));
                        }
                        assert forall|i: int| nodes@.len() <= i < all.len() implies !storage.handles().contains_key(
                            (#[trigger] all[i]).slot()) by {
                            if i >= before.len() {
                                assert(!held.handles().contains_key(all[i].slot()));
                            }
                        }
                    }
                },
            }
        }
        proof {
            assert forall|slot: usize| #[trigger]
                storage.handles().contains_key(slot) implies avoids(all, slot) by {
                assert forall|i: int| 0 <= i < all.len() implies (#[trigger] all[i]).slot() != slot by {
                    assert(!storage.handles().contains_key(all[i].slot()));
                }
            }
        }
    }
}

/// Whether none of the handles `nodes` owns the slot `slot`.
pub open spec fn avoids(nodes: Seq<Ldd>, slot: usize) -> bool {
    forall|i: int| 0 <= i < nodes.len() ==> (#[trigger] nodes[i]).slot() != slot
}

/// Whether every handle of `after` is a handle of `before`, one of the
/// handles `nodes`, or the owner of one of the slots `others`: no other
/// handle was made and kept.
pub open spec fn accounts(before: &Storage, after: &Storage, nodes: Seq<Ldd>, others: Set<usize>) -> bool {
    forall|slot: usize| #[trigger]
        after.handles().contains_key(slot) ==> before.handles().contains_key(slot)
            || others.contains(slot) || !avoids(nodes, slot)
}

/// Whether the handles `initial` and `transitions` hold in `storage` what
/// `model` holds.
pub open spec fn loaded(
    storage: &Storage,
    initial: &Ldd,
    transitions: Seq<Transition>,
    model: Model,
) -> bool {
    &&& storage.holds(initial, model.initial)
    &&& transitions.len() == model.levels.len()
    &&& transitions.len() == model.relations.len()
    &&& forall|t: int|
        0 <= t < transitions.len() ==> {
            &&& (#[trigger] transitions[t]).read_proj@ == model.levels[t].0
            &&& transitions[t].write_proj@ == model.levels[t].1
            &&& storage.holds(&transitions[t].relation, model.relations[t])
            &&& storage.holds(
                &transitions[t].meta,
                chain(meta_of(model.levels[t].0, model.levels[t].1)),
            )
        }
}

/// The levels that were read, as sequences.
pub open spec fn levels_of(projections: Seq<(Vec<Value>, Vec<Value>)>) -> Seq<(Seq<u32>, Seq<u32>)> {
    Seq::new(projections.len(), |i: int| (projections[i].0@, projections[i].1@))
}

/// The terms of the relations that were read.
pub open spec fn relations_of(storage: &Storage, transitions: Seq<Transition>) -> Seq<Tree> {
    Seq::new(transitions.len(), |t: int| storage.tree_of(&transitions[t].relation))
}

/// A copy of a vector of values.
fn copy_values(values: &Vec<Value>) -> (copy: Vec<Value>)
    ensures
        copy@ == values@,
{
    let mut copy: Vec<Value> = Vec::new();
    let mut i: usize = 0;
    while i < values.len()
        invariant
            i <= values@.len(),
            copy@ == values@.take(i as int),
        decreases values@.len() - i,
    {
        copy.push(values[i]);
        proof {
            assert(copy@ =~= values@.take(i as int + 1));
        }
        i += 1;
    }
    proof {
        assert(values@.take(i as int) =~= values@);
    }
    copy
}

/// Whether the transitions read so far are held by `storage`, in slots
/// that are not the reader's, and are what was read.
pub open spec fn transitions_held(
    storage: &Storage,
    nodes: Seq<Ldd>,
    transitions: Seq<Transition>,
    levels: Seq<(Seq<u32>, Seq<u32>)>,
) -> bool {
    &&& transitions.len() <= levels.len()
    &&& forall|t: int|
        0 <= t < transitions.len() ==> {
            &&& (#[trigger] transitions[t]).read_proj@ == levels[t].0
            &&& transitions[t].write_proj@ == levels[t].1
            &&& storage.protects(&transitions[t].relation)
            &&& storage.holds(&transitions[t].meta, chain(meta_of(levels[t].0, levels[t].1)))
            &&& avoids(nodes, transitions[t].relation.slot())
            &&& avoids(nodes, transitions[t].meta.slot())
        }
}

/// Whether the handle to the relation of the transition, or the handle to
/// its tags, owns the slot.
pub open spec fn owns(transition: Transition, slot: usize) -> bool {
    transition.relation.slot() == slot || transition.meta.slot() == slot
}

/// The slots that the handles of the transitions own.
pub open spec fn transition_slots(transitions: Seq<Transition>) -> Set<usize> {
    Set::new(|slot: usize| exists|t: int| 0 <= t < transitions.len() && owns(#[trigger] transitions[t], slot))
}

/// Whether the transitions hold handles of `storage`, each in a slot of its
/// own.
pub open spec fn apart(storage: &Storage, transitions: Seq<Transition>) -> bool {
    &&& forall|t: int|
        0 <= t < transitions.len() ==> {
            &&& storage.protects(&(#[trigger] transitions[t]).relation)
            &&& storage.protects(&transitions[t].meta)
            &&& transitions[t].relation.slot() != transitions[t].meta.slot()
        }
    &&& forall|s: int, t: int, slot: usize|
        #![trigger owns(transitions[s], slot), owns(transitions[t], slot)]
        0 <= s < t < transitions.len() && owns(transitions[s], slot) ==> !owns(transitions[t], slot)
}

/// Gives up the handles of the transitions.
pub fn release_transitions(storage: &mut Storage, transitions: Vec<Transition>)
    requires
        old(storage).wf(),
        apart(old(storage), transitions@),
    ensures
        final(storage).wf(),
        final(storage).collects() == old(storage).collects(),
        final(storage).reports() == old(storage).reports(),
        forall|slot: usize| #[trigger]
            final(storage).handles().contains_key(slot) <==> old(storage).handles().contains_key(slot)
                && !transition_slots(transitions@).contains(slot),
        forall|slot: usize| #[trigger]
            final(storage).handles().contains_key(slot) ==> final(storage).handles()[slot] == old(storage).handles()[slot],
{
    let mut rest = transitions;
    let ghost all = rest@;
    loop
        invariant
            storage.wf(),
            storage.collects() == old(storage).collects(),
            storage.reports() == old(storage).reports(),
            all == transitions@,
            rest@.len() <= all.len(),
            rest@ == all.take(rest@.len() as int),
            apart(old(storage), all),
            forall|t: int|
                0 <= t < rest@.len() ==> storage.protects(&(#[trigger] rest@[t]).relation)
                    && storage.protects(&rest@[t].meta),
            forall|slot: usize| #[trigger]
                storage.handles().contains_key(slot) ==> old(storage).handles().contains_key(slot)
                    && storage.handles()[slot] == old(storage).handles()[slot],
            forall|slot: usize| #[trigger]
                old(storage).handles().contains_key(slot) && !transition_slots(all).contains(slot)
                    ==> storage.handles().contains_key(slot),
            forall|t: int|
                rest@.len() <= t < all.len() ==> !storage.handles().contains_key(
                    (#[trigger] all[t]).relation.slot(),
                ) && !storage.handles().contains_key(all[t].meta.slot()),
        ensures
            storage.wf(),
            rest@.len() == 0,
        decreases rest@.len(),
    {
        let ghost before = rest@;
        let ghost held = *storage;
        match rest.pop() {
            None => {
                break ;
            },
            Some(transition) => {
                let ghost last = before.len() - 1;
                proof {
                    assert(transition == before[last]);
                    assert(before[last] == all[last]);
                    assert(held.protects(&before[last].relation));
                    assert(old(storage).protects(&all[last].relation));
                }
                storage.release(transition.relation);
                storage.release(transition.meta);
                proof {
                    assert(rest@ =~= all.take(rest@.len() as int));
                    assert(owns(all[last], all[last].relation.slot()));
                    assert(owns(all[last], all[last].meta.slot()));
                    assert forall|t: int| 0 <= t < rest@.len() implies storage.protects(
                        &(#[trigger] rest@[t]).relation,
                    ) && storage.protects(&rest@[t].meta) by {
                        assert(rest@[t] == before[t]);
                        assert(before[t] == all[t]);
                        assert(held.protects(&before[t].relation));
                        assert(owns(all[t], all[t].relation.slot()));
                        assert(owns(all[t], all[t].meta.slot()));
                        assert(!owns(all[last], all[t].relation.slot()));
                        assert(!owns(all[last], all[t].meta.slot()));
                    }
                    assert forall|slot: usize| #[trigger]
                        old(storage).handles().contains_key(slot) && !transition_slots(all).contains(
                            slot,
                        ) implies storage.handles().contains_key(slot) by {
                        assert(held.handles().contains_key(slot));
                        assert(!owns(all[last], slot));
                    }
                    assert forall|t: int| rest@.len() <= t < all.len() implies !storage.handles().contains_key(
                        (#[trigger] all[t]).relation.slot(),
                    ) && !storage.handles().contains_key(all[t].meta.slot()) by {
                        if t > last {
                            assert(!held.handles().contains_key(all[t].relation.slot()));
                        }
                    }
                }
            },
        }
    }
    proof {
        assert forall|slot: usize| #[trigger]
            storage.handles().contains_key(slot) implies !transition_slots(all).contains(slot) by {
            if transition_slots(all).contains(slot) {
                let t = choose|t: int| 0 <= t < all.len() && owns(#[trigger] all[t], slot);
                assert(!storage.handles().contains_key(all[t].relation.slot()));
            }
        }
    }
}

/// Reads the levels that each of `count` transitions reads and writes.
fn read_projections(input: &mut Input, count: u32) -> (r: Result<
    Vec<(Vec<Value>, Vec<Value>)>,
    LoadError,
>)
    requires
        old(input).wf(),
    ensures
        final(input).wf(),
        final(input).bytes() == old(input).bytes(),
        final(input).position() >= old(input).position(),
        match r {
            Ok(projections) => projections@.len() == count && parse_projections(
                old(input).bytes(),
                old(input).position(),
                count as nat,
                Seq::empty(),
            ) == Ok::<(Seq<(Seq<u32>, Seq<u32>)>, int), LoadError>(
                (levels_of(projections@), final(input).position()),
            ),
            Err(e) => parse_projections(
                old(input).bytes(),
                old(input).position(),
                count as nat,
                Seq::empty(),
            ) == Err::<(Seq<(Seq<u32>, Seq<u32>)>, int), LoadError>(e),
        },
{
    let ghost bytes = input.bytes();
    let ghost start = input.position();
    let mut projections: Vec<(Vec<Value>, Vec<Value>)> = Vec::new();
    let mut i: u32 = 0;
    proof {
        assert(levels_of(projections@) =~= Seq::empty());
    }
    while i < count
        invariant
            i <= count,
            input.wf(),
            input.bytes() == bytes,
            bytes == old(input).bytes(),
            start == old(input).position(),
            input.position() >= start,
            projections@.len() == i,
            parse_projections(bytes, start, count as nat, Seq::empty()) == parse_projections(
                bytes,
                input.position(),
                (count - i) as nat,
                levels_of(projections@),
            ),
        decreases count - i,
    {
        let ghost before = levels_of(projections@);
        let (read_proj, write_proj) = match read_projection(input) {
            Ok(pair) => pair,
            Err(e) => {
                return Err(e);
            },
        };
        projections.push((read_proj, write_proj));
        proof {
            assert(levels_of(projections@) =~= before.push((read_proj@, write_proj@)));
        }
        i += 1;
    }
    Ok(projections)
}

/// Reads the relation of each transition, and computes the diagram that
/// tells the relational product what it reads and writes. Where a relation
/// cannot be read, the handles of the transitions before it are given up.
fn read_relations(
    storage: &mut Storage,
    reader: &mut SylvanReader,
    input: &mut Input,
    projections: &Vec<(Vec<Value>, Vec<Value>)>,
    Ghost(kept): Ghost<usize>,
) -> (r: Result<Vec<Transition>, LoadError>)
    requires
        old(storage).wf(),
        old(reader).wf(old(storage)),
        old(input).wf(),
        old(reader).nodes().len() * 16 <= old(input).position(),
        old(storage).handles().contains_key(kept),
        avoids(old(reader).nodes(), kept),
    ensures
        final(storage).wf(),
        final(storage).preserves(old(storage)),
        final(input).wf(),
        final(input).bytes() == old(input).bytes(),
        final(reader).wf(final(storage)),
        avoids(final(reader).nodes(), kept),
        old(reader).nodes().len() <= final(reader).nodes().len(),
        final(reader).nodes().take(old(reader).nodes().len() as int) == old(reader).nodes(),
        forall|i: int|
            old(reader).nodes().len() <= i < final(reader).nodes().len() ==> !old(storage).handles().contains_key((#[trigger] final(reader).nodes()[i]).slot()),
        match r {
            Ok(transitions) => {
                &&& transitions@.len() == projections@.len()
                &&& transitions_held(
                    final(storage),
                    final(reader).nodes(),
                    transitions@,
                    levels_of(projections@),
                )
                &&& apart(final(storage), transitions@)
                &&& made_since(old(storage), transitions@)
                &&& accounts(
                    old(storage),
                    final(storage),
                    final(reader).nodes(),
                    transition_slots(transitions@),
                )
                &&& parse_relations(
                    old(input).bytes(),
                    old(input).position(),
                    projections@.len() as nat,
                    old(reader).trees(old(storage)),
                    Seq::empty(),
                ) == Ok::<Seq<Tree>, LoadError>(relations_of(final(storage), transitions@))
            },
            Err(e) => {
                &&& parse_relations(
                    old(input).bytes(),
                    old(input).position(),
                    projections@.len() as nat,
                    old(reader).trees(old(storage)),
                    Seq::empty(),
                ) == Err::<Seq<Tree>, LoadError>(e)
                &&& accounts(old(storage), final(storage), final(reader).nodes(), Set::empty())
            },
        },
{
    let ghost bytes = input.bytes();
    let ghost start = input.position();
    let ghost defined = reader.trees(storage);
    let ghost levels = levels_of(projections@);
    let mut transitions: Vec<Transition> = Vec::new();
    let mut i: usize = 0;
    proof {
        assert(relations_of(storage, transitions@) =~= Seq::empty());
        assert(reader.nodes().take(reader.nodes().len() as int) =~= reader.nodes());
    }
    while i < projections.len()
        invariant
            i <= projections@.len(),
            levels == levels_of(projections@),
            bytes == old(input).bytes(),
            start == old(input).position(),
            defined == old(reader).trees(old(storage)),
            storage.wf(),
            storage.preserves(old(storage)),
            reader.wf(storage),
            input.wf(),
            input.bytes() == bytes,
            reader.nodes().len() * 16 <= input.position(),
            storage.handles().contains_key(kept),
            avoids(reader.nodes(), kept),
            old(reader).nodes().len() <= reader.nodes().len(),
            reader.nodes().take(old(reader).nodes().len() as int) == old(reader).nodes(),
            forall|i: int|
                old(reader).nodes().len() <= i < reader.nodes().len() ==> !old(storage).handles().contains_key(
                    (#[trigger] reader.nodes()[i]).slot(),
                ),
            transitions@.len() == i,
            transitions_held(storage, reader.nodes(), transitions@, levels),
            apart(storage, transitions@),
            made_since(old(storage), transitions@),
            accounts(old(storage), storage, reader.nodes(), transition_slots(transitions@)),
            parse_relations(bytes, start, projections@.len() as nat, defined, Seq::empty())
                == parse_relations(
                bytes,
                input.position(),
                (projections@.len() - i) as nat,
                reader.trees(storage),
                relations_of(storage, transitions@),
            ),
        decreases projections@.len() - i,
    {
        let ghost held = *storage;
        let ghost known = reader.nodes();
        let ghost done = transitions@;
        let ghost before = relations_of(storage, transitions@);
        let relation = match reader.read_ldd(storage, input) {
            Ok(relation) => relation,
            Err(e) => {
                let ghost failed = *storage;
                proof {
                    lemma_read_on(old(storage), &held, &failed, known, reader.nodes(), done, levels, kept);
                }
                release_transitions(storage, transitions);
                proof {
                    lemma_given_up(old(storage), &held, &failed, storage, known, reader, done, levels);
                }
                return Err(e);
            },
        };
        let ghost read_state = *storage;
        let ghost relation_tree = storage.tree_of(&relation);
        let read_proj = copy_values(&projections[i].0);
        let write_proj = copy_values(&projections[i].1);
        let meta = compute_meta(storage, read_proj.as_slice(), write_proj.as_slice());
        proof {
            lemma_read_on(old(storage), &held, &read_state, known, reader.nodes(), done, levels, kept);
            reader.lemma_preserved(&read_state, storage);
            reader.lemma_avoids(&read_state, meta.slot());
            assert(storage.holds(&relation, relation_tree));
            assert(levels[i as int] == (read_proj@, write_proj@));
        }
        transitions.push(Transition { read_proj, write_proj, relation, meta });
        proof {
            assert(transitions@.drop_last() =~= done);
            assert(avoids(reader.nodes(), relation.slot()));
            assert(storage.protects(&relation));
            lemma_transitions_grow(
                &held,
                &read_state,
                storage,
                known,
                reader,
                done,
                transitions@,
                levels,
                kept,
            );
            lemma_apart_grow(old(storage), &held, &read_state, storage, known, reader.nodes(), done, transitions@, levels);
            assert(relations_of(storage, transitions@) =~= before.push(relation_tree)) by {
                assert forall|t: int| 0 <= t < done.len() implies storage.tree_of(
                    &transitions@[t].relation,
                ) == held.tree_of(&done[t].relation) by {
                    assert(transitions@[t] == done[t]);
                    assert(held.protects(&done[t].relation));
                    assert(held.handles().contains_key(done[t].relation.slot()));
                }
            }
        }
        i += 1;
    }
    Ok(transitions)
}

/// Whether none of the handles of the transitions owns a slot of a handle
/// of `before`: the handles were made later.
pub open spec fn made_since(before: &Storage, transitions: Seq<Transition>) -> bool {
    forall|t: int|
        0 <= t < transitions.len() ==> !before.handles().contains_key(
            (#[trigger] transitions[t]).relation.slot(),
        ) && !before.handles().contains_key(transitions[t].meta.slot())
}

/// What holds of the reader's handles after it has read on, from the state
/// `held` to the state `after`: the handles that it had come first, the new
/// ones own slots that were free, and none of them owns the slot `kept`.
proof fn lemma_read_on(
    origin: &Storage,
    held: &Storage,
    after: &Storage,
    known: Seq<Ldd>,
    nodes: Seq<Ldd>,
    done: Seq<Transition>,
    levels: Seq<(Seq<u32>, Seq<u32>)>,
    kept: usize,
)
    requires
        held.preserves(origin),
        after.preserves(held),
        held.handles().contains_key(kept),
        avoids(known, kept),
        known.len() <= nodes.len(),
        nodes.take(known.len() as int) == known,
        forall|k: int|
            known.len() <= k < nodes.len() ==> !held.handles().contains_key((#[trigger] nodes[k]).slot()),
    ensures
        avoids(nodes, kept),
        forall|k: int|
            known.len() <= k < nodes.len() ==> !origin.handles().contains_key((#[trigger] nodes[k]).slot()),
        forall|k: int| 0 <= k < known.len() ==> (#[trigger] nodes[k]) == known[k],
        forall|slot: usize| !avoids(known, slot) ==> !avoids(nodes, slot),
        forall|slot: usize| held.handles().contains_key(slot) && avoids(known, slot) ==> avoids(nodes, slot),
{
    assert forall|k: int| 0 <= k < known.len() implies (#[trigger] nodes[k]) == known[k] by {
        assert(nodes.take(known.len() as int)[k] == nodes[k]);
    }
    assert forall|slot: usize| !avoids(known, slot) implies !avoids(nodes, slot) by {
        let k = choose|k: int| 0 <= k < known.len() && (#[trigger] known[k]).slot() == slot;
        assert(nodes[k] == known[k]);
    }
    assert forall|slot: usize| held.handles().contains_key(slot) && avoids(known, slot) implies avoids(
        nodes,
        slot,
    ) by {
        assert forall|k: int| 0 <= k < nodes.len() implies (#[trigger] nodes[k]).slot() != slot by {
            if k < known.len() {
                assert(nodes[k] == known[k]);
            }
        }
    }
}

/// After the transitions that were read have been given up, the reader
/// holds its handles still, and no other handle is left of what was read.
proof fn lemma_given_up(
    origin: &Storage,
    held: &Storage,
    failed: &Storage,
    after: &Storage,
    known: Seq<Ldd>,
    reader: &SylvanReader,
    done: Seq<Transition>,
    levels: Seq<(Seq<u32>, Seq<u32>)>,
)
    requires
        held.preserves(origin),
        failed.preserves(held),
        reader.wf(failed),
        known.len() <= reader.nodes().len(),
        reader.nodes().take(known.len() as int) == known,
        forall|k: int|
            known.len() <= k < reader.nodes().len() ==> !held.handles().contains_key(
                (#[trigger] reader.nodes()[k]).slot(),
            ),
        transitions_held(held, known, done, levels),
        made_since(origin, done),
        accounts(origin, held, known, transition_slots(done)),
        accounts(held, failed, reader.nodes(), Set::empty()),
        after.collects() == failed.collects(),
        after.reports() == failed.reports(),
        forall|slot: usize| #[trigger]
            after.handles().contains_key(slot) <==> failed.handles().contains_key(slot)
                && !transition_slots(done).contains(slot),
        forall|slot: usize| #[trigger]
            after.handles().contains_key(slot) ==> after.handles()[slot] == failed.handles()[slot],
    ensures
        after.preserves(origin),
        reader.wf(after),
        accounts(origin, after, reader.nodes(), Set::empty()),
{
    let nodes = reader.nodes();
    assert forall|slot: usize| #[trigger] origin.handles().contains_key(slot) implies after.handles().contains_key(
        slot,
    ) && after.handles()[slot] == origin.handles()[slot] by {
        assert(held.handles().contains_key(slot));
        assert(failed.handles().contains_key(slot));
        if transition_slots(done).contains(slot) {
            let t = choose|t: int| 0 <= t < done.len() && owns(#[trigger] done[t], slot);
            assert(!origin.handles().contains_key(done[t].relation.slot()));
        }
    }
    assert forall|k: int| 0 <= k < nodes.len() implies after.handles().contains_key(
        (#[trigger] nodes[k]).slot(),
    ) && after.handles()[nodes[k].slot()] == failed.handles()[nodes[k].slot()] by {
        reader.lemma_held(failed);
        assert(failed.protects(&nodes[k]));
        let slot = nodes[k].slot();
        assert(failed.handles().contains_key(slot));
        if transition_slots(done).contains(slot) {
            let t = choose|t: int| 0 <= t < done.len() && owns(#[trigger] done[t], slot);
            assert(held.protects(&done[t].relation));
            assert(held.protects(&done[t].meta));
            assert(held.handles().contains_key(slot));
            if k < known.len() {
                assert(nodes.take(known.len() as int)[k] == nodes[k]);
                assert(avoids(known, done[t].relation.slot()));
                assert(avoids(known, done[t].meta.slot()));
                assert(known[k].slot() != slot);
            } else {
                assert(!held.handles().contains_key(nodes[k].slot()));
            }
            assert(false);
        }
        assert(after.handles().contains_key(slot));
    }
    reader.lemma_kept(failed, after);
    assert forall|slot: usize| #[trigger] after.handles().contains_key(slot) implies origin.handles().contains_key(
        slot,
    ) || !avoids(nodes, slot) by {
        assert(failed.handles().contains_key(slot));
        if avoids(nodes, slot) {
            assert(held.handles().contains_key(slot));
            if !origin.handles().contains_key(slot) {
                assert(!avoids(known, slot));
                let k = choose|k: int| 0 <= k < known.len() && (#[trigger] known[k]).slot() == slot;
                assert(nodes.take(known.len() as int)[k] == nodes[k]);
            }
        }
    }
}

/// The transitions stay apart, and account for the handles that were made,
/// when the reader reads another relation and another transition is put
/// together from it.
proof fn lemma_apart_grow(
    origin: &Storage,
    held: &Storage,
    read_state: &Storage,
    storage: &Storage,
    known: Seq<Ldd>,
    nodes: Seq<Ldd>,
    done: Seq<Transition>,
    grown: Seq<Transition>,
    levels: Seq<(Seq<u32>, Seq<u32>)>,
)
    requires
        held.preserves(origin),
        read_state.preserves(held),
        storage.preserves(read_state),
        apart(held, done),
        made_since(origin, done),
        accounts(origin, held, known, transition_slots(done)),
        accounts(held, read_state, nodes, Set::<usize>::empty().insert(grown.last().relation.slot())),
        known.len() <= nodes.len(),
        nodes.take(known.len() as int) == known,
        grown.len() == done.len() + 1,
        grown.drop_last() == done,
        !held.handles().contains_key(grown.last().relation.slot()),
        read_state.protects(&grown.last().relation),
        !read_state.handles().contains_key(grown.last().meta.slot()),
        storage.protects(&grown.last().meta),
        storage.handles() == read_state.handles().insert(
            grown.last().meta.slot(),
            storage.handles()[grown.last().meta.slot()],
        ),
    ensures
        apart(storage, grown),
        made_since(origin, grown),
        accounts(origin, storage, nodes, transition_slots(grown)),
{
    let last = grown.last();
    assert forall|t: int| 0 <= t < grown.len() implies {
        &&& storage.protects(&(#[trigger] grown[t]).relation)
        &&& storage.protects(&grown[t].meta)
        &&& grown[t].relation.slot() != grown[t].meta.slot()
        &&& !origin.handles().contains_key(grown[t].relation.slot())
        &&& !origin.handles().contains_key(grown[t].meta.slot())
    } by {
        if t < done.len() {
            assert(grown[t] == done[t]);
            assert(held.protects(&done[t].relation));
            assert(held.handles().contains_key(done[t].relation.slot()));
            assert(held.handles().contains_key(done[t].meta.slot()));
            assert(read_state.handles().contains_key(done[t].relation.slot()));
            assert(read_state.handles().contains_key(done[t].meta.slot()));
        } else {
            assert(grown[t] == last);
            assert(read_state.handles().contains_key(last.relation.slot()));
            if origin.handles().contains_key(last.relation.slot()) {
                assert(held.handles().contains_key(last.relation.slot()));
            }
            if origin.handles().contains_key(last.meta.slot()) {
                assert(held.handles().contains_key(last.meta.slot()));
                assert(read_state.handles().contains_key(last.meta.slot()));
            }
        }
    }
    assert forall|s: int, t: int, slot: usize|
        #![trigger owns(grown[s], slot), owns(grown[t], slot)]
        0 <= s < t < grown.len() && owns(grown[s], slot) implies !owns(grown[t], slot) by {
        assert(grown[s] == done[s]);
        if t < done.len() {
            assert(grown[t] == done[t]);
            assert(owns(done[s], slot) ==> !owns(done[t], slot));
        } else {
            assert(grown[t] == last);
            assert(held.protects(&done[s].relation));
            assert(held.protects(&done[s].meta));
            assert(held.handles().contains_key(slot));
            assert(read_state.handles().contains_key(slot));
        }
    }
    assert forall|slot: usize| #[trigger] storage.handles().contains_key(slot) implies origin.handles().contains_key(
        slot,
    ) || transition_slots(grown).contains(slot) || !avoids(nodes, slot) by {
        if owns(last, slot) {
            assert(owns(grown[grown.len() - 1], slot));
        } else {
            assert(read_state.handles().contains_key(slot));
            if avoids(nodes, slot) {
                assert(held.handles().contains_key(slot));
                if !origin.handles().contains_key(slot) {
                    if transition_slots(done).contains(slot) {
                        let t = choose|t: int| 0 <= t < done.len() && owns(#[trigger] done[t], slot);
                        assert(grown[t] == done[t]);
                        assert(owns(grown[t], slot));
                    } else {
                        assert(!avoids(known, slot));
                        let k = choose|k: int| 0 <= k < known.len() && (#[trigger] known[k]).slot() == slot;
                        assert(nodes.take(known.len() as int)[k] == nodes[k]);
                    }
                }
            }
        }
    }
}

/// The transitions that were held stay held when the reader reads another
/// relation and another transition is put together from it.
proof fn lemma_transitions_grow(
    held: &Storage,
    read_state: &Storage,
    storage: &Storage,
    known: Seq<Ldd>,
    reader: &SylvanReader,
    done: Seq<Transition>,
    grown: Seq<Transition>,
    levels: Seq<(Seq<u32>, Seq<u32>)>,
    kept: usize,
)
    requires
        read_state.preserves(held),
        storage.preserves(read_state),
        held.handles().contains_key(kept),
        avoids(known, kept),
        transitions_held(held, known, done, levels),
        known.len() <= reader.nodes().len(),
        reader.nodes().take(known.len() as int) == known,
        forall|k: int|
            known.len() <= k < reader.nodes().len() ==> !held.handles().contains_key(
                (#[trigger] reader.nodes()[k]).slot(),
            ),
        grown.len() == done.len() + 1,
        grown.len() <= levels.len(),
        grown.drop_last() == done,
        grown.last().read_proj@ == levels[done.len() as int].0,
        grown.last().write_proj@ == levels[done.len() as int].1,
        storage.protects(&grown.last().relation),
        storage.holds(
            &grown.last().meta,
            chain(meta_of(levels[done.len() as int].0, levels[done.len() as int].1)),
        ),
        avoids(reader.nodes(), grown.last().relation.slot()),
        avoids(reader.nodes(), grown.last().meta.slot()),
    ensures
        transitions_held(storage, reader.nodes(), grown, levels),
        avoids(reader.nodes(), kept),
{
    let nodes = reader.nodes();
    assert forall|slot: usize| held.handles().contains_key(slot) && avoids(known, slot) implies avoids(
        nodes,
        slot,
    ) by {
        assert forall|k: int| 0 <= k < nodes.len() implies (#[trigger] nodes[k]).slot() != slot by {
            if k < known.len() {
                assert(nodes[k] == known[k]);
            }
        }
    }
    assert forall|t: int| 0 <= t < grown.len() implies {
        &&& (#[trigger] grown[t]).read_proj@ == levels[t].0
        &&& grown[t].write_proj@ == levels[t].1
        &&& storage.protects(&grown[t].relation)
        &&& storage.holds(&grown[t].meta, chain(meta_of(levels[t].0, levels[t].1)))
        &&& avoids(nodes, grown[t].relation.slot())
        &&& avoids(nodes, grown[t].meta.slot())
    } by {
        if t < done.len() {
            assert(grown[t] == done[t]);
            assert(held.protects(&done[t].relation));
            assert(held.handles().contains_key(done[t].relation.slot()));
            assert(held.handles().contains_key(done[t].meta.slot()));
            assert(read_state.handles().contains_key(done[t].relation.slot()));
            assert(read_state.handles().contains_key(done[t].meta.slot()));
        } else {
            assert(grown[t] == grown.last());
        }
    }
}

/// Gives up the handle `initial` where the transitions cannot be read.
fn release_initial(
    storage: &mut Storage,
    reader: &SylvanReader,
    initial: Ldd,
    Ghost(origin): Ghost<&Storage>,
)
    requires
        old(storage).wf(),
        old(storage).preserves(origin),
        reader.wf(old(storage)),
        old(storage).protects(&initial),
        avoids(reader.nodes(), initial.slot()),
        !origin.handles().contains_key(initial.slot()),
        accounts(origin, old(storage), reader.nodes(), Set::<usize>::empty().insert(initial.slot())),
    ensures
        final(storage).wf(),
        final(storage).preserves(origin),
        reader.wf(final(storage)),
        accounts(origin, final(storage), reader.nodes(), Set::empty()),
{
    storage.release(initial);
    proof {
        assert forall|k: int| 0 <= k < reader.nodes().len() implies storage.handles().contains_key(
            (#[trigger] reader.nodes()[k]).slot(),
        ) && storage.handles()[reader.nodes()[k].slot()] == old(storage).handles()[reader.nodes()[k].slot()] by {
            reader.lemma_held(old(storage));
            assert(old(storage).protects(&reader.nodes()[k]));
        }
        reader.lemma_kept(old(storage), storage);
    }
}

/// Reads a model with a reader that has read nothing yet. The reader keeps
/// the handles to the nodes that it has read.
fn read_model(storage: &mut Storage, reader: &mut SylvanReader, input: &mut Input) -> (r: Result<
    (Ldd, Vec<Transition>),
    LoadError,
>)
    requires
        old(storage).wf(),
        old(reader).wf(old(storage)),
        old(reader).nodes().len() == 0,
        old(input).wf(),
        old(input).position() == 0,
    ensures
        final(storage).wf(),
        final(storage).preserves(old(storage)),
        final(reader).wf(final(storage)),
        forall|i: int|
            0 <= i < final(reader).nodes().len() ==> !old(storage).handles().contains_key(
                (#[trigger] final(reader).nodes()[i]).slot(),
            ),
        match r {
            Ok((initial, transitions)) => {
                &&& parse_model(old(input).bytes()) is Ok
                &&& loaded(
                    final(storage),
                    &initial,
                    transitions@,
                    parse_model(old(input).bytes())->Ok_0,
                )
                &&& avoids(final(reader).nodes(), initial.slot())
                &&& transitions_held(
                    final(storage),
                    final(reader).nodes(),
                    transitions@,
                    parse_model(old(input).bytes())->Ok_0.levels,
                )
                &&& !old(storage).handles().contains_key(initial.slot())
                &&& !transition_slots(transitions@).contains(initial.slot())
                &&& apart(final(storage), transitions@)
                &&& made_since(old(storage), transitions@)
                &&& accounts(
                    old(storage),
                    final(storage),
                    final(reader).nodes(),
                    transition_slots(transitions@).insert(initial.slot()),
                )
            },
            Err(e) => {
                &&& parse_model(old(input).bytes()) == Err::<Model, LoadError>(e)
                &&& accounts(old(storage), final(storage), final(reader).nodes(), Set::empty())
            },
        },
{
    let ghost bytes = input.bytes();
    let _vector_length = match input.read_u32() {
        Ok(n) => n,
        Err(e) => {
            return Err(e);
        },
    };
    // This is called 'k' in Sylvan's ldd2bdd.c, but unused.
    let _unused = match input.read_u32() {
        Ok(n) => n,
        Err(e) => {
            return Err(e);
        },
    };
    proof {
        assert(reader.trees(storage) =~= Seq::<Tree>::empty());
    }
    let initial = match reader.read_ldd(storage, input) {
        Ok(initial) => initial,
        Err(e) => {
            return Err(e);
        },
    };
    let ghost first_tree = storage.tree_of(&initial);
    let ghost first_state = *storage;
    let ghost first_nodes = reader.nodes();
    let num_transitions = match input.read_u32() {
        Ok(n) => n,
        Err(e) => {
            release_initial(storage, reader, initial, Ghost(old(storage)));
            return Err(e);
        },
    };
    let projections = match read_projections(input, num_transitions) {
        Ok(projections) => projections,
        Err(e) => {
            release_initial(storage, reader, initial, Ghost(old(storage)));
            return Err(e);
        },
    };
    let transitions = match read_relations(storage, reader, input, &projections, Ghost(initial.slot())) {
        Ok(transitions) => transitions,
        Err(e) => {
            proof {
                assert(first_state.handles().contains_key(initial.slot()));
                lemma_accounts(old(storage), &first_state, storage, first_nodes, reader.nodes(), initial.slot());
            }
            release_initial(storage, reader, initial, Ghost(old(storage)));
            return Err(e);
        },
    };
    proof {
        let levels = levels_of(projections@);
        let relations = relations_of(storage, transitions@);
        assert(first_state.handles().contains_key(initial.slot()));
        let model = Model { initial: first_tree, levels, relations };
        assert(parse_model(bytes) == Ok::<Model, LoadError>(model));
        assert forall|i: int| 0 <= i < reader.nodes().len() implies !old(storage).handles().contains_key(
            (#[trigger] reader.nodes()[i]).slot(),
        ) by {
            if i < first_nodes.len() {
                assert(reader.nodes().take(first_nodes.len() as int)[i] == reader.nodes()[i]);
                assert(!old(storage).handles().contains_key(first_nodes[i].slot()));
            } else {
                assert(!first_state.handles().contains_key(reader.nodes()[i].slot()));
            }
        }
        if transition_slots(transitions@).contains(initial.slot()) {
            let t = choose|t: int|
                0 <= t < transitions@.len() && owns(#[trigger] transitions@[t], initial.slot());
            assert(!first_state.handles().contains_key(transitions@[t].relation.slot()));
        }
        assert forall|t: int| 0 <= t < transitions@.len() implies !old(storage).handles().contains_key(
            (#[trigger] transitions@[t]).relation.slot(),
        ) && !old(storage).handles().contains_key(transitions@[t].meta.slot()) by {
            assert(!first_state.handles().contains_key(transitions@[t].relation.slot()));
            assert(!first_state.handles().contains_key(transitions@[t].meta.slot()));
        }
        assert forall|slot: usize| #[trigger] storage.handles().contains_key(slot) implies old(storage).handles().contains_key(slot) || transition_slots(transitions@).insert(initial.slot()).contains(
            slot,
        ) || !avoids(reader.nodes(), slot) by {
            if !transition_slots(transitions@).contains(slot) && avoids(reader.nodes(), slot) {
                assert(first_state.handles().contains_key(slot));
                if slot != initial.slot() && !old(storage).handles().contains_key(slot) {
                    assert(!avoids(first_nodes, slot));
                    let k = choose|k: int|
                        0 <= k < first_nodes.len() && (#[trigger] first_nodes[k]).slot() == slot;
                    assert(reader.nodes().take(first_nodes.len() as int)[k] == reader.nodes()[k]);
                }
            }
        }
        assert forall|t: int| 0 <= t < transitions@.len() implies {
            &&& (#[trigger] transitions@[t]).read_proj@ == model.levels[t].0
            &&& transitions@[t].write_proj@ == model.levels[t].1
            &&& storage.holds(&transitions@[t].relation, model.relations[t])
            &&& storage.holds(
                &transitions@[t].meta,
                chain(meta_of(model.levels[t].0, model.levels[t].1)),
            )
        } by {}
    }
    Ok((initial, transitions))
}

/// The handles that were made while the initial set was read, and then
/// while the relations were read in vain, are the handle of the initial set
/// and the reader's.
proof fn lemma_accounts(
    origin: &Storage,
    first_state: &Storage,
    after: &Storage,
    first_nodes: Seq<Ldd>,
    nodes: Seq<Ldd>,
    initial: usize,
)
    requires
        first_state.preserves(origin),
        after.preserves(first_state),
        first_state.handles().contains_key(initial),
        !origin.handles().contains_key(initial),
        accounts(origin, first_state, first_nodes, Set::<usize>::empty().insert(initial)),
        accounts(first_state, after, nodes, Set::empty()),
        first_nodes.len() <= nodes.len(),
        nodes.take(first_nodes.len() as int) == first_nodes,
        forall|k: int|
            0 <= k < first_nodes.len() ==> !origin.handles().contains_key((#[trigger] first_nodes[k]).slot()),
        forall|k: int|
            first_nodes.len() <= k < nodes.len() ==> !first_state.handles().contains_key(
                (#[trigger] nodes[k]).slot(),
            ),
    ensures
        after.preserves(origin),
        accounts(origin, after, nodes, Set::<usize>::empty().insert(initial)),
        forall|k: int| 0 <= k < nodes.len() ==> !origin.handles().contains_key((#[trigger] nodes[k]).slot()),
{
    assert forall|k: int| 0 <= k < nodes.len() implies !origin.handles().contains_key(
        (#[trigger] nodes[k]).slot(),
    ) by {
        if k < first_nodes.len() {
            assert(nodes.take(first_nodes.len() as int)[k] == nodes[k]);
            assert(!origin.handles().contains_key(first_nodes[k].slot()));
        } else {
            assert(!first_state.handles().contains_key(nodes[k].slot()));
        }
    }
    assert forall|slot: usize| #[trigger] origin.handles().contains_key(slot) implies after.handles().contains_key(
        slot,
    ) && after.handles()[slot] == origin.handles()[slot] by {
        assert(first_state.handles().contains_key(slot));
    }
    assert forall|slot: usize| #[trigger] after.handles().contains_key(slot) implies origin.handles().contains_key(
        slot,
    ) || slot == initial || !avoids(nodes, slot) by {
        if avoids(nodes, slot) {
            assert(first_state.handles().contains_key(slot));
            if slot != initial && !origin.handles().contains_key(slot) {
                assert(!avoids(first_nodes, slot));
                let k = choose|k: int| 0 <= k < first_nodes.len() && (#[trigger] first_nodes[k]).slot() == slot;
                assert(nodes.take(first_nodes.len() as int)[k] == nodes[k]);
            }
        }
    }
}

/// Reads a model: its initial set and its transitions, each with the
/// diagram that tells the relational product what its relation reads and
/// writes.
///
/// The handles that are returned are the only new handles that the storage
/// holds afterwards; where the model cannot be read, it holds the handles
/// that it held before.
pub fn load_model(storage: &mut Storage, bytes: &[u8]) -> (r: Result<
    (Ldd, Vec<Transition>),
    LoadError,
>)
    requires
        old(storage).wf(),
    ensures
        final(storage).wf(),
        final(storage).preserves(old(storage)),
        match r {
            Ok((initial, transitions)) => {
                &&& parse_model(bytes@) is Ok
                &&& loaded(final(storage), &initial, transitions@, parse_model(bytes@)->Ok_0)
                &&& apart(final(storage), transitions@)
                &&& made_since(old(storage), transitions@)
                &&& !old(storage).handles().contains_key(initial.slot())
                &&& !transition_slots(transitions@).contains(initial.slot())
                &&& forall|slot: usize| #[trigger]
                    final(storage).handles().contains_key(slot) <==> old(storage).handles().contains_key(
                        slot,
                    ) || slot == initial.slot() || transition_slots(transitions@).contains(slot)
            },
            Err(e) => {
                &&& parse_model(bytes@) == Err::<Model, LoadError>(e)
                &&& final(storage).handles() == old(storage).handles()
            },
        },
{
    let mut input = Input::new(bytes);
    let mut reader = SylvanReader::new();
    let r = read_model(storage, &mut reader, &mut input);
    let ghost read_state = *storage;
    let ghost nodes = reader.nodes();
    proof {
        reader.lemma_held(&read_state);
    }
    reader.release(storage);
    proof {
        assert forall|slot: usize| #[trigger] old(storage).handles().contains_key(slot) implies avoids(
            nodes,
            slot,
        ) by {}
    }
    match r {
        Ok((initial, transitions)) => {
            proof {
                let model = parse_model(bytes@)->Ok_0;
                assert(read_state.protects(&initial));
                assert forall|t: int| 0 <= t < transitions@.len() implies {
                    &&& storage.holds(&(#[trigger] transitions@[t]).relation, model.relations[t])
                    &&& storage.holds(
                        &transitions@[t].meta,
                        chain(meta_of(model.levels[t].0, model.levels[t].1)),
                    )
                    &&& avoids(nodes, transitions@[t].relation.slot())
                    &&& avoids(nodes, transitions@[t].meta.slot())
                } by {
                    let relation = transitions@[t].relation;
                    let meta = transitions@[t].meta;
                    assert(read_state.holds(&relation, model.relations[t]));
                    assert(read_state.holds(&meta, chain(meta_of(model.levels[t].0, model.levels[t].1))));
                    assert(avoids(nodes, relation.slot()));
                    assert(avoids(nodes, meta.slot()));
                    assert(storage.handles().contains_key(relation.slot()));
                    assert(storage.handles().contains_key(meta.slot()));
                }
                assert(storage.handles().contains_key(initial.slot()));
                assert forall|slot: usize| #[trigger]
                    storage.handles().contains_key(slot) <==> old(storage).handles().contains_key(slot)
                        || slot == initial.slot() || transition_slots(transitions@).contains(
                        slot,
                    ) by {
                    if transition_slots(transitions@).contains(slot) {
                        let t = choose|t: int|
                            0 <= t < transitions@.len() && owns(#[trigger] transitions@[t], slot);
                        assert(avoids(nodes, transitions@[t].relation.slot()));
                        assert(read_state.protects(&transitions@[t].relation));
                        assert(read_state.protects(&transitions@[t].meta));
                    }
                    if old(storage).handles().contains_key(slot) {
                        assert(read_state.handles().contains_key(slot));
                    }
                }
            }
            Ok((initial, transitions))
        },
        Err(e) => {
            proof {
                assert forall|slot: usize| #[trigger]
                    old(storage).handles().contains_key(slot) implies storage.handles().contains_key(
                    slot,
                ) && storage.handles()[slot] == old(storage).handles()[slot] by {
                    assert(read_state.handles().contains_key(slot));
                }
                assert(storage.handles() =~= old(storage).handles());
            }
            Err(e)
        },
    }
}

} // verus!

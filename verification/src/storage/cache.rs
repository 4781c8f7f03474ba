//! The operation cache.
//!
//! Maximal sharing means that an operation meets the same operands many times
//! while it descends. The cache remembers, operator by operator, the result
//! that was computed for given operands.

use crate::node_map::{map_clear, map_entries, map_get, map_insert, map_len, map_new, Key, NodeMap};
use crate::algebra::deep;
use crate::operations::{len_nodes, minus_nodes, relational_product_nodes, union_nodes};
use crate::semantics::{image, relation_levels, relation_tags, source_levels};
use crate::storage::{binary_apply, Ldd, LddRef, Storage};
use crate::tree::{capped, count, first_vector, height, size, Tree};
use vstd::prelude::*;

verus! {

/// Any function from a diagram to a number.
#[derive(Clone, Copy, Debug, PartialEq, Eq, Structural)]
pub enum UnaryFunction {
    Len,
}

/// Any operator from two diagrams to a diagram.
#[derive(Clone, Copy, Debug, PartialEq, Eq, Structural)]
pub enum BinaryOperator {
    Union,
    Minus,
}

/// Any operator from three diagrams to a diagram.
#[derive(Clone, Copy, Debug, PartialEq, Eq, Structural)]
pub enum TernaryOperator {
    RelationalProduct,
}

/// One table of results for each operator. A key holds the node indices of
/// the operands, in their order, followed by zeroes.
pub struct OperationCache {
    len: NodeMap,
    union: NodeMap,
    minus: NodeMap,
    relational_product: NodeMap,
}

impl OperationCache {
    /// The results remembered for a function of one diagram.
    pub closed spec fn unary(&self, operator: UnaryFunction) -> Map<Key, usize> {
        match operator {
            UnaryFunction::Len => map_entries(&self.len),
        }
    }

    /// The results remembered for an operator on two diagrams.
    pub closed spec fn binary(&self, operator: BinaryOperator) -> Map<Key, usize> {
        match operator {
            BinaryOperator::Union => map_entries(&self.union),
            BinaryOperator::Minus => map_entries(&self.minus),
        }
    }

    /// The results remembered for an operator on three diagrams.
    pub closed spec fn ternary(&self, operator: TernaryOperator) -> Map<Key, usize> {
        match operator {
            TernaryOperator::RelationalProduct => map_entries(&self.relational_product),
        }
    }

    /// Whether no result is remembered.
    pub open spec fn is_empty(&self) -> bool {
        &&& forall|operator: UnaryFunction| #[trigger] self.unary(operator) =~= Map::empty()
        &&& forall|operator: BinaryOperator| #[trigger] self.binary(operator) =~= Map::empty()
        &&& forall|operator: TernaryOperator| #[trigger] self.ternary(operator) =~= Map::empty()
    }

    /// A cache that remembers nothing.
    pub fn new() -> (cache: OperationCache)
        ensures
            cache.is_empty(),
    {
        OperationCache {
            len: map_new(),
            union: map_new(),
            minus: map_new(),
            relational_product: map_new(),
        }
    }

    /// Forgets every result. This must be done during garbage collection,
    /// since the cache names nodes without protecting them.
    pub fn clear(&mut self)
        ensures
            final(self).is_empty(),
    {
        map_clear(&mut self.len);
        map_clear(&mut self.union);
        map_clear(&mut self.minus);
        map_clear(&mut self.relational_product);
    }

    /// The numbers of results that are remembered for the number of
    /// vectors, the union, the difference and the relational product, in
    /// this order.
    pub fn sizes(&self) -> (sizes: (usize, usize, usize, usize))
        ensures
            sizes.0 == self.unary(UnaryFunction::Len).len(),
            sizes.1 == self.binary(BinaryOperator::Union).len(),
            sizes.2 == self.binary(BinaryOperator::Minus).len(),
            sizes.3 == self.ternary(TernaryOperator::RelationalProduct).len(),
    {
        (
            map_len(&self.len),
            map_len(&self.union),
            map_len(&self.minus),
            map_len(&self.relational_product),
        )
    }

    /// The result remembered for `operator` on the node `a`.
    pub fn get1(&self, operator: UnaryFunction, a: usize) -> (r: Option<usize>)
        ensures
            r == lookup(self.unary(operator), (a, 0, 0)),
    {
        match operator {
            UnaryFunction::Len => map_get(&self.len, (a, 0, 0)),
        }
    }

    /// The result remembered for `operator` on the nodes `a` and `b`.
    pub fn get2(&self, operator: BinaryOperator, a: usize, b: usize) -> (r: Option<usize>)
        ensures
            r == lookup(self.binary(operator), (a, b, 0)),
    {
        match operator {
            BinaryOperator::Union => map_get(&self.union, (a, b, 0)),
            BinaryOperator::Minus => map_get(&self.minus, (a, b, 0)),
        }
    }

    /// The result remembered for `operator` on the nodes `a`, `b` and `c`.
    pub fn get3(&self, operator: TernaryOperator, a: usize, b: usize, c: usize) -> (r: Option<
        usize,
    >)
        ensures
            r == lookup(self.ternary(operator), (a, b, c)),
    {
        match operator {
            TernaryOperator::RelationalProduct => map_get(&self.relational_product, (a, b, c)),
        }
    }

    /// Remembers `result` for `operator` on the node `a`.
    pub fn insert1(&mut self, operator: UnaryFunction, a: usize, result: usize)
        ensures
            final(self).unary(operator) == old(self).unary(operator).insert((a, 0, 0), result),
            forall|other: BinaryOperator| final(self).binary(other) == old(self).binary(other),
            forall|other: TernaryOperator| final(self).ternary(other) == old(self).ternary(other),
    {
        match operator {
            UnaryFunction::Len => map_insert(&mut self.len, (a, 0, 0), result),
        }
    }

    /// Remembers `result` for `operator` on the nodes `a` and `b`.
    pub fn insert2(&mut self, operator: BinaryOperator, a: usize, b: usize, result: usize)
        ensures
            final(self).binary(operator) == old(self).binary(operator).insert((a, b, 0), result),
            forall|other: BinaryOperator|
                other != operator ==> final(self).binary(other) == old(self).binary(other),
            forall|other: UnaryFunction| final(self).unary(other) == old(self).unary(other),
            forall|other: TernaryOperator| final(self).ternary(other) == old(self).ternary(other),
    {
        match operator {
            BinaryOperator::Union => map_insert(&mut self.union, (a, b, 0), result),
            BinaryOperator::Minus => map_insert(&mut self.minus, (a, b, 0), result),
        }
    }

    /// Remembers `result` for `operator` on the nodes `a`, `b` and `c`.
    pub fn insert3(&mut self, operator: TernaryOperator, a: usize, b: usize, c: usize, result: usize)
        ensures
            final(self).ternary(operator) == old(self).ternary(operator).insert((a, b, c), result),
            forall|other: UnaryFunction| final(self).unary(other) == old(self).unary(other),
            forall|other: BinaryOperator| final(self).binary(other) == old(self).binary(other),
    {
        match operator {
            TernaryOperator::RelationalProduct => map_insert(
                &mut self.relational_product,
                (a, b, c),
                result,
            ),
        }
    }
}

/// The key of two operands of a commutative operator: the smaller index
/// first.
pub open spec fn ordered(a: usize, b: usize) -> Key {
    if a < b {
        (a, b, 0)
    } else {
        (b, a, 0)
    }
}

/// What a table remembers under `key`.
pub open spec fn lookup(table: Map<Key, usize>, key: Key) -> Option<usize> {
    if table.contains_key(key) {
        Some(table[key])
    } else {
        None
    }
}

/// Whether `a` and `b` are handles of `storage` to two proper nodes of the
/// same height: operands that a binary operator has to descend into.
pub open spec fn binary_operands(storage: &Storage, a: &Ldd, b: &Ldd) -> bool {
    &&& storage.wf()
    &&& storage.protects(a)
    &&& storage.protects(b)
    &&& storage.tree_of(a) is Node
    &&& storage.tree_of(b) is Node
    &&& height(storage.tree_of(a)) == height(storage.tree_of(b))
}

/// Applies a binary operator through its cache: the result that the cache
/// remembers for the two operands, or else the result that the operator
/// computes at their nodes, which the cache then remembers. Either way the
/// cache remembers the result afterwards.
pub fn cache_binary_op(storage: &mut Storage, operator: BinaryOperator, a: &Ldd, b: &Ldd) -> (r: Ldd)
    requires
        binary_operands(old(storage), a, b),
    ensures
        final(storage).yields(old(storage), &r),
        final(storage).set_of(&r) == binary_apply(
            operator,
            old(storage).set_of(a),
            old(storage).set_of(b),
        ),
        lookup(final(storage).cache().binary(operator), (a.index(), b.index(), 0)) == Some(r.index()),
    decreases size(old(storage).tree_of(a)) + size(old(storage).tree_of(b)), 1nat,
{
    match storage.cached_binary(operator, a, b) {
        Some(result) => result,
        None => {
            let result = match operator {
                BinaryOperator::Union => union_nodes(storage, a, b),
                BinaryOperator::Minus => minus_nodes(storage, a, b),
            };
            storage.remember_binary(operator, a, b, &result);
            result
        },
    }
}

/// Applies a commutative binary operator through its cache. The operands
/// are put in the order of their indices first, which can halve the size of
/// the cache.
pub fn cache_comm_binary_op(storage: &mut Storage, operator: BinaryOperator, a: &Ldd, b: &Ldd) -> (r:
    Ldd)
    requires
        binary_operands(old(storage), a, b),
        operator == BinaryOperator::Union,
    ensures
        final(storage).yields(old(storage), &r),
        final(storage).set_of(&r) == binary_apply(
            operator,
            old(storage).set_of(a),
            old(storage).set_of(b),
        ),
        lookup(final(storage).cache().binary(operator), ordered(a.index(), b.index())) == Some(
            r.index(),
        ),
    decreases size(old(storage).tree_of(a)) + size(old(storage).tree_of(b)), 2nat,
{
    if a.index() < b.index() {
        cache_binary_op(storage, operator, a, b)
    } else {
        let r = cache_binary_op(storage, operator, b, a);
        proof {
            assert(old(storage).set_of(b).union(old(storage).set_of(a)) =~= old(storage).set_of(
                a,
            ).union(old(storage).set_of(b)));
        }
        r
    }
}

/// Applies a function from diagrams to numbers through its cache: the
/// number that the cache remembers for the node, or else the number that the
/// function computes at the node, which the cache then remembers.
pub fn cache_unary_function(storage: &mut Storage, operator: UnaryFunction, a: LddRef) -> (r: usize)
    requires
        old(storage).wf(),
        old(storage).valid(a.index()),
        old(storage).tree(a.index()) is Node,
    ensures
        r == capped(count(old(storage).tree(a.index()))),
        final(storage).wf(),
        final(storage).handles() == old(storage).handles(),
        final(storage).same_nodes_as(old(storage)),
        lookup(final(storage).cache().unary(operator), (a.index(), 0, 0)) == Some(r),
    decreases size(old(storage).tree(a.index())), 1nat,
{
    match storage.cached_unary(operator, a) {
        Some(result) => result,
        None => {
            let result = match operator {
                UnaryFunction::Len => len_nodes(storage, a),
            };
            let ghost computed = *storage;
            storage.remember_unary(operator, a, result);
            proof {
                assert(storage.extends(old(storage))) by {
                    assert forall|n: usize| #[trigger] old(storage).valid(n) implies storage.valid(
                        n,
                    ) && storage.tree(n) == old(storage).tree(n) by {
                        assert(computed.valid(n));
                    }
                }
                assert(old(storage).extends(storage)) by {
                    assert forall|n: usize| #[trigger] storage.valid(n) implies old(storage).valid(
                        n,
                    ) && old(storage).tree(n) == storage.tree(n) by {
                        assert(computed.valid(n));
                    }
                }
            }
            result
        },
    }
}

/// Whether `set`, `rel` and `meta` are handles of `storage` that the
/// relational product can work on: `meta` stands for tags from 0 to 4, and
/// the vectors of the set and of the relation are long enough for the levels
/// that the tags speak of.
pub open spec fn ternary_operands(storage: &Storage, set: &Ldd, rel: &Ldd, meta: &Ldd) -> bool {
    &&& storage.wf()
    &&& storage.protects(set)
    &&& storage.protects(rel)
    &&& storage.protects(meta)
    &&& storage.tree_of(meta) != Tree::False
    &&& relation_tags(first_vector(storage.tree_of(meta)))
    &&& deep(storage.tree_of(set), source_levels(first_vector(storage.tree_of(meta))))
    &&& deep(storage.tree_of(rel), relation_levels(first_vector(storage.tree_of(meta))))
}

/// Applies a ternary operator through its cache: the result that the cache
/// remembers for the three operands, or else the result that the operator
/// computes at their nodes, which the cache then remembers.
pub fn cache_terniary_op(
    storage: &mut Storage,
    operator: TernaryOperator,
    a: &Ldd,
    b: &Ldd,
    c: &Ldd,
) -> (r: Ldd)
    requires
        ternary_operands(old(storage), a, b, c),
        old(storage).tree_of(c) is Node,
        old(storage).tree_of(a) != Tree::False,
        old(storage).tree_of(b) != Tree::False,
    ensures
        final(storage).yields(old(storage), &r),
        final(storage).set_of(&r) == image(
            old(storage).set_of(a),
            old(storage).set_of(b),
            first_vector(old(storage).tree_of(c)),
        ),
        lookup(final(storage).cache().ternary(operator), (a.index(), b.index(), c.index())) == Some(
            r.index(),
        ),
    decreases
            height(old(storage).tree_of(c)),
            size(old(storage).tree_of(b)),
            size(old(storage).tree_of(a)),
            2nat,
{
    match storage.cached_ternary(operator, a, b, c) {
        Some(result) => result,
        None => {
            let result = match operator {
                TernaryOperator::RelationalProduct => relational_product_nodes(storage, a, b, c),
            };
            storage.remember_ternary(operator, a, b, c, &result);
            result
        },
    }
}

} // verus!

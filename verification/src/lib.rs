//! List decision diagrams: canonical, maximally shared diagrams that stand for
//! sets of vectors of equal length, with the set operations on them.
//!
//! A diagram is a node of a [`Storage`]: the empty set, the set that holds
//! the empty vector, or a node `(value, down, right)` that stands for the
//! vectors that start with `value` and go on with a vector of `down`,
//! together with the vectors of `right`, which start with larger values. The
//! storage keeps each node once, so two handles stand for the same set if
//! and only if they name the same node.
//!
//! What a diagram stands for is stated over the terms of the module `tree`;
//! `semantics` says what projection and the relational product compute, and
//! `laws` holds what follows for the operations taken together.

pub mod algebra;
pub mod format;
pub mod free_list;
pub mod iterators;
pub mod laws;
pub mod node_map;
pub mod operations;
pub mod reach;
pub mod relation;
pub mod semantics;
pub mod storage;
pub mod sylvan_io;
pub mod test_utility;
pub mod tree;

pub use format::{fmt_node, print_dot, Display};
pub use iterators::{iter, iter_right, Iter, IterRight};
pub use operations::{
    checked_len, compute_meta, compute_proj, element_of, height_of, len, minus, project,
    relational_product, singleton, union,
};
pub use storage::{
    cache_binary_op, cache_comm_binary_op, cache_terniary_op, cache_unary_function,
    BinaryOperator, Data, DataRef, Ldd, LddRef, OperationCache, ProtSetIter, ProtectionSet,
    Storage, TernaryOperator, UnaryFunction, Value,
};

//! Handles to diagram nodes and the set of protected roots.
//!
//! An [`Ldd`] owns one slot of a [`ProtectionSet`]; while the slot is taken,
//! the node it names is a root for garbage collection. An [`LddRef`] names a
//! node without protecting it.

use crate::free_list::{
    lemma_linked_empty, lemma_linked_grow, lemma_linked_head, lemma_linked_none, lemma_linked_pop,
    lemma_linked_push, linked,
};
use vstd::prelude::*;

verus! {

/// A protected handle: the index of a node together with the slot of the
/// protection set that keeps the node alive.
#[derive(Debug)]
pub struct Ldd {
    index: usize,  // Index in the node table.
    root: usize,  // Index in the protection set.
}

impl Ldd {
    /// Protects the node `index` in `protection_set` and returns the handle
    /// that owns the new slot.
    pub fn new(protection_set: &mut ProtectionSet, index: usize) -> (ldd: Ldd)
        requires
            old(protection_set).wf(),
        ensures
            final(protection_set).wf(),
            ldd.index() == index,
            !old(protection_set)@.contains_key(ldd.slot()),
            final(protection_set)@ == old(protection_set)@.insert(ldd.slot(), index),
            final(protection_set).insertions() == saturating_succ(
                old(protection_set).insertions(),
            ),
            ldd.slot() == old(protection_set).next_slot(),
            final(protection_set).vacant() == after_first(old(protection_set).vacant()),
            final(protection_set).slots() == old(protection_set).slots() + (if old(
                protection_set,
            ).vacant().len() == 0 {
                1nat
            } else {
                0nat
            }),
    {
        let root = protection_set.protect(index);
        Ldd { index, root }
    }

    /// The index of the node in the node table.
    pub closed spec fn spec_index(&self) -> usize {
        self.index
    }

    /// The slot of the protection set that this handle owns.
    pub closed spec fn slot(&self) -> usize {
        self.root
    }

    /// The index of the node in the node table.
    #[verifier::when_used_as_spec(spec_index)]
    pub fn index(&self) -> (index: usize)
        ensures
            index == self.index(),
    {
        self.index
    }

    /// The slot of the protection set that this handle owns.
    pub fn root(&self) -> (root: usize)
        ensures
            root == self.slot(),
    {
        self.root
    }

    /// A view of the node that does not protect it.
    pub fn borrow(&self) -> (r: LddRef)
        ensures
            r.index() == self.index(),
    {
        LddRef { index: self.index }
    }
}

impl PartialEq for Ldd {
    /// Two handles are equal when they name the same node, whatever their slots.
    fn eq(&self, other: &Self) -> (r: bool) {
        self.index == other.index
    }
}

impl Eq for Ldd {

}

/// `usize::hash`, which feeds a number to a hasher. Nothing is stated of
/// what the hasher makes of it.
pub assume_specification<H>[ <usize as std::hash::Hash>::hash ](value: &usize, state: &mut H) where
    H: std::hash::Hasher,
;

impl std::hash::Hash for Ldd {
    /// Feeds the index of the node to the hasher, and nothing of the slot, so
    /// that equal handles have equal hashes.
    fn hash<H: std::hash::Hasher>(&self, state: &mut H) {
        self.index.hash(state);
    }
}

impl vstd::std_specs::cmp::PartialEqSpecImpl for Ldd {
    open spec fn obeys_eq_spec() -> bool {
        true
    }

    open spec fn eq_spec(&self, other: &Self) -> bool {
        self.index() == other.index()
    }
}

/// A borrowed view of a node: its index, without a slot in the protection set.
#[derive(Debug, Clone, Copy, PartialEq, Eq, Structural)]
pub struct LddRef {
    index: usize,
}

impl LddRef {
    /// The view of the node `index`.
    pub fn new(index: usize) -> (r: LddRef)
        ensures
            r.index() == index,
    {
        LddRef { index }
    }

    /// The index of the node in the node table.
    pub closed spec fn spec_index(&self) -> usize {
        self.index
    }

    /// The index of the node in the node table.
    #[verifier::when_used_as_spec(spec_index)]
    pub fn index(&self) -> (index: usize)
        ensures
            index == self.index(),
    {
        self.index
    }
}

/// A list of slots without its first, if it has one.
pub open spec fn after_first(list: Seq<usize>) -> Seq<usize> {
    if list.len() > 0 {
        list.drop_first()
    } else {
        list
    }
}

/// The successor of a counter that stops at the largest value.
pub open spec fn saturating_succ(n: u64) -> u64 {
    if n < u64::MAX {
        (n + 1) as u64
    } else {
        n
    }
}

/// The nodes of the taken slots of `roots` from slot `from` on, in slot order.
pub open spec fn live_from(roots: Seq<(usize, bool)>, from: int) -> Seq<usize>
    decreases roots.len() - from,
{
    if from < 0 || from >= roots.len() {
        Seq::empty()
    } else if roots[from].1 {
        seq![roots[from].0] + live_from(roots, from + 1)
    } else {
        live_from(roots, from + 1)
    }
}

/// What each slot of `roots` holds: the node that it protects, or its
/// successor in the list of free slots.
pub closed spec fn held(roots: Seq<(usize, bool)>) -> Seq<usize> {
    Seq::new(roots.len(), |slot: int| roots[slot].0)
}

/// Which slots of `roots` are taken.
pub closed spec fn taken(roots: Seq<(usize, bool)>) -> Seq<bool> {
    Seq::new(roots.len(), |slot: int| roots[slot].1)
}

/// The protection set keeps track of the nodes that must not be collected.
///
/// It is a table of slots. A taken slot holds the index of a protected node.
/// The free slots form a linked list: a free slot holds the next free slot,
/// and the last one holds itself.
pub struct ProtectionSet {
    roots: Vec<(usize, bool)>,  // Every handle owns a slot of this table, which names its node.
    free: Option<usize>,
    number_of_insertions: u64,
    free_slots: Ghost<Seq<usize>>,  // The free list, starting at its head.
}

impl View for ProtectionSet {
    type V = Map<usize, usize>;

    /// The taken slots, each with the node it protects.
    closed spec fn view(&self) -> Map<usize, usize> {
        Map::new(
            |slot: usize| slot < self.roots@.len() && self.roots@[slot as int].1,
            |slot: usize| self.roots@[slot as int].0,
        )
    }
}

impl Default for ProtectionSet {
    fn default() -> (set: Self)
        ensures
            set.wf(),
            set@ == Map::<usize, usize>::empty(),
            set.insertions() == 0,
            set.slots() == 0,
    {
        Self::new()
    }
}

impl ProtectionSet {
    /// The free list is a list: it starts at `free` and holds free slots
    /// only, each of them once.
    pub closed spec fn wf(&self) -> bool {
        linked(
            held(self.roots@),
            taken(self.roots@),
            0,
            self.roots@.len() as int,
            self.free,
            self.free_slots@,
        )
    }

    /// The number of slots, taken or free. No slot is ever given up, and a
    /// slot is added only when all are taken, so this is the largest number
    /// of nodes that were protected at one time.
    pub closed spec fn slots(&self) -> nat {
        self.roots@.len()
    }

    /// The free slots, in the order in which they will be taken again: the
    /// slot that was given up last stands first.
    pub closed spec fn vacant(&self) -> Seq<usize> {
        self.free_slots@
    }

    /// The number of taken slots: the number of nodes that are protected
    /// now, each counted as often as it is protected.
    pub open spec fn occupied(&self) -> int {
        self.slots() - self.vacant().len()
    }

    /// The slot that the next protection takes: the first of the free slots,
    /// or a new slot at the end where none is free.
    pub open spec fn next_slot(&self) -> usize {
        if self.vacant().len() > 0 {
            self.vacant()[0]
        } else {
            self.slots() as usize
        }
    }

    /// How often a node was protected, counted up to the largest `u64`.
    pub closed spec fn insertions(&self) -> u64 {
        self.number_of_insertions
    }

    /// The protected nodes in slot order, one for each taken slot.
    pub closed spec fn live_nodes(&self) -> Seq<usize> {
        live_from(self.roots@, 0)
    }

    /// An empty protection set.
    pub fn new() -> (set: Self)
        ensures
            set.wf(),
            set@ == Map::<usize, usize>::empty(),
            set.insertions() == 0,
            set.slots() == 0,
            set.vacant().len() == 0,
    {
        let set = ProtectionSet {
            roots: Vec::new(),
            free: None,
            number_of_insertions: 0,
            free_slots: Ghost(Seq::empty()),
        };
        proof {
            lemma_linked_empty(held(set.roots@), taken(set.roots@), 0, 0);
            assert(set@ =~= Map::<usize, usize>::empty());
        }
        set
    }

    /// The number of insertions into the protection set.
    pub fn number_of_insertions(&self) -> (n: u64)
        ensures
            n == self.insertions(),
    {
        self.number_of_insertions
    }

    /// The largest number of nodes that were protected at one time: the
    /// number of slots, which grows only when more nodes are protected than
    /// ever before.
    pub fn maximum_size(&self) -> (n: usize)
        ensures
            n == self.slots(),
    {
        self.roots.len()
    }

    /// Whether `root` is a taken slot, and so protects a node.
    pub fn contains_root(&self, root: usize) -> (r: bool)
        ensures
            r == self@.contains_key(root),
    {
        root < self.roots.len() && self.roots[root].1
    }

    /// An iterator over the protected nodes, in slot order.
    pub fn iter(&self) -> (iter: ProtSetIter<'_>)
        ensures
            iter.remaining() == self.live_nodes(),
            iter.set() == self,
    {
        ProtSetIter { current: 0, protection_set: self }
    }

    /// Protects the node `index` against garbage collection. Returns the slot
    /// that now holds it: the head of the free list, or a new slot when all
    /// slots are taken.
    pub fn protect(&mut self, index: usize) -> (root: usize)
        requires
            old(self).wf(),
        ensures
            final(self).wf(),
            !old(self)@.contains_key(root),
            final(self)@ == old(self)@.insert(root, index),
            final(self).insertions() == saturating_succ(old(self).insertions()),
            root == old(self).next_slot(),
            final(self).vacant() == after_first(old(self).vacant()),
            final(self).slots() == old(self).slots() + (if old(self).vacant().len() == 0 {
                1nat
            } else {
                0nat
            }),
            final(self).occupied() == old(self).occupied() + 1,
            final(self).slots() == (if final(self).occupied() > old(self).slots() {
                final(self).occupied()
            } else {
                old(self).slots() as int
            }),
    {
        if self.number_of_insertions < u64::MAX {
            self.number_of_insertions += 1;
        }
        let ghost before = self.roots@;
        let ghost list = self.free_slots@;
        match self.free {
            None => {
                // If the free list is empty, add a new slot.
                self.roots.push((index, true));
                let root = self.roots.len() - 1;
                proof {
                    lemma_linked_none(held(before), taken(before), 0, before.len() as int, list);
                    lemma_linked_grow(held(before), taken(before), 0, None, list, index);
                    assert(held(self.roots@) =~= held(before).push(index));
                    assert(taken(self.roots@) =~= taken(before).push(true));
                    assert(self@ =~= old(self)@.insert(root, index));
                }
                root
            },
            Some(first) => {
                proof {
                    lemma_linked_head(
                        held(before),
                        taken(before),
                        0,
                        before.len() as int,
                        self.free,
                        list,
                    );
                    assert(first == list[0]);
                }
                let next = self.roots[first];
                if first == next.0 {
                    // The list is empty as its first element points to itself.
                    self.free = None;
                } else {
                    // The next element becomes the head of the list.
                    self.free = Some(next.0);
                }
                self.roots[first] = (index, true);
                self.free_slots = Ghost(list.drop_first());
                proof {
                    assert(held(self.roots@) =~= held(before).update(first as int, index));
                    assert(taken(self.roots@) =~= taken(before).update(first as int, true));
                    lemma_linked_pop(
                        held(before),
                        taken(before),
                        0,
                        old(self).free,
                        list,
                        held(self.roots@),
                        taken(self.roots@),
                    );
                    assert(self@ =~= old(self)@.insert(first, index));
                }
                first
            },
        }
    }

    /// Removes the protection that the slot `root` gives, and puts the slot
    /// at the head of the free list.
    pub fn unprotect(&mut self, root: usize)
        requires
            old(self).wf(),
            old(self)@.contains_key(root),
        ensures
            final(self).wf(),
            final(self)@ == old(self)@.remove(root),
            final(self).vacant() == seq![root] + old(self).vacant(),
            final(self).insertions() == old(self).insertions(),
            final(self).slots() == old(self).slots(),
            final(self).occupied() == old(self).occupied() - 1,
    {
        let ghost before = self.roots@;
        let ghost list = self.free_slots@;
        let ghost head = self.free;
        match self.free {
            None => {
                self.roots[root] = (root, false);
            },
            Some(next) => {
                self.roots[root] = (next, false);
            },
        };
        self.free = Some(root);
        self.free_slots = Ghost(seq![root] + list);
        proof {
            lemma_linked_head(held(before), taken(before), 0, before.len() as int, head, list);
            assert(taken(before)[root as int]);
            assert(held(self.roots@) =~= held(before).update(
                root as int,
                match head {
                    Some(next) => next,
                    None => root,
                },
            ));
            assert(taken(self.roots@) =~= taken(before).update(root as int, false));
            lemma_linked_push(
                held(before),
                taken(before),
                0,
                before.len() as int,
                head,
                list,
                root,
                held(self.roots@),
                taken(self.roots@),
            );
            assert(self@ =~= old(self)@.remove(root));
        }
    }

    /// The node of a taken slot stands among the nodes that the iterator yields.
    pub proof fn lemma_live_nodes_cover(&self, slot: usize)
        requires
            self@.contains_key(slot),
        ensures
            self.live_nodes().contains(self@[slot]),
    {
        lemma_live_from_cover(self.roots@, 0, slot as int);
    }

    /// Every node that the iterator yields is the node of a taken slot, which
    /// this lemma returns.
    pub proof fn lemma_live_nodes_source(&self, i: int) -> (slot: usize)
        requires
            0 <= i < self.live_nodes().len(),
        ensures
            self@.contains_key(slot),
            self@[slot] == self.live_nodes()[i],
    {
        let s = lemma_live_from_source(self.roots@, 0, i);
        assert(self.roots@.len() == self.roots.len());
        s as usize
    }
}

/// The node of a taken slot from `from` on is a member of `live_from(roots, from)`.
pub proof fn lemma_live_from_cover(roots: Seq<(usize, bool)>, from: int, s: int)
    requires
        0 <= from <= s < roots.len(),
        roots[s].1,
    ensures
        live_from(roots, from).contains(roots[s].0),
    decreases roots.len() - from,
{
    let here = live_from(roots, from);
    if s == from {
        assert(here[0] == roots[s].0);
    } else {
        lemma_live_from_cover(roots, from + 1, s);
        let rest = live_from(roots, from + 1);
        let i = choose|i: int| 0 <= i < rest.len() && rest[i] == roots[s].0;
        if roots[from].1 {
            assert(here[i + 1] == roots[s].0);
        } else {
            assert(here[i] == roots[s].0);
        }
    }
}

/// Each member of `live_from(roots, from)` is the node of a taken slot from
/// `from` on, which this lemma returns.
pub proof fn lemma_live_from_source(roots: Seq<(usize, bool)>, from: int, i: int) -> (s: int)
    requires
        0 <= from,
        0 <= i < live_from(roots, from).len(),
    ensures
        from <= s < roots.len(),
        roots[s].1,
        roots[s].0 == live_from(roots, from)[i],
    decreases roots.len() - from,
{
    if roots[from].1 {
        if i == 0 {
            from
        } else {
            lemma_live_from_source(roots, from + 1, i - 1)
        }
    } else {
        lemma_live_from_source(roots, from + 1, i)
    }
}

/// An iterator over the nodes that a protection set protects.
pub struct ProtSetIter<'a> {
    current: usize,
    protection_set: &'a ProtectionSet,
}

impl<'a> ProtSetIter<'a> {
    /// The nodes that the iterator has yet to yield.
    pub closed spec fn remaining(&self) -> Seq<usize> {
        live_from(self.protection_set.roots@, self.current as int)
    }

    /// The protection set that the iterator walks.
    pub closed spec fn set(&self) -> &ProtectionSet {
        self.protection_set
    }

    /// Yields the node of the next taken slot, or `None` when no taken slot
    /// is left.
    pub fn next(&mut self) -> (r: Option<usize>)
        ensures
            final(self).set() == old(self).set(),
            match r {
                Some(node) => old(self).remaining().len() > 0 && node == old(self).remaining()[0]
                    && final(self).remaining() == old(self).remaining().drop_first(),
                None => old(self).remaining().len() == 0 && final(self).remaining().len() == 0,
            },
    {
        // Find the next taken slot; return its node, or None at the end of the table.
        while self.current < self.protection_set.roots.len()
            invariant
                self.protection_set == old(self).protection_set,
                self.remaining() == old(self).remaining(),
            decreases self.protection_set.roots.len() - self.current,
        {
            let (root, valid) = self.protection_set.roots[self.current];
            self.current += 1;
            if valid {
                assert(self.remaining() =~= old(self).remaining().drop_first());
                return Some(root);
            }
        }
        None
    }
}

} // verus!

//! Lists of free slots that are threaded through a table.
//!
//! The node table and the protection set both keep their free slots in a
//! linked list: the head of the list is kept beside the table, each free slot
//! holds the next free slot, and the last one holds itself. This module
//! states what such a list is, for a table that is given by the successor
//! that each slot holds and by the flag that tells whether the slot is taken,
//! and proves what the steps of taking and giving up a slot do to it.

use vstd::prelude::*;

verus! {

/// A mark for the positions of a list at which a fact about the list is
/// used.
pub closed spec fn at(k: int) -> bool {
    true
}

/// The free slots among the slots from `low` up to `upto` form the list
/// `list`, which starts at `free`: each slot of the list is free and holds
/// the next, the last one holds itself, no slot stands in it twice, and every
/// free slot from `low` up to `upto` stands in it.
#[verifier::opaque]
pub closed spec fn linked(
    next: Seq<usize>,
    taken: Seq<bool>,
    low: usize,
    upto: int,
    free: Option<usize>,
    list: Seq<usize>,
) -> bool {
    &&& next.len() == taken.len()
    &&& free == (if list.len() == 0 {
        None
    } else {
        Some(list[0])
    })
    &&& forall|j: int, k: int|
        #![trigger at(j), at(k)]
        at(j) && at(k) && 0 <= j < k < list.len() ==> list[j] != list[k]
    &&& forall|k: int|
        #![trigger at(k)]
        at(k) && 0 <= k < list.len() ==> {
            &&& low <= list[k] < next.len()
            &&& !taken[list[k] as int]
            &&& next[list[k] as int] == (if k + 1 < list.len() {
                list[k + 1]
            } else {
                list[k]
            })
        }
    &&& forall|n: int|
        low <= n < upto && n < taken.len() && !(#[trigger] taken[n]) ==> exists|k: int|
            #![trigger at(k)]
            at(k) && 0 <= k < list.len() && list[k] == n
}

/// The empty list is the list of free slots where all slots are taken.
pub proof fn lemma_linked_empty(next: Seq<usize>, taken: Seq<bool>, low: usize, upto: int)
    requires
        next.len() == taken.len(),
        forall|n: int| low <= n < upto && n < taken.len() ==> #[trigger] taken[n],
    ensures
        linked(next, taken, low, upto, None, Seq::empty()),
{
    reveal(linked);
}

/// A list of free slots without a head is empty, and then all slots are
/// taken.
pub proof fn lemma_linked_none(
    next: Seq<usize>,
    taken: Seq<bool>,
    low: usize,
    upto: int,
    list: Seq<usize>,
)
    requires
        linked(next, taken, low, upto, None, list),
    ensures
        list == Seq::<usize>::empty(),
        forall|n: int| low <= n < upto && n < taken.len() ==> #[trigger] taken[n],
{
    reveal(linked);
    assert(list =~= Seq::<usize>::empty());
    assert forall|n: int| low <= n < upto && n < taken.len() implies #[trigger] taken[n] by {
        if !taken[n] {
            let k = choose|k: int| #![trigger at(k)] at(k) && 0 <= k < list.len() && list[k] == n;
        }
    }
}

/// The head of a list of free slots is a free slot, and the slots of the
/// list are free slots.
pub proof fn lemma_linked_head(
    next: Seq<usize>,
    taken: Seq<bool>,
    low: usize,
    upto: int,
    free: Option<usize>,
    list: Seq<usize>,
)
    requires
        linked(next, taken, low, upto, free, list),
    ensures
        next.len() == taken.len(),
        free is Some <==> list.len() > 0,
        list.len() > 0 ==> free == Some(list[0]),
        forall|k: int| 0 <= k < list.len() ==> low <= #[trigger] list[k] < next.len() && !taken[list[k] as int],
        list.no_duplicates(),
{
    reveal(linked);
    assert forall|k: int| 0 <= k < list.len() implies low <= #[trigger] list[k] < next.len()
        && !taken[list[k] as int] by {
        assert(at(k));
    }
    assert forall|j: int, k: int| 0 <= j < list.len() && 0 <= k < list.len() && j != k implies list[j]
        != list[k] by {
        assert(at(j) && at(k));
    }
}

/// Taking the head of a list of free slots leaves the rest of the list,
/// which starts at the slot that the head held, or is empty where the head
/// held itself.
pub proof fn lemma_linked_pop(
    next: Seq<usize>,
    taken: Seq<bool>,
    low: usize,
    free: Option<usize>,
    list: Seq<usize>,
    after_next: Seq<usize>,
    after_taken: Seq<bool>,
)
    requires
        linked(next, taken, low, next.len() as int, free, list),
        list.len() > 0,
        after_next =~= next.update(list[0] as int, after_next[list[0] as int]),
        after_taken =~= taken.update(list[0] as int, true),
    ensures
        linked(
            after_next,
            after_taken,
            low,
            next.len() as int,
            if next[list[0] as int] == list[0] {
                None
            } else {
                Some(next[list[0] as int])
            },
            list.drop_first(),
        ),
{
    reveal(linked);
    let rest = list.drop_first();
    let first = list[0];
    assert(at(0));
    if list.len() > 1 {
        assert(at(1));
        assert(rest[0] == list[1]);
    }
    assert forall|j: int, k: int| #![trigger at(j), at(k)] at(j) && at(k) && 0 <= j < k < rest.len() implies rest[j]
        != rest[k] by {
        assert(at(j + 1) && at(k + 1));
        assert(rest[j] == list[j + 1] && rest[k] == list[k + 1]);
    }
    assert forall|k: int| #![trigger at(k)] at(k) && 0 <= k < rest.len() implies {
        &&& low <= rest[k] < after_next.len()
        &&& !after_taken[rest[k] as int]
        &&& after_next[rest[k] as int] == (if k + 1 < rest.len() {
            rest[k + 1]
        } else {
            rest[k]
        })
    } by {
        assert(at(k + 1));
        assert(rest[k] == list[k + 1]);
        if k + 1 < rest.len() {
            assert(rest[k + 1] == list[k + 2]);
        }
        assert(list[k + 1] != first);
    }
    assert forall|n: int|
        low <= n < next.len() && n < after_taken.len() && !(#[trigger] after_taken[n]) implies exists|
        k: int,
    |
        #![trigger at(k)]
        at(k) && 0 <= k < rest.len() && rest[k] == n by {
        assert(after_taken[first as int]);
        assert(n != first);
        assert(taken[n] == after_taken[n]);
        assert(!taken[n]);
        assert(low <= n < next.len() && n < taken.len());
        let k = choose|k: int| #![trigger at(k)] at(k) && 0 <= k < list.len() && list[k] == n;
        assert(k > 0);
        assert(at(k - 1));
        assert(rest[k - 1] == n);
    }
}

/// Giving up a slot that is not in the list of free slots puts it at the
/// head of the list.
pub proof fn lemma_linked_push(
    next: Seq<usize>,
    taken: Seq<bool>,
    low: usize,
    upto: int,
    free: Option<usize>,
    list: Seq<usize>,
    slot: usize,
    after_next: Seq<usize>,
    after_taken: Seq<bool>,
)
    requires
        linked(next, taken, low, upto, free, list),
        low <= slot < next.len(),
        slot <= upto,
        forall|k: int| 0 <= k < list.len() ==> #[trigger] list[k] != slot,
        after_next =~= next.update(
            slot as int,
            match free {
                Some(head) => head,
                None => slot,
            },
        ),
        after_taken =~= taken.update(slot as int, false),
    ensures
        linked(
            after_next,
            after_taken,
            low,
            if upto > slot {
                upto
            } else {
                slot + 1
            },
            Some(slot),
            seq![slot] + list,
        ),
{
    reveal(linked);
    let grown = seq![slot] + list;
    assert(grown[0] == slot);
    if list.len() > 0 {
        assert(grown[1] == list[0]);
    }
    assert forall|j: int, k: int| #![trigger at(j), at(k)] at(j) && at(k) && 0 <= j < k < grown.len() implies grown[j]
        != grown[k] by {
        assert(grown[k] == list[k - 1]);
        if j > 0 {
            assert(at(j - 1) && at(k - 1));
            assert(grown[j] == list[j - 1]);
        }
    }
    assert forall|k: int| #![trigger at(k)] at(k) && 0 <= k < grown.len() implies {
        &&& low <= grown[k] < after_next.len()
        &&& !after_taken[grown[k] as int]
        &&& after_next[grown[k] as int] == (if k + 1 < grown.len() {
            grown[k + 1]
        } else {
            grown[k]
        })
    } by {
        if k > 0 {
            assert(at(k - 1));
            assert(grown[k] == list[k - 1]);
            if k + 1 < grown.len() {
                assert(grown[k + 1] == list[k]);
            }
        }
    }
    let bound = if upto > slot {
        upto
    } else {
        slot + 1
    };
    assert forall|n: int|
        low <= n < bound && n < after_taken.len() && !(#[trigger] after_taken[n]) implies exists|
        k: int,
    |
        #![trigger at(k)]
        at(k) && 0 <= k < grown.len() && grown[k] == n by {
        if n == slot {
            assert(at(0));
        } else {
            assert(!taken[n]);
            let k = choose|k: int| #![trigger at(k)] at(k) && 0 <= k < list.len() && list[k] == n;
            assert(at(k + 1));
            assert(grown[k + 1] == n);
        }
    }
}

/// A list of free slots is not touched by a change to a slot that is taken
/// and stays so.
pub proof fn lemma_linked_keep(
    next: Seq<usize>,
    taken: Seq<bool>,
    low: usize,
    upto: int,
    free: Option<usize>,
    list: Seq<usize>,
    slot: usize,
    after_next: Seq<usize>,
    after_taken: Seq<bool>,
)
    requires
        linked(next, taken, low, upto, free, list),
        slot < next.len(),
        slot <= upto,
        forall|k: int| 0 <= k < list.len() ==> #[trigger] list[k] != slot,
        after_next =~= next.update(slot as int, after_next[slot as int]),
        after_taken =~= taken.update(slot as int, true),
    ensures
        linked(
            after_next,
            after_taken,
            low,
            if upto > slot {
                upto
            } else {
                slot + 1
            },
            free,
            list,
        ),
{
    reveal(linked);
    assert forall|k: int| #![trigger at(k)] at(k) && 0 <= k < list.len() implies {
        &&& low <= list[k] < after_next.len()
        &&& !after_taken[list[k] as int]
        &&& after_next[list[k] as int] == (if k + 1 < list.len() {
            list[k + 1]
        } else {
            list[k]
        })
    } by {
        assert(at(k));
        assert(list[k] != slot);
    }
    let bound = if upto > slot {
        upto
    } else {
        slot + 1
    };
    assert forall|n: int|
        low <= n < bound && n < after_taken.len() && !(#[trigger] after_taken[n]) implies exists|
        k: int,
    |
        #![trigger at(k)]
        at(k) && 0 <= k < list.len() && list[k] == n by {
        assert(n != slot);
        assert(!taken[n]);
    }
}

/// A list of free slots stays what it is when the table grows by a slot
/// that is taken.
pub proof fn lemma_linked_grow(
    next: Seq<usize>,
    taken: Seq<bool>,
    low: usize,
    free: Option<usize>,
    list: Seq<usize>,
    holds: usize,
)
    requires
        linked(next, taken, low, next.len() as int, free, list),
    ensures
        linked(next.push(holds), taken.push(true), low, next.len() as int + 1, free, list),
{
    reveal(linked);
    let after_next = next.push(holds);
    let after_taken = taken.push(true);
    assert forall|k: int| #![trigger at(k)] at(k) && 0 <= k < list.len() implies {
        &&& low <= list[k] < after_next.len()
        &&& !after_taken[list[k] as int]
        &&& after_next[list[k] as int] == (if k + 1 < list.len() {
            list[k + 1]
        } else {
            list[k]
        })
    } by {
        assert(at(k));
    }
    assert forall|n: int|
        low <= n < next.len() + 1 && n < after_taken.len() && !(
        #[trigger] after_taken[n]) implies exists|k: int|
        #![trigger at(k)]
        at(k) && 0 <= k < list.len() && list[k] == n by {
        assert(n < next.len());
        assert(!taken[n]);
    }
}

} // verus!

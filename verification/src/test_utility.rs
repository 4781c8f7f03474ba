//! Random vectors and sets of vectors, for trying the library out.

use crate::operations::{singleton, union};
use crate::storage::{Ldd, Storage, Value};
use crate::tree::{Tree, Vector};
use rand::seq::IteratorRandom;
use rand::Rng;
use vstd::prelude::*;

verus! {

/// `Rng::gen_range` on `rand::thread_rng()`, for the range from 0 up to
/// `max_value`: some value of the range. The call panics on an empty range,
/// which is ruled out.
#[verifier::external_body]
fn random_value(max_value: Value) -> (value: Value)
    requires
        max_value > 0,
    ensures
        value < max_value,
{
    rand::thread_rng().gen_range(0..max_value)
}

/// `IteratorRandom::choose_multiple` on the range from 0 up to `max_value`
/// with `rand::thread_rng()`: `length` values of the range, or all of them
/// where the range has fewer, each of them once, in no particular order.
#[verifier::external_body]
fn random_choice(length: usize, max_value: Value) -> (values: Vec<Value>)
    ensures
        values@.len() == (if length <= max_value {
            length as int
        } else {
            max_value as int
        }),
        values@.no_duplicates(),
        forall|i: int| 0 <= i < values@.len() ==> values@[i] < max_value,
{
    (0..max_value).choose_multiple(&mut rand::thread_rng(), length)
}

/// Whether the values stand in ascending order.
pub open spec fn ascending(values: Seq<u32>) -> bool {
    forall|i: int, j: int| 0 <= i <= j < values.len() ==> values[i] <= values[j]
}

/// `slice::sort` on a vector of values: afterwards the vector holds the
/// values that it held, each as often as before, in ascending order.
#[verifier::external_body]
fn sort_values(values: &mut Vec<Value>)
    ensures
        ascending(final(values)@),
        final(values)@.to_multiset() == old(values)@.to_multiset(),
{
    values.sort();
}

/// Returns a vector of the given length with random values below
/// `max_value`.
pub fn random_vector(length: usize, max_value: Value) -> (vector: Vec<Value>)
    requires
        length > 0 ==> max_value > 0,
    ensures
        vector@.len() == length,
        forall|i: int| 0 <= i < length ==> vector@[i] < max_value,
{
    let mut vector: Vec<Value> = Vec::new();
    let mut i: usize = 0;
    while i < length
        invariant
            i <= length,
            length > 0 ==> max_value > 0,
            vector@.len() == i,
            forall|j: int| 0 <= j < i ==> vector@[j] < max_value,
        decreases length - i,
    {
        vector.push(random_value(max_value));
        i += 1;
    }
    vector
}

/// Returns a vector of `length` different random values below `max_value`,
/// or of all values below it where they are fewer, in ascending order.
pub fn random_sorted_vector(length: usize, max_value: Value) -> (vector: Vec<Value>)
    ensures
        vector@.len() == (if length <= max_value {
            length as int
        } else {
            max_value as int
        }),
        forall|i: int| 0 <= i < vector@.len() ==> vector@[i] < max_value,
        forall|i: int, j: int| 0 <= i < j < vector@.len() ==> vector@[i] < vector@[j],
{
    let mut result = random_choice(length, max_value);
    let ghost chosen = result@;
    sort_values(&mut result);
    proof {
        chosen.to_multiset_ensures();
        result@.to_multiset_ensures();
        chosen.lemma_multiset_has_no_duplicates();
        result@.lemma_multiset_has_no_duplicates_conv();
        assert forall|i: int| 0 <= i < result@.len() implies result@[i] < max_value by {
            assert(result@.contains(result@[i]));
            assert(chosen.to_multiset().count(result@[i]) > 0);
            assert(chosen.contains(result@[i]));
        }
    }
    result
}

/// Whether the vector `x` is one of `vectors`.
pub open spec fn holds(vectors: Seq<Vec<Value>>, x: Vector) -> bool {
    exists|i: int| 0 <= i < vectors.len() && #[trigger] vectors[i]@ == x
}

/// Whether no vector stands twice in `vectors`.
pub open spec fn distinct(vectors: Seq<Vec<Value>>) -> bool {
    forall|i: int, j: int|
        0 <= i < j < vectors.len() ==> (#[trigger] vectors[i])@ != (#[trigger] vectors[j])@
}

/// Whether two vectors hold the same values.
fn same_vector(a: &Vec<Value>, b: &Vec<Value>) -> (r: bool)
    ensures
        r == (a@ == b@),
{
    if a.len() != b.len() {
        return false;
    }
    let mut i: usize = 0;
    while i < a.len()
        invariant
            i <= a@.len(),
            a@.len() == b@.len(),
            forall|j: int| 0 <= j < i ==> a@[j] == b@[j],
        decreases a@.len() - i,
    {
        if a[i] != b[i] {
            return false;
        }
        i += 1;
    }
    assert(a@ =~= b@);
    true
}

/// Whether `vector` is one of `vectors`.
fn contains_vector(vectors: &Vec<Vec<Value>>, vector: &Vec<Value>) -> (r: bool)
    ensures
        r == holds(vectors@, vector@),
{
    let mut i: usize = 0;
    while i < vectors.len()
        invariant
            i <= vectors@.len(),
            forall|j: int| 0 <= j < i ==> (#[trigger] vectors@[j])@ != vector@,
        decreases vectors@.len() - i,
    {
        if same_vector(&vectors[i], vector) {
            return true;
        }
        i += 1;
    }
    false
}

/// Puts `vector` at the end of `vectors`, unless it is one of them
/// already.
pub fn add_vector(vectors: &mut Vec<Vec<Value>>, vector: Vec<Value>)
    ensures
        final(vectors)@ == (if holds(old(vectors)@, vector@) {
            old(vectors)@
        } else {
            old(vectors)@.push(vector)
        }),
        distinct(old(vectors)@) ==> distinct(final(vectors)@),
{
    if !contains_vector(vectors, &vector) {
        let ghost before = vectors@;
        vectors.push(vector);
        proof {
            if distinct(before) {
                assert forall|a: int, b: int| 0 <= a < b < vectors@.len() implies (
                #[trigger] vectors@[a])@ != (#[trigger] vectors@[b])@ by {
                    if b == before.len() {
                        assert(before[a]@ != vector@);
                    } else {
                        assert(before[a]@ != before[b]@);
                    }
                }
            }
        }
    }
}

/// Returns a set of at most `amount` random vectors, each of the given
/// length with values below `max_value`: `amount` vectors are drawn, and a
/// vector that was drawn before is left out.
pub fn random_vector_set(amount: usize, length: usize, max_value: Value) -> (set: Vec<Vec<Value>>)
    requires
        amount > 0 && length > 0 ==> max_value > 0,
    ensures
        set@.len() <= amount,
        amount > 0 ==> set@.len() > 0,
        distinct(set@),
        forall|i: int|
            0 <= i < set@.len() ==> (#[trigger] set@[i])@.len() == length && forall|k: int|
                0 <= k < length ==> set@[i]@[k] < max_value,
{
    let mut result: Vec<Vec<Value>> = Vec::new();
    let mut i: usize = 0;
    while i < amount
        invariant
            i <= amount,
            amount > 0 && length > 0 ==> max_value > 0,
            result@.len() <= i,
            i > 0 ==> result@.len() > 0,
            distinct(result@),
            forall|j: int|
                0 <= j < result@.len() ==> (#[trigger] result@[j])@.len() == length && forall|k: int|
                    0 <= k < length ==> result@[j]@[k] < max_value,
        decreases amount - i,
    {
        let vector = random_vector(length, max_value);
        add_vector(&mut result, vector);
        i += 1;
    }
    result
}

/// Returns a diagram that holds the given vectors, which have one length.
pub fn from_iter(storage: &mut Storage, vectors: &Vec<Vec<Value>>) -> (r: Ldd)
    requires
        old(storage).wf(),
        forall|i: int, j: int|
            0 <= i < vectors@.len() && 0 <= j < vectors@.len() ==> (#[trigger] vectors@[i])@.len()
                == (#[trigger] vectors@[j])@.len(),
    ensures
        final(storage).yields(old(storage), &r),
        forall|x: Vector| final(storage).set_of(&r).contains(x) <==> holds(vectors@, x),
{
    proof {
        storage.lemma_constants();
    }
    let mut result = storage.protect(storage.empty_set().borrow());
    let mut i: usize = 0;
    while i < vectors.len()
        invariant
            i <= vectors@.len(),
            storage.wf(),
            !old(storage).handles().contains_key(result.slot()),
            storage.handles() == old(storage).handles().insert(
                result.slot(),
                (result.index(), storage.tree_of(&result)),
            ),
            storage.collects() == old(storage).collects(),
            storage.reports() == old(storage).reports(),
            forall|a: int, b: int|
                0 <= a < vectors@.len() && 0 <= b < vectors@.len() ==> (#[trigger] vectors@[a])@.len()
                    == (#[trigger] vectors@[b])@.len(),
            forall|x: Vector|
                storage.set_of(&result).contains(x) <==> holds(vectors@.take(i as int), x),
        decreases vectors@.len() - i,
    {
        let ghost before = storage.set_of(&result);
        let ghost tree = storage.tree_of(&result);
        let single = singleton(storage, vectors[i].as_slice());
        proof {
            storage.lemma_handle(&result);
            crate::tree::lemma_chain(vectors@[i as int]@);
            if tree != Tree::False {
                crate::tree::lemma_first_vector(tree);
                let y = crate::tree::first_vector(tree);
                assert(before.contains(y));
                let k = choose|k: int|
                    0 <= k < vectors@.take(i as int).len() && #[trigger] vectors@.take(
                        i as int,
                    )[k]@ == y;
                assert(vectors@[k]@ == y);
                crate::tree::lemma_uniform_length(tree, y);
                assert(vectors@[k]@.len() == vectors@[i as int]@.len());
            }
        }
        let next = union(storage, &result, &single);
        proof {
            assert forall|x: Vector| storage.set_of(&next).contains(x) <==> holds(
                vectors@.take(i as int + 1),
                x,
            ) by {
                let shorter = vectors@.take(i as int);
                let longer = vectors@.take(i as int + 1);
                if holds(longer, x) {
                    let k = choose|k: int| 0 <= k < longer.len() && #[trigger] longer[k]@ == x;
                    if k < i {
                        assert(shorter[k]@ == x);
                    }
                }
                if holds(shorter, x) {
                    let k = choose|k: int| 0 <= k < shorter.len() && #[trigger] shorter[k]@ == x;
                    assert(longer[k]@ == x);
                }
                assert(longer[i as int]@ == vectors@[i as int]@);
            }
        }
        storage.release(result);
        storage.release(single);
        result = next;
        i += 1;
        proof {
            assert(storage.handles() =~= old(storage).handles().insert(
                result.slot(),
                (result.index(), storage.tree_of(&result)),
            ));
        }
    }
    proof {
        assert(vectors@.take(i as int) =~= vectors@);
        storage.lemma_handle(&result);
    }
    result
}

/// Returns the values of `vector` at the indices `proj`, in the order of the
/// indices.
pub fn project_vector(vector: &[Value], proj: &[Value]) -> (result: Vec<Value>)
    requires
        forall|k: int| 0 <= k < proj@.len() ==> proj@[k] < vector@.len(),
    ensures
        result@ == Seq::new(proj@.len(), |k: int| vector@[proj@[k] as int]),
{
    let mut result: Vec<Value> = Vec::new();
    let mut k: usize = 0;
    while k < proj.len()
        invariant
            k <= proj@.len(),
            forall|j: int| 0 <= j < proj@.len() ==> proj@[j] < vector@.len(),
            result@.len() == k,
            forall|j: int| 0 <= j < k ==> result@[j] == vector@[proj@[j] as int],
        decreases proj@.len() - k,
    {
        result.push(vector[proj[k] as usize]);
        k += 1;
    }
    assert(result@ =~= Seq::new(proj@.len(), |k: int| vector@[proj@[k] as int]));
    result
}

} // verus!

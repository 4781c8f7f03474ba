use ldd::operations::singleton;
use ldd::storage::{Ldd, ProtectionSet, Storage};
use ldd::test_utility::{from_iter, random_vector, random_vector_set};
use std::collections::hash_map::DefaultHasher;
use std::hash::{Hash, Hasher};

#[test]
fn one_result() {}

#[test]
fn test_garbage_collection_small() {
    let mut storage = Storage::new();

    let _child: Ldd;
    {
        // Make sure that this set goes out of scope, but keep a reference to some child ldd.
        let vector = random_vector(10, 10);
        let ldd = singleton(&mut storage, &vector);

        _child = storage.get(&ldd).1;
        storage.release(ldd);
        storage.garbage_collect();
    }

    storage.garbage_collect();
}

#[test]
fn test_garbage_collection() {
    let mut storage = Storage::new();

    let _child: Ldd;
    {
        // Make sure that this set goes out of scope, but keep a reference to some child ldd.
        let vector = random_vector_set(2000, 10, 2);
        let ldd = from_iter(&mut storage, &vector);

        let below = storage.get(&ldd).1;
        _child = storage.get(&below).1;
        storage.release(below);
        storage.release(ldd);
        storage.garbage_collect();
    }

    storage.garbage_collect();
}

#[test]
fn test_hashing() {
    let mut storage = Storage::new();

    let set = random_vector_set(32, 10, 10);
    let ldd = from_iter(&mut storage, &set);
    let ldd2 = from_iter(&mut storage, &set);

    let mut hasher = DefaultHasher::new();
    ldd.hash(&mut hasher);
    let left = hasher.finish();

    let mut hasher = DefaultHasher::new();
    ldd2.hash(&mut hasher);
    let right = hasher.finish();

    assert_eq!(ldd, ldd2, "Must be equal");
    assert_eq!(left, right, "Must be equal");
}

#[test]
fn test_protection_set() {
    let mut protection_set = ProtectionSet::new();

    // Protect a number of LDDs and record their indices.
    let root_variables = random_vector(1000, 5000);
    let mut indices: Vec<usize> = Vec::new();

    for variable in root_variables {
        indices.push(protection_set.protect(variable as usize));
    }

    // Unprotect a number of LDDs.
    for index in 0..250 {
        protection_set.unprotect(indices[index]);
        indices.remove(index);
    }

    for index in indices {
        let valid = protection_set.contains_root(index);
        assert!(
            valid,
            "All indices that are not unprotected should occur in the protection set"
        );
    }

    let mut roots = protection_set.iter();
    while let Some(root) = roots.next() {
        assert!(root <= 5000, "Root must be valid");
    }
}

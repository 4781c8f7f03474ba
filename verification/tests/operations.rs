use ldd::format::fmt_node;
use ldd::iterators::iter;
use ldd::operations::{
    compute_meta, compute_proj, element_of, len, minus, project, relational_product, singleton,
    union,
};
use ldd::storage::{Ldd, Storage};
use ldd::test_utility::{
    from_iter, project_vector, random_sorted_vector, random_vector, random_vector_set,
};
use rand::Rng;
use std::collections::HashSet;

fn as_set(vectors: Vec<Vec<u32>>) -> HashSet<Vec<u32>> {
    vectors.into_iter().collect()
}

fn ldd_of<'a, I: Iterator<Item = &'a Vec<u32>>>(storage: &mut Storage, vectors: I) -> Ldd {
    let vectors: Vec<Vec<u32>> = vectors.cloned().collect();
    from_iter(storage, &vectors)
}

// Compare the LDD element_of implementation for random inputs.
#[test]
fn operations_random_element_of() {
    let mut storage = Storage::new();
    let mut rng = rand::thread_rng();

    let length = 10;
    let set = as_set(random_vector_set(32, length, 10));
    let ldd = ldd_of(&mut storage, set.iter());

    // All elements in the set should be contained in the ldd.
    for expected in &set {
        assert!(element_of(&storage, expected, &ldd));
    }

    // No shorter vectors should be contained in the ldd (try several times).
    for _ in 0..10 {
        let short_vector = random_vector(rng.gen_range(0..length), 10);
        assert!(!element_of(&storage, &short_vector, &ldd));
    }

    // No longer vectors should be contained in the ldd.
    for _ in 0..10 {
        let short_vector = random_vector(rng.gen_range(length + 1..20), 10);
        assert!(!element_of(&storage, &short_vector, &ldd));
    }

    // Try vectors of correct size with both the set and ldd.
    for _ in 0..10 {
        let vector = random_vector(length, 10);
        assert_eq!(set.contains(&vector), element_of(&storage, &vector, &ldd));
    }
}

// Compare the HashSet implementation of union with the LDD union implementation for random inputs.
#[test]
fn operations_random_union() {
    let mut storage = Storage::new();

    let set_a = as_set(random_vector_set(32, 10, 10));
    let set_b = as_set(random_vector_set(32, 10, 10));

    let a = ldd_of(&mut storage, set_a.iter());
    let b = ldd_of(&mut storage, set_b.iter());
    let result = union(&mut storage, &a, &b);

    let expected = ldd_of(&mut storage, set_a.union(&set_b));
    assert_eq!(result, expected);
}

// Compare the singleton implementation with a random vector used as input.
#[test]
fn random_singleton() {
    let mut storage = Storage::new();
    let vector = random_vector(10, 10);

    let ldd = singleton(&mut storage, &vector[..]);

    // Check that ldd contains exactly vector that is equal to the vector.
    let mut it = iter(&storage, &ldd);
    let result = it.next().unwrap();
    assert_eq!(vector, result);
    assert_eq!(it.next(), None); // No other vectors.
}

// Test the len function with random inputs.
#[test]
fn random_len() {
    let mut storage = Storage::new();

    let set = as_set(random_vector_set(32, 10, 10));
    let ldd = ldd_of(&mut storage, set.iter());

    assert_eq!(set.len(), len(&mut storage, &ldd));
}

// Test the minus function with random inputs.
#[test]
fn random_minus() {
    let mut storage = Storage::new();

    let set_a = as_set(random_vector_set(32, 10, 10));
    let set_b = {
        let mut result = as_set(random_vector_set(32, 10, 10));

        // To ensure some overlap (which is unlikely) we insert some elements of a into b.
        let mut it = set_a.iter();
        for _ in 0..16 {
            result.insert(it.next().unwrap().clone());
        }

        result
    };

    let expected_result: HashSet<Vec<u32>> = set_a.difference(&set_b).cloned().collect();

    let a = ldd_of(&mut storage, set_a.iter());
    let b = ldd_of(&mut storage, set_b.iter());
    let result = minus(&mut storage, &a, &b);

    let expected = ldd_of(&mut storage, expected_result.iter());
    assert_eq!(result, expected);
}

// Test the relational product function with read-only inputs.
#[test]
fn random_readonly_relational_product() {
    let mut storage = Storage::new();
    let set = as_set(random_vector_set(32, 10, 10));

    let ldd = ldd_of(&mut storage, set.iter());

    let read_proj: Vec<u32> = vec![0, 3, 7, 9];
    let meta = compute_meta(&mut storage, &read_proj, &[]);

    let proj_ldd = compute_proj(&mut storage, &read_proj);
    let relation = project(&mut storage, &ldd, &proj_ldd);

    let result = relational_product(&mut storage, &ldd, &relation, &meta);
    let read_project = project(&mut storage, &result, &proj_ldd);

    // relational_product(R, S, read_proj, []) = { x | project(x, read_proj) = x' and (x', <>) in R and x in S }
    assert_eq!(read_project, relation);
}

// Test the relational product function with write-only inputs.
#[test]
fn random_writeonly_relational_product() {
    let mut storage = Storage::new();
    let set = as_set(random_vector_set(32, 10, 10));

    let ldd = ldd_of(&mut storage, set.iter());

    let write_proj: Vec<u32> = vec![0, 3, 7, 9];
    let meta = compute_meta(&mut storage, &[], &write_proj);

    let proj_ldd = compute_proj(&mut storage, &write_proj);
    let relation = project(&mut storage, &ldd, &proj_ldd);

    let result = relational_product(&mut storage, &ldd, &relation, &meta);
    let write_project = project(&mut storage, &result, &proj_ldd);

    // relational_product(R, S, [], write_proj) = { x[write_proj := y'] | (<>, y') in R and x in S }
    assert_eq!(write_project, relation);
}

#[test]
fn random_relational_product() {
    let mut storage = Storage::new();

    let set = as_set(random_vector_set(32, 10, 10));
    let relation = as_set(random_vector_set(32, 4, 10));

    // Pick arbitrary read and write parameters in order.
    let read_proj = random_sorted_vector(2, 9);
    let write_proj = random_sorted_vector(2, 9);

    // The indices of the input vectors do not match the indices in the relation. The input vector is defined for all values, but the relation only
    // for relevant positions.
    let (read_rel_proj, write_rel_proj) = {
        let mut read_rel_proj: Vec<u32> = Vec::new();
        let mut write_rel_proj: Vec<u32> = Vec::new();

        let mut current = 0;
        for i in 0..10 {
            if read_proj.contains(&(i as u32)) {
                read_rel_proj.push(current);
                current += 1;
            }

            if write_proj.contains(&(i as u32)) {
                write_rel_proj.push(current);
                current += 1;
            }
        }

        (read_rel_proj, write_rel_proj)
    };

    // Compute LDD result.
    let ldd = ldd_of(&mut storage, set.iter());
    let rel = ldd_of(&mut storage, relation.iter());

    let meta = compute_meta(&mut storage, &read_proj, &write_proj);
    let result = relational_product(&mut storage, &ldd, &rel, &meta);

    println!("set = {}", fmt_node(&storage, &ldd).to_string());
    println!("relation = {}", fmt_node(&storage, &rel).to_string());
    println!("result = {}", fmt_node(&storage, &result).to_string());
    println!("========");

    println!("meta = {}", fmt_node(&storage, &meta).to_string());
    println!(
        "read {:?}, write {:?}, read_rel {:?} and write_rel {:?}",
        read_proj, write_proj, read_rel_proj, write_rel_proj
    );

    let expected = {
        let mut expected: HashSet<Vec<u32>> = HashSet::new();

        // Compute relational_product(R, S, read_proj, write_proj) = { x[write_proj := y'] | project(x, read_proj) = x' and (x', y') in R and x in S }
        for x in set.iter() {
            'next: for rel in relation.iter() {
                let mut value: Vec<u32> = x.clone(); // The resulting vector.
                let x_prime = project_vector(rel, &read_rel_proj);
                let y_prime = project_vector(rel, &write_rel_proj);

                // Ensure that project(x, read_proj) = x'
                for (i, r) in read_proj.iter().enumerate() {
                    if value[*r as usize] != x_prime[i] {
                        continue 'next;
                    }
                }

                // Compute x[write_proj := y']
                for (i, w) in write_proj.iter().enumerate() {
                    value[*w as usize] = y_prime[i];
                }

                // Print information about the value that we are testing.
                println!("value = {:?}, rel = {:?}", &value, &rel);
                println!("x_prime = {:?}, y_prime = {:?}", &x_prime, &y_prime);

                assert!(
                    element_of(&storage, &value, &result),
                    "Result does not contain vector {:?}.",
                    &value
                );
                expected.insert(value);
            }
        }

        expected
    };

    // Check the other way around
    let mut it = iter(&storage, &result);
    while let Some(res) = it.next() {
        assert!(
            expected.contains(&res),
            "Result unexpectedly contains vector {:?}.",
            res
        );
    }
}

// Test the project function with random inputs.
#[test]
fn random_project() {
    let mut storage = Storage::new();

    let set = as_set(random_vector_set(32, 10, 10));
    let proj: Vec<u32> = vec![0, 3, 7, 9];

    let ldd = ldd_of(&mut storage, set.iter());
    let proj_ldd = compute_proj(&mut storage, &proj);
    let result = project(&mut storage, &ldd, &proj_ldd);

    // Compute a naive projection on the vector set.
    let mut expected_result: HashSet<Vec<u32>> = HashSet::new();
    for element in &set {
        expected_result.insert(project_vector(element, &proj));
    }
    let expected = ldd_of(&mut storage, expected_result.iter());
    assert_eq!(
        result, expected,
        "projected result does not match vector projection."
    );
}

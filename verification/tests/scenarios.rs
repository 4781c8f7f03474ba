use ldd::format::{fmt_node, print_dot};
use ldd::iterators::{iter, iter_right};
use ldd::operations::{
    checked_len, compute_meta, compute_proj, element_of, len, minus, project, relational_product,
    singleton, union,
};
use ldd::reach::{run, successors, Config};
use ldd::storage::{Ldd, LddRef, ProtectionSet, Storage};
use ldd::sylvan_io::{load_model, release_transitions, Input, LoadError, SylvanReader};
use ldd::test_utility::{
    add_vector, from_iter, project_vector, random_sorted_vector, random_vector,
    random_vector_set,
};

fn set_of(storage: &mut Storage, vectors: &[&[u32]]) -> Ldd {
    let vectors: Vec<Vec<u32>> = vectors.iter().map(|v| v.to_vec()).collect();
    from_iter(storage, &vectors)
}

fn vectors_of(storage: &Storage, ldd: &Ldd) -> Vec<Vec<u32>> {
    let mut result = Vec::new();
    let mut it = iter(storage, ldd);
    while let Some(vector) = it.next() {
        result.push(vector);
    }
    result
}

#[test]
fn union_of_two_singletons_holds_both() {
    let mut storage = Storage::new();
    let a = singleton(&mut storage, &[0, 1, 2, 3, 4]);
    let b = singleton(&mut storage, &[0, 4, 2, 1, 8]);
    let result = union(&mut storage, &a, &b);
    assert_eq!(
        vectors_of(&storage, &result),
        vec![vec![0, 1, 2, 3, 4], vec![0, 4, 2, 1, 8]]
    );
}

#[test]
fn union_minus_and_membership_of_small_sets() {
    let mut storage = Storage::new();
    let a = set_of(&mut storage, &[&[1, 2], &[1, 3], &[2, 2]]);
    let b = set_of(&mut storage, &[&[1, 3], &[3, 3]]);
    let both = union(&mut storage, &a, &b);
    assert_eq!(len(&mut storage, &both), 4);
    assert_eq!(
        vectors_of(&storage, &both),
        vec![vec![1, 2], vec![1, 3], vec![2, 2], vec![3, 3]]
    );
    let rest = minus(&mut storage, &a, &b);
    assert_eq!(vectors_of(&storage, &rest), vec![vec![1, 2], vec![2, 2]]);
    assert!(element_of(&storage, &[1, 3], &both));
    assert!(!element_of(&storage, &[9, 9], &both));
}

#[test]
fn projection_of_a_small_set() {
    let mut storage = Storage::new();
    let a = set_of(&mut storage, &[&[0, 0, 0], &[0, 1, 2], &[1, 1, 1]]);
    let proj = compute_proj(&mut storage, &[0, 2]);
    let result = project(&mut storage, &a, &proj);
    assert_eq!(
        vectors_of(&storage, &result),
        vec![vec![0, 0], vec![0, 2], vec![1, 1]]
    );
}

#[test]
fn projection_guides_and_relation_guides() {
    let mut storage = Storage::new();
    let proj = compute_proj(&mut storage, &[2, 0, 2]);
    assert_eq!(vectors_of(&storage, &proj), vec![vec![1, 0, 1]]);
    let nothing = compute_proj(&mut storage, &[]);
    assert_eq!(nothing, *storage.empty_vector());
    let meta = compute_meta(&mut storage, &[0, 3], &[0, 2]);
    assert_eq!(vectors_of(&storage, &meta), vec![vec![3, 4, 0, 2, 1]]);
    let silent = compute_meta(&mut storage, &[], &[]);
    assert_eq!(silent, *storage.empty_vector());
}

#[test]
fn read_only_relation_keeps_what_it_reads() {
    let mut storage = Storage::new();
    let set = random_vector_set(32, 10, 10);
    let ldd = from_iter(&mut storage, &set);
    let read = [0, 3, 7, 9];
    let proj = compute_proj(&mut storage, &read);
    let relation = project(&mut storage, &ldd, &proj);
    let meta = compute_meta(&mut storage, &read, &[]);
    let result = relational_product(&mut storage, &ldd, &relation, &meta);
    assert_eq!(result, ldd);
    let again = project(&mut storage, &result, &proj);
    assert_eq!(again, relation);
}

#[test]
fn relational_product_reads_and_writes() {
    let mut storage = Storage::new();
    // The relation turns a 0 at level 1 into a 5, where level 0 holds a 1.
    let set = set_of(&mut storage, &[&[1, 0, 7], &[1, 2, 7], &[2, 0, 7]]);
    let relation = set_of(&mut storage, &[&[1, 0, 5]]);
    let meta = compute_meta(&mut storage, &[0, 1], &[1]);
    assert_eq!(vectors_of(&storage, &meta), vec![vec![1, 3, 4]]);
    let result = relational_product(&mut storage, &set, &relation, &meta);
    assert_eq!(vectors_of(&storage, &result), vec![vec![1, 5, 7]]);
    // A relation that only writes level 2.
    let writes = set_of(&mut storage, &[&[8], &[9]]);
    let meta = compute_meta(&mut storage, &[], &[2]);
    assert_eq!(vectors_of(&storage, &meta), vec![vec![0, 0, 2]]);
    let result = relational_product(&mut storage, &set, &writes, &meta);
    assert_eq!(
        vectors_of(&storage, &result),
        vec![
            vec![1, 0, 8],
            vec![1, 0, 9],
            vec![1, 2, 8],
            vec![1, 2, 9],
            vec![2, 0, 8],
            vec![2, 0, 9]
        ]
    );
    // Without a relation nothing is reached, and beyond the tags all is kept.
    let empty = storage.empty_set().borrow();
    let empty = storage.protect(empty);
    let nothing = relational_product(&mut storage, &set, &empty, &meta);
    assert_eq!(nothing, empty);
    let top = storage.empty_vector().borrow();
    let top = storage.protect(top);
    let kept = relational_product(&mut storage, &set, &empty, &top);
    assert_eq!(kept, set);
}

#[test]
fn garbage_collection_keeps_what_is_protected() {
    let mut storage = Storage::new();
    let vectors = random_vector_set(2000, 10, 2);
    let ldd = from_iter(&mut storage, &vectors);
    let below = storage.get(&ldd).1;
    let child = storage.get(&below).1;
    let before = vectors_of(&storage, &child);
    let count = len(&mut storage, &child);
    let index = ldd.index();
    storage.release(below);
    storage.release(ldd);
    storage.garbage_collect();
    assert!(storage.contains(child.borrow()));
    assert!(!storage.contains(LddRef::new(index)));
    assert_eq!(vectors_of(&storage, &child), before);
    assert_eq!(len(&mut storage, &child), count);
    assert_eq!(count, before.len());
    // The freed slots are taken again.
    let size = storage.size();
    let single = singleton(&mut storage, &[7, 7, 7]);
    assert_eq!(storage.size(), size);
    assert!(element_of(&storage, &[7, 7, 7], &single));
    let both = union(&mut storage, &child, &child);
    assert_eq!(both, child);
}

#[test]
fn garbage_collection_at_the_safepoint_of_insert() {
    let mut storage = Storage::new();
    let kept = singleton(&mut storage, &[1, 2, 3]);
    // More nodes than the first count of insert allows for.
    for round in 0..40 {
        let vectors = random_vector_set(100, 6, 50);
        let ldd = from_iter(&mut storage, &vectors);
        assert_eq!(len(&mut storage, &ldd), vectors.len(), "round {}", round);
        storage.release(ldd);
    }
    assert_eq!(vectors_of(&storage, &kept), vec![vec![1, 2, 3]]);
    // Nothing was counted, since the storage was not asked to.
    assert_eq!(storage.collected(), 0);
    storage.enable_garbage_collection(false);
    let size = storage.size();
    for _ in 0..10 {
        let vectors = random_vector_set(100, 6, 50);
        let ldd = from_iter(&mut storage, &vectors);
        storage.release(ldd);
    }
    assert!(storage.size() >= size);
    storage.garbage_collect();
    assert_eq!(vectors_of(&storage, &kept), vec![vec![1, 2, 3]]);
}

#[test]
fn equal_sets_are_equal_diagrams() {
    let mut storage = Storage::new();
    let a = set_of(&mut storage, &[&[1, 2], &[3, 4], &[1, 9]]);
    let b = set_of(&mut storage, &[&[1, 9], &[1, 2], &[3, 4], &[1, 2]]);
    assert_eq!(a, b);
    assert_eq!(a.index(), b.index());
    assert_ne!(a.root(), b.root());
    let same = union(&mut storage, &a, &a);
    assert_eq!(same, a);
    let none = minus(&mut storage, &a, &a);
    assert_eq!(none, *storage.empty_set());
    let empty = storage.empty_set().borrow();
    let empty = storage.protect(empty);
    let left = union(&mut storage, &a, &empty);
    assert_eq!(left, a);
    let right = union(&mut storage, &empty, &a);
    assert_eq!(right, a);
    let all = minus(&mut storage, &a, &empty);
    assert_eq!(all, a);
}

#[test]
fn the_constants_and_the_empty_vector() {
    let mut storage = Storage::new();
    assert_eq!(storage.empty_set().index(), 0);
    assert_eq!(storage.empty_vector().index(), 1);
    let top = singleton(&mut storage, &[]);
    assert_eq!(top, *storage.empty_vector());
    assert!(element_of(&storage, &[], &top));
    assert!(!element_of(&storage, &[0], &top));
    assert_eq!(vectors_of(&storage, &top), vec![Vec::<u32>::new()]);
    assert_eq!(len(&mut storage, &top), 1);
    let empty = storage.empty_set().borrow();
    let empty = storage.protect(empty);
    assert!(!element_of(&storage, &[], &empty));
    assert_eq!(vectors_of(&storage, &empty), Vec::<Vec<u32>>::new());
    assert_eq!(len(&mut storage, &empty), 0);
    assert_eq!(checked_len(&mut storage, &empty), Some(0));
}

#[test]
fn the_number_of_vectors_is_counted_along_the_diagram() {
    let mut storage = Storage::new();
    // All vectors of length 3 over the values 0 to 3: 4 * 4 * 4 of them.
    let mut all: Vec<Vec<u32>> = Vec::new();
    for a in 0..4 {
        for b in 0..4 {
            for c in 0..4 {
                all.push(vec![a, b, c]);
            }
        }
    }
    let ldd = from_iter(&mut storage, &all);
    assert_eq!(len(&mut storage, &ldd), 64);
    assert_eq!(checked_len(&mut storage, &ldd), Some(64));
    // The diagram shares what stands below its values: 4 nodes on each level.
    assert_eq!(storage.operation_cache().sizes().0, 3);
}

#[test]
fn node_insertion_finds_the_node_that_exists() {
    let mut storage = Storage::new();
    let down = storage.empty_vector().borrow();
    let down = storage.protect(down);
    let right = storage.empty_set().borrow();
    let right = storage.protect(right);
    let size = storage.size();
    let a = storage.insert(5, &down, &right);
    assert_eq!(storage.size(), size + 1);
    let b = storage.insert(5, &down, &right);
    assert_eq!(storage.size(), size + 1);
    assert_eq!(a.index(), b.index());
    let c = storage.insert(4, &down, &a);
    assert_ne!(c.index(), a.index());
    assert_eq!(storage.value(c.borrow()), 4);
    let data = storage.get(&c);
    assert_eq!(data.0, 4);
    assert_eq!(data.1, down);
    assert_eq!(data.2, a);
    let data = storage.get_ref(c.borrow());
    assert_eq!(data.1.index(), 1);
    assert_eq!(data.2.index(), a.index());
    assert_eq!(storage.down(c.borrow()), down);
    assert_eq!(storage.right(c.borrow()), a);
    let mut neighbours = iter_right(&storage, &c);
    assert_eq!(neighbours.next().map(|data| data.0), Some(4));
    assert_eq!(neighbours.next().map(|data| data.0), Some(5));
    assert!(neighbours.next().is_none());
}

#[test]
fn the_protection_set_takes_free_slots_again() {
    let mut set = ProtectionSet::new();
    assert_eq!(set.maximum_size(), 0);
    let a = set.protect(10);
    let b = set.protect(20);
    let c = set.protect(30);
    assert_eq!((a, b, c), (0, 1, 2));
    assert_eq!(set.number_of_insertions(), 3);
    set.unprotect(b);
    set.unprotect(a);
    assert!(!set.contains_root(a));
    assert!(set.contains_root(c));
    let mut roots = set.iter();
    assert_eq!(roots.next(), Some(30));
    assert_eq!(roots.next(), None);
    assert_eq!(set.protect(40), a);
    assert_eq!(set.protect(50), b);
    assert_eq!(set.protect(60), 3);
    assert_eq!(set.maximum_size(), 4);
    assert_eq!(set.number_of_insertions(), 6);
    let mut roots = set.iter();
    assert_eq!(roots.next(), Some(40));
    assert_eq!(roots.next(), Some(50));
    assert_eq!(roots.next(), Some(30));
    assert_eq!(roots.next(), Some(60));
    assert_eq!(roots.next(), None);
}

#[test]
fn the_text_of_a_set() {
    let mut storage = Storage::new();
    let a = set_of(&mut storage, &[&[1, 2], &[1, 30], &[205, 0]]);
    assert_eq!(
        fmt_node(&storage, &a).to_string(),
        "{\n<1 2 >\n<1 30 >\n<205 0 >\n}"
    );
    let empty = storage.empty_set().borrow();
    let empty = storage.protect(empty);
    assert_eq!(fmt_node(&storage, &empty).to_string(), "{\n}");
    let top = storage.empty_vector().borrow();
    let top = storage.protect(top);
    assert_eq!(fmt_node(&storage, &top).to_string(), "{\n<>\n}");
}

#[test]
fn the_drawing_of_a_diagram() {
    let mut storage = Storage::new();
    let head = "\ndigraph \"DD\" {\ngraph [dpi = 300];\ncenter = true;\nedge [dir = forward];\n\n";
    let empty = storage.empty_set().borrow();
    let empty = storage.protect(empty);
    assert_eq!(
        print_dot(&storage, &empty),
        format!("{}0 [shape=record, label=\"False\"];\n}}\n", head)
    );
    let top = storage.empty_vector().borrow();
    let top = storage.protect(top);
    assert_eq!(
        print_dot(&storage, &top),
        format!("{}1 [shape=record, label=\"True\"];\n}}\n", head)
    );
    let a = set_of(&mut storage, &[&[4, 7], &[6, 7]]);
    let below = storage.get(&a).1;
    let text = print_dot(&storage, &a);
    let node = a.index();
    let down = below.index();
    assert_eq!(
        text,
        format!(
            "{head}{node} [shape=record, label=\"<4> 4|<6> 6\"];\n\
             {node}:4 -> {down}:7;\n{node}:6 -> {down}:7;\n\
             {down} [shape=record, label=\"<7> 7\"];\n\
             {down} [shape=record, label=\"<7> 7\"];\n}}\n"
        )
    );
}

#[test]
fn random_vectors_stay_below_their_bound() {
    let vector = random_vector(200, 3);
    assert_eq!(vector.len(), 200);
    assert!(vector.iter().all(|value| *value < 3));
    assert_eq!(random_vector(0, 0), Vec::<u32>::new());
    let sorted = random_sorted_vector(5, 9);
    assert_eq!(sorted.len(), 5);
    assert!(sorted.windows(2).all(|pair| pair[0] < pair[1]));
    assert!(sorted.iter().all(|value| *value < 9));
    assert_eq!(random_sorted_vector(7, 4), vec![0, 1, 2, 3]);
    let set = random_vector_set(50, 2, 2);
    assert!(set.len() <= 4);
    for (i, a) in set.iter().enumerate() {
        assert_eq!(a.len(), 2);
        for b in set.iter().skip(i + 1) {
            assert_ne!(a, b);
        }
    }
    assert_eq!(project_vector(&[5, 6, 7, 8], &[0, 3, 1]), vec![5, 8, 6]);
}

fn word32(bytes: &mut Vec<u8>, value: u32) {
    bytes.extend_from_slice(&value.to_le_bytes());
}

fn word64(bytes: &mut Vec<u8>, value: u64) {
    bytes.extend_from_slice(&value.to_le_bytes());
}

fn record(bytes: &mut Vec<u8>, value: u32, down: u64, right: u64) {
    let a: u64 = (right << 1) | (((value & 0xffff) as u64) << 48);
    let b: u64 = ((value >> 16) as u64) | (down << 17);
    word64(bytes, a);
    word64(bytes, b);
}

// Three boolean variables, all 0 at first. The first transition turns the
// first variable from 0 into 1; the second sets the third variable to 1 where
// the first is 1.
fn small_model() -> Vec<u8> {
    let mut bytes = Vec::new();
    word32(&mut bytes, 3);
    word32(&mut bytes, 0);
    word64(&mut bytes, 3);
    record(&mut bytes, 0, 1, 0);
    record(&mut bytes, 0, 2, 0);
    record(&mut bytes, 0, 3, 0);
    word64(&mut bytes, 4);
    word32(&mut bytes, 2);
    word32(&mut bytes, 1);
    word32(&mut bytes, 1);
    word32(&mut bytes, 0);
    word32(&mut bytes, 0);
    word32(&mut bytes, 1);
    word32(&mut bytes, 1);
    word32(&mut bytes, 0);
    word32(&mut bytes, 2);
    word64(&mut bytes, 2);
    record(&mut bytes, 1, 1, 0);
    record(&mut bytes, 0, 5, 0);
    word64(&mut bytes, 6);
    word64(&mut bytes, 1);
    record(&mut bytes, 1, 5, 0);
    word64(&mut bytes, 7);
    bytes
}

#[test]
fn a_model_is_read_and_explored() {
    let mut storage = Storage::new();
    let bytes = small_model();
    let (initial, transitions) = load_model(&mut storage, &bytes).unwrap();
    assert_eq!(vectors_of(&storage, &initial), vec![vec![0, 0, 0]]);
    assert_eq!(transitions.len(), 2);
    assert_eq!(transitions[0].read_proj, vec![0]);
    assert_eq!(transitions[0].write_proj, vec![0]);
    assert_eq!(transitions[1].read_proj, vec![0]);
    assert_eq!(transitions[1].write_proj, vec![2]);
    assert_eq!(vectors_of(&storage, &transitions[0].relation), vec![vec![0, 1]]);
    assert_eq!(vectors_of(&storage, &transitions[1].relation), vec![vec![1, 1]]);
    assert_eq!(vectors_of(&storage, &transitions[0].meta), vec![vec![3, 4]]);
    assert_eq!(vectors_of(&storage, &transitions[1].meta), vec![vec![1, 0, 2]]);
    let next = successors(&mut storage, &initial, &transitions);
    assert_eq!(vectors_of(&storage, &next), vec![vec![1, 0, 0]]);
    assert_eq!(run(&mut storage, &initial, &transitions), Some(3));
}

#[test]
fn a_broken_model_is_refused() {
    let bytes = small_model();
    for length in [0, 3, 7, 8, 15, 16, 40, 63, 64, 71, 72, 75, 79, 87, 92, 100, 140, 155] {
        let mut storage = Storage::new();
        assert!(matches!(
            load_model(&mut storage, &bytes[..length]),
            Err(LoadError::UnexpectedEof)
        ));
    }
    // A record that names the node 9, which is not defined.
    let mut undefined = Vec::new();
    word32(&mut undefined, 1);
    word32(&mut undefined, 0);
    word64(&mut undefined, 1);
    record(&mut undefined, 0, 9, 0);
    word64(&mut undefined, 2);
    let mut storage = Storage::new();
    assert!(matches!(
        load_model(&mut storage, &undefined),
        Err(LoadError::UndefinedNode(9))
    ));
    // A root that is not defined.
    let mut rootless = Vec::new();
    word32(&mut rootless, 1);
    word32(&mut rootless, 0);
    word64(&mut rootless, 1);
    record(&mut rootless, 0, 1, 0);
    word64(&mut rootless, 3);
    let mut storage = Storage::new();
    assert!(matches!(
        load_model(&mut storage, &rootless),
        Err(LoadError::UndefinedNode(3))
    ));
    // A node with nothing below it, and one with a smaller value to its right.
    for (down, right) in [(0, 0), (1, 2), (1, 1)] {
        let mut invalid = Vec::new();
        word32(&mut invalid, 1);
        word32(&mut invalid, 0);
        word64(&mut invalid, 2);
        record(&mut invalid, 5, 1, 0);
        record(&mut invalid, 9, down, right);
        word64(&mut invalid, 3);
        let mut storage = Storage::new();
        assert!(matches!(
            load_model(&mut storage, &invalid),
            Err(LoadError::InvalidNode(3))
        ));
    }
}

#[test]
fn numbers_are_read_in_little_endian() {
    let bytes = [
        0x78, 0x56, 0x34, 0x12, 0xef, 0xcd, 0xab, 0x89, 0x67, 0x45, 0x23, 0x01, 0xff,
    ];
    let mut input = Input::new(&bytes);
    assert_eq!(input.read_u32(), Ok(0x12345678));
    assert_eq!(input.read_u64(), Ok(0x0123456789abcdef));
    assert_eq!(input.read_u32(), Err(LoadError::UnexpectedEof));
    assert_eq!(input.read_u64(), Err(LoadError::UnexpectedEof));
    // A value of 32 bits is split over the two words of a record.
    let mut storage = Storage::new();
    let mut reader = SylvanReader::new();
    let mut block = Vec::new();
    word64(&mut block, 1);
    record(&mut block, 0xdeadbeef, 1, 0);
    word64(&mut block, 2);
    let mut input = Input::new(&block);
    let ldd = reader.read_ldd(&mut storage, &mut input).unwrap();
    assert_eq!(vectors_of(&storage, &ldd), vec![vec![0xdeadbeef]]);
    let again = reader.node_from_index(&mut storage, 2).unwrap();
    assert_eq!(again, ldd);
    assert_eq!(
        reader.node_from_index(&mut storage, 3).unwrap_err(),
        LoadError::UndefinedNode(3)
    );
    reader.release(&mut storage);
    assert!(element_of(&storage, &[0xdeadbeef], &ldd));
}

#[test]
fn the_arguments_name_the_model() {
    let args = vec!["reach".to_string(), "model.ldd".to_string()];
    assert_eq!(Config::new(&args).unwrap().filename, "model.ldd");
    assert_eq!(Config::new(&args[..1]).err(), Some("Requires model filename"));
    assert_eq!(Config::new(&[]).err(), Some("Requires model filename"));
}

#[test]
fn a_vector_is_added_once() {
    let mut vectors: Vec<Vec<u32>> = Vec::new();
    add_vector(&mut vectors, vec![1, 2]);
    add_vector(&mut vectors, vec![3, 4]);
    add_vector(&mut vectors, vec![1, 2]);
    add_vector(&mut vectors, vec![1]);
    assert_eq!(vectors, vec![vec![1, 2], vec![3, 4], vec![1]]);
    assert_eq!(random_vector_set(5, 3, 1), vec![vec![0, 0, 0]]);
    assert!(random_vector_set(0, 3, 1).is_empty());
}

fn live_roots(storage: &Storage) -> usize {
    let mut count = 0;
    let mut roots = storage.protection_set().iter();
    while roots.next().is_some() {
        count += 1;
    }
    count
}

#[test]
fn a_model_leaves_the_handles_that_are_returned() {
    let bytes = small_model();
    // A model that cannot be read leaves no handle, wherever it ends.
    for length in 0..bytes.len() {
        let mut storage = Storage::new();
        let kept = singleton(&mut storage, &[4, 2]);
        assert!(load_model(&mut storage, &bytes[..length]).is_err());
        assert_eq!(live_roots(&storage), 3, "length {}", length);
        storage.garbage_collect();
        for index in 4..storage.size() {
            assert!(!storage.contains(LddRef::new(index)), "length {}", length);
        }
        assert_eq!(vectors_of(&storage, &kept), vec![vec![4, 2]]);
    }
    // One that is read leaves the initial set, and two handles for each
    // transition.
    let mut storage = Storage::new();
    let (initial, transitions) = load_model(&mut storage, &bytes).unwrap();
    assert_eq!(live_roots(&storage), 2 + 1 + 2 * transitions.len());
    release_transitions(&mut storage, transitions);
    assert_eq!(live_roots(&storage), 3);
    storage.release(initial);
    assert_eq!(live_roots(&storage), 2);
    storage.garbage_collect();
    for index in 2..storage.size() {
        assert!(!storage.contains(LddRef::new(index)));
    }
}

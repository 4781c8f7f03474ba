use ldd::operations::{compute_meta, height_of, singleton};
use ldd::reach::{applicable, count_levels, run};
use ldd::storage::Storage;
use ldd::sylvan_io::Transition;

#[test]
fn the_height_of_a_diagram_is_the_length_of_its_vectors() {
    let mut storage = Storage::new();
    assert_eq!(height_of(&storage, storage.empty_set().borrow()), Some(0));
    assert_eq!(height_of(&storage, storage.empty_vector().borrow()), Some(0));
    let single = singleton(&mut storage, &[4, 5, 6]);
    assert_eq!(height_of(&storage, single.borrow()), Some(3));
}

#[test]
fn the_tags_of_a_relation_are_counted() {
    let mut storage = Storage::new();
    // Position 0 is read, position 1 is written, position 2 is both, and
    // position 3 is neither, below position 4, which is read.
    let meta = compute_meta(&mut storage, &[0, 2, 4], &[1, 2]);
    let levels = count_levels(&storage, meta.borrow()).unwrap();
    assert!(levels.valid);
    assert_eq!(levels.tags, 6);
    assert_eq!(levels.silent, 1);
    assert_eq!(levels.taken, 1);
    assert_eq!(levels.added, 1);
    // Values are no tags if they are larger than 4.
    let other = singleton(&mut storage, &[1, 5, 0]);
    let levels = count_levels(&storage, other.borrow()).unwrap();
    assert!(!levels.valid);
    assert_eq!(levels.tags, 3);
}

fn toggle(storage: &mut Storage, position: u32) -> Transition {
    let read_proj = vec![position];
    let write_proj = vec![position];
    let relation = singleton(storage, &[0, 1]);
    let meta = compute_meta(storage, &read_proj, &write_proj);
    Transition { read_proj, write_proj, relation, meta }
}

#[test]
fn transitions_apply_to_states_that_are_long_enough() {
    let mut storage = Storage::new();
    let initial = singleton(&mut storage, &[0, 0]);
    let first = toggle(&mut storage, 0);
    let second = toggle(&mut storage, 1);
    let beyond = toggle(&mut storage, 2);
    let transitions = vec![first, second];
    assert!(applicable(&storage, &initial, &transitions));
    assert_eq!(run(&mut storage, &initial, &transitions), Some(4));
    let transitions = vec![beyond];
    assert!(!applicable(&storage, &initial, &transitions));
}

#[test]
fn a_relation_that_changes_the_length_does_not_apply() {
    let mut storage = Storage::new();
    let initial = singleton(&mut storage, &[0, 0]);
    let read_proj = vec![0];
    let write_proj = vec![];
    let relation = singleton(&mut storage, &[0]);
    let meta = compute_meta(&mut storage, &read_proj, &write_proj);
    let only_read = Transition { read_proj, write_proj, relation, meta };
    assert!(applicable(&storage, &initial, &vec![only_read]));
    // A diagram of tags that takes a value and puts none in its place.
    let read_proj = vec![0];
    let write_proj = vec![0];
    let relation = singleton(&mut storage, &[0]);
    let meta = singleton(&mut storage, &[3]);
    let taking = Transition { read_proj, write_proj, relation, meta };
    assert!(!applicable(&storage, &initial, &vec![taking]));
}

#[test]
fn the_collector_counts_what_it_frees() {
    let mut storage = Storage::new();
    assert_eq!(storage.size(), 2);
    assert_eq!(storage.collected(), 0);
    let kept = singleton(&mut storage, &[9]);
    let dropped = singleton(&mut storage, &[1, 2, 3]);
    assert_eq!(storage.size(), 6);
    storage.release(dropped);
    // Nothing is counted unless the storage was asked to.
    storage.garbage_collect();
    assert_eq!(storage.collected(), 0);
    assert_eq!(storage.size(), 6);
    let dropped = singleton(&mut storage, &[1, 2, 3]);
    assert_eq!(storage.size(), 6);
    storage.release(dropped);
    storage.enable_performance_metrics(true);
    storage.garbage_collect();
    assert_eq!(storage.collected(), 3);
    storage.garbage_collect();
    assert_eq!(storage.collected(), 0);
    // Two of the three free slots are taken, then the third and a new one.
    let pair = singleton(&mut storage, &[7, 7]);
    assert_eq!(storage.size(), 6);
    let other = singleton(&mut storage, &[8, 8]);
    assert_eq!(storage.size(), 7);
    assert!(storage.contains(kept.borrow()));
    assert!(storage.contains(pair.borrow()));
    assert!(storage.contains(other.borrow()));
}

#[test]
fn a_collection_clears_the_cache() {
    let mut storage = Storage::new();
    let a = singleton(&mut storage, &[1, 2]);
    let b = singleton(&mut storage, &[1, 3]);
    let both = ldd::operations::union(&mut storage, &a, &b);
    let less = ldd::operations::minus(&mut storage, &both, &a);
    assert_eq!(less, b);
    assert_eq!(ldd::operations::len(&mut storage, &both), 2);
    let sizes = storage.operation_cache().sizes();
    assert!(sizes.0 > 0);
    assert!(sizes.1 > 0);
    assert!(sizes.2 > 0);
    // The union is found again under the key with the smaller index first.
    let again = ldd::operations::union(&mut storage, &b, &a);
    assert_eq!(again, both);
    assert_eq!(storage.operation_cache().sizes().1, sizes.1);
    storage.garbage_collect();
    assert_eq!(storage.operation_cache().sizes(), (0, 0, 0, 0));
}

#[test]
fn more_vectors_than_a_machine_word_counts() {
    let mut storage = Storage::new();
    let empty = storage.protect(storage.empty_set().borrow());
    let mut below = storage.protect(storage.empty_vector().borrow());
    // All vectors of zeroes and ones of the length 63; they share 126 nodes.
    for _ in 0..63 {
        let one = storage.insert(1, &below, &empty);
        let zero = storage.insert(0, &below, &one);
        storage.release(one);
        storage.release(below);
        below = zero;
    }
    assert_eq!(storage.size(), 2 + 126);
    assert_eq!(ldd::operations::checked_len(&mut storage, &below), Some(1usize << 63));
    assert_eq!(ldd::operations::len(&mut storage, &below), 1usize << 63);
    // One level more, and they are too many.
    let one = storage.insert(1, &below, &empty);
    let all = storage.insert(0, &below, &one);
    assert_eq!(ldd::operations::checked_len(&mut storage, &all), None);
    assert_eq!(ldd::operations::len_ref(&mut storage, all.borrow()), usize::MAX);
    assert_eq!(height_of(&storage, all.borrow()), Some(64));
}

#[test]
fn a_collection_at_a_safepoint_is_counted() {
    let mut storage = Storage::new();
    storage.enable_performance_metrics(true);
    let kept = singleton(&mut storage, &[1, 2, 3]);
    // The count of new nodes runs out after 10000 of them: 3 of the kept
    // set, 2 of each of 4998 sets, and the lower one of the next set.
    let mut created = 3;
    let mut value = 10;
    while storage.collected() == 0 {
        let dropped = singleton(&mut storage, &[value, value]);
        storage.release(dropped);
        value += 1;
        created += 2;
        assert!(created <= 10001);
    }
    assert_eq!(created, 10001);
    // All nodes were garbage but those of the kept set and the lower one of
    // the last set, which was protected while the upper one was made.
    assert_eq!(storage.collected(), 10000 - 3 - 1);
    assert!(storage.contains(kept.borrow()));
    // The upper node took a free slot.
    assert_eq!(storage.size(), 2 + 10000);
}

use pairing_graph::pairing_heap::{KeyError, PairingHeap};
use rand::random;

const TEST_SIZES: [usize; 4] = [1, 10, 100, 1000];

fn random_vec(size: usize) -> Vec<usize> {
    let mut v = Vec::new();
    for _ in 0..size {
        // mod by size/2 to make sure we get duplicates
        v.push(random::<usize>() % (if size > 1 { size / 2 } else { size }));
    }
    v
}

fn drain(heap: &mut PairingHeap<()>) -> Vec<usize> {
    let mut out = Vec::new();
    while let Some((k, _)) = heap.delete_min() {
        out.push(k);
    }
    out
}

#[test]
fn heap_test_basic() {
    for size in &TEST_SIZES {
        let mut heap = PairingHeap::<()>::new();
        let v = random_vec(*size);
        let sorted = {
            let mut copy = v.clone();
            copy.sort();
            copy
        };
        for i in &v {
            heap.insert(*i, ());
        }
        for i in sorted {
            {
                let min = heap.find_min();
                assert!(min.is_some());
                let (k, _) = min.unwrap();
                assert_eq!(*k, i);
                assert!(!heap.is_empty());
            }
            {
                let min = heap.delete_min();
                assert!(min.is_some());
                let (k, _) = min.unwrap();
                assert_eq!(k, i);
            }
        }
        assert!(heap.is_empty());
    }
}

#[test]
fn test_remove_min() {
    for size in &TEST_SIZES {
        let mut heap = PairingHeap::<()>::new();
        let v = random_vec(*size);
        let mut updated = v.clone();
        let mut handles = Vec::new();
        for i in &v {
            handles.push(heap.insert(*i, ()));
        }
        for (i, h) in handles.iter().enumerate() {
            let new = if v[i] == 0 { v[i] } else { v[i] - (random::<usize>() % v[i]) };
            updated[i] = new;
            assert_eq!(heap.try_update_key(h, new), Ok(()));
        }
        updated.sort();
        for i in updated {
            {
                let min = heap.find_min();
                assert!(min.is_some());
                let (k, _) = min.unwrap();
                assert_eq!(*k, i);
                assert!(!heap.is_empty());
            }
            {
                let min = heap.delete_min();
                assert!(min.is_some());
                let (k, _) = min.unwrap();
                assert_eq!(k, i);
            }
        }
        assert!(heap.is_empty());
    }
}

#[test]
fn find_and_delete_after_four_inserts() {
    let mut heap = PairingHeap::<&str>::new();
    heap.insert(5, "five");
    heap.insert(1, "one");
    heap.insert(10, "ten");
    heap.insert(3, "three");
    assert_eq!(heap.find_min(), Some((&1, &"one")));
    assert_eq!(heap.delete_min(), Some((1, "one")));
    assert_eq!(heap.find_min(), Some((&3, &"three")));
}

#[test]
fn empty_heap_has_no_min() {
    let mut heap = PairingHeap::<u8>::new();
    assert!(heap.is_empty());
    assert_eq!(heap.find_min(), None);
    assert_eq!(heap.delete_min(), None);
    assert!(heap.is_empty());
}

#[test]
fn single_entry_heap() {
    let mut heap = PairingHeap::with_single_entry(7, 'x');
    assert!(!heap.is_empty());
    assert_eq!(heap.find_min(), Some((&7, &'x')));
    assert_eq!(heap.delete_min(), Some((7, 'x')));
    assert!(heap.is_empty());
}

#[test]
fn drain_is_sorted_with_equal_keys() {
    let mut heap = PairingHeap::<()>::new();
    for k in [4, 4, 2, 9, 2, 0, 7, 4] {
        heap.insert(k, ());
    }
    assert_eq!(drain(&mut heap), vec![0, 2, 2, 4, 4, 4, 7, 9]);
}

#[test]
fn merge_then_drain() {
    let mut a = PairingHeap::<()>::new();
    for k in [1, 3, 5] {
        a.insert(k, ());
    }
    let mut b = PairingHeap::<()>::new();
    for k in [2, 4] {
        b.insert(k, ());
    }
    a.merge(b);
    assert_eq!(drain(&mut a), vec![1, 2, 3, 4, 5]);
}

#[test]
fn merge_into_empty_heap() {
    let mut a = PairingHeap::<()>::new();
    let mut b = PairingHeap::<()>::new();
    b.insert(8, ());
    b.insert(6, ());
    a.merge(b);
    assert_eq!(drain(&mut a), vec![6, 8]);
}

#[test]
fn update_key_moves_element_to_front() {
    let mut heap = PairingHeap::<char>::new();
    heap.insert(10, 'a');
    let h = heap.insert(20, 'b');
    heap.insert(30, 'c');
    heap.update_key(&h, 5);
    assert_eq!(heap.delete_min(), Some((5, 'b')));
    assert_eq!(heap.delete_min(), Some((10, 'a')));
    assert_eq!(heap.delete_min(), Some((30, 'c')));
}

#[test]
fn key_increase_is_refused_and_heap_unchanged() {
    let mut heap = PairingHeap::<()>::new();
    heap.insert(4, ());
    let h = heap.insert(6, ());
    heap.insert(8, ());
    assert_eq!(heap.try_update_key(&h, 7), Err(KeyError::KeyIncrease));
    assert_eq!(drain(&mut heap), vec![4, 6, 8]);
}

#[test]
fn handle_from_other_heap_is_refused() {
    let mut a = PairingHeap::<()>::new();
    let h = a.insert(3, ());
    let mut b = PairingHeap::<()>::new();
    b.insert(9, ());
    b.insert(12, ());
    assert_eq!(b.try_update_key(&h, 1), Err(KeyError::ForeignHandle));
    assert_eq!(drain(&mut b), vec![9, 12]);
}

#[test]
fn handle_of_removed_element_is_refused() {
    let mut heap = PairingHeap::<()>::new();
    let h = heap.insert(1, ());
    heap.insert(2, ());
    assert_eq!(heap.delete_min(), Some((1, ())));
    assert_eq!(heap.try_update_key(&h, 0), Err(KeyError::Removed));
    assert_eq!(drain(&mut heap), vec![2]);
}

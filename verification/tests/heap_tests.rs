use min_heap::MinHeap;
use rand::seq::SliceRandom;
use rand::thread_rng;
use std::iter::zip;

/// Checks the heap invariant directly on the array layout: every non-root
/// position holds a value no smaller than its parent's.
fn assert_heap_shape(elements: &[i32]) {
    for i in 1..elements.len() {
        let parent = (i - 1) / 2;
        assert!(
            elements[parent] <= elements[i],
            "parent {} at {} above child {} at {}",
            elements[parent],
            parent,
            elements[i],
            i
        );
    }
}

#[test]
fn new() {
    let heap: MinHeap<i32> = MinHeap::new();
    assert!(heap.is_empty());
}

#[test]
fn types() {
    let n: i32 = 10000;
    let int_values: Vec<i32> = (0..n).collect();
    let float_values: Vec<f32> = int_values.iter().map(|x| *x as f32).collect();
    let heap_float: MinHeap<f32> = MinHeap::from_seq(&float_values);
    let heap_int: MinHeap<i32> = MinHeap::from_seq(&int_values);

    for (i, f) in zip(heap_int.to_vec(), heap_float.to_vec()) {
        assert!(i == f as i32)
    }
}

#[test]
fn min() {
    let mut heap: MinHeap<i32> = MinHeap::new();

    // create some random data
    let n: i32 = 100000;
    let values: Vec<i32> = (0..n).collect();
    let mut shuffled = values.clone();
    shuffled.shuffle(&mut thread_rng());

    for i in &shuffled {
        heap.insert(*i);
    }

    for i in &values {
        assert_eq!(heap.min(), *i);
        assert_eq!(heap.extract_min(), *i);
    }
}

#[test]
fn sort() {
    let n: i32 = 100000;
    let values: Vec<i32> = (0..n).collect();
    let mut shuffled = values.clone();
    shuffled.shuffle(&mut thread_rng());

    let sorted = MinHeap::sort(shuffled);
    assert_eq!(&sorted[..], &values[..]);
}

#[test]
fn empty_len() {
    let heap: MinHeap<i32> = MinHeap::new();
    assert!(heap.is_empty());
    assert_eq!(heap.len(), 0);
}

#[test]
fn insert_extract_sequence() {
    let mut heap: MinHeap<i32> = MinHeap::new();
    for v in [5, 3, 8, 1] {
        heap.insert(v);
    }
    assert_eq!(heap.min(), 1);
    assert_eq!(heap.extract_min(), 1);
    assert_eq!(heap.extract_min(), 3);
    assert_eq!(heap.extract_min(), 5);
    assert_eq!(heap.extract_min(), 8);
    assert!(heap.is_empty());
}

#[test]
fn internal_layout_after_inserts() {
    // Each sift-up path pinned exactly: 3 displaces 5, then 1 climbs to
    // the root past 5 and 3.
    let mut heap: MinHeap<i32> = MinHeap::new();
    heap.insert(5);
    assert_eq!(heap.to_vec(), vec![5]);
    heap.insert(3);
    assert_eq!(heap.to_vec(), vec![3, 5]);
    heap.insert(8);
    assert_eq!(heap.to_vec(), vec![3, 5, 8]);
    heap.insert(1);
    assert_eq!(heap.to_vec(), vec![1, 3, 8, 5]);
}

#[test]
fn duplicates_preserved() {
    let values: Vec<i32> = vec![4, 4, 2, 2, 1];
    let mut heap = MinHeap::from_seq(&values);
    assert_eq!(heap.len(), 5);
    let mut extracted: Vec<i32> = Vec::new();
    while !heap.is_empty() {
        extracted.push(heap.extract_min());
    }
    assert_eq!(extracted, vec![1, 2, 2, 4, 4]);
}

#[test]
fn remove_middle_preserves_invariant() {
    let values: Vec<i32> = vec![1, 2, 3, 4, 5, 6, 7];
    let mut heap = MinHeap::from_seq(&values);
    assert_eq!(heap.to_vec(), values);
    heap.remove(3);
    assert_eq!(heap.len(), 6);
    assert_heap_shape(&heap.to_vec());
    let mut extracted: Vec<i32> = Vec::new();
    while !heap.is_empty() {
        extracted.push(heap.extract_min());
    }
    // the original multiset minus the removed value 4
    assert_eq!(extracted, vec![1, 2, 3, 5, 6, 7]);
}

#[test]
fn remove_middle_adversarial() {
    // The last element (3) is smaller than the removed slot's parent (10),
    // so restoring the shape needs a sift up, not a sift down.
    let values: Vec<i32> = vec![0, 10, 1, 11, 12, 2, 3];
    let mut heap = MinHeap::from_seq(&values);
    assert_eq!(heap.to_vec(), values);
    heap.remove(3);
    assert_eq!(heap.len(), 6);
    assert_heap_shape(&heap.to_vec());
    let mut extracted: Vec<i32> = Vec::new();
    while !heap.is_empty() {
        extracted.push(heap.extract_min());
    }
    // the original multiset minus the removed value 11
    assert_eq!(extracted, vec![0, 1, 2, 3, 10, 12]);
}

#[test]
fn remove_last_and_root() {
    let mut heap = MinHeap::from_seq(&vec![2, 9, 4, 11]);
    heap.remove(heap.len() - 1);
    assert_eq!(heap.len(), 3);
    assert_heap_shape(&heap.to_vec());
    heap.remove(0);
    assert_eq!(heap.len(), 2);
    assert_heap_shape(&heap.to_vec());
    assert_eq!(heap.extract_min(), 4);
    assert_eq!(heap.extract_min(), 9);
}

#[test]
fn size_consistency() {
    let mut heap: MinHeap<i64> = MinHeap::new();
    for v in 0..10 {
        heap.insert(v * 7 % 10);
    }
    assert_eq!(heap.len(), 10);
    for _ in 0..4 {
        heap.remove(0);
    }
    assert_eq!(heap.len(), 6);
    assert!(!heap.is_empty());
}

#[test]
fn heap_invariant_after_mixed_ops() {
    let mut heap: MinHeap<i32> = MinHeap::new();
    for v in [12, -3, 7, 7, 0, 25, -3, 4, 19, 1] {
        heap.insert(v);
        assert_heap_shape(&heap.to_vec());
    }
    heap.remove(0);
    assert_heap_shape(&heap.to_vec());
    heap.remove(heap.len() - 1);
    assert_heap_shape(&heap.to_vec());
    heap.insert(-10);
    assert_heap_shape(&heap.to_vec());
    assert_eq!(heap.min(), -10);
}

#[test]
fn min_matches_sorted_copy() {
    let values: Vec<i32> = vec![9, 4, 7, 1, 8, 4];
    let mut independent = values.clone();
    independent.sort();
    let mut heap = MinHeap::from_seq(&values);
    for expected in independent {
        assert_eq!(heap.min(), expected);
        assert_eq!(heap.extract_min(), expected);
    }
}

#[test]
fn extraction_is_sorted_permutation() {
    let values: Vec<i32> = vec![5, -1, 5, 3, 0, -1, 2, 8];
    let mut heap = MinHeap::from_seq(&values);
    let mut extracted: Vec<i32> = Vec::new();
    while !heap.is_empty() {
        extracted.push(heap.extract_min());
    }
    for w in extracted.windows(2) {
        assert!(w[0] <= w[1]);
    }
    let mut expected = values.clone();
    expected.sort();
    assert_eq!(extracted, expected);
}

#[test]
fn sort_reverse_input() {
    let ascending: Vec<i32> = (0..1000).collect();
    let reversed: Vec<i32> = (0..1000).rev().collect();
    assert_eq!(MinHeap::sort(reversed), ascending);
}

#[test]
fn sort_sorted_input_unchanged() {
    let ascending: Vec<i32> = (0..100).collect();
    assert_eq!(MinHeap::sort(ascending.clone()), ascending);
}

#[test]
fn sort_is_idempotent() {
    let values: Vec<i32> = vec![3, 1, 4, 1, 5, 9, 2, 6, 5, 3, 5];
    let once = MinHeap::sort(values);
    let twice = MinHeap::sort(once.clone());
    assert_eq!(once, twice);
}

#[test]
fn type_round_trip_u64() {
    let small: Vec<i32> = vec![42, 7, 100, 7, 0];
    let wide: Vec<u64> = small.iter().map(|x| *x as u64).collect();
    let mut heap_small = MinHeap::from_seq(&small);
    let mut heap_wide = MinHeap::from_seq(&wide);
    while !heap_small.is_empty() {
        assert_eq!(heap_small.extract_min() as u64, heap_wide.extract_min());
    }
    assert!(heap_wide.is_empty());
}

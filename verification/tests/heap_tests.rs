use algos::heap::{Heap, MaxHeap, MinHeap};

#[test]
fn test_empty_heap() {
    let mut heap = MaxHeap::new::<i32>();
    assert_eq!(heap.extract_next(), None);
}

#[test]
fn test_min_heap() {
    let mut heap = MinHeap::new();
    heap.add(4);
    heap.add(2);
    heap.add(9);
    heap.add(11);
    assert_eq!(heap.len(), 4);
    assert_eq!(heap.extract_next(), Some(2));
    assert_eq!(heap.extract_next(), Some(4));
    assert_eq!(heap.extract_next(), Some(9));
    heap.add(1);
    assert_eq!(heap.extract_next(), Some(1));
    assert_eq!(heap.extract_next(), Some(11));
    assert_eq!(heap.extract_next(), None);
}

#[test]
fn test_max_heap() {
    let mut heap = MaxHeap::new();
    heap.add(4);
    heap.add(2);
    heap.add(9);
    heap.add(11);
    assert_eq!(heap.len(), 4);
    assert_eq!(heap.extract_next(), Some(11));
    assert_eq!(heap.extract_next(), Some(9));
    assert_eq!(heap.extract_next(), Some(4));
    heap.add(1);
    assert_eq!(heap.extract_next(), Some(2));
    assert_eq!(heap.extract_next(), Some(1));
    assert_eq!(heap.extract_next(), None);
}

#[test]
fn heap_len_tracks_adds_and_extracts() {
    let mut heap = MinHeap::new::<i32>();
    assert!(heap.is_empty());
    heap.add(7);
    heap.add(3);
    heap.add(5);
    assert_eq!(heap.len(), 3);
    assert!(!heap.is_empty());
    heap.extract_next();
    assert_eq!(heap.len(), 2);
    heap.extract_next();
    heap.extract_next();
    assert_eq!(heap.len(), 0);
    assert!(heap.is_empty());
    // extracting from a drained heap neither returns nor counts anything
    assert_eq!(heap.extract_next(), None);
    assert_eq!(heap.extract_next(), None);
    assert_eq!(heap.len(), 0);
}

#[test]
fn heap_drain_sorts_any_permutation() {
    let mut heap = MinHeap::new();
    for v in [8, 3, 11, 1, 9, 4, 7, 2] {
        heap.add(v);
    }
    assert_eq!(heap.drain(), vec![1, 2, 3, 4, 7, 8, 9, 11]);
    assert_eq!(heap.len(), 0);

    let mut heap = MaxHeap::new();
    for v in [8, 3, 11, 1, 9, 4, 7, 2] {
        heap.add(v);
    }
    assert_eq!(heap.drain(), vec![11, 9, 8, 7, 4, 3, 2, 1]);
}

#[test]
fn heap_keeps_duplicates() {
    let mut heap = MinHeap::new();
    heap.add(5);
    heap.add(1);
    heap.add(5);
    heap.add(2);
    assert_eq!(heap.drain(), vec![1, 2, 5, 5]);
}

#[test]
fn heap_new_takes_a_comparator() {
    let mut heap = Heap::new(MaxHeap);
    heap.add(-3);
    heap.add(10);
    heap.add(0);
    assert_eq!(heap.extract_next(), Some(10));
    assert_eq!(heap.extract_next(), Some(0));
    assert_eq!(heap.extract_next(), Some(-3));
}

#[test]
fn heap_new_min_and_new_max() {
    let mut lo = Heap::new_min();
    let mut hi = Heap::new_max();
    for v in [6, -2, 6, 0] {
        lo.add(v);
        hi.add(v);
    }
    assert_eq!(lo.extract_next(), Some(-2));
    assert_eq!(hi.extract_next(), Some(6));
    assert_eq!(hi.extract_next(), Some(6));
}

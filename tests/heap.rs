use heap_graph::heap::{Heap, MaxHeap, MinHeap};

#[test]
fn test_empty_heap() {
    let mut heap = MaxHeap::new::<i32>();
    assert_eq!(heap.next(), None);
}

#[test]
fn test_min_heap() {
    let mut heap = MinHeap::new();
    heap.add(4);
    heap.add(2);
    heap.add(9);
    heap.add(11);
    assert_eq!(heap.len(), 4);
    assert_eq!(heap.next(), Some(2));
    assert_eq!(heap.next(), Some(4));
    assert_eq!(heap.next(), Some(9));
    heap.add(1);
    assert_eq!(heap.next(), Some(1));
}

#[test]
fn test_max_heap() {
    let mut heap = MaxHeap::new();
    heap.add(4);
    heap.add(2);
    heap.add(9);
    heap.add(11);
    assert_eq!(heap.len(), 4);
    assert_eq!(heap.next(), Some(11));
    assert_eq!(heap.next(), Some(9));
    assert_eq!(heap.next(), Some(4));
    heap.add(1);
    assert_eq!(heap.next(), Some(2));
}

fn drain<C: heap_graph::heap::Comparator<i64>>(heap: &mut Heap<i64, C>) -> Vec<i64> {
    let mut out = Vec::new();
    while let Some(x) = heap.next() {
        out.push(x);
    }
    out
}

#[test]
fn min_heap_drains_ascending() {
    let input: Vec<i64> = vec![5, -3, 8, 8, 0, 12, -3, 7, 1, 1, 42, -100, 6];
    let mut heap = Heap::new_min();
    for &x in &input {
        heap.add(x);
    }
    let out = drain(&mut heap);
    let mut want = input.clone();
    want.sort();
    assert_eq!(out, want);
    assert!(heap.is_empty());
}

#[test]
fn max_heap_drains_descending() {
    let input: Vec<i64> = vec![5, -3, 8, 8, 0, 12, -3, 7, 1, 1, 42, -100, 6];
    let mut heap = Heap::new_max();
    for &x in &input {
        heap.add(x);
    }
    let out = drain(&mut heap);
    let mut want = input.clone();
    want.sort();
    want.reverse();
    assert_eq!(out, want);
}

#[test]
fn heap_with_explicit_comparator() {
    let mut heap: Heap<u8, MinHeap> = Heap::new(MinHeap);
    for x in [200u8, 3, 77, 3, 0, 255] {
        heap.add(x);
    }
    let mut out = Vec::new();
    while let Some(x) = heap.next() {
        out.push(x);
    }
    assert_eq!(out, vec![0, 3, 3, 77, 200, 255]);
}

#[test]
fn heap_len_counts_insertions_less_extractions() {
    let mut heap = MinHeap::new::<i32>();
    assert_eq!(heap.len(), 0);
    assert!(heap.is_empty());
    for x in 0..10 {
        heap.add(10 - x);
    }
    assert_eq!(heap.len(), 10);
    for _ in 0..3 {
        assert!(heap.next().is_some());
    }
    assert_eq!(heap.len(), 7);
    assert!(!heap.is_empty());
    heap.add(-1);
    assert_eq!(heap.len(), 8);
}

#[test]
fn heap_extraction_after_emptying() {
    let mut heap = MaxHeap::new::<i32>();
    heap.add(7);
    assert_eq!(heap.next(), Some(7));
    assert_eq!(heap.next(), None);
    assert_eq!(heap.len(), 0);
    heap.add(3);
    heap.add(3);
    assert_eq!(heap.next(), Some(3));
    assert_eq!(heap.next(), Some(3));
    assert_eq!(heap.next(), None);
}

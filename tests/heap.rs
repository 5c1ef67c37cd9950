use heap_graph::heap::{Heap, MaxHeap, MinHeap, Priority};

#[test]
fn test_empty_heap() {
    let mut heap = MaxHeap::new::<i32>();
    assert_eq!(heap.next(), None);
}

#[test]
fn test_min_heap() {
    let mut heap = MinHeap::new();
    heap.add(4);
    heap.add(2);
    heap.add(9);
    heap.add(11);
    assert_eq!(heap.len(), 4);
    assert_eq!(heap.next(), Some(2));
    assert_eq!(heap.next(), Some(4));
    assert_eq!(heap.next(), Some(9));
    heap.add(1);
    assert_eq!(heap.next(), Some(1));
}

#[test]
fn test_max_heap() {
    let mut heap = MaxHeap::new();
    heap.add(4);
    heap.add(2);
    heap.add(9);
    heap.add(11);
    assert_eq!(heap.len(), 4);
    assert_eq!(heap.next(), Some(11));
    assert_eq!(heap.next(), Some(9));
    assert_eq!(heap.next(), Some(4));
    heap.add(1);
    assert_eq!(heap.next(), Some(2));
}

#[test]
fn empty_heap_stays_exhausted() {
    let mut heap = MinHeap::new::<i64>();
    assert!(heap.is_empty());
    assert_eq!(heap.next(), None);
    assert_eq!(heap.next(), None);
    assert_eq!(heap.len(), 0);
}

#[test]
fn drains_every_value_in_order_then_stops() {
    let mut heap = Heap::new(Priority::Least);
    for v in [5, 3, 8, 1, 9, 2, 7, 3, 6, 0] {
        heap.add(v);
    }
    assert_eq!(heap.len(), 10);
    let mut out = Vec::new();
    while let Some(v) = heap.next() {
        out.push(v);
    }
    assert_eq!(out, vec![0, 1, 2, 3, 3, 5, 6, 7, 8, 9]);
    assert!(heap.is_empty());
    assert_eq!(heap.next(), None);
}

#[test]
fn greatest_priority_drains_descending() {
    let mut heap = Heap::new(Priority::Greatest);
    for v in [-4, 12, 0, 12, -30, 7] {
        heap.add(v);
    }
    let mut out = Vec::new();
    while let Some(v) = heap.next() {
        out.push(v);
    }
    assert_eq!(out, vec![12, 12, 7, 0, -4, -30]);
}

#[test]
fn equal_elements_all_come_out() {
    let mut heap = MaxHeap::new();
    heap.add(5u8);
    heap.add(5u8);
    heap.add(5u8);
    assert_eq!(heap.next(), Some(5));
    assert_eq!(heap.next(), Some(5));
    assert_eq!(heap.next(), Some(5));
    assert_eq!(heap.next(), None);
}

#[test]
fn extreme_values_keep_order() {
    let mut heap = MinHeap::new();
    heap.add(i32::MAX);
    heap.add(i32::MIN);
    heap.add(0);
    assert_eq!(heap.next(), Some(i32::MIN));
    assert_eq!(heap.next(), Some(0));
    assert_eq!(heap.next(), Some(i32::MAX));
}

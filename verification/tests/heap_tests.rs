use i_triangle::heap::{FixedHeap, MaxOrder, MinOrder};

const CAP: usize = 15;

#[test]
fn test_min_heap_0() {
    let mut heap = FixedHeap::<i32, MinOrder, CAP>::new(MinOrder);
    for &v in &[30, 10, 50, 20] {
        heap.add(v);
    }
    heap.sort_in_place();

    assert_eq!(heap.as_slice()[0..4], [50, 30, 20, 10]);
}

#[test]
fn test_min_heap_1() {
    let mut heap = FixedHeap::<i32, MinOrder, 7>::new(MinOrder);
    for &v in &[5, 5, 4, 4, 3, 2, 1, 0, 0, 0] {
        heap.add(v);
    }
    heap.sort_in_place();

    assert_eq!(heap.as_slice()[0..7], [5, 5, 4, 4, 3, 2, 1]);
}

#[test]
fn test_max_heap() {
    let mut heap = FixedHeap::<i32, MaxOrder, CAP>::new(MaxOrder);
    for &v in &[30, 10, 50, 20] {
        heap.add(v);
    }
    heap.sort_in_place();

    assert_eq!(heap.as_slice()[0..4], [10, 20, 30, 50]);
}

#[test]
fn heap_keeps_greatest_when_full() {
    let mut heap = FixedHeap::<i32, MinOrder, 3>::new(MinOrder);
    assert!(heap.is_empty());
    for &v in &[1, 9, 2, 8, 3, 7] {
        heap.add(v);
    }
    assert!(heap.is_overflow());
    heap.sort_in_place();
    assert_eq!(heap.as_slice(), &[9, 8, 7]);
}

#[test]
fn heap_not_full_has_no_overflow() {
    let mut heap = FixedHeap::<i32, MaxOrder, 4>::new(MaxOrder);
    heap.add(3);
    heap.add(1);
    assert!(!heap.is_overflow());
    assert!(!heap.is_empty());
    assert_eq!(heap.as_slice().len(), 2);
    // the root of a heap ordered by `MaxOrder` is the greatest item
    assert_eq!(heap.as_slice()[0], 3);
}

#[test]
fn heap_fed_item_by_item_keeps_the_greatest() {
    let mut heap = FixedHeap::<i32, MinOrder, 3>::new(MinOrder);
    for &v in &[5, 1, 9] {
        heap.add(v);
    }
    assert_eq!(heap.as_slice().len(), 3);
    assert!(!heap.is_overflow());
    for &v in &[3, 7, 2] {
        heap.add(v);
    }
    assert!(heap.is_overflow());
    let mut kept = heap.as_slice().to_vec();
    kept.sort();
    assert_eq!(kept, vec![5, 7, 9]);
}

use ods::BinaryHeap;

#[test]
fn binary_heap_works() {
    let mut heap = BinaryHeap::new();

    for i in vec![5, 3, 4, 9, -1, 0] {
        heap.insert(i);
    }

    assert_eq!(heap.pop(), Some(-1));
    assert_eq!(heap.pop(), Some(0));
    assert_eq!(heap.pop(), Some(3));
    assert_eq!(heap.pop(), Some(4));
    assert_eq!(heap.pop(), Some(5));
    assert_eq!(heap.pop(), Some(9));
    assert_eq!(heap.pop(), None);

    heap = BinaryHeap::from_vec(vec![5, 3, 4, 9, -1, 0]);

    assert_eq!(heap.pop(), Some(-1));
    assert_eq!(heap.pop(), Some(0));
    assert_eq!(heap.pop(), Some(3));
    assert_eq!(heap.pop(), Some(4));
    assert_eq!(heap.pop(), Some(5));
    assert_eq!(heap.pop(), Some(9));
    assert_eq!(heap.pop(), None);
}

#[test]
fn binary_heap_duplicates() {
    let mut heap = BinaryHeap::new();
    heap.insert(2);
    heap.insert(1);
    heap.insert(2);
    heap.insert(1);
    assert_eq!(heap.pop(), Some(1));
    assert_eq!(heap.pop(), Some(1));
    assert_eq!(heap.pop(), Some(2));
    assert_eq!(heap.pop(), Some(2));
    assert_eq!(heap.pop(), None);
}

#[test]
fn binary_heap_empty_and_into_vec() {
    let mut heap = BinaryHeap::new();
    assert!(heap.is_empty());
    assert_eq!(heap.pop(), None);
    heap.insert(7);
    assert!(!heap.is_empty());
    let v = heap.into_vec();
    assert_eq!(v, vec![7]);

    let drained = BinaryHeap::from_vec(Vec::new()).into_vec();
    assert!(drained.is_empty());
}

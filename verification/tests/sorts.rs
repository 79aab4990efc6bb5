use ods::heap_sort;

#[test]
fn sorts_works() {
    assert_eq!(heap_sort(vec![5, 3, 4, 9, -1, 0]), vec![-1, 0, 3, 4, 5, 9]);
}

#[test]
fn heap_sort_edges() {
    assert_eq!(heap_sort(Vec::new()), Vec::<i64>::new());
    assert_eq!(heap_sort(vec![1]), vec![1]);
    assert_eq!(heap_sort(vec![2, 2, 1, 1, 2]), vec![1, 1, 2, 2, 2]);
    assert_eq!(heap_sort(vec![9, 8, 7, 6, 5, 4, 3, 2, 1, 0]), vec![0, 1, 2, 3, 4, 5, 6, 7, 8, 9]);
}

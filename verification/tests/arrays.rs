use ods::ArrayDeque;
use ods::ArrayQueue;
use ods::ArrayStack;
use ods::BackingArray;

#[test]
fn array_deque_works() {
    let mut deque = ArrayDeque::new();

    deque.push_back(1);
    deque.push_back(2);
    deque.push_back(3);
    deque.push_back(4);

    assert_eq!(deque.get(0), Some(&1));
    assert_eq!(deque.get(1), Some(&2));
    assert_eq!(deque.get(2), Some(&3));
    assert_eq!(deque.get(3), Some(&4));

    deque.push_front(-1);
    deque.push_front(-2);
    assert_eq!(deque.get(0), Some(&-2));
    assert_eq!(deque.get(1), Some(&-1));
    assert_eq!(deque.get(2), Some(&1));

    deque.add(2, 0);
    assert_eq!(deque.get(1), Some(&-1));
    assert_eq!(deque.get(2), Some(&0));
    assert_eq!(deque.get(3), Some(&1));

    assert_eq!(deque.remove(2), Some(0));
    assert_eq!(deque.get(1), Some(&-1));
    assert_eq!(deque.get(2), Some(&1));

    assert_eq!(deque.remove(4), Some(3));
    assert_eq!(deque.get(4), Some(&4));
}

#[test]
fn backing_array_it_works() {
    let a1 = BackingArray::new();

    assert_eq!(a1.len(), 0);

    let mut a2 = BackingArray::with_size(5);

    assert_eq!(a2.len(), 5);

    a2.set(0, 1);
    a2.set(1, 2);
    a2.set(2, 3);
    a2.set(3, 2);
    a2.set(4, 1);

    assert_eq!(a2.get(0), a2.get(4));
    assert_eq!(a2.get(1), a2.get(3));
}

#[test]
fn backing_array_with_size_zeroes() {
    let a = BackingArray::with_size(3);
    assert_eq!(*a.get(0), 0);
    assert_eq!(*a.get(1), 0);
    assert_eq!(*a.get(2), 0);
}

#[test]
fn array_deque_out_of_range() {
    let mut deque = ArrayDeque::new();
    deque.push_back(10);
    assert_eq!(deque.get(1), None);
    assert_eq!(deque.set(1, 5), None);
    assert_eq!(deque.remove(1), None);
    assert_eq!(deque.size(), 1);
    deque.add(3, 7);
    assert_eq!(deque.size(), 1);
    assert_eq!(deque.get(0), Some(&10));
}

#[test]
fn array_deque_wraps_around() {
    let mut deque = ArrayDeque::new();
    for i in 0..8 {
        deque.push_back(i);
    }
    for _ in 0..4 {
        deque.pop_front();
    }
    for i in 8..12 {
        deque.push_back(i);
    }
    for i in 0..8 {
        assert_eq!(deque.get(i as usize), Some(&(i + 4)));
    }
    assert_eq!(deque.pop_back(), Some(11));
    assert_eq!(deque.pop_front(), Some(4));
    assert_eq!(deque.size(), 6);
}

#[test]
fn array_deque_pop_empty() {
    let mut deque = ArrayDeque::new();
    assert_eq!(deque.pop_back(), None);
    assert_eq!(deque.pop_front(), None);
    let mut sized = ArrayDeque::with_size(2);
    assert_eq!(sized.get(0), Some(&0));
    assert_eq!(sized.set(1, 9), Some(0));
    assert_eq!(sized.get(1), Some(&9));
}

#[test]
fn array_deque_get_mut_writes_through() {
    let mut deque = ArrayDeque::new();
    deque.push_back(1);
    deque.push_back(2);
    if let Some(v) = deque.get_mut(1) {
        *v = 20;
    }
    assert_eq!(deque.get(1), Some(&20));
    assert_eq!(deque.get_mut(2), None);
}

#[test]
fn array_stack_works() {
    let mut stack = ArrayStack::with_size(3);
    assert_eq!(stack.size(), 3);
    assert_eq!(stack.get(0), Some(&0));
    assert_eq!(stack.set(0, 1), Some(0));
    assert_eq!(stack.set(1, 2), Some(0));
    assert_eq!(stack.set(2, 3), Some(0));

    stack.add(1, 9);
    assert_eq!(stack.size(), 4);
    assert_eq!(stack.get(0), Some(&1));
    assert_eq!(stack.get(1), Some(&9));
    assert_eq!(stack.get(2), Some(&2));
    assert_eq!(stack.get(3), Some(&3));

    assert_eq!(stack.remove(1), Some(9));
    assert_eq!(stack.get(1), Some(&2));
    assert_eq!(stack.size(), 3);

    // past-the-end positions are rejected without a change
    stack.add(3, 7);
    assert_eq!(stack.size(), 3);
    assert_eq!(stack.remove(3), None);
    assert_eq!(stack.get(3), None);
    assert_eq!(stack.set(3, 7), None);

    if let Some(v) = stack.get_mut(0) {
        *v = 50;
    }
    assert_eq!(stack.get(0), Some(&50));
}

#[test]
fn array_stack_empty() {
    let mut stack = ArrayStack::new();
    assert_eq!(stack.size(), 0);
    assert_eq!(stack.get(0), None);
    assert_eq!(stack.remove(0), None);
    stack.add(0, 1);
    assert_eq!(stack.size(), 0);
}

#[test]
fn array_queue_is_first_in_first_out() {
    let mut queue = ArrayQueue::new();
    assert_eq!(queue.remove(), None);
    queue.add(1);
    queue.add(2);
    queue.add(3);
    assert_eq!(queue.remove(), Some(1));
    queue.add(4);
    assert_eq!(queue.remove(), Some(2));
    assert_eq!(queue.remove(), Some(3));
    assert_eq!(queue.remove(), Some(4));
    assert_eq!(queue.remove(), None);
}

#[test]
fn array_queue_size_reports_capacity() {
    let queue = ArrayQueue::with_size(5);
    assert_eq!(queue.size(), 5);
    let empty = ArrayQueue::new();
    assert_eq!(empty.size(), 0);
}

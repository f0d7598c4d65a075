use linked_lists::deque::List;

#[test]
fn deque_basics() {
    let mut list = List::new();

    // Check empty list behaves right
    assert_eq!(list.pop_front(), None);

    // Populate list
    list.push_front(1);
    list.push_front(2);
    list.push_front(3);

    // Check normal removal
    assert_eq!(list.pop_front(), Some(3));
    assert_eq!(list.pop_front(), Some(2));

    // Push some more just to make sure nothing's corrupted
    list.push_front(4);
    list.push_front(5);

    // Check normal removal
    assert_eq!(list.pop_front(), Some(5));
    assert_eq!(list.pop_front(), Some(4));

    // Check exhaustion
    assert_eq!(list.pop_front(), Some(1));
    assert_eq!(list.pop_front(), None);
}

#[test]
fn peek() {
    let mut list = List::new();
    assert!(list.peek_front().is_none());

    list.push_front(1);
    list.push_front(2);
    list.push_front(3);

    assert_eq!(list.peek_front().unwrap(), &3);
}

#[test]
fn peek_both_ends() {
    let mut list = List::new();
    assert!(list.peek_front().is_none());
    assert!(list.peek_back().is_none());

    list.push_front(1);
    list.push_front(2);
    list.push_front(3);

    assert_eq!(list.peek_front().unwrap(), &3);
    assert_eq!(list.peek_back().unwrap(), &1);
}

#[test]
fn back_operations_mirror_front() {
    let mut list = List::new();
    list.push_back(1);
    list.push_back(2);

    assert_eq!(list.pop_front(), Some(1));
    assert_eq!(list.peek_back().unwrap(), &2);
    assert_eq!(list.pop_back(), Some(2));

    assert!(list.peek_front().is_none());
    assert!(list.peek_back().is_none());
    assert_eq!(list.pop_front(), None);
    assert_eq!(list.pop_back(), None);
}

#[test]
fn mixed_ends_keep_arrival_order() {
    let mut list = List::new();
    list.push_front(1);
    list.push_front(2);
    list.push_front(3);

    assert_eq!(list.pop_back(), Some(1));
    assert_eq!(list.pop_back(), Some(2));
    assert_eq!(list.pop_back(), Some(3));
    assert_eq!(list.pop_back(), None);
}

#[test]
fn peek_agrees_with_pop() {
    let mut list = List::new();
    list.push_back(10);
    list.push_back(20);
    list.push_back(30);

    let front = *list.peek_front().unwrap();
    assert_eq!(list.pop_front(), Some(front));

    let back = *list.peek_back().unwrap();
    assert_eq!(list.pop_back(), Some(back));
}

#[test]
fn mutable_peeks_update_the_ends() {
    let mut list = List::new();
    list.push_back(1);
    list.push_back(2);
    list.push_back(3);

    *list.peek_front_mut() = 10;
    *list.peek_back_mut() = 30;

    assert_eq!(list.pop_front(), Some(10));
    assert_eq!(list.pop_back(), Some(30));
    assert_eq!(list.pop_front(), Some(2));
    assert_eq!(list.pop_front(), None);
}

#[test]
fn drain_releases_each_node_once() {
    let mut list = List::new();
    let n: usize = 100;
    for k in 0..n {
        list.push_back(k);
    }
    assert_eq!(list.len(), n);

    let mut released: usize = 0;
    while let Some(_) = list.pop_front() {
        released += 1;
    }
    assert_eq!(released, n);
    assert!(list.is_empty());
    assert_eq!(list.pop_front(), None);
}

#[test]
fn clear_empties_and_slots_are_reused() {
    let mut list = List::new();
    for k in 0..50 {
        list.push_front(k);
    }
    list.clear();

    assert!(list.is_empty());
    assert!(list.peek_front().is_none());
    assert!(list.peek_back().is_none());

    list.push_back(7);
    assert_eq!(list.len(), 1);
    assert_eq!(list.pop_back(), Some(7));
    assert_eq!(list.pop_back(), None);
}

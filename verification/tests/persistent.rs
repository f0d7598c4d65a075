use linked_lists::persistent::List;

#[test]
fn persistent_basics() {
    let list = List::new();
    assert_eq!(list.head(), None);

    let list = list.append(1).append(2).append(3).append(4);
    assert_eq!(list.head(), Some(&4));

    let list = list.tail();
    assert_eq!(list.head(), Some(&3));

    let list = list.tail();
    assert_eq!(list.head(), Some(&2));

    let list = list.tail();
    assert_eq!(list.head(), Some(&1));

    let list = list.tail();
    assert_eq!(list.head(), None);

    // Make sure empty tail works
    let list = list.tail();
    assert_eq!(list.head(), None);
}

#[test]
fn append_tail_append() {
    let list1 = List::new();

    // Append
    let list1 = list1.append(1).append(2).append(3).append(4);
    assert_eq!(list1.head(), Some(&4));

    // Tail
    let list2 = list1.tail();
    assert_eq!(list2.head(), Some(&3));

    // Append again
    let list3 = list2.append(5);
    assert_eq!(list3.head(), Some(&5));
}

#[test]
fn iter() {
    let list = List::new().append(1).append(2).append(3);

    let mut iter = list.iter();
    assert_eq!(iter.next(), Some(&3));
    assert_eq!(iter.next(), Some(&2));
    assert_eq!(iter.next(), Some(&1));
}

#[test]
fn iter_runs_out() {
    let list = List::new().append(1);

    let mut iter = list.iter();
    assert_eq!(iter.next(), Some(&1));
    assert_eq!(iter.next(), None);
    assert_eq!(iter.next(), None);
}

#[test]
fn shared_tails_stay_independent() {
    let list1 = List::new().append(1).append(2);
    let list2 = list1.tail();
    let list3 = list2.append(9);

    assert_eq!(list1.head(), Some(&2));
    assert_eq!(list2.head(), Some(&1));
    assert_eq!(list3.head(), Some(&9));
}

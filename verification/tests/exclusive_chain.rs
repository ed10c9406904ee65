use linked_lists::exclusive::List;

#[test]
fn first_list() {
    let mut list = List::new();

    // check if list empty
    assert_eq!(list.pop(), None);

    // insert into list
    list.push(1);
    list.push(2);
    list.push(3);

    // check removal
    assert_eq!(list.pop(), Some(3));
    assert_eq!(list.pop(), Some(2));

    // is something corrupted
    list.push(4);
    list.push(5);

    // check removal again
    assert_eq!(list.pop(), Some(5));
    assert_eq!(list.pop(), Some(4));

    // check exhaustion
    assert_eq!(list.pop(), Some(1));
    assert_eq!(list.pop(), None);
}

#[test]
fn test_split_next() {
    let mut list = List::new();
    list.push(1);
    list.push(2);
    list.push(3);
    list.push(4);
    list.push(5);

    let no_list = list.split_next(10);
    assert!(no_list.is_none());

    let list2 = list.split_next(1);
    assert!(list2.is_some()); // we got the list
                              // but it shouldn't have any element
    let mut list2 = list2.unwrap();
    assert_eq!(list2.pop(), None);

    // move after first element
    let moved_list = list.split_next(5);
    assert!(moved_list.is_some());
    // old list should have one element now
    assert_eq!(list.pop(), Some(5));
    assert_eq!(list.pop(), None);

    // break from between
    let mut moved_list = moved_list.unwrap();
    let mut half_list = moved_list.split_next(3);
    assert!(half_list.is_some());
    // exhaust both the list now
    assert_eq!(moved_list.pop(), Some(4));
    assert_eq!(moved_list.pop(), Some(3));
    assert_eq!(moved_list.pop(), None);
    assert_eq!(half_list.as_mut().unwrap().pop(), Some(2));
    assert_eq!(half_list.as_mut().unwrap().pop(), Some(1));
    assert_eq!(half_list.as_mut().unwrap().pop(), None);
}

#[test]
fn first_test_split_at() {
    let mut list = List::new();
    list.push(1);
    list.push(2);
    list.push(3);
    list.push(4);
    list.push(5);

    let no_list = list.split_at(10);
    assert!(no_list.is_none());

    let list2 = list.split_at(1);
    assert!(list2.is_some());
    let mut list2 = list2.unwrap();
    assert_eq!(list2.pop(), Some(1));
    assert_eq!(list2.pop(), None);

    // move after first element
    let moved_list = list.split_at(5);
    assert!(moved_list.is_some());
    // old list should have no element now
    assert_eq!(list.pop(), None);

    // break from between
    let mut moved_list = moved_list.unwrap();
    let mut half_list = moved_list.split_at(3);
    assert!(half_list.is_some());
    // exhaust both the list now
    assert_eq!(moved_list.pop(), Some(5));
    assert_eq!(moved_list.pop(), Some(4));
    assert_eq!(moved_list.pop(), None);
    assert_eq!(half_list.as_mut().unwrap().pop(), Some(3));
    assert_eq!(half_list.as_mut().unwrap().pop(), Some(2));
    assert_eq!(half_list.as_mut().unwrap().pop(), None);
}

#[test]
fn first_test_merge() {
    let mut list1 = List::new();
    let list2 = List::new();

    // when both the lists are empty
    list1.merge(list2);
    assert_eq!(list1.pop(), None);

    // when a list is empty
    let mut list2 = List::new();
    list2.push(4);
    list2.push(5);
    list1.merge(list2);
    assert_eq!(list1.pop(), Some(5));
    assert_eq!(list1.pop(), Some(4));
    assert_eq!(list1.pop(), None);

    // when there's only one element in first list
    list1.push(1);
    let mut list2 = List::new();
    list2.push(4);
    list2.push(5);
    list1.merge(list2);
    assert_eq!(list1.pop(), Some(1));
    assert_eq!(list1.pop(), Some(5));
    assert_eq!(list1.pop(), Some(4));
    assert_eq!(list1.pop(), None);

    // when there are more elements
    list1.push(1);
    list1.push(2);
    list1.push(3);
    let mut list2 = List::new();
    list2.push(4);
    list2.push(5);
    list2.merge(list1);

    assert_eq!(list2.pop(), Some(5));
    assert_eq!(list2.pop(), Some(4));
    assert_eq!(list2.pop(), Some(3));
    assert_eq!(list2.pop(), Some(2));
    assert_eq!(list2.pop(), Some(1));
    assert_eq!(list2.pop(), None);
}

// Stack law: pushes followed by the same number of pops return the
// elements in strict reverse order, and a final pop returns None.
#[test]
fn stack_reverse_order() {
    let mut list = List::new();
    for e in 1..=5 {
        list.push(e);
    }
    for e in (1..=5).rev() {
        assert_eq!(list.pop(), Some(e));
    }
    assert_eq!(list.pop(), None);
}

// Splice/merge inverse: splitting [1,2,3,4,5] after the node holding 3
// detaches [4,5] and truncates the original to [1,2,3]; merging the
// remainder back reconstructs [1,2,3,4,5] in order.
#[test]
fn splice_merge_inverse() {
    let mut list = List::new();
    for e in [5, 4, 3, 2, 1] {
        list.push(e);
    }
    let detached = list.split_next(3).unwrap();
    list.merge(detached);
    for e in [1, 2, 3, 4, 5] {
        assert_eq!(list.pop(), Some(e));
    }
    assert_eq!(list.pop(), None);
}

// Dropping a chain of 100,000 nodes completes without unbounded stack
// growth: teardown unlinks the nodes iteratively.
#[test]
fn deep_chain_teardown_exclusive() {
    let mut list = List::new();
    for e in 0..100_000 {
        list.push(e);
    }
    drop(list);
}

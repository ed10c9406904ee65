use linked_lists::generic::List;

#[test]
fn second_list() {
    let mut list = List::new();

    // check if list empty
    assert_eq!(list.pop(), None);

    // insert into list
    list.push(1);
    list.push(2);
    list.push(3);

    // check removal
    assert_eq!(list.pop(), Some(3));
    assert_eq!(list.pop(), Some(2));

    // is something corrupted
    list.push(4);
    list.push(5);

    // check removal again
    assert_eq!(list.pop(), Some(5));
    assert_eq!(list.pop(), Some(4));

    // check exhaustion
    assert_eq!(list.pop(), Some(1));
    assert_eq!(list.pop(), None);
}

#[test]
fn test_split() {
    let mut list = List::new();
    list.push(1);
    list.push(2);
    list.push(3);
    list.push(4);
    list.push(5);

    let no_list = list.split_next(10);
    assert!(no_list.is_none());

    let list2 = list.split_next(1);
    assert!(list2.is_some()); // we got the list
                              // but it shouldn't have any element
    let mut list2 = list2.unwrap();
    assert_eq!(list2.pop(), None);

    // move after first element
    let moved_list = list.split_next(5);
    assert!(moved_list.is_some());
    // old list should have one element now
    assert_eq!(list.pop(), Some(5));
    assert_eq!(list.pop(), None);

    // break from between
    let mut moved_list = moved_list.unwrap();
    let mut half_list = moved_list.split_next(3);
    assert!(half_list.is_some());
    // exhaust both the list now
    assert_eq!(moved_list.pop(), Some(4));
    assert_eq!(moved_list.pop(), Some(3));
    assert_eq!(moved_list.pop(), None);
    assert_eq!(half_list.as_mut().unwrap().pop(), Some(2));
    assert_eq!(half_list.as_mut().unwrap().pop(), Some(1));
    assert_eq!(half_list.as_mut().unwrap().pop(), None);
}

#[test]
fn second_test_split_at() {
    let mut list = List::new();
    list.push(1);
    list.push(2);
    list.push(3);
    list.push(4);
    list.push(5);

    let no_list = list.split_at(10);
    assert!(no_list.is_none());

    let list2 = list.split_at(1);
    assert!(list2.is_some());
    let mut list2 = list2.unwrap();
    assert_eq!(list2.pop(), Some(1));
    assert_eq!(list2.pop(), None);

    // move after first element
    let moved_list = list.split_at(5);
    assert!(moved_list.is_some());
    // old list should have no element now
    assert_eq!(list.pop(), None);

    // break from between
    let mut moved_list = moved_list.unwrap();
    let mut half_list = moved_list.split_at(3);
    assert!(half_list.is_some());
    // exhaust both the list now
    assert_eq!(moved_list.pop(), Some(5));
    assert_eq!(moved_list.pop(), Some(4));
    assert_eq!(moved_list.pop(), None);
    assert_eq!(half_list.as_mut().unwrap().pop(), Some(3));
    assert_eq!(half_list.as_mut().unwrap().pop(), Some(2));
    assert_eq!(half_list.as_mut().unwrap().pop(), None);
}

#[test]
fn second_test_merge() {
    let mut list1 = List::new();
    let list2 = List::new();

    // when both the lists are empty
    list1.merge(list2);
    assert_eq!(list1.pop(), None);

    // when a list is empty
    let mut list2 = List::new();
    list2.push(4);
    list2.push(5);
    list1.merge(list2);
    assert_eq!(list1.pop(), Some(5));
    assert_eq!(list1.pop(), Some(4));
    assert_eq!(list1.pop(), None);

    // when there's only one element in first list
    list1.push(1);
    let mut list2 = List::new();
    list2.push(4);
    list2.push(5);
    list1.merge(list2);
    assert_eq!(list1.pop(), Some(1));
    assert_eq!(list1.pop(), Some(5));
    assert_eq!(list1.pop(), Some(4));
    assert_eq!(list1.pop(), None);

    // when there are more elements
    list1.push(1);
    list1.push(2);
    list1.push(3);
    let mut list2 = List::new();
    list2.push(4);
    list2.push(5);
    list2.merge(list1);

    assert_eq!(list2.pop(), Some(5));
    assert_eq!(list2.pop(), Some(4));
    assert_eq!(list2.pop(), Some(3));
    assert_eq!(list2.pop(), Some(2));
    assert_eq!(list2.pop(), Some(1));
    assert_eq!(list2.pop(), None);
}

#[test]
fn test_peek() {
    let mut list = List::new();
    assert_eq!(list.peek(), None);
    assert_eq!(list.peek_mut(), None);
    list.push(10);
    list.push(20);
    assert_eq!(list.peek(), Some(&20));
    list.peek_mut().map(|elem| {
        *elem = 30;
    });
    _ = list.pop();
    assert_eq!(list.peek_mut(), Some(&mut 10));
}

#[test]
fn test_into_iter() {
    let mut list = List::new();
    list.push(10);
    list.push(20);
    list.push(30);

    let mut iter = list.into_iter();
    assert_eq!(iter.next(), Some(30));
    assert_eq!(iter.next(), Some(20));
    assert_eq!(iter.next(), Some(10));
    assert_eq!(iter.next(), None);

    let mut list = List::new();
    list.push(10);
    list.push(20);
    list.push(30);

    // this into_iter() will return the owning iterator, which takes
    // ownership of the list
    let mut iter = list.into_iter();
    assert_eq!(iter.next(), Some(30));
    assert_eq!(iter.next(), Some(20));
    assert_eq!(iter.next(), Some(10));
    assert_eq!(iter.next(), None);
}

#[test]
fn second_test_iter() {
    let mut list = List::new();
    list.push(10);
    list.push(20);
    list.push(30);

    let mut iter = list.iter();
    assert_eq!(iter.next(), Some(&30));
    assert_eq!(iter.next(), Some(&20));
    assert_eq!(iter.next(), Some(&10));
    assert_eq!(iter.next(), None);
}

#[test]
fn test_iter_mut() {
    let mut list = List::new();
    list.push(10);
    list.push(20);
    list.push(30);

    let mut iter = list.iter_mut();
    assert_eq!(iter.next(), Some(&mut 30));
    assert_eq!(iter.next(), Some(&mut 20));
    assert_eq!(iter.next(), Some(&mut 10));
    assert_eq!(iter.next(), None);
}

// The early split variant: a head match moves the whole chain, a later
// match yields an empty list and leaves the chain untouched, no match
// yields None.
#[test]
fn early_split_behavior() {
    let mut list = List::new();
    list.push(1);
    list.push(2);
    list.push(3);

    assert!(list.early_split_at(10).is_none());

    let mut inner = list.early_split_at(2).unwrap();
    assert_eq!(inner.pop(), None);
    assert_eq!(list.peek(), Some(&3));

    let mut whole = list.early_split_at(3).unwrap();
    assert_eq!(list.pop(), None);
    assert_eq!(whole.pop(), Some(3));
    assert_eq!(whole.pop(), Some(2));
    assert_eq!(whole.pop(), Some(1));
    assert_eq!(whole.pop(), None);
}

// Dropping a chain of 100,000 nodes completes without unbounded stack
// growth: teardown unlinks the nodes iteratively.
#[test]
fn deep_chain_teardown_generic() {
    let mut list = List::new();
    for e in 0..100_000 {
        list.push(e);
    }
    drop(list);
}

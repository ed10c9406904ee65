use linked_lists::persistent::List;

#[test]
fn test_prepend_tail() {
    let list = List::new("list1".to_string());
    assert_eq!(list.head(), None);

    let list = list.prepend(1).prepend(2).prepend(3);
    assert_eq!(list.head(), Some(&3));

    let list = list.tail();
    assert_eq!(list.head(), Some(&2));
    let list = list.tail();
    assert_eq!(list.head(), Some(&1));
    let list = list.tail();
    assert_eq!(list.head(), None);

    // Make sure empty tail works
    let list = list.tail();
    assert_eq!(list.head(), None);
}

#[test]
fn third_test_iter() {
    let list = List::new("list1".to_string())
        .prepend(1)
        .prepend(2)
        .prepend(3);

    let mut iter = list.iter();
    assert_eq!(iter.next(), Some(&3));
    assert_eq!(iter.next(), Some(&2));
    assert_eq!(iter.next(), Some(&1));
}

#[test]
fn test_drop() {
    let list = List::new("list1".to_string())
        .prepend(1)
        .prepend(2)
        .prepend(3)
        .prepend(4)
        .prepend(5);
    // share the [3, 2, 1] suffix of list, as a second list
    let list2 = list.tail().tail();

    // confirm list 2
    let mut iter2 = list2.iter();
    assert_eq!(iter2.next(), Some(&3));
    assert_eq!(iter2.next(), Some(&2));
    assert_eq!(iter2.next(), Some(&1));
    assert_eq!(iter2.next(), None);

    // list1 should still work
    let mut iter = list.iter();
    assert_eq!(iter.next(), Some(&5));
    assert_eq!(iter.next(), Some(&4));
    assert_eq!(iter.next(), Some(&3));
    assert_eq!(iter.next(), Some(&2));
    assert_eq!(iter.next(), Some(&1));
    assert_eq!(iter.next(), None);

    // let's see what dropping list2 does
    println!("Dropping list2");
    drop(list2);
    // the shared nodes must not be freed: list1 still references them,
    // so list1 should still work
    let mut iter = list.iter();
    assert_eq!(iter.next(), Some(&5));
    assert_eq!(iter.next(), Some(&4));
    assert_eq!(iter.next(), Some(&3));
    assert_eq!(iter.next(), Some(&2));
    assert_eq!(iter.next(), Some(&1));
    assert_eq!(iter.next(), None);

    // let's make list2 again and this time we'll drop list1 first
    // and list2 should work
    let list2 = list.tail().tail();
    println!("Dropping list");
    drop(list);
    // confirm list 2
    let mut iter2 = list2.iter();
    assert_eq!(iter2.next(), Some(&3));
    assert_eq!(iter2.next(), Some(&2));
    assert_eq!(iter2.next(), Some(&1));
    assert_eq!(iter2.next(), None);
}

// Sharing non-interference: a list and its tail alias the same nodes,
// answer independently, and dropping one leaves the other intact.
#[test]
fn sharing_non_interference() {
    let l0 = List::new("list1".to_string());
    let l1 = l0.prepend(1).prepend(2).prepend(3);
    let l2 = l1.tail();
    assert_eq!(l2.head(), Some(&2));
    assert_eq!(l1.head(), Some(&3));
    drop(l2);
    let mut iter = l1.iter();
    assert_eq!(iter.next(), Some(&3));
    assert_eq!(iter.next(), Some(&2));
    assert_eq!(iter.next(), Some(&1));
    assert_eq!(iter.next(), None);
}

// Dropping a chain of 100,000 nodes completes without unbounded stack
// growth: teardown walks the chain iteratively.
#[test]
fn deep_chain_teardown_persistent() {
    let mut list = List::new("list1".to_string());
    for e in 0..100_000 {
        list = list.prepend(e);
    }
    drop(list);
}

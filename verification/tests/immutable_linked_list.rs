use linked_lists::immutable_linked_list::{cons, List};

#[test]
fn test_construction() {
    let mut list = List::new();
    list = list.prepend(1);
    assert_eq!(Some(&1), list.head());
    list = List::cons(2, list);
    assert_eq!(Some(&2), list.head());
    assert_eq!(Some(&1), list.tail().head());
    assert_eq!(None, list.tail().tail().head());
    list = cons(3, list);
    assert_eq!(Some(&3), list.head());
    assert_eq!(Some(&2), list.tail().head());
    assert_eq!(Some(&1), list.tail().tail().head());
    assert_eq!(None, list.tail().tail().tail().head());
    assert_eq!(None, list.tail().tail().tail().tail().head());
}

#[test]
fn immutable_linked_list_test_iter() {
    let mut list = List::new();
    list = cons(1, list);
    list = cons(2, list);
    list = cons(3, list);
    let mut iter = list.iter();
    assert_eq!(Some(&3), iter.next());
    assert_eq!(Some(&2), iter.next());
    assert_eq!(Some(&1), iter.next());
    assert_eq!(None, iter.next());
    let mut i: i32 = 3;
    let mut iter = list.iter();
    while let Some(val) = iter.next() {
        assert_eq!(i, *val);
        i -= 1;
    }
}

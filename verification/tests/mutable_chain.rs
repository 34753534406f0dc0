use linked_lists::mutable_chain::List;

#[test]
fn test_push_pop() {
    let mut list = List::new();
    list.push(1);
    assert_eq!(Some(&1), list.peek());
    list.push(2);
    assert_eq!(Some(&2), list.peek());
    list.push(3);
    assert_eq!(Some(&3), list.peek());
    assert_eq!(Some(3), list.pop());
    assert_eq!(Some(2), list.pop());
    assert_eq!(Some(1), list.pop());
    assert_eq!(None, list.pop());
}

#[test]
fn mutable_chain_test_into_iter() {
    let mut list = List::new();
    list.push(1);
    list.push(2);
    list.push(3);
    let mut i: i32 = 3;
    let mut iter = list.into_iter();
    while let Some(val) = iter.next() {
        assert_eq!(i, val);
        i -= 1;
    }
}

#[test]
fn mutable_chain_test_iter() {
    let mut list = List::new();
    list.push(1);
    list.push(2);
    list.push(3);
    let mut iter = list.iter();
    assert_eq!(Some(&3), iter.next());
    assert_eq!(Some(&2), iter.next());
    assert_eq!(Some(&1), iter.next());
    assert_eq!(None, iter.next());
    let mut i: i32 = 3;
    let mut iter = list.iter();
    while let Some(val) = iter.next() {
        assert_eq!(i, *val);
        i -= 1;
    }
}

#[test]
fn mutable_chain_test_iter_mut() {
    let mut list = List::new();
    list.push(1);
    list.push(2);
    list.push(3);
    let mut i: i32 = 3;
    let mut iter = list.iter_mut();
    while let Some(val) = iter.next(&mut list) {
        assert_eq!(i, *val);
        *val = 3 - i;
        i -= 1;
    }
    let mut i: i32 = 0;
    let mut iter = list.iter_mut();
    while let Some(val) = iter.next(&mut list) {
        assert_eq!(i, *val);
        *val = 3 - i;
        i += 1;
    }
    let mut i: i32 = 3;
    let mut iter = list.iter();
    while let Some(val) = iter.next() {
        assert_eq!(i, *val);
        i -= 1;
    }
}

use linked_lists::mutable_chain;
use linked_lists::mutable_doubly_linked_list::List;
use std::collections::VecDeque;

#[test]
fn drain_front_reverses_front_pushes() {
    let mut list = List::new();
    for v in 0..20 {
        list.push_front(v);
    }
    for v in (0..20).rev() {
        assert_eq!(Some(v), list.pop_front());
    }
    assert_eq!(None, list.pop_front());
}

#[test]
fn drain_front_keeps_back_push_order() {
    let mut list = List::new();
    for v in 0..20 {
        list.push_back(v);
    }
    for v in 0..20 {
        assert_eq!(Some(v), list.pop_front());
    }
    assert_eq!(None, list.pop_front());
}

#[test]
fn drain_back_reverses_back_pushes() {
    let mut list = List::new();
    for v in 0..20 {
        list.push_back(v);
    }
    for v in (0..20).rev() {
        assert_eq!(Some(v), list.pop_back());
    }
    assert_eq!(None, list.pop_back());
}

#[test]
fn fresh_list_reports_absent_everywhere() {
    let mut list = List::<i32>::new();
    assert_eq!(None, list.peek_front());
    assert_eq!(None, list.peek_back());
    assert_eq!(None, list.peek_front_mut());
    assert_eq!(None, list.peek_back_mut());
    assert_eq!(None, list.pop_front());
    assert_eq!(None, list.pop_back());
    let mut iter = list.iter();
    assert_eq!(None, iter.next());
    assert_eq!(None, iter.next_back());
}

#[test]
fn emptied_list_reports_absent_everywhere() {
    let mut list = List::new();
    list.push_back(7);
    assert_eq!(Some(7), list.pop_front());
    assert_eq!(None, list.peek_front());
    assert_eq!(None, list.peek_back());
    assert_eq!(None, list.peek_front_mut());
    assert_eq!(None, list.peek_back_mut());
    assert_eq!(None, list.pop_front());
    assert_eq!(None, list.pop_back());
    let mut iter = list.iter();
    assert_eq!(None, iter.next());
    assert_eq!(None, iter.next_back());
    let mut iter = list.into_iter();
    assert_eq!(None, iter.next());
    assert_eq!(None, iter.next_back());
}

#[test]
fn single_element_drain_from_either_end() {
    // an observed defect class in hand-rolled lists: the tail reference must
    // be cleared when the only node leaves from the front, and the head link
    // when it leaves from the back
    let mut list = List::new();
    list.push_back(1);
    assert_eq!(Some(1), list.pop_front());
    assert_eq!(None, list.peek_back());
    assert_eq!(None, list.pop_back());
    list.push_front(2);
    assert_eq!(Some(2), list.pop_back());
    assert_eq!(None, list.peek_front());
    assert_eq!(None, list.pop_front());
}

#[test]
fn mixed_ends_match_reference_deque() {
    let mut list = List::new();
    let mut model: VecDeque<u64> = VecDeque::new();
    let mut x: u64 = 0x2545F4914F6CDD1D;
    for step in 0..500u64 {
        x = x.wrapping_mul(6364136223846793005).wrapping_add(1442695040888963407);
        match x % 6 {
            0 | 1 => {
                list.push_front(step);
                model.push_front(step);
            }
            2 | 3 => {
                list.push_back(step);
                model.push_back(step);
            }
            4 => {
                assert_eq!(model.pop_front(), list.pop_front());
            }
            _ => {
                assert_eq!(model.pop_back(), list.pop_back());
            }
        }
        assert_eq!(model.front(), list.peek_front());
        assert_eq!(model.back(), list.peek_back());
    }
    while let Some(v) = model.pop_front() {
        assert_eq!(Some(v), list.pop_front());
    }
    assert_eq!(None, list.pop_front());
}

#[test]
fn alternating_iteration_meets_in_the_middle() {
    // even length
    let mut list = List::new();
    for v in 1..=4 {
        list.push_back(v);
    }
    let mut iter = list.iter();
    assert_eq!(Some(&1), iter.next());
    assert_eq!(Some(&4), iter.next_back());
    assert_eq!(Some(&2), iter.next());
    assert_eq!(Some(&3), iter.next_back());
    assert_eq!(None, iter.next());
    assert_eq!(None, iter.next_back());

    // odd length
    let mut list = List::new();
    for v in 1..=5 {
        list.push_back(v);
    }
    let mut iter = list.iter();
    assert_eq!(Some(&1), iter.next());
    assert_eq!(Some(&5), iter.next_back());
    assert_eq!(Some(&2), iter.next());
    assert_eq!(Some(&4), iter.next_back());
    assert_eq!(Some(&3), iter.next());
    assert_eq!(None, iter.next());
    assert_eq!(None, iter.next_back());
}

#[test]
fn iteration_of_zero_and_one_element_lists() {
    let list = List::<i32>::new();
    let mut iter = list.iter();
    assert_eq!(None, iter.next());
    assert_eq!(None, iter.next_back());

    let mut list = List::new();
    list.push_back(9);
    let mut iter = list.iter();
    assert_eq!(Some(&9), iter.next());
    assert_eq!(None, iter.next());
    assert_eq!(None, iter.next_back());

    let mut iter = list.iter();
    assert_eq!(Some(&9), iter.next_back());
    assert_eq!(None, iter.next_back());
    assert_eq!(None, iter.next());
}

#[test]
fn duplicate_values_do_not_end_iteration_early() {
    let mut list = List::new();
    for _ in 0..4 {
        list.push_back(5);
    }
    let mut iter = list.iter();
    let mut count: u32 = 0;
    while let Some(val) = iter.next() {
        assert_eq!(5, *val);
        count += 1;
    }
    assert_eq!(4, count);
}

#[test]
fn mutable_iteration_transforms_each_element_once() {
    let mut list = List::new();
    for v in 1..=5 {
        list.push_back(v);
    }
    let mut iter = list.iter_mut();
    while let Some(val) = iter.next(&mut list) {
        *val = *val * 10;
    }
    let mut iter = list.iter();
    for v in 1..=5 {
        assert_eq!(Some(&(v * 10)), iter.next());
    }
    assert_eq!(None, iter.next());
}

#[test]
fn mutable_iteration_from_both_ends() {
    let mut list = List::new();
    for v in 1..=5 {
        list.push_back(v);
    }
    let mut iter = list.iter_mut();
    assert_eq!(Some(&mut 1), iter.next(&mut list));
    assert_eq!(Some(&mut 5), iter.next_back(&mut list));
    assert_eq!(Some(&mut 2), iter.next(&mut list));
    assert_eq!(Some(&mut 4), iter.next_back(&mut list));
    assert_eq!(Some(&mut 3), iter.next_back(&mut list));
    assert_eq!(None, iter.next(&mut list));
    assert_eq!(None, iter.next_back(&mut list));
}

#[test]
fn peeked_mutable_ends_write_through() {
    let mut list = List::new();
    list.push_back(1);
    list.push_back(2);
    list.push_back(3);
    if let Some(front) = list.peek_front_mut() {
        *front = 10;
    }
    if let Some(back) = list.peek_back_mut() {
        *back = 30;
    }
    assert_eq!(Some(10), list.pop_front());
    assert_eq!(Some(30), list.pop_back());
    assert_eq!(Some(2), list.pop_back());
}

#[test]
fn back_pushes_peek_and_drain() {
    let mut list = List::new();
    list.push_back(1);
    list.push_back(2);
    list.push_back(3);
    assert_eq!(Some(&1), list.peek_front());
    assert_eq!(Some(&3), list.peek_back());
    assert_eq!(Some(1), list.pop_front());
    assert_eq!(Some(3), list.pop_back());
    assert_eq!(Some(2), list.pop_back());
    assert_eq!(None, list.pop_back());
    assert_eq!(None, list.peek_front());
    assert_eq!(None, list.peek_back());
}

#[test]
fn consuming_iteration_yields_prepend_reversal() {
    let mut list = List::new();
    list.push_front(1);
    list.push_front(2);
    list.push_front(3);
    let mut iter = list.into_iter();
    assert_eq!(Some(3), iter.next());
    assert_eq!(Some(2), iter.next());
    assert_eq!(Some(1), iter.next());
    assert_eq!(None, iter.next());
}

#[test]
fn chain_peek_mut_writes_through() {
    let mut list = mutable_chain::List::new();
    list.push(1);
    list.push(2);
    if let Some(top) = list.peek_mut() {
        *top = 9;
    }
    assert_eq!(Some(9), list.pop());
    assert_eq!(Some(1), list.pop());
    assert_eq!(None, list.pop());
}

#[test]
fn chain_cursor_past_the_end_stays_absent() {
    let mut list = mutable_chain::List::new();
    list.push(1);
    let mut iter = list.iter_mut();
    assert_eq!(Some(&mut 1), iter.next(&mut list));
    assert_eq!(None, iter.next(&mut list));
    assert_eq!(None, iter.next(&mut list));
}

#[test]
fn slot_reuse_keeps_order_after_churn() {
    // pops vacate arena slots and later pushes reuse them; the observable
    // order must stay that of a plain deque throughout
    let mut list = List::new();
    for v in 0..8 {
        list.push_back(v);
    }
    for _ in 0..4 {
        list.pop_front();
    }
    for v in 8..12 {
        list.push_back(v);
    }
    for v in 4..12 {
        assert_eq!(Some(v), list.pop_front());
    }
    assert_eq!(None, list.pop_front());
}

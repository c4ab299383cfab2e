use double_linked_list::list::List;
use std::collections::VecDeque;

fn filled_at_back(values: &[u32]) -> List<u32> {
    let mut list = List::new();
    for v in values {
        list.push_back(*v);
    }
    list
}

fn filled_at_front(values: &[u32]) -> List<u32> {
    let mut list = List::new();
    for v in values {
        list.push_front(*v);
    }
    list
}

fn reversed(values: &[u32]) -> Vec<Option<u32>> {
    values.iter().rev().map(|v| Some(*v)).collect()
}

#[test]
fn back_pushes_come_back_reversed() {
    for n in 0..40u32 {
        let values: Vec<u32> = (0..n).map(|i| i * 3 + 1).collect();
        let mut list = filled_at_back(&values);
        let mut outputs = Vec::new();
        for _ in 0..n {
            outputs.push(list.pop_back());
        }
        assert_eq!(outputs, reversed(&values));
        assert_eq!(list.pop_back(), None);
    }
}

#[test]
fn front_pushes_come_back_reversed() {
    for n in 0..40u32 {
        let values: Vec<u32> = (0..n).map(|i| i * 5 + 2).collect();
        let mut list = filled_at_front(&values);
        let mut outputs = Vec::new();
        for _ in 0..n {
            outputs.push(list.pop_front());
        }
        assert_eq!(outputs, reversed(&values));
        assert_eq!(list.pop_front(), None);
    }
}

fn built(pattern: u32, n: u32) -> List<u32> {
    let mut list = List::new();
    for i in 0..n {
        if (pattern >> i) & 1 == 1 {
            list.push_front(i);
        } else {
            list.push_back(i);
        }
    }
    list
}

#[test]
fn front_reading_is_back_reading_reversed() {
    let n = 7;
    for pattern in 0..(1u32 << n) {
        let mut by_front = built(pattern, n);
        let mut by_back = built(pattern, n);
        let mut forward = Vec::new();
        let mut backward = Vec::new();
        for _ in 0..n {
            forward.push(by_front.pop_front());
            backward.push(by_back.pop_back());
        }
        backward.reverse();
        assert_eq!(forward, backward);
        assert!(forward.iter().all(|v| v.is_some()));
        assert_eq!(by_front.pop_front(), None);
        assert_eq!(by_back.pop_back(), None);
    }
}

#[test]
fn mixed_pushes_give_the_expected_order() {
    // front: 4 2 0 | back: 1 3 5
    let mut list = List::new();
    for i in 0..6u32 {
        if i % 2 == 0 {
            list.push_front(i);
        } else {
            list.push_back(i);
        }
    }
    let mut order = Vec::new();
    while let Some(v) = list.pop_front() {
        order.push(v);
    }
    assert_eq!(order, vec![4, 2, 0, 1, 3, 5]);
}

#[test]
fn empty_list_keeps_returning_nothing() {
    let mut list: List<i64> = List::new();
    for i in 0..100 {
        if i % 3 == 0 {
            assert_eq!(list.pop_front(), None);
        } else {
            assert_eq!(list.pop_back(), None);
        }
    }
    list.push_back(1);
    assert_eq!(list.pop_front(), Some(1));
    for _ in 0..100 {
        assert_eq!(list.pop_back(), None);
        assert_eq!(list.pop_front(), None);
    }
}

#[test]
fn behaves_like_a_deque_over_a_long_run() {
    let mut list = List::new();
    let mut deque = VecDeque::new();
    let mut state: u32 = 12345;
    for step in 0..20_000u32 {
        state = state.wrapping_mul(1_103_515_245).wrapping_add(12_345);
        match (state >> 16) % 5 {
            0 | 1 => {
                list.push_back(step);
                deque.push_back(step);
            }
            2 => {
                list.push_front(step);
                deque.push_front(step);
            }
            3 => assert_eq!(list.pop_back(), deque.pop_back()),
            _ => assert_eq!(list.pop_front(), deque.pop_front()),
        }
    }
    while let Some(expected) = deque.pop_front() {
        assert_eq!(list.pop_front(), Some(expected));
    }
    assert_eq!(list.pop_front(), None);
    assert_eq!(list.pop_back(), None);
}

#[test]
fn churn_at_one_length_keeps_order() {
    let mut list = List::new();
    list.push_back(0u32);
    list.push_back(1);
    for i in 2..5_000u32 {
        list.push_back(i);
        assert_eq!(list.pop_front(), Some(i - 2));
    }
    assert_eq!(list.pop_back(), Some(4_999));
    assert_eq!(list.pop_back(), Some(4_998));
    assert_eq!(list.pop_back(), None);
}

use double_linked_list::List;

#[test]
fn works_builds_list() {
    let mut list = List::new();
    list.push_back(1);
    list.push_back(2);
    list.push_back(3);
    list.push_back(4);

    assert_eq!(list.pop_back(), Some(4));
    assert_eq!(list.pop_back(), Some(3));
    assert_eq!(list.pop_back(), Some(2));
    assert_eq!(list.pop_back(), Some(1));
    assert_eq!(list.pop_back(), None);
}

#[test]
fn works_builds_list_front() {
    let mut list = List::new();
    list.push_front(1);
    list.push_front(2);
    list.push_front(3);
    list.push_front(4);

    assert_eq!(list.pop_front(), Some(4));
    assert_eq!(list.pop_front(), Some(3));
    assert_eq!(list.pop_front(), Some(2));
    assert_eq!(list.pop_front(), Some(1));
    assert_eq!(list.pop_front(), None);
}

#[test]
fn mixed_ends_keep_sequence_order() {
    let mut list = List::new();
    list.push_back(1);
    list.push_front(0);
    list.push_back(2);

    assert_eq!(list.pop_front(), Some(0));
    assert_eq!(list.pop_back(), Some(2));
    assert_eq!(list.pop_front(), Some(1));
    assert_eq!(list.pop_front(), None);
}

#[test]
fn new_list_is_empty_at_both_ends() {
    let mut list: List<u8> = List::new();
    assert_eq!(list.pop_front(), None);
    assert_eq!(list.pop_back(), None);
}

#[test]
fn single_element_leaves_by_the_back() {
    let mut list = List::new();
    list.push_front(7u64);
    assert_eq!(list.pop_back(), Some(7));
    assert_eq!(list.pop_back(), None);
    assert_eq!(list.pop_front(), None);
}

#[test]
fn single_element_leaves_by_the_front() {
    let mut list = List::new();
    list.push_back(7u64);
    assert_eq!(list.pop_front(), Some(7));
    assert_eq!(list.pop_front(), None);
    assert_eq!(list.pop_back(), None);
}

#[test]
fn back_pushes_leave_by_the_front_in_order() {
    let mut list = List::new();
    list.push_back('a');
    list.push_back('b');
    list.push_back('c');
    assert_eq!(list.pop_front(), Some('a'));
    assert_eq!(list.pop_front(), Some('b'));
    assert_eq!(list.pop_front(), Some('c'));
    assert_eq!(list.pop_front(), None);
}

#[test]
fn front_pushes_leave_by_the_back_in_order() {
    let mut list = List::new();
    list.push_front('a');
    list.push_front('b');
    list.push_front('c');
    assert_eq!(list.pop_back(), Some('a'));
    assert_eq!(list.pop_back(), Some('b'));
    assert_eq!(list.pop_back(), Some('c'));
    assert_eq!(list.pop_back(), None);
}

#[test]
fn list_is_usable_again_after_it_was_emptied() {
    let mut list = List::new();
    list.push_back(1i32);
    list.push_back(2);
    assert_eq!(list.pop_front(), Some(1));
    assert_eq!(list.pop_front(), Some(2));
    assert_eq!(list.pop_front(), None);

    list.push_front(3);
    list.push_back(4);
    list.push_front(5);
    assert_eq!(list.pop_back(), Some(4));
    assert_eq!(list.pop_back(), Some(3));
    assert_eq!(list.pop_back(), Some(5));
    assert_eq!(list.pop_back(), None);
}

#[test]
fn pops_interleaved_with_pushes() {
    let mut list = List::new();
    list.push_back(10u32);
    list.push_back(20);
    assert_eq!(list.pop_front(), Some(10));
    list.push_front(5);
    list.push_back(30);
    assert_eq!(list.pop_back(), Some(30));
    list.push_back(40);
    list.push_front(1);
    assert_eq!(list.pop_front(), Some(1));
    assert_eq!(list.pop_front(), Some(5));
    assert_eq!(list.pop_front(), Some(20));
    assert_eq!(list.pop_front(), Some(40));
    assert_eq!(list.pop_front(), None);
    assert_eq!(list.pop_back(), None);
}

#[test]
fn equal_values_are_kept_apart() {
    let mut list = List::new();
    list.push_back(9u8);
    list.push_back(9);
    list.push_front(9);
    assert_eq!(list.pop_back(), Some(9));
    assert_eq!(list.pop_front(), Some(9));
    assert_eq!(list.pop_back(), Some(9));
    assert_eq!(list.pop_back(), None);
}

#[test]
fn payload_may_be_any_copyable_type() {
    let mut pairs = List::new();
    pairs.push_back((1u8, true));
    pairs.push_front((2u8, false));
    assert_eq!(pairs.pop_back(), Some((1, true)));
    assert_eq!(pairs.pop_back(), Some((2, false)));
    assert_eq!(pairs.pop_back(), None);

    let mut words = List::new();
    words.push_back("tail");
    words.push_front("head");
    assert_eq!(words.pop_front(), Some("head"));
    assert_eq!(words.pop_front(), Some("tail"));
    assert_eq!(words.pop_front(), None);

    let mut ratios = List::new();
    ratios.push_back(0.5f64);
    ratios.push_back(1.5f64);
    assert_eq!(ratios.pop_front(), Some(0.5));
    assert_eq!(ratios.pop_back(), Some(1.5));
    assert_eq!(ratios.pop_back(), None);
}

#[test]
fn two_lists_do_not_share_nodes() {
    let mut left = List::new();
    let mut right = List::new();
    left.push_back(1u16);
    right.push_back(2u16);
    left.push_back(3);
    right.push_front(4);
    assert_eq!(left.pop_front(), Some(1));
    assert_eq!(right.pop_front(), Some(4));
    assert_eq!(left.pop_front(), Some(3));
    assert_eq!(right.pop_front(), Some(2));
    assert_eq!(left.pop_front(), None);
    assert_eq!(right.pop_front(), None);
}

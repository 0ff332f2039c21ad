use constregex::ConstList;

/// Reads the logical element at `index`, front first.
fn logical<T: Copy, const N: usize>(list: &ConstList<T, N>, index: usize) -> Option<T> {
    list.get(index)
}

#[test]
fn new_initializes_empty_list() {
    let list: ConstList<i32, 4> = ConstList::new();
    assert_eq!(list.len(), 0);
    assert_eq!(list.slots(), &[None, None, None, None]);
}

#[test]
fn len_is_zero_for_a_new_list() {
    let list: ConstList<i32, 4> = ConstList::new();
    assert_eq!(list.len(), 0);
}

#[test]
fn len_reflects_current_element_count_not_capacity() {
    let mut list: ConstList<i32, 4> = ConstList::new();
    list.push_back(1);
    assert_eq!(list.len(), 1);
    list.push_back(2);
    assert_eq!(list.len(), 2);
}

#[test]
fn len_decreases_after_pop_back() {
    let mut list: ConstList<i32, 3> = ConstList::new();
    list.push_back(1);
    list.push_back(2);
    list.pop_back();
    assert_eq!(list.len(), 1);
}

#[test]
fn len_decreases_after_pop_front() {
    let mut list: ConstList<i32, 3> = ConstList::new();
    list.push_back(1);
    list.push_back(2);
    list.pop_front();
    assert_eq!(list.len(), 1);
}

#[test]
fn len_reflects_combined_count_after_extend() {
    let mut a: ConstList<i32, 5> = ConstList::new();
    a.push_back(1);

    let mut b: ConstList<i32, 5> = ConstList::new();
    b.push_back(2);
    b.push_back(3);

    a.extend(b);
    assert_eq!(a.len(), 3);
}

#[test]
fn push_back_appends_value() {
    let mut list: ConstList<i32, 3> = ConstList::new();
    list.push_back(42);
    assert_eq!(list.len(), 1);
    assert_eq!(logical(&list, 0), Some(42));
}

#[test]
fn push_back_fills_list_in_order() {
    let mut list: ConstList<i32, 3> = ConstList::new();
    list.push_back(1);
    list.push_back(2);
    list.push_back(3);
    assert_eq!(logical(&list, 0), Some(1));
    assert_eq!(logical(&list, 1), Some(2));
    assert_eq!(logical(&list, 2), Some(3));
    assert_eq!(list.len(), 3);
}

#[test]
fn push_front_prepends_value() {
    let mut list: ConstList<i32, 3> = ConstList::new();
    list.push_back(2);
    list.push_front(1);
    assert_eq!(list.len(), 2);
    assert_eq!(logical(&list, 0), Some(1));
    assert_eq!(logical(&list, 1), Some(2));
}

#[test]
fn push_front_builds_list_in_reverse_order() {
    let mut list: ConstList<i32, 3> = ConstList::new();
    list.push_front(1);
    list.push_front(2);
    list.push_front(3);
    assert_eq!(logical(&list, 0), Some(3));
    assert_eq!(logical(&list, 1), Some(2));
    assert_eq!(logical(&list, 2), Some(1));
}

#[test]
fn pop_back_removes_and_returns_values_in_lifo_order() {
    let mut list: ConstList<i32, 3> = ConstList::new();
    list.push_back(1);
    list.push_back(2);
    assert_eq!(list.pop_back(), Some(2));
    assert_eq!(list.pop_back(), Some(1));
    assert_eq!(list.len(), 0);
}

#[test]
fn pop_back_returns_none_when_list_is_empty() {
    let mut list: ConstList<i32, 2> = ConstList::new();
    assert_eq!(list.pop_back(), None);
}

#[test]
fn pop_front_removes_and_returns_values_in_fifo_order() {
    let mut list: ConstList<i32, 3> = ConstList::new();
    list.push_back(1);
    list.push_back(2);
    assert_eq!(list.pop_front(), Some(1));
    assert_eq!(list.pop_front(), Some(2));
    assert_eq!(list.len(), 0);
}

#[test]
fn pop_front_returns_none_when_list_is_empty() {
    let mut list: ConstList<i32, 2> = ConstList::new();
    assert_eq!(list.pop_front(), None);
}

#[test]
fn push_back_after_pop_front_wraps_around_the_ring_buffer() {
    let mut list: ConstList<i32, 2> = ConstList::new();
    list.push_back(1);
    list.push_back(2);
    assert_eq!(list.pop_front(), Some(1));
    // the freed physical slot is at the start of the array, so this
    // push has to wrap around to reuse it.
    list.push_back(3);
    assert_eq!(list.len(), 2);
    assert_eq!(logical(&list, 0), Some(2));
    assert_eq!(logical(&list, 1), Some(3));
}

#[test]
fn push_front_after_pop_back_wraps_around_the_ring_buffer() {
    let mut list: ConstList<i32, 2> = ConstList::new();
    list.push_front(1);
    list.push_front(2);
    assert_eq!(list.pop_back(), Some(1));
    list.push_front(3);
    assert_eq!(list.len(), 2);
    assert_eq!(logical(&list, 0), Some(3));
    assert_eq!(logical(&list, 1), Some(2));
}

#[test]
fn mixed_front_and_back_pushes_preserve_logical_order() {
    let mut list: ConstList<i32, 3> = ConstList::new();
    list.push_back(2);
    list.push_front(1);
    list.push_back(3);
    assert_eq!(logical(&list, 0), Some(1));
    assert_eq!(logical(&list, 1), Some(2));
    assert_eq!(logical(&list, 2), Some(3));
    assert_eq!(list.pop_front(), Some(1));
    assert_eq!(list.pop_front(), Some(2));
    assert_eq!(list.pop_front(), Some(3));
}

#[test]
fn extend_appends_all_values_from_other_list_in_order() {
    let mut a: ConstList<i32, 5> = ConstList::new();
    a.push_back(1);
    a.push_back(2);

    let mut b: ConstList<i32, 5> = ConstList::new();
    b.push_back(3);
    b.push_back(4);

    a.extend(b);
    assert_eq!(a.len(), 4);
    assert_eq!(logical(&a, 0), Some(1));
    assert_eq!(logical(&a, 1), Some(2));
    assert_eq!(logical(&a, 2), Some(3));
    assert_eq!(logical(&a, 3), Some(4));
}

#[test]
fn extend_succeeds_when_result_exactly_fills_capacity() {
    let mut a: ConstList<i32, 5> = ConstList::new();
    a.push_back(1);
    a.push_back(2);

    let mut b: ConstList<i32, 5> = ConstList::new();
    b.push_back(3);
    b.push_back(4);
    b.push_back(5);

    a.extend(b);
    assert_eq!(a.len(), 5);
    for (i, expected) in [1, 2, 3, 4, 5].into_iter().enumerate() {
        assert_eq!(logical(&a, i), Some(expected));
    }
}

#[test]
fn extend_appends_correctly_when_either_side_has_wrapped_around() {
    // `a` wraps: two front-pushes leave `start` at a non-zero index,
    // then a back-pop shrinks `len` without resetting `start`.
    let mut a: ConstList<i32, 3> = ConstList::new();
    a.push_front(2);
    a.push_front(1);
    a.pop_back();

    // `b` also wraps via a front push.
    let mut b: ConstList<i32, 3> = ConstList::new();
    b.push_back(10);
    b.push_front(9);

    a.extend(b);
    assert_eq!(a.len(), 3);
    assert_eq!(logical(&a, 0), Some(1));
    assert_eq!(logical(&a, 1), Some(9));
    assert_eq!(logical(&a, 2), Some(10));
}

#[test]
fn get_past_the_length_is_none() {
    let mut list: ConstList<i32, 3> = ConstList::new();
    assert_eq!(list.get(0), None);
    list.push_back(5);
    assert_eq!(list.get(0), Some(5));
    assert_eq!(list.get(1), None);
    assert_eq!(list.get(7), None);
}

#[test]
fn pop_back_undoes_push_back() {
    let mut list: ConstList<i32, 4> = ConstList::new();
    list.push_back(1);
    list.push_front(0);
    list.push_back(2);
    assert_eq!(list.pop_back(), Some(2));
    assert_eq!(list.len(), 2);
    assert_eq!(logical(&list, 0), Some(0));
    assert_eq!(logical(&list, 1), Some(1));
}

#[test]
fn pop_front_undoes_push_front() {
    let mut list: ConstList<i32, 2> = ConstList::new();
    list.push_back(1);
    list.push_front(7);
    assert_eq!(list.pop_front(), Some(7));
    assert_eq!(list.len(), 1);
    assert_eq!(logical(&list, 0), Some(1));
}

#[test]
fn extend_with_an_empty_list_changes_nothing() {
    let mut a: ConstList<i32, 2> = ConstList::new();
    a.push_back(3);
    let b: ConstList<i32, 2> = ConstList::new();
    a.extend(b);
    assert_eq!(a.len(), 1);
    assert_eq!(logical(&a, 0), Some(3));
}

#[test]
fn a_list_of_capacity_zero_is_always_empty() {
    let mut list: ConstList<i32, 0> = ConstList::new();
    assert_eq!(list.len(), 0);
    assert_eq!(list.pop_back(), None);
    assert_eq!(list.pop_front(), None);
    assert_eq!(list.slots(), &[]);
}

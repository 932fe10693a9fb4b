use datastructures::packed_linked_list::PackedLinkedList;

/// Creates an owned list from a slice, not efficient at all but easy to use.
fn create_list<T: Clone>(items: &[T]) -> PackedLinkedList<T, 8> {
    PackedLinkedList::from_vec(items.to_vec())
}

fn create_sized_list<T: Clone, const COUNT: usize>(items: &[T]) -> PackedLinkedList<T, COUNT> {
    PackedLinkedList::from_vec(items.to_vec())
}

/// Copies a list into a vector, front to back.
fn collect<T: Clone, const COUNT: usize>(list: &PackedLinkedList<T, COUNT>) -> Vec<T> {
    let mut out = Vec::new();
    let mut it = list.iter();
    while let Some(v) = it.next() {
        out.push(v.clone());
    }
    out
}

#[test]
fn empty_unit_list() {
    PackedLinkedList::<(), 0>::new();
}

#[test]
fn push_front_single_node() {
    let mut list = PackedLinkedList::<_, 16>::new();
    list.push_front("hallo");
}

#[test]
fn push_front_multiple_nodes_count_1() {
    let mut list = PackedLinkedList::<_, 1>::new();
    list.push_front("3");
    list.push_front("2");
    list.push_front("1");
}

#[test]
fn push_front_multiple_nodes_count_2() {
    let mut list = PackedLinkedList::<_, 2>::new();
    list.push_front("3");
    list.push_front("2");
    list.push_front("1");
}

#[test]
fn test_pop_front() {
    let mut list = create_sized_list::<_, 2>(&[1, 2, 3, 4]);
    assert_eq!(list.pop_front(), Some(1));
    assert_eq!(list.pop_front(), Some(2));
    assert_eq!(list.pop_front(), Some(3));
    assert_eq!(list.pop_front(), Some(4));
    assert_eq!(list.pop_front(), None);
    assert_eq!(list.pop_front(), None);
}

#[test]
fn iter_single_node() {
    let mut list = PackedLinkedList::<_, 16>::new();
    list.push_front("2");
    list.push_front("1");
    let mut iter = list.iter();
    assert_eq!(iter.next(), Some(&"1"));
    assert_eq!(iter.next(), Some(&"2"));
    assert_eq!(iter.next(), None);
}

#[test]
fn into_iter() {
    let mut iter = create_list(&[1, 2, 3]).into_iter();
    assert_eq!(iter.next(), Some(1));
    assert_eq!(iter.next(), Some(2));
    assert_eq!(iter.next(), Some(3));
    assert_eq!(iter.next(), None);
}

#[test]
fn test_iter_mut() {
    let list = create_list(&[1, 2, 3, 4]);
    let mut iter_mut = list.iter_mut();
    assert_eq!(iter_mut.replace(10), Some(1));
    let list = iter_mut.into_list();
    assert_eq!(list, create_list(&[10, 2, 3, 4]));
}

#[test]
fn from_iter() {
    let vec = vec![1, 2, 3, 4, 5, 6, 7, 8, 9];
    let list = PackedLinkedList::<_, 1024>::from_vec(vec.clone());
    assert_eq!(collect(&list), vec);
}

#[test]
fn get_cursor() {
    let list = create_list(&[1, 2, 3, 4, 5, 6]);
    let mut cursor = list.cursor_front();
    assert_eq!(cursor.get(), Some(&1));
    cursor.move_next();
    assert_eq!(cursor.get(), Some(&2));
    cursor.move_prev();
    assert_eq!(cursor.get(), Some(&1));
    cursor.move_prev();
    assert_eq!(cursor.get(), None);
    cursor.move_prev();
    assert_eq!(cursor.get(), Some(&6));
    cursor.move_prev();
    cursor.move_prev();
    cursor.move_prev();
    cursor.move_prev();
    cursor.move_prev();
    assert_eq!(cursor.get(), Some(&1));
    cursor.move_prev();
    cursor.move_next();
    assert_eq!(cursor.get(), Some(&1));
}

#[test]
fn insert_after_cursor() {
    let mut list = create_sized_list(&[1, 2, 3]);
    let mut cursor = list.cursor_mut_front();
    // insertion inside a node that still has room
    cursor.insert_after(11);
    list = cursor.into_list();
    assert_eq!(list, create_list(&[1, 11, 2, 3]));

    let mut list = create_sized_list::<_, 4>(&[1, 2, 3, 4]);
    let mut cursor = list.cursor_mut_front();
    // insertion inside a full node: the tail splits off
    cursor.insert_after(11);
    list = cursor.into_list();
    assert_eq!(list, create_sized_list(&[1, 11, 2, 3, 4]));
}

#[test]
fn insert_after_at_back_spills_into_new_node() {
    // a full node with the cursor on its last element: the new element gets
    // a fresh node at the back
    let list = create_sized_list::<_, 4>(&[1, 2, 3, 4]);
    let mut cursor = list.cursor_mut_back();
    assert_eq!(cursor.get(), Some(&4));
    cursor.insert_after(11);
    assert_eq!(cursor.get(), Some(&4));
    let list = cursor.into_list();
    assert_eq!(collect(&list), vec![1, 2, 3, 4, 11]);
    assert_eq!(list.len(), 5);
}

#[test]
fn insert_after_spills_into_next_node() {
    // cursor on the last element of a full node whose successor has room:
    // the element lands at the front of the successor
    let list = create_sized_list::<_, 2>(&[1, 2, 3]);
    let mut cursor = list.cursor_mut_front();
    cursor.move_next();
    assert_eq!(cursor.get(), Some(&2));
    cursor.insert_after(11);
    assert_eq!(cursor.get(), Some(&2));
    let list = cursor.into_list();
    assert_eq!(collect(&list), vec![1, 2, 11, 3]);
}

#[test]
fn insert_after_with_single_slot_nodes() {
    let list = create_sized_list::<_, 1>(&[1, 2]);
    let mut cursor = list.cursor_mut_front();
    cursor.insert_after(3);
    let list = cursor.into_list();
    assert_eq!(collect(&list), vec![1, 3, 2]);
}

#[test]
fn insert_after_at_ghost_pushes_front() {
    let list = create_sized_list::<_, 2>(&[2, 3]);
    let mut cursor = list.cursor_mut_front();
    cursor.move_prev();
    assert_eq!(cursor.get(), None);
    cursor.insert_after(1);
    let list = cursor.into_list();
    assert_eq!(collect(&list), vec![1, 2, 3]);
}

#[test]
fn insert_before_cursor() {
    let list = create_sized_list::<_, 2>(&[2, 3]);
    let mut cursor = list.cursor_mut_front();
    cursor.insert_before(1);
    // the cursor stays on its element
    assert_eq!(cursor.get(), Some(&2));
    // at the ghost position the element goes to the back
    cursor.move_prev();
    cursor.move_prev();
    assert_eq!(cursor.get(), None);
    cursor.insert_before(4);
    let list = cursor.into_list();
    assert_eq!(collect(&list), vec![1, 2, 3, 4]);
}

#[test]
fn replace_and_remove_at_cursor() {
    let list = create_sized_list::<_, 2>(&[1, 2, 3]);
    let mut cursor = list.cursor_mut_front();
    assert_eq!(cursor.replace(9), Some(1));
    assert_eq!(cursor.get(), Some(&9));
    assert_eq!(cursor.remove(), Some(9));
    // the cursor moves onto the element that followed the removed one
    assert_eq!(cursor.get(), Some(&2));
    let list = cursor.into_list();
    assert_eq!(collect(&list), vec![2, 3]);
}

#[test]
fn replace_and_remove_at_ghost() {
    let list = create_sized_list::<_, 2>(&[1]);
    let mut cursor = list.cursor_mut_front();
    cursor.move_prev();
    assert_eq!(cursor.replace(9), None);
    assert_eq!(cursor.remove(), None);
    let list = cursor.into_list();
    assert_eq!(collect(&list), vec![1]);
}

#[test]
fn remove_last_element_empties_list() {
    let list = create_sized_list::<_, 2>(&[1]);
    let mut cursor = list.cursor_mut_front();
    assert_eq!(cursor.remove(), Some(1));
    assert_eq!(cursor.get(), None);
    let list = cursor.into_list();
    assert!(list.is_empty());
}

#[test]
fn scenario_capacity_two_fifo() {
    let mut list = PackedLinkedList::<_, 2>::new();
    list.push_back(1);
    list.push_back(2);
    list.push_back(3);
    list.push_back(4);
    assert_eq!(list.pop_front(), Some(1));
    assert_eq!(list.pop_front(), Some(2));
    assert_eq!(list.pop_front(), Some(3));
    assert_eq!(list.pop_front(), Some(4));
    assert_eq!(list.pop_front(), None);
}

#[test]
fn scenario_capacity_one_push_front() {
    let mut list = PackedLinkedList::<_, 1>::new();
    list.push_front(3);
    list.push_front(2);
    list.push_front(1);
    assert_eq!(collect(&list), vec![1, 2, 3]);
}

#[test]
fn clone_is_equal_and_independent() {
    let original = create_list(&[1, 5, 732, 533]);
    let mut copy = original.clone();
    assert_eq!(original, copy);
    copy.push_back(9);
    assert_eq!(original, create_list(&[1, 5, 732, 533]));
    assert_ne!(original, copy);
}

#[test]
fn equality_ignores_node_layout() {
    // same elements, built so that the nodes split differently
    let flat = create_sized_list::<_, 4>(&[1, 11, 2, 3, 4]);
    let list = create_sized_list::<_, 4>(&[1, 2, 3, 4]);
    let mut cursor = list.cursor_mut_front();
    cursor.insert_after(11);
    let split = cursor.into_list();
    assert_eq!(split, flat);
    assert_eq!(split.len(), flat.len());
}

#[test]
fn len_matches_forward_traversal() {
    let list = create_sized_list::<_, 3>(&[1, 2, 3, 4, 5, 6, 7]);
    let forward = collect(&list);
    assert_eq!(forward.len(), list.len());
}

#[test]
fn backward_traversal_is_reverse_of_forward() {
    let list = create_sized_list::<_, 2>(&[1, 2, 3, 4, 5]);
    let forward = collect(&list);
    let mut backward = Vec::new();
    let mut cursor = list.cursor_back();
    while let Some(&v) = cursor.get() {
        backward.push(v);
        cursor.move_prev();
    }
    let mut reversed = forward.clone();
    reversed.reverse();
    assert_eq!(backward, reversed);
}

#[test]
fn navigation_round_trip() {
    let list = create_sized_list::<_, 2>(&[1, 2, 3]);
    // from a live position, next then prev comes back
    let mut cursor = list.cursor_front();
    cursor.move_next();
    cursor.move_prev();
    assert_eq!(cursor.get(), Some(&1));
    // from the last element, next reaches the ghost and prev comes back
    let mut cursor = list.cursor_back();
    cursor.move_next();
    assert_eq!(cursor.get(), None);
    cursor.move_prev();
    assert_eq!(cursor.get(), Some(&3));
    // from the ghost position, prev then next returns to the ghost
    let mut cursor = list.cursor_front();
    cursor.move_prev();
    cursor.move_prev();
    cursor.move_next();
    assert_eq!(cursor.get(), None);
}

#[test]
fn pops_on_empty_list() {
    let mut list: PackedLinkedList<i32, 4> = PackedLinkedList::new();
    assert_eq!(list.pop_front(), None);
    assert_eq!(list.pop_back(), None);
    assert!(list.is_empty());
    assert_eq!(list.len(), 0);
}

#[test]
fn pop_back_drains_in_reverse() {
    let mut list = create_sized_list::<_, 2>(&[1, 2, 3]);
    assert_eq!(list.pop_back(), Some(3));
    assert_eq!(list.pop_back(), Some(2));
    assert_eq!(list.pop_back(), Some(1));
    assert_eq!(list.pop_back(), None);
    assert_eq!(list.pop_back(), None);
}

#[test]
fn round_trip_through_consuming_iterator() {
    let input = vec![4, 8, 15, 16, 23, 42];
    let list = PackedLinkedList::<_, 4>::from_vec(input.clone());
    let mut out = Vec::new();
    let mut it = list.into_iter();
    while let Some(v) = it.next() {
        out.push(v);
    }
    assert_eq!(out, input);
}

#[test]
fn extend_appends_in_order() {
    let mut list = create_sized_list::<_, 2>(&[1, 2]);
    list.extend(vec![3, 4, 5]);
    assert_eq!(collect(&list), vec![1, 2, 3, 4, 5]);
    assert_eq!(list.len(), 5);
}

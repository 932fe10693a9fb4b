use datastructures::linked_list::{LinkedList, Node};

/// Creates an owned list from a slice, not efficient at all but easy to use.
fn create_list<T: Clone>(items: &[T]) -> LinkedList<T> {
    LinkedList::from_vec(items.to_vec())
}

/// Drains a list into a vector, front to back.
fn drain<T>(list: LinkedList<T>) -> Vec<T> {
    let mut out = Vec::new();
    let mut it = list.into_iter();
    while let Some(v) = it.next() {
        out.push(v);
    }
    out
}

/// Copies a list into a vector, front to back.
fn collect<T: Clone>(list: &LinkedList<T>) -> Vec<T> {
    let mut out = Vec::new();
    let mut it = list.iter();
    while let Some(v) = it.next() {
        out.push(v.clone());
    }
    out
}

#[test]
fn linked_list_random_access() {
    let mut list = LinkedList::new();
    list.push_front("hallo");
    list.push_front("test");
    list.push_front("nice");
    assert_eq!(list.get(0), Some(&"nice"));
    assert_eq!(list.get(1), Some(&"test"));
    assert_eq!(list.get(2), Some(&"hallo"));
    assert_eq!(list.get(3), None);
}

#[test]
fn test_random_access() {
    let list = create_list(&["nice", "test", "hallo"]);
    assert_eq!(list.get(0), Some(&"nice"));
    assert_eq!(list.get(1), Some(&"test"));
    assert_eq!(list.get(2), Some(&"hallo"));
    assert_eq!(list.get(3), None);
}

#[test]
fn linked_list_push_start_end() {
    let mut list = LinkedList::new();
    list.push_back(3);
    list.push_front(2);
    list.push_front(1);
    list.push_back(4);
    list.push_back(5);
    let vec = collect(&list);
    assert_eq!(&vec[..], &[1, 2, 3, 4, 5]);
}

#[test]
fn test_push_start_end() {
    let mut list = LinkedList::new();
    list.push_back(3);
    list.push_front(2);
    list.push_front(1);
    list.push_back(4);
    list.push_back(5);
    let vec = collect(&list);
    assert_eq!(&vec[..], &[1, 2, 3, 4, 5]);
}

#[test]
fn pop_back() {
    let mut list = create_list(&["hi", "3", "5"]);
    assert_eq!(Some("5"), list.pop_back());
    assert_eq!(Some("3"), list.pop_back());
    assert_eq!(Some("hi"), list.pop_back());
    assert_eq!(None, list.pop_back());
}

#[test]
fn pop_front() {
    let mut list = create_list(&["hi", "3", "5"]);
    assert_eq!(Some("hi"), list.pop_front());
    assert_eq!(Some("3"), list.pop_front());
    assert_eq!(Some("5"), list.pop_front());
    assert_eq!(None, list.pop_front());
}

#[test]
fn linked_list_iter_simple() {
    let mut list = LinkedList::new();
    list.push_front("hallo");
    list.push_front("test");
    list.push_front("nice");
    let mut iter = list.iter();
    assert_eq!(iter.next(), Some(&"nice"));
    assert_eq!(iter.next(), Some(&"test"));
    let val = iter.next();
    assert_eq!(val, Some(&"hallo"));
    assert_eq!(iter.next(), None);
}

#[test]
fn test_iter_simple() {
    let list = create_list(&["nice", "test", "hallo"]);
    let mut iter = list.iter();
    assert_eq!(iter.next(), Some(&"nice"));
    assert_eq!(iter.next(), Some(&"test"));
    let val = iter.next();
    assert_eq!(val, Some(&"hallo"));
    assert_eq!(iter.next(), None);
}

#[test]
fn linked_list_iterator() {
    let mut list = LinkedList::new();
    list.push_front("hallo");
    list.push_front("test");
    list.push_front("nice");
    let mut vec = Vec::new();
    let mut iter = list.iter();
    while let Some(v) = iter.next() {
        vec.push(v);
    }
    assert_eq!(vec[0], &"nice");
    assert_eq!(vec[1], &"test");
    assert_eq!(vec[2], &"hallo");
    assert_eq!(vec.get(3), None);
}

#[test]
fn test_iterator() {
    let list = create_list(&["nice", "test", "hallo"]);
    let mut vec = Vec::new();
    let mut iter = list.iter();
    while let Some(v) = iter.next() {
        vec.push(v);
    }
    assert_eq!(vec[0], &"nice");
    assert_eq!(vec[1], &"test");
    assert_eq!(vec[2], &"hallo");
    assert_eq!(vec.get(3), None);
}

#[test]
fn into_iterator() {
    let list = create_list(&["nice", "test", "hallo"]);
    let vec = drain(list);
    assert_eq!(vec[0], "nice");
    assert_eq!(vec[1], "test");
    assert_eq!(vec[2], "hallo");
    assert_eq!(vec.get(3), None);
}

#[test]
fn iter_mut() {
    let list = create_list(&[1, 2, 3]);
    let mut iter = list.iter_mut();
    loop {
        let current = match iter.peek() {
            Some(&v) => v,
            None => break,
        };
        iter.replace(current * 2);
        iter.advance();
    }
    let list = iter.into_list();
    assert_eq!(list, create_list(&[2, 4, 6]));
}

#[test]
fn test_get_large_number() {
    let mut list = LinkedList::new();
    for i in 0..10000 {
        list.push_front(i);
    }
    assert_eq!(list.get(9999), Some(&0));
}

#[test]
fn list_len() {
    let list = create_list(&[1, 2, 3, 4, 5, 6, 7, 8, 9]);
    assert_eq!(list.len(), 9);
}

#[test]
fn std_traits() {
    let mut list1 = create_list(&[1, 5, 732, 533]);
    let list2 = create_list(&[1, 5, 732, 533]);
    assert_eq!(list1, list2);

    list1.extend(vec![99, 100]);
    assert_eq!(list1, create_list(&[1, 5, 732, 533, 99, 100]));

    let vec1 = vec![1, 5, 732, 533, 99, 100];
    let list_from_vec = LinkedList::from_vec(vec1);
    assert_eq!(list1, list_from_vec);
}

#[test]
fn into_iter_not_consumed() {
    let list = create_list(&[1, 2, 4, 6, 7, 4, 5, 7, 57, 5]);
    list.into_iter();
}

#[test]
fn node_value_updates() {
    let mut node = Node::new(1);
    assert_eq!(*node.get(), 1);
    assert_eq!(node.replace_value(2), 1);
    assert_eq!(*node.get(), 2);
    node.set(4);
    assert_eq!(*node.get(), 4);
}

#[test]
fn node_mutation_through_list() {
    let mut list = create_list(&[1, 2, 3]);
    let node = list.get_mut_node(1);
    assert_eq!(*node.get(), 2);
    assert_eq!(node.replace_value(5), 2);
    list.get_mut_node(2).set(6);
    assert_eq!(list, create_list(&[1, 5, 6]));
}

#[test]
fn node_access_through_list() {
    let list = create_list(&[7, 8, 9]);
    assert_eq!(*list.front_node().unwrap().get(), 7);
    assert_eq!(*list.back_node().unwrap().get(), 9);
    assert_eq!(*list.get_node(1).unwrap().get(), 8);
    assert!(list.get_node(3).is_none());
    assert_eq!(list.get_head(), Some(&7));
    assert_eq!(list.get_tail(), Some(&9));
}

#[test]
fn linked_list_pops_on_empty() {
    let mut list: LinkedList<i32> = LinkedList::new();
    assert_eq!(list.pop_front(), None);
    assert_eq!(list.pop_back(), None);
    assert_eq!(list.len(), 0);
    assert!(list.get_head().is_none());
    assert!(list.get_tail().is_none());
}

#[test]
fn linked_list_round_trip_drain() {
    let input = vec![4, 8, 15, 16, 23, 42];
    let list = LinkedList::from_vec(input.clone());
    let out = drain(list);
    assert_eq!(out, input);
}

#[test]
fn linked_list_clone_independent() {
    let original = create_list(&[1, 5, 732, 533]);
    let mut copy = original.clone();
    assert_eq!(original, copy);
    copy.push_back(9);
    assert_eq!(original, create_list(&[1, 5, 732, 533]));
    assert_ne!(original, copy);
}

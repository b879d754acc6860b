use linked_list::LinkedList;

fn values<T: Clone>(l: &LinkedList<T>) -> Vec<T> {
    l.traverse().into_iter().cloned().collect()
}

#[test]
fn mixed_append_then_prepend() {
    let mut l = LinkedList::new();
    l.append(1);
    l.append(2);
    l.append(3);
    l.prepend(0);
    assert_eq!(values(&l), vec![0, 1, 2, 3]);
}

#[test]
fn empty_list_traverses_to_nothing() {
    let l: LinkedList<i32> = LinkedList::new();
    assert!(l.traverse().is_empty());
    assert_eq!(l.head(), None);
    assert_eq!(l.tail(), None);
}

#[test]
fn appends_traverse_in_call_order() {
    let mut l = LinkedList::new();
    for v in [5, 9, 2, 7, 7, 1] {
        l.append(v);
    }
    assert_eq!(values(&l), vec![5, 9, 2, 7, 7, 1]);
}

#[test]
fn prepends_traverse_in_reverse_call_order() {
    let mut l = LinkedList::new();
    for v in [5, 9, 2, 7, 7, 1] {
        l.prepend(v);
    }
    assert_eq!(values(&l), vec![1, 7, 7, 2, 9, 5]);
}

#[test]
fn traversal_twice_gives_same_values() {
    let mut l = LinkedList::new();
    l.append(String::from("b"));
    l.prepend(String::from("a"));
    l.append(String::from("c"));
    let first = values(&l);
    let second = values(&l);
    assert_eq!(first, second);
    assert_eq!(first, vec!["a", "b", "c"]);
}

#[test]
fn append_makes_new_tail_and_keeps_head() {
    let mut l = LinkedList::new();
    l.append(10);
    l.prepend(5);
    let head = l.head();
    let old_tail = l.tail().unwrap();
    l.append(20);
    let tail = l.tail().unwrap();
    assert_ne!(tail, old_tail);
    assert_eq!(*l.value(tail), 20);
    assert_eq!(l.head(), head);
    assert_eq!(l.next(old_tail), Some(tail));
    assert_eq!(l.prev(tail), Some(old_tail));
    assert_eq!(l.next(tail), None);
}

#[test]
fn prepend_makes_new_head_and_keeps_tail() {
    let mut l = LinkedList::new();
    l.append(10);
    l.append(20);
    let tail = l.tail();
    let old_head = l.head().unwrap();
    l.prepend(5);
    let head = l.head().unwrap();
    assert_ne!(head, old_head);
    assert_eq!(*l.value(head), 5);
    assert_eq!(l.tail(), tail);
    assert_eq!(l.next(head), Some(old_head));
    assert_eq!(l.prev(old_head), Some(head));
    assert_eq!(l.prev(head), None);
}

#[test]
fn single_append_is_head_and_tail() {
    let mut l = LinkedList::new();
    l.append(42);
    let head = l.head();
    assert!(head.is_some());
    assert_eq!(head, l.tail());
    let id = head.unwrap();
    assert_eq!(*l.value(id), 42);
    assert_eq!(l.next(id), None);
    assert_eq!(l.prev(id), None);
    assert_eq!(values(&l), vec![42]);
}

#[test]
fn single_prepend_is_head_and_tail() {
    let mut l = LinkedList::new();
    l.prepend(42);
    assert!(l.head().is_some());
    assert_eq!(l.head(), l.tail());
    assert_eq!(values(&l), vec![42]);
}

#[test]
fn links_walk_both_ways() {
    let mut l = LinkedList::new();
    l.append('b');
    l.append('c');
    l.prepend('a');
    let mut forward = Vec::new();
    let mut cur = l.head();
    while let Some(id) = cur {
        forward.push(*l.value(id));
        cur = l.next(id);
    }
    let mut backward = Vec::new();
    let mut cur = l.tail();
    while let Some(id) = cur {
        backward.push(*l.value(id));
        cur = l.prev(id);
    }
    assert_eq!(forward, vec!['a', 'b', 'c']);
    assert_eq!(backward, vec!['c', 'b', 'a']);
}

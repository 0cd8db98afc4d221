use linked_lists::doubly::DoublyLinkedList;

#[test]
fn insert_at_start() {
    let mut list = DoublyLinkedList::new(10);
    assert_eq!(Some(10), list.peek_start());
    assert_eq!(Some(10), list.peek_end());

    list.insert_at_start(9);
    assert_eq!(Some(9), list.peek_start());
    assert_eq!(Some(10), list.peek_end());

    list.insert_at_start(8);
    assert_eq!(Some(8), list.peek_start());
    assert_eq!(Some(10), list.peek_end());

    list.insert_at_start(7);
    assert_eq!(Some(7), list.peek_start());
    assert_eq!(Some(10), list.peek_end());
}

#[test]
fn insert_at_end() {
    let mut list = DoublyLinkedList::new(10);
    assert_eq!(Some(10), list.peek_start());
    assert_eq!(Some(10), list.peek_end());

    list.insert_at_end(9);
    assert_eq!(Some(10), list.peek_start());
    assert_eq!(Some(9), list.peek_end());

    list.insert_at_end(8);
    assert_eq!(Some(10), list.peek_start());
    assert_eq!(Some(8), list.peek_end());

    list.insert_at_end(7);
    assert_eq!(Some(10), list.peek_start());
    assert_eq!(Some(7), list.peek_end());
}

#[test]
fn delete_at_start() {
    let mut list = DoublyLinkedList::new(10);
    list.insert_at_end(9);
    assert_eq!(Some(10), list.peek_start());
    assert_eq!(Some(9), list.peek_end());

    list.delete_from_start();
    assert_eq!(Some(9), list.peek_start());
    assert_eq!(Some(9), list.peek_end());

    list.delete_from_start();
    assert_eq!(None, list.peek_start());
    assert_eq!(None, list.peek_end());

    list.insert_at_start(10);
    assert_eq!(Some(10), list.peek_start());
    assert_eq!(Some(10), list.peek_end());
}

#[test]
fn delete_at_end() {
    let mut list = DoublyLinkedList::new(10);
    list.insert_at_end(9);
    assert_eq!(Some(10), list.peek_start());
    assert_eq!(Some(9), list.peek_end());

    list.delete_from_end();
    assert_eq!(Some(10), list.peek_start());
    assert_eq!(Some(10), list.peek_end());

    list.delete_from_end();
    assert_eq!(None, list.peek_start());
    assert_eq!(None, list.peek_end());

    list.insert_at_end(10);
    assert_eq!(Some(10), list.peek_start());
    assert_eq!(Some(10), list.peek_end());
}

#[test]
fn deletions_return_the_removed_values_in_order() {
    let mut list = DoublyLinkedList::new(2);
    list.insert_at_start(1);
    list.insert_at_end(3);
    list.insert_at_end(4);
    assert_eq!(Some(1), list.delete_from_start());
    assert_eq!(Some(4), list.delete_from_end());
    assert_eq!(Some(2), list.delete_from_start());
    assert_eq!(Some(3), list.delete_from_end());
    assert_eq!(None, list.delete_from_start());
    assert_eq!(None, list.delete_from_end());
}

#[test]
fn start_and_end_scenarios_mirror_each_other() {
    let mut a = DoublyLinkedList::new(10);
    let mut b = DoublyLinkedList::new(10);
    for v in [9, 8, 7, 6, 5] {
        a.insert_at_start(v);
        b.insert_at_end(v);
        assert_eq!(a.peek_start(), b.peek_end());
        assert_eq!(a.peek_end(), b.peek_start());
    }
    for _ in 0..8 {
        assert_eq!(a.delete_from_start(), b.delete_from_end());
        assert_eq!(a.peek_start(), b.peek_end());
        assert_eq!(a.peek_end(), b.peek_start());
    }
}

#[test]
fn deleting_past_empty_keeps_returning_none() {
    let mut list = DoublyLinkedList::new(10);
    assert_eq!(Some(10), list.delete_from_end());
    for _ in 0..5 {
        assert_eq!(None, list.delete_from_start());
        assert_eq!(None, list.delete_from_end());
        assert_eq!(None, list.peek_start());
        assert_eq!(None, list.peek_end());
    }
}

#[test]
fn interior_deletion_keeps_links_after_slots_move() {
    // Deleting at the start frees a low slot; later values must still come
    // out in list order once the last slot has moved into it.
    let mut list = DoublyLinkedList::new(0);
    for v in 1..6 {
        list.insert_at_end(v);
    }
    assert_eq!(Some(0), list.delete_from_start());
    list.insert_at_start(-1);
    assert_eq!(Some(5), list.delete_from_end());
    assert_eq!(Some(-1), list.delete_from_start());
    assert_eq!(Some(1), list.delete_from_start());
    assert_eq!(Some(4), list.delete_from_end());
    assert_eq!(Some(2), list.peek_start());
    assert_eq!(Some(3), list.peek_end());
}

#[test]
fn peek_copies_owned_values() {
    let mut list = DoublyLinkedList::new(String::from("b"));
    list.insert_at_start(String::from("a"));
    assert_eq!(Some(String::from("a")), list.peek_start());
    assert_eq!(Some(String::from("b")), list.peek_end());
    assert_eq!(Some(String::from("a")), list.delete_from_start());
    assert_eq!(Some(String::from("b")), list.peek_start());
}

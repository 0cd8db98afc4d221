use linked_lists::singly::SinglyLinkedList;

#[test]
fn it_works() {
    let mut list = SinglyLinkedList::new(10);
    list.insert_at_start(9);
    list.insert_at_start(8);
    list.insert_at_end(11);
    list.insert_at_end(12);
    assert_eq!(list.size(), 5);

    list.displayed_values();

    assert_eq!(list.peek(), Some(&8));

    list.delete_from_end();
    assert_eq!(list.size(), 4);

    list.delete_from_start();
    list.delete_from_start();
    list.delete_from_start();
    list.insert_at_start(0);
    list.delete_from_start();
    list.delete_from_start();
    list.insert_at_end(0);
    list.delete_from_end();
    list.delete_from_end();
    list.delete_from_end();
    assert_eq!(list.peek(), None);
    assert_eq!(list.size(), 0);
}

#[test]
fn peek_follows_each_insert_at_start() {
    let mut list = SinglyLinkedList::new(0);
    for v in 1..20 {
        list.insert_at_start(v);
        assert_eq!(list.peek(), Some(&v));
    }
}

#[test]
fn size_grows_by_one_per_insert_at_end() {
    let mut list = SinglyLinkedList::new(0);
    assert_eq!(list.size(), 1);
    for n in 2..50 {
        list.insert_at_end(n);
        assert_eq!(list.size(), n as usize);
    }
    assert_eq!(list.peek(), Some(&0));
}

#[test]
fn deleting_from_an_empty_list_changes_nothing() {
    let mut list = SinglyLinkedList::new(1);
    list.delete_from_start();
    assert_eq!(list.size(), 0);
    assert_eq!(list.peek(), None);
    for _ in 0..3 {
        list.delete_from_start();
        list.delete_from_end();
        assert_eq!(list.size(), 0);
        assert_eq!(list.peek(), None);
    }
    list.insert_at_end(4);
    assert_eq!(list.peek(), Some(&4));
    assert_eq!(list.size(), 1);
}

#[test]
fn delete_from_end_keeps_the_head() {
    let mut list = SinglyLinkedList::new(1);
    list.insert_at_end(2);
    list.insert_at_end(3);
    list.delete_from_end();
    assert_eq!(list.displayed_values(), vec![&1]);
    list.delete_from_end();
    assert_eq!(list.peek(), Some(&1));
    assert_eq!(list.size(), 1);
}

#[test]
fn display_shows_all_but_the_last_value() {
    let mut list = SinglyLinkedList::new(10);
    list.insert_at_start(9);
    list.insert_at_start(8);
    list.insert_at_end(11);
    assert_eq!(list.displayed_values(), vec![&8, &9, &10]);
    let single = SinglyLinkedList::new(5);
    assert!(single.displayed_values().is_empty());
    let mut empty = SinglyLinkedList::new(5);
    empty.delete_from_start();
    assert!(empty.displayed_values().is_empty());
}

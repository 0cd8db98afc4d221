//! A singly linked list: each node owns the next one, and the list owns the
//! head. The end of the list is found by walking from the head.

use vstd::prelude::*;
use crate::sequence::{first_of, without_first, without_last};

verus! {

struct Node<T> {
    value: T,
    next: Option<Box<Node<T>>>,
}

/// The values of the chain that starts at `link`, head first.
spec fn chain_values<T>(link: Option<Box<Node<T>>>) -> Seq<T>
    decreases link,
{
    match link {
        None => Seq::empty(),
        Some(node) => seq![node.value] + chain_values(node.next),
    }
}

pub struct SinglyLinkedList<T> {
    head: Option<Box<Node<T>>>,
}

impl<T> View for SinglyLinkedList<T> {
    type V = Seq<T>;

    closed spec fn view(&self) -> Seq<T> {
        chain_values(self.head)
    }
}

impl<T: PartialEq> SinglyLinkedList<T> {
    /// Makes a list that holds `value` alone.
    pub fn new(value: T) -> (r: Self)
        ensures
            r@ == seq![value],
    {
        let r = SinglyLinkedList { head: Some(Box::new(Node { value, next: None })) };
        reveal_with_fuel(chain_values, 2);
        assert(r@ =~= seq![value]);
        r
    }

    /// Puts `value` before the current head.
    pub fn insert_at_start(&mut self, value: T)
        ensures
            final(self)@ == seq![value] + old(self)@,
    {
        let new_node = Box::new(Node { value, next: self.head.take() });
        self.head = Some(new_node);
    }

    /// Removes the head, if there is one; the removed value is dropped.
    pub fn delete_from_start(&mut self)
        ensures
            final(self)@ == without_first(old(self)@),
    {
        match self.head.take() {
            None => {},
            Some(node) => {
                self.head = node.next;
                assert(old(self)@.drop_first() =~= self@);
            },
        }
    }

    /// Puts `value` after the last node, walking from the head to find it.
    pub fn insert_at_end(&mut self, value: T)
        ensures
            final(self)@ == old(self)@.push(value),
    {
        let ghost whole = self@;
        let ghost mut passed: Seq<T> = Seq::empty();
        let mut cursor: &mut Option<Box<Node<T>>> = &mut self.head;
        loop
            invariant
                whole == old(self)@,
                passed + chain_values(*cursor) == whole,
                // Once the walk ends, the list holds the values passed over,
                // then whatever the slot under the cursor ends up holding.
                chain_values(after_borrow(self.head)) == passed + chain_values(*final(cursor)),
            decreases chain_values(*cursor).len(),
        {
            match cursor {
                None => {
                    *cursor = Some(Box::new(Node { value, next: None }));
                    proof {
                        reveal_with_fuel(chain_values, 2);
                        assert(chain_values(after_borrow(self.head)) =~= whole.push(value));
                    }
                    return;
                },
                Some(node) => {
                    proof {
                        passed = passed.push(node.value);
                    }
                    cursor = &mut node.next;
                },
            }
        }
    }

    /// Removes the last node, if there is one.
    pub fn delete_from_end(&mut self)
        ensures
            final(self)@ == without_last(old(self)@),
    {
        let ghost whole = self@;
        let ghost mut passed: Seq<T> = Seq::empty();
        let mut cursor: &mut Option<Box<Node<T>>> = &mut self.head;
        loop
            invariant
                whole == old(self)@,
                passed + chain_values(*cursor) == whole,
                chain_values(*cursor).len() == 0 ==> passed.len() == 0,
                chain_values(after_borrow(self.head)) == passed + chain_values(*final(cursor)),
            decreases chain_values(*cursor).len(),
        {
            let at_last = match &*cursor {
                None => true,
                Some(node) => node.next.is_none(),
            };
            if at_last {
                proof {
                    reveal_with_fuel(chain_values, 2);
                    assert(without_last(whole) =~= passed);
                }
                *cursor = None;
                return;
            }
            match cursor {
                None => {
                    return;
                },
                Some(node) => {
                    proof {
                        passed = passed.push(node.value);
                    }
                    cursor = &mut node.next;
                },
            }
        }
    }

    /// The number of values in the list, counted by walking it.
    pub fn size(&self) -> (r: usize)
        requires
            self@.len() <= usize::MAX,
        ensures
            r == self@.len(),
    {
        let mut counter: usize = 0;
        let mut cursor: &Option<Box<Node<T>>> = &self.head;
        loop
            invariant
                counter + chain_values(*cursor).len() == self@.len(),
                self@.len() <= usize::MAX,
            decreases chain_values(*cursor).len(),
        {
            match cursor {
                None => {
                    return counter;
                },
                Some(node) => {
                    counter = counter + 1;
                    cursor = &node.next;
                },
            }
        }
    }

    /// The value at the head, if there is one.
    pub fn peek(&self) -> (r: Option<&T>)
        ensures
            match r {
                Some(v) => first_of(self@) == Some(*v),
                None => first_of(self@) == None::<T>,
            },
    {
        match &self.head {
            None => None,
            Some(node) => Some(&node.value),
        }
    }

    /// The values that a display of the list shows, in order: every value but
    /// the last one, since the walk stops at the node that has no successor.
    pub fn displayed_values(&self) -> (r: Vec<&T>)
        ensures
            r@.len() == without_last(self@).len(),
            forall|i: int| 0 <= i < r@.len() ==> *r@[i] == self@[i],
    {
        let mut shown: Vec<&T> = Vec::new();
        let mut cursor: &Option<Box<Node<T>>> = &self.head;
        loop
            invariant
                shown@.len() + chain_values(*cursor).len() == self@.len(),
                forall|i: int| 0 <= i < shown@.len() ==> *shown@[i] == self@[i],
                forall|i: int|
                    0 <= i < chain_values(*cursor).len() ==> chain_values(*cursor)[i]
                        == self@[shown@.len() + i],
                chain_values(*cursor).len() == 0 ==> shown@.len() == 0,
            decreases chain_values(*cursor).len(),
        {
            match cursor {
                None => {
                    return shown;
                },
                Some(node) => {
                    let ghost rest = chain_values(*cursor);
                    let ghost before: int = shown@.len() as int;
                    assert(rest == seq![node.value] + chain_values(node.next));
                    assert(rest[0] == self@[before + 0]);
                    if node.next.is_none() {
                        return shown;
                    }
                    shown.push(&node.value);
                    cursor = &node.next;
                    assert forall|i: int|
                        0 <= i < chain_values(*cursor).len() implies chain_values(*cursor)[i]
                        == self@[shown@.len() + i] by {
                        assert(rest[i + 1] == self@[before + (i + 1)]);
                    }
                },
            }
        }
    }
}

/// After `insert_at_start(value)`, `peek` gives `value`, whatever the list
/// held before: the head is always the value inserted last at the start.
pub proof fn lemma_peek_after_insert_at_start<T>(list: SinglyLinkedList<T>, value: T)
    ensures
        first_of(seq![value] + list@) == Some(value),
{
}

/// Each `insert_at_end` makes `size` grow by exactly one, whatever the list
/// held before.
pub proof fn lemma_size_after_insert_at_end<T>(list: SinglyLinkedList<T>, value: T)
    ensures
        list@.push(value).len() == list@.len() + 1,
{
}

/// On an empty list `delete_from_start` and `delete_from_end` change nothing:
/// the list stays empty, `size` stays 0 and `peek` stays `None`.
pub proof fn lemma_delete_on_empty<T>(list: SinglyLinkedList<T>)
    requires
        list@.len() == 0,
    ensures
        without_first(list@) == list@,
        without_last(list@) == list@,
        without_first(list@).len() == 0,
        without_last(list@).len() == 0,
        first_of(without_first(list@)) == None::<T>,
        first_of(without_last(list@)) == None::<T>,
{
}

} // verus!

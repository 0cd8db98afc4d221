//! A doubly linked list. Nodes live in an arena, a vector of slots, and name
//! their neighbours by slot index, so that a node can be reached from both
//! sides without shared ownership. The arena stays compact: removing a node
//! moves the node of the last slot into the freed one and re-points its
//! neighbours.

use vstd::prelude::*;
use crate::sequence::{first_of, last_of, without_first, without_last};

verus! {

struct Node<T> {
    value: T,
    next: Option<usize>,
    previous: Option<usize>,
}

impl<T> Node<T> {
    /// The node holds `value` and links to no neighbour.
    pub closed spec fn is_lone(&self, value: T) -> bool {
        &&& self.value == value
        &&& self.next == None::<usize>
        &&& self.previous == None::<usize>
    }

    /// A node that holds `value` and has no neighbours yet.
    pub fn new(value: T) -> (r: Node<T>)
        ensures
            r.is_lone(value),
    {
        Node { value, next: None, previous: None }
    }
}

pub struct DoublyLinkedList<T> {
    nodes: Vec<Node<T>>,
    head: Option<usize>,
    tail: Option<usize>,
    /// The slot of each value of the list, head first.
    order: Ghost<Seq<usize>>,
    /// For each slot, the position of its value in the list.
    place: Ghost<Seq<int>>,
}

/// The slot at position `k` of `order`, or `None` past either end.
spec fn slot_at(order: Seq<usize>, k: int) -> Option<usize> {
    if 0 <= k < order.len() {
        Some(order[k])
    } else {
        None
    }
}

/// The nodes at the slots of `order` form a chain in that order, from `head`
/// to `tail`, each linked to its neighbours both ways.
spec fn linked<T>(
    nodes: Seq<Node<T>>,
    order: Seq<usize>,
    head: Option<usize>,
    tail: Option<usize>,
) -> bool {
    &&& forall|k: int| 0 <= k < order.len() ==> order[k] < nodes.len()
    &&& forall|k: int|
        0 <= k < order.len() ==> #[trigger] nodes[order[k] as int].previous == slot_at(
            order,
            k - 1,
        )
    &&& forall|k: int|
        0 <= k < order.len() ==> #[trigger] nodes[order[k] as int].next == slot_at(order, k + 1)
    &&& head == slot_at(order, 0)
    &&& tail == slot_at(order, order.len() - 1)
}

/// The values at the slots of `order`, in that order.
spec fn values_of<T>(nodes: Seq<Node<T>>, order: Seq<usize>) -> Seq<T> {
    Seq::new(order.len(), |k: int| nodes[order[k] as int].value)
}

impl<T> View for DoublyLinkedList<T> {
    type V = Seq<T>;

    closed spec fn view(&self) -> Seq<T> {
        values_of(self.nodes@, self.order@)
    }
}

impl<T: PartialEq + Clone> DoublyLinkedList<T> {
    /// Every slot of the arena holds a value of the list, and the links of
    /// the nodes follow the list's order.
    pub closed spec fn wf(&self) -> bool {
        let n = self.nodes@.len();
        &&& self.order@.len() == n
        &&& self.place@.len() == n
        &&& linked(self.nodes@, self.order@, self.head, self.tail)
        &&& forall|k: int| 0 <= k < n ==> #[trigger] self.place@[self.order@[k] as int] == k
        &&& forall|i: int|
            0 <= i < n ==> 0 <= #[trigger] self.place@[i] < n && self.order@[self.place@[i]] == i
    }

    /// The list is well formed but for slot `h`, whose node no longer belongs
    /// to it: every other slot holds a value of the list.
    spec fn wf_but(&self, h: usize) -> bool {
        let n = self.nodes@.len();
        let m = self.order@.len();
        &&& h < n
        &&& m + 1 == n
        &&& self.place@.len() == n
        &&& linked(self.nodes@, self.order@, self.head, self.tail)
        &&& forall|k: int|
            0 <= k < m ==> self.order@[k] != h && #[trigger] self.place@[self.order@[k] as int] == k
        &&& forall|i: int|
            0 <= i < n && i != h ==> 0 <= #[trigger] self.place@[i] < m && self.order@[self.place@[i]]
                == i
    }

    /// Frees slot `h`, which the list no longer uses, and hands back its value.
    /// The node of the last slot moves into `h`, and its neighbours are
    /// re-pointed to it.
    fn release_slot(&mut self, h: usize) -> (r: T)
        requires
            old(self).wf_but(h),
        ensures
            final(self).wf(),
            final(self)@ == old(self)@,
            r == old(self).nodes@[h as int].value,
    {
        let last = self.nodes.len() - 1;
        let ghost pos_last = self.place@[last as int];
        if h != last {
            let previous = self.nodes[last].previous;
            let next = self.nodes[last].next;
            proof {
                assert(self.order@[pos_last] == last);
                assert(self.nodes@[self.order@[pos_last] as int].previous == slot_at(self.order@, pos_last - 1));
                assert(self.nodes@[self.order@[pos_last] as int].next == slot_at(self.order@, pos_last + 1));
                if pos_last > 0 {
                    assert(self.place@[self.order@[pos_last - 1] as int] == pos_last - 1);
                }
                if pos_last + 1 < self.order@.len() {
                    assert(self.place@[self.order@[pos_last + 1] as int] == pos_last + 1);
                }
            }
            match previous {
                None => {
                    self.head = Some(h);
                },
                Some(p) => {
                    self.nodes[p].next = Some(h);
                },
            }
            match next {
                None => {
                    self.tail = Some(h);
                },
                Some(q) => {
                    self.nodes[q].previous = Some(h);
                },
            }
        }
        let ghost relinked = self.nodes@;
        let node = self.nodes.swap_remove(h);
        let ghost old_order = self.order@;
        let ghost old_place = self.place@;
        if h != last {
            self.order = Ghost(old_order.update(pos_last, h));
            self.place = Ghost(old_place.update(h as int, pos_last).subrange(0, last as int));
        } else {
            self.place = Ghost(old_place.subrange(0, last as int));
        }
        proof {
            let nodes0 = old(self).nodes@;
            let order = self.order@;
            let nodes = self.nodes@;
            let m = old_order.len();
            if h != last {
                assert(old_order[pos_last] == last);
                assert(forall|k: int| 0 <= k < m && k != pos_last ==> old_order[k] != last);
                assert forall|k: int| 0 <= k < m implies #[trigger] nodes[order[k] as int].previous
                    == slot_at(order, k - 1) by {
                    assert(nodes0[old_order[k] as int].previous == slot_at(old_order, k - 1));
                    if k == pos_last + 1 {
                        assert(old_order[k] == nodes0[last as int].next->0);
                    } else if k == pos_last {
                        assert(nodes[h as int] == relinked[last as int]);
                        assert(relinked[last as int].previous == nodes0[last as int].previous);
                    } else {
                        assert(old_place[old_order[k] as int] == k);
                        assert(nodes[order[k] as int] == relinked[old_order[k] as int]);
                    }
                }
                assert forall|k: int| 0 <= k < m implies #[trigger] nodes[order[k] as int].next
                    == slot_at(order, k + 1) by {
                    assert(nodes0[old_order[k] as int].next == slot_at(old_order, k + 1));
                    if k == pos_last - 1 {
                        assert(old_order[k] == nodes0[last as int].previous->0);
                    }
                }
                assert forall|k: int| 0 <= k < m implies #[trigger] self.place@[order[k] as int]
                    == k by {
                    if k != pos_last {
                        assert(old_place[old_order[k] as int] == k);
                    }
                }
                assert forall|i: int| 0 <= i < m implies 0 <= #[trigger] self.place@[i] < m
                    && order[self.place@[i]] == i by {
                    if i != h {
                        assert(0 <= old_place[i] < m && old_order[old_place[i]] == i);
                    }
                }
            } else {
                assert forall|k: int| 0 <= k < m implies #[trigger] nodes[order[k] as int].previous
                    == slot_at(order, k - 1) by {
                    assert(nodes0[old_order[k] as int].previous == slot_at(old_order, k - 1));
                }
                assert forall|k: int| 0 <= k < m implies #[trigger] nodes[order[k] as int].next
                    == slot_at(order, k + 1) by {
                    assert(nodes0[old_order[k] as int].next == slot_at(old_order, k + 1));
                }
                assert forall|k: int| 0 <= k < m implies #[trigger] self.place@[order[k] as int]
                    == k by {
                    assert(old_place[old_order[k] as int] == k);
                }
                assert forall|i: int| 0 <= i < m implies 0 <= #[trigger] self.place@[i] < m
                    && order[self.place@[i]] == i by {
                    assert(0 <= old_place[i] < m && old_order[old_place[i]] == i);
                }
            }
        }
        assert(self@ =~= old(self)@);
        node.value
    }

    /// Makes a list that holds `value` alone: it is both head and tail.
    pub fn new(value: T) -> (r: Self)
        ensures
            r.wf(),
            r@ == seq![value],
    {
        let mut nodes: Vec<Node<T>> = Vec::new();
        nodes.push(Node::new(value));
        let ghost order = seq![0usize];
        let ghost place = seq![0int];
        let r = DoublyLinkedList {
            nodes,
            head: Some(0),
            tail: Some(0),
            order: Ghost(order),
            place: Ghost(place),
        };
        assert(r@ =~= seq![value]);
        r
    }

    /// Puts `value` before the current head; on an empty list it becomes both
    /// head and tail.
    pub fn insert_at_start(&mut self, value: T)
        requires
            old(self).wf(),
        ensures
            final(self).wf(),
            final(self)@ == seq![value] + old(self)@,
    {
        let slot = self.nodes.len();
        let mut node = Node::new(value);
        match self.head {
            None => {
                self.tail = Some(slot);
            },
            Some(h) => {
                node.next = Some(h);
                self.nodes[h].previous = Some(slot);
            },
        }
        self.nodes.push(node);
        self.head = Some(slot);
        let ghost old_order = self.order@;
        let ghost old_place = self.place@;
        self.order = Ghost(seq![slot] + old_order);
        self.place = Ghost(
            Seq::new(
                slot as nat + 1,
                |i: int|
                    if i == slot {
                        0
                    } else {
                        old_place[i] + 1
                    },
            ),
        );
        proof {
            let n = slot as int;
            let nodes = self.nodes@;
            let order = self.order@;
            assert forall|k: int| 0 <= k < order.len() implies #[trigger] nodes[order[k] as int].previous
                == slot_at(order, k - 1) by {
                if k > 0 {
                    assert(order[k] == old_order[k - 1]);
                    assert(old(self).nodes@[old_order[k - 1] as int].previous == slot_at(old_order, k - 2));
                }
            }
            assert forall|k: int| 0 <= k < order.len() implies #[trigger] nodes[order[k] as int].next
                == slot_at(order, k + 1) by {
                if k > 0 {
                    assert(order[k] == old_order[k - 1]);
                    assert(old(self).nodes@[old_order[k - 1] as int].next == slot_at(old_order, k));
                }
            }
            assert forall|k: int| 0 <= k < order.len() implies #[trigger] self.place@[order[k] as int] == k by {
                if k > 0 {
                    assert(old_place[old_order[k - 1] as int] == k - 1);
                }
            }
            assert forall|i: int| 0 <= i < order.len() implies 0 <= #[trigger] self.place@[i] < order.len()
                && order[self.place@[i]] == i by {
                if i < n {
                    assert(0 <= old_place[i] < n && old_order[old_place[i]] == i);
                }
            }
        }
        assert(self@ =~= seq![value] + old(self)@);
    }

    /// Puts `value` after the current tail; on an empty list it becomes both
    /// head and tail.
    pub fn insert_at_end(&mut self, value: T)
        requires
            old(self).wf(),
        ensures
            final(self).wf(),
            final(self)@ == old(self)@.push(value),
    {
        let slot = self.nodes.len();
        let mut node = Node::new(value);
        match self.tail {
            None => {
                self.head = Some(slot);
            },
            Some(t) => {
                node.previous = Some(t);
                self.nodes[t].next = Some(slot);
            },
        }
        self.nodes.push(node);
        self.tail = Some(slot);
        let ghost old_order = self.order@;
        let ghost old_place = self.place@;
        self.order = Ghost(old_order.push(slot));
        self.place = Ghost(old_place.push(slot as int));
        proof {
            let n = slot as int;
            let nodes = self.nodes@;
            let order = self.order@;
            assert forall|k: int| 0 <= k < order.len() implies #[trigger] nodes[order[k] as int].previous
                == slot_at(order, k - 1) by {
                if k < n {
                    assert(old(self).nodes@[old_order[k] as int].previous == slot_at(old_order, k - 1));
                }
            }
            assert forall|k: int| 0 <= k < order.len() implies #[trigger] nodes[order[k] as int].next
                == slot_at(order, k + 1) by {
                if k < n {
                    assert(old(self).nodes@[old_order[k] as int].next == slot_at(old_order, k + 1));
                }
            }
            assert forall|k: int| 0 <= k < order.len() implies #[trigger] self.place@[order[k] as int] == k by {
                if k < n {
                    assert(old_place[old_order[k] as int] == k);
                }
            }
            assert forall|i: int| 0 <= i < order.len() implies 0 <= #[trigger] self.place@[i] < order.len()
                && order[self.place@[i]] == i by {
                if i < n {
                    assert(0 <= old_place[i] < n && old_order[old_place[i]] == i);
                }
            }
        }
        assert(self@ =~= old(self)@.push(value));
    }

    /// Removes the head and returns its value; `None` on an empty list, which
    /// stays empty.
    pub fn delete_from_start(&mut self) -> (r: Option<T>)
        requires
            old(self).wf(),
        ensures
            final(self).wf(),
            r == first_of(old(self)@),
            final(self)@ == without_first(old(self)@),
    {
        match self.head {
            None => None,
            Some(h) => {
                let ghost nodes0 = self.nodes@;
                let ghost old_order = self.order@;
                let ghost old_place = self.place@;
                proof {
                    assert(nodes0[old_order[0] as int].next == slot_at(old_order, 1));
                    if old_order.len() > 1 {
                        assert(old_place[old_order[1] as int] == 1);
                    }
                }
                match self.nodes[h].next {
                    None => {
                        self.head = None;
                        self.tail = None;
                    },
                    Some(s) => {
                        self.nodes[s].previous = None;
                        self.head = Some(s);
                    },
                }
                self.order = Ghost(old_order.drop_first());
                self.place = Ghost(Seq::new(old_place.len(), |i: int| old_place[i] - 1));
                proof {
                    let nodes = self.nodes@;
                    let order = self.order@;
                    let m = order.len();
                    assert forall|k: int| 0 <= k < m implies #[trigger] nodes[order[k] as int].previous
                        == slot_at(order, k - 1) by {
                        assert(old_place[old_order[k + 1] as int] == k + 1);
                        assert(nodes0[old_order[k + 1] as int].previous == slot_at(old_order, k));
                    }
                    assert forall|k: int| 0 <= k < m implies #[trigger] nodes[order[k] as int].next
                        == slot_at(order, k + 1) by {
                        assert(old_place[old_order[k + 1] as int] == k + 1);
                        assert(nodes0[old_order[k + 1] as int].next == slot_at(old_order, k + 2));
                    }
                    assert forall|k: int| 0 <= k < m implies order[k] != h
                        && #[trigger] self.place@[order[k] as int] == k by {
                        assert(old_place[old_order[k + 1] as int] == k + 1);
                        assert(old_place[old_order[0] as int] == 0);
                    }
                    assert forall|i: int| 0 <= i < m + 1 && i != h implies 0 <= #[trigger] self.place@[i]
                        < m && order[self.place@[i]] == i by {
                        assert(0 <= old_place[i] <= m && old_order[old_place[i]] == i);
                    }
                    assert(self.wf_but(h));
                    assert(values_of(nodes, order) =~= old(self)@.drop_first());
                }
                Some(self.release_slot(h))
            },
        }
    }

    /// Removes the tail and returns its value; `None` on an empty list, which
    /// stays empty.
    pub fn delete_from_end(&mut self) -> (r: Option<T>)
        requires
            old(self).wf(),
        ensures
            final(self).wf(),
            r == last_of(old(self)@),
            final(self)@ == without_last(old(self)@),
    {
        match self.tail {
            None => None,
            Some(t) => {
                let ghost nodes0 = self.nodes@;
                let ghost old_order = self.order@;
                let ghost old_place = self.place@;
                let ghost m = old_order.len() - 1;
                proof {
                    assert(nodes0[old_order[m] as int].previous == slot_at(old_order, m - 1));
                    if m > 0 {
                        assert(old_place[old_order[m - 1] as int] == m - 1);
                    }
                }
                match self.nodes[t].previous {
                    None => {
                        self.head = None;
                        self.tail = None;
                    },
                    Some(p) => {
                        self.nodes[p].next = None;
                        self.tail = Some(p);
                    },
                }
                self.order = Ghost(old_order.drop_last());
                proof {
                    let nodes = self.nodes@;
                    let order = self.order@;
                    assert forall|k: int| 0 <= k < m implies #[trigger] nodes[order[k] as int].previous
                        == slot_at(order, k - 1) by {
                        assert(old_place[old_order[k] as int] == k);
                        assert(nodes0[old_order[k] as int].previous == slot_at(old_order, k - 1));
                    }
                    assert forall|k: int| 0 <= k < m implies #[trigger] nodes[order[k] as int].next
                        == slot_at(order, k + 1) by {
                        assert(old_place[old_order[k] as int] == k);
                        assert(nodes0[old_order[k] as int].next == slot_at(old_order, k + 1));
                    }
                    assert forall|k: int| 0 <= k < m implies order[k] != t
                        && #[trigger] self.place@[order[k] as int] == k by {
                        assert(old_place[old_order[k] as int] == k);
                        assert(old_place[old_order[m] as int] == m);
                    }
                    assert forall|i: int| 0 <= i < m + 1 && i != t implies 0 <= #[trigger] self.place@[i]
                        < m && order[self.place@[i]] == i by {
                        assert(0 <= old_place[i] <= m && old_order[old_place[i]] == i);
                    }
                    assert(self.wf_but(t));
                    assert(values_of(nodes, order) =~= old(self)@.drop_last());
                }
                Some(self.release_slot(t))
            },
        }
    }

    /// A copy of the value at `link`, which is `None` or a slot of the list.
    fn peek(&self, link: Option<usize>) -> (r: Option<T>)
        requires
            self.wf(),
            link matches Some(i) ==> i < self.nodes@.len(),
        ensures
            match link {
                Some(i) => r matches Some(v) && cloned(self.nodes@[i as int].value, v),
                None => r == None::<T>,
            },
    {
        match link {
            None => None,
            Some(i) => Some(self.nodes[i].value.clone()),
        }
    }

    /// A copy of the value at the head, if there is one.
    pub fn peek_start(&self) -> (r: Option<T>)
        requires
            self.wf(),
        ensures
            match r {
                Some(v) => first_of(self@) is Some && cloned(first_of(self@)->0, v),
                None => first_of(self@) == None::<T>,
            },
    {
        self.peek(self.head)
    }

    /// A copy of the value at the tail, if there is one.
    pub fn peek_end(&self) -> (r: Option<T>)
        requires
            self.wf(),
        ensures
            match r {
                Some(v) => last_of(self@) is Some && cloned(last_of(self@)->0, v),
                None => last_of(self@) == None::<T>,
            },
    {
        self.peek(self.tail)
    }
}

/// The two ends of the list behave as mirror images. Take two lists where one
/// holds the other's values in reverse order. Inserting a value at the start
/// of the first and at the end of the second keeps them mirrored; so does
/// deleting from the start of the first and from the end of the second, and
/// the two deletions return the same value; and the first's start shows what
/// the second's end shows. Applied step by step, any sequence of operations at
/// one end has its mirror at the other with the same results, at every length.
pub proof fn lemma_ends_mirror<T>(a: DoublyLinkedList<T>, b: DoublyLinkedList<T>, value: T)
    requires
        b@ == a@.reverse(),
    ensures
        (seq![value] + a@).reverse() == b@.push(value),
        a@.push(value).reverse() == seq![value] + b@,
        without_first(a@).reverse() == without_last(b@),
        without_last(a@).reverse() == without_first(b@),
        first_of(a@) == last_of(b@),
        last_of(a@) == first_of(b@),
{
    assert((seq![value] + a@).reverse() =~= b@.push(value));
    assert(a@.push(value).reverse() =~= seq![value] + b@);
    assert(without_first(a@).reverse() =~= without_last(b@));
    assert(without_last(a@).reverse() =~= without_first(b@));
}

/// Deleting from an empty list, at either end and any number of times, returns
/// `None` and leaves the list empty.
pub proof fn lemma_delete_past_empty<T>(list: DoublyLinkedList<T>)
    requires
        list@.len() == 0,
    ensures
        first_of(list@) == None::<T>,
        last_of(list@) == None::<T>,
        without_first(list@) == list@,
        without_last(list@) == list@,
{
}

} // verus!

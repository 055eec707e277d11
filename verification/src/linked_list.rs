//! A singly linked list built from boxed nodes.

use vstd::prelude::*;

verus! {

/// A singly linked list whose front is the most recently pushed element.
pub struct LinkedList<T> {
    head: Option<Box<Node<T>>>,
}

struct Node<T> {
    data: T,
    next: Option<Box<Node<T>>>,
}

/// The elements reachable from `link`, front first.
spec fn link_seq<T>(link: Option<Box<Node<T>>>) -> Seq<T>
    decreases link,
{
    match link {
        None => Seq::empty(),
        Some(node) => seq![node.data] + link_seq(node.next),
    }
}

impl<T> View for LinkedList<T> {
    type V = Seq<T>;

    /// The list as a sequence, front first.
    closed spec fn view(&self) -> Seq<T> {
        link_seq(self.head)
    }
}

impl<T> LinkedList<T> {
    /// Creates an empty list.
    pub fn new() -> (l: Self)
        ensures
            l@ == Seq::<T>::empty(),
    {
        LinkedList { head: None }
    }

    /// Inserts `data` at the front of the list.
    pub fn push_front(&mut self, data: T)
        ensures
            final(self)@ == seq![data] + old(self)@,
    {
        let next = self.head.take();
        let new_node = Box::new(Node { data, next });
        self.head = Some(new_node);
    }

    /// Removes and returns the front element, or `None` when the list is empty.
    pub fn pop_front(&mut self) -> (r: Option<T>)
        ensures
            old(self)@.len() == 0 ==> r is None && final(self)@ == old(self)@,
            old(self)@.len() > 0 ==> r == Some(old(self)@[0]) && final(self)@
                == old(self)@.drop_first(),
    {
        match self.head.take() {
            None => None,
            Some(node) => {
                let node = *node;
                proof {
                    assert(link_seq(Some(Box::new(node))).drop_first() =~= link_seq(node.next));
                }
                self.head = node.next;
                Some(node.data)
            },
        }
    }

    /// Returns a reference to the front element without removing it.
    pub fn peek_front(&self) -> (r: Option<&T>)
        ensures
            self@.len() == 0 ==> r is None,
            self@.len() > 0 ==> r == Some(&self@[0]),
    {
        match &self.head {
            None => None,
            Some(node) => Some(&node.data),
        }
    }

    /// True when the list holds no elements.
    pub fn is_empty(&self) -> (b: bool)
        ensures
            b == (self@.len() == 0),
    {
        self.head.is_none()
    }

    /// The number of elements, counted by walking the links.
    pub fn len(&self) -> (n: usize)
        requires
            self@.len() <= usize::MAX,
        ensures
            n == self@.len(),
    {
        let mut count: usize = 0;
        let mut current = &self.head;
        while current.is_some()
            invariant
                count + link_seq(*current).len() == self@.len(),
                self@.len() <= usize::MAX,
            decreases link_seq(*current).len(),
        {
            match current {
                Some(node) => {
                    count = count + 1;
                    current = &node.next;
                },
                None => {},
            }
        }
        count
    }
}

impl<T> Default for LinkedList<T> {
    fn default() -> (l: Self)
        ensures
            l@ == Seq::<T>::empty(),
    {
        LinkedList::new()
    }
}

/// Popping the front right after pushing it gives back the pushed item and
/// the list as it was.
pub proof fn pop_front_undoes_push_front<T>(s: Seq<T>, data: T)
    ensures
        (seq![data] + s).len() > 0,
        (seq![data] + s)[0] == data,
        (seq![data] + s).drop_first() == s,
{
    assert((seq![data] + s).drop_first() =~= s);
}

} // verus!

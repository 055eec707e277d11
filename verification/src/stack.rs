//! A generic LIFO stack backed by a vector.

use vstd::prelude::*;

verus! {

/// A last-in, first-out stack.
pub struct Stack<T> {
    items: Vec<T>,
}

impl<T> View for Stack<T> {
    type V = Seq<T>;

    /// The stack as a sequence, bottom first: the last element is the top.
    closed spec fn view(&self) -> Seq<T> {
        self.items@
    }
}

impl<T> Stack<T> {
    /// Creates an empty stack.
    pub fn new() -> (s: Self)
        ensures
            s@ == Seq::<T>::empty(),
    {
        Stack { items: Vec::new() }
    }

    /// Pushes `item` on top of the stack.
    pub fn push(&mut self, item: T)
        ensures
            final(self)@ == old(self)@.push(item),
    {
        self.items.push(item);
    }

    /// Removes and returns the top item, or `None` when the stack is empty.
    pub fn pop(&mut self) -> (r: Option<T>)
        ensures
            old(self)@.len() == 0 ==> r is None && final(self)@ == old(self)@,
            old(self)@.len() > 0 ==> r == Some(old(self)@.last()) && final(self)@
                == old(self)@.drop_last(),
    {
        self.items.pop()
    }

    /// Returns the top item without removing it.
    pub fn peek(&self) -> (r: Option<&T>)
        ensures
            self@.len() == 0 ==> r is None,
            self@.len() > 0 ==> r == Some(&self@.last()),
    {
        self.items.as_slice().last()
    }

    /// True when the stack holds no items.
    pub fn is_empty(&self) -> (b: bool)
        ensures
            b == (self@.len() == 0),
    {
        self.items.is_empty()
    }

    /// The number of items on the stack.
    pub fn len(&self) -> (n: usize)
        ensures
            n == self@.len(),
    {
        self.items.len()
    }
}

impl<T> Default for Stack<T> {
    fn default() -> (s: Self)
        ensures
            s@ == Seq::<T>::empty(),
    {
        Stack::new()
    }
}

/// Popping right after a push gives back the pushed item and the stack as
/// it was (last in, first out).
pub proof fn pop_undoes_push<T>(s: Seq<T>, item: T)
    ensures
        s.push(item).len() > 0,
        s.push(item).last() == item,
        s.push(item).drop_last() == s,
{
    assert(s.push(item).drop_last() =~= s);
}

} // verus!

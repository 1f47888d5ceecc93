//! A first-in-first-out queue built on the positional list.

use crate::linked_list::LinkedList;
use vstd::prelude::*;

verus! {

/// Queue of values; the view is the sequence of elements from front to back.
#[derive(Debug)]
pub struct Queue<T> {
    list: LinkedList<T>,
}

impl<T> View for Queue<T> {
    type V = Seq<T>;

    closed spec fn view(&self) -> Seq<T> {
        self.list@
    }
}

impl<T> Queue<T> {
    /// Returns an empty queue.
    pub fn new() -> (q: Self)
        ensures
            q@ == Seq::<T>::empty(),
    {
        Queue { list: LinkedList::new() }
    }

    /// Adds `value` at the back of the queue.
    pub fn enqueue(&mut self, value: T)
        requires
            old(self)@.len() < usize::MAX,
        ensures
            final(self)@ == old(self)@.push(value),
    {
        self.list.insert_at_tail(value)
    }

    /// Removes and returns the front element; `None` on an empty queue.
    pub fn dequeue(&mut self) -> (r: Option<T>)
        ensures
            old(self)@.len() == 0 ==> r is None && final(self)@ == old(self)@,
            old(self)@.len() > 0 ==> r == Some(old(self)@[0])
                && final(self)@ == old(self)@.drop_first(),
    {
        self.list.delete_head()
    }

    /// Borrows the front element of a non-empty queue.
    pub fn head(&self) -> (r: Option<&T>)
        requires
            self@.len() > 0,
        ensures
            r == Some(&self@[0]),
    {
        self.list.get_ith(0)
    }

    /// Borrows the back element of a non-empty queue.
    pub fn tail(&self) -> (r: Option<&T>)
        requires
            self@.len() > 0,
        ensures
            r == Some(&self@.last()),
    {
        let size = self.list.size();
        self.list.get_ith(size - 1)
    }

    /// True exactly when the queue holds no element.
    pub fn is_empty(&self) -> (r: bool)
        ensures
            r == (self@.len() == 0),
    {
        self.list.is_empty()
    }

    /// The number of elements in the queue.
    pub fn size(&self) -> (n: usize)
        ensures
            n == self@.len(),
    {
        self.list.size()
    }
}

} // verus!

//! A doubly linked list whose lookup reports a missing position as `None`
//! instead of an error. It shares the node chain of
//! [`crate::doubly_linked_list::DoublyLinkedList`].
use vstd::prelude::*;
use crate::doubly_linked_list::inserted_at;
use crate::doubly_linked_list::DoublyLinkedList as Chain;

verus! {

/// A sequence of values stored as a chain of nodes linked in both directions.
pub struct DoublyLinkedList<T> {
    chain: Chain<T>,
}

impl<T> View for DoublyLinkedList<T> {
    type V = Seq<T>;

    closed spec fn view(&self) -> Seq<T> {
        self.chain@
    }
}

impl<T> DoublyLinkedList<T> {
    /// The invariant of the underlying chain.
    pub closed spec fn wf(&self) -> bool {
        self.chain.wf()
    }

    /// An empty list.
    pub fn new() -> (r: DoublyLinkedList<T>)
        ensures
            r.wf(),
            r@ == Seq::<T>::empty(),
    {
        DoublyLinkedList { chain: Chain::new() }
    }

    /// The number of elements.
    pub fn len(&self) -> (r: usize)
        requires
            self.wf(),
        ensures
            r == self@.len(),
    {
        self.chain.len()
    }

    /// The element at position `index`, or `None` when there is none.
    pub fn get(&self, index: usize) -> (r: Option<&T>)
        requires
            self.wf(),
        ensures
            match r {
                Some(v) => index < self@.len() && *v == self@[index as int],
                None => index >= self@.len(),
            },
    {
        match self.chain.get(index) {
            Ok(v) => Some(v),
            Err(_) => None,
        }
    }

    /// Inserts `value` at position `index`; at or past the end it is appended.
    pub fn insert(&mut self, value: T, index: usize)
        requires
            old(self).wf(),
            old(self)@.len() < usize::MAX,
        ensures
            final(self).wf(),
            final(self)@ == inserted_at(old(self)@, value, index as int),
    {
        self.chain.insert(value, index);
    }

    /// Adds `value` after the last element.
    pub fn append(&mut self, value: T)
        requires
            old(self).wf(),
            old(self)@.len() < usize::MAX,
        ensures
            final(self).wf(),
            final(self)@ == old(self)@.push(value),
    {
        let len = self.len();
        self.insert(value, len);
    }
}

} // verus!

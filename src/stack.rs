//! A last-in, first-out stack whose top is the head of a singly linked list.
use vstd::prelude::*;
use crate::linked_list::LinkedList;

verus! {

/// A stack of values; the most recently pushed value is on top.
pub struct Stack<T> {
    items: LinkedList<T>,
}

impl<T> View for Stack<T> {
    type V = Seq<T>;

    /// The values from the top down.
    closed spec fn view(&self) -> Seq<T> {
        self.items@
    }
}

impl<T> Stack<T> {
    /// The invariant of the underlying list.
    pub closed spec fn wf(&self) -> bool {
        self.items.wf()
    }

    /// An empty stack.
    pub fn new() -> (r: Self)
        ensures
            r.wf(),
            r@ == Seq::<T>::empty(),
    {
        Stack { items: LinkedList::new() }
    }

    /// Puts `value` on top.
    pub fn push(&mut self, value: T)
        requires
            old(self).wf(),
            old(self)@.len() < usize::MAX,
        ensures
            final(self).wf(),
            final(self)@ == seq![value] + old(self)@,
    {
        self.items.insert(value, 0);
        proof {
            assert(self@ =~= seq![value] + old(self)@);
        }
    }

    /// Takes the top value off the stack and returns it. The stack must not
    /// be empty.
    pub fn pop(&mut self) -> (r: T)
        requires
            old(self).wf(),
            old(self)@.len() > 0,
        ensures
            final(self).wf(),
            r == old(self)@[0],
            final(self)@ == old(self)@.drop_first(),
    {
        let r = self.items.remove(0);
        proof {
            assert(self@ =~= old(self)@.drop_first());
        }
        r
    }

    /// The top value. The stack must not be empty.
    pub fn peek(&self) -> (r: &T)
        requires
            self.wf(),
            self@.len() > 0,
        ensures
            *r == self@[0],
    {
        self.items.get(0)
    }
}

} // verus!

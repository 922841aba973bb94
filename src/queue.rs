//! A first-in, first-out queue: values join at the rear and leave from the
//! front.
use vstd::prelude::*;
use std::collections::VecDeque;

verus! {

/// A queue of values, front first.
pub struct Queue<T> {
    items: VecDeque<T>,
}

impl<T> View for Queue<T> {
    type V = Seq<T>;

    /// The values from the front to the rear.
    closed spec fn view(&self) -> Seq<T> {
        self.items@
    }
}

impl<T> Queue<T> {
    /// An empty queue.
    pub fn new() -> (r: Self)
        ensures
            r@ == Seq::<T>::empty(),
    {
        Queue { items: VecDeque::new() }
    }

    /// The number of values waiting.
    pub fn len(&self) -> (r: usize)
        ensures
            r == self@.len(),
    {
        self.items.len()
    }

    /// Adds `value` at the rear.
    pub fn enqueue(&mut self, value: T)
        ensures
            final(self)@ == old(self)@.push(value),
    {
        self.items.push_back(value);
    }

    /// Takes the front value out and returns it. The queue must not be empty.
    pub fn dequeue(&mut self) -> (r: T)
        requires
            old(self)@.len() > 0,
        ensures
            r == old(self)@[0],
            final(self)@ == old(self)@.drop_first(),
    {
        let r = self.items.pop_front().unwrap();
        proof {
            assert(self@ =~= old(self)@.drop_first());
        }
        r
    }

    /// The value at the front, if any.
    pub fn front(&self) -> (r: Option<&T>)
        ensures
            match r {
                Some(v) => self@.len() > 0 && *v == self@[0],
                None => self@.len() == 0,
            },
    {
        if self.items.len() == 0 {
            None
        } else {
            Some(&self.items[0])
        }
    }

    /// The value at the rear, if any.
    pub fn rear(&self) -> (r: Option<&T>)
        ensures
            match r {
                Some(v) => self@.len() > 0 && *v == self@[self@.len() - 1],
                None => self@.len() == 0,
            },
    {
        let n = self.items.len();
        if n == 0 {
            None
        } else {
            Some(&self.items[n - 1])
        }
    }
}

} // verus!

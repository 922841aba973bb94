//! A singly linked list: each node owns the rest of the chain through its
//! `next` link.
use vstd::prelude::*;
use crate::doubly_linked_list::inserted_at;

verus! {

struct Node<T> {
    value: T,
    next: Option<Box<Node<T>>>,
}

/// The values met when following `next` from `link` to the end.
spec fn values_of<T>(link: Option<Box<Node<T>>>) -> Seq<T>
    decreases link,
{
    match link {
        None => Seq::empty(),
        Some(node) => seq![node.value] + values_of(node.next),
    }
}

/// A sequence of values with indexed insertion and removal, stored as a
/// chain of nodes linked forward.
pub struct LinkedList<T> {
    head: Option<Box<Node<T>>>,
    len: usize,
}

impl<T> View for LinkedList<T> {
    type V = Seq<T>;

    closed spec fn view(&self) -> Seq<T> {
        values_of(self.head)
    }
}

/// Inserts `value` at position `index` of the chain that starts at `link`,
/// or at its end when `index` is at or past it.
fn insert_at<T>(link: &mut Option<Box<Node<T>>>, value: T, index: usize)
    ensures
        values_of(*final(link)) == inserted_at(values_of(*old(link)), value, index as int),
    decreases index,
{
    if index == 0 || link.is_none() {
        let rest = link.take();
        *link = Some(Box::new(Node { value, next: rest }));
        proof {
            let s = values_of(*old(link));
            assert(values_of(*link) =~= inserted_at(s, value, index as int));
        }
    } else {
        let node = link.as_mut().unwrap();
        insert_at(&mut node.next, value, index - 1);
        proof {
            let s = values_of(*old(link));
            assert(inserted_at(s, value, index as int) =~= seq![s[0]] + inserted_at(
                s.drop_first(),
                value,
                index - 1,
            ));
        }
    }
}

/// Removes the node at position `index` of the chain that starts at `link`
/// and returns its value.
fn remove_at<T>(link: &mut Option<Box<Node<T>>>, index: usize) -> (r: T)
    requires
        index < values_of(*old(link)).len(),
    ensures
        r == values_of(*old(link))[index as int],
        values_of(*final(link)) == values_of(*old(link)).remove(index as int),
    decreases index,
{
    if index == 0 {
        let node = *link.take().unwrap();
        *link = node.next;
        proof {
            assert(values_of(*link) =~= values_of(*old(link)).remove(0));
        }
        node.value
    } else {
        let node = link.as_mut().unwrap();
        let r = remove_at(&mut node.next, index - 1);
        proof {
            let s = values_of(*old(link));
            assert(s.remove(index as int) =~= seq![s[0]] + s.drop_first().remove(index - 1));
        }
        r
    }
}

impl<T> LinkedList<T> {
    /// `len` counts the nodes of the chain.
    pub closed spec fn wf(&self) -> bool {
        self.len == values_of(self.head).len()
    }

    /// An empty list.
    pub fn new() -> (r: LinkedList<T>)
        ensures
            r.wf(),
            r@ == Seq::<T>::empty(),
    {
        LinkedList { head: None, len: 0 }
    }

    /// The element at position `index`, found by walking from the head.
    pub fn get(&self, index: usize) -> (r: &T)
        requires
            self.wf(),
            index < self@.len(),
        ensures
            *r == self@[index as int],
    {
        let mut link = &self.head;
        let mut i: usize = 0;
        while i < index
            invariant
                i <= index < self@.len(),
                values_of(*link) == self@.subrange(i as int, self@.len() as int),
            decreases index - i,
        {
            let node = link.as_ref().unwrap();
            proof {
                assert(values_of(*link) == seq![node.value] + values_of(node.next));
                assert(values_of(node.next) =~= values_of(*link).drop_first());
            }
            link = &node.next;
            i += 1;
        }
        let node = link.as_ref().unwrap();
        proof {
            assert(values_of(*link) == seq![node.value] + values_of(node.next));
            assert(values_of(*link)[0] == self@[index as int]);
        }
        &node.value
    }

    /// The number of elements.
    pub fn len(&self) -> (r: usize)
        requires
            self.wf(),
        ensures
            r == self@.len(),
    {
        self.len
    }

    /// Inserts `value` at position `index`; at or past the end it is appended.
    pub fn insert(&mut self, value: T, index: usize)
        requires
            old(self).wf(),
            old(self)@.len() < usize::MAX,
        ensures
            final(self).wf(),
            final(self)@ == inserted_at(old(self)@, value, index as int),
    {
        insert_at(&mut self.head, value, index);
        self.len = self.len + 1;
    }

    /// Adds `value` after the last element.
    pub fn append(&mut self, value: T)
        requires
            old(self).wf(),
            old(self)@.len() < usize::MAX,
        ensures
            final(self).wf(),
            final(self)@ == old(self)@.push(value),
    {
        let len = self.len;
        self.insert(value, len);
    }

    /// Removes the element at position `index` and returns it.
    pub fn remove(&mut self, index: usize) -> (r: T)
        requires
            old(self).wf(),
            index < old(self)@.len(),
        ensures
            final(self).wf(),
            r == old(self)@[index as int],
            final(self)@ == old(self)@.remove(index as int),
    {
        let r = remove_at(&mut self.head, index);
        self.len = self.len - 1;
        r
    }
}

} // verus!

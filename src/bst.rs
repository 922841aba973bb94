//! A binary search tree: values smaller than a node go to its left subtree,
//! all others (equal values included) to its right subtree.
use vstd::prelude::*;
use vstd::std_specs::cmp::PartialOrdSpec;
use core::cmp::Ordering;

verus! {

struct Node<T> {
    value: T,
    left: Option<Box<Node<T>>>,
    right: Option<Box<Node<T>>>,
}

impl<T> Node<T> {
    /// A leaf holding `value`.
    fn new(value: T) -> (r: Node<T>)
        ensures
            r.value == value,
            r.left is None,
            r.right is None,
    {
        Node { value, left: None, right: None }
    }
}

/// The values of the tree at `link`, left subtree first, then the node, then
/// the right subtree.
spec fn inorder<T>(link: Option<Box<Node<T>>>) -> Seq<T>
    decreases link,
{
    match link {
        None => Seq::empty(),
        Some(node) => inorder(node.left) + seq![node.value] + inorder(node.right),
    }
}

/// `a < b` as `PartialOrd` specifies it.
spec fn less<T: PartialOrd>(a: T, b: T) -> bool {
    a.partial_cmp_spec(&b) == Some(Ordering::Less)
}

/// Every node of the tree at `link` has only smaller values on its left and
/// no smaller value on its right.
spec fn ordered<T: PartialOrd>(link: Option<Box<Node<T>>>) -> bool
    decreases link,
{
    match link {
        None => true,
        Some(node) => {
            &&& forall|i: int|
                0 <= i < inorder(node.left).len() ==> less(#[trigger] inorder(node.left)[i], node.value)
            &&& forall|i: int|
                0 <= i < inorder(node.right).len() ==> !less(
                    #[trigger] inorder(node.right)[i],
                    node.value,
                )
            &&& ordered(node.left)
            &&& ordered(node.right)
        },
    }
}

/// Inserts `value` into the tree at `link`, as a new leaf.
fn insert_into<T: PartialOrd>(link: &mut Option<Box<Node<T>>>, value: T)
    requires
        T::obeys_partial_cmp_spec() ==> ordered(*old(link)),
    ensures
        T::obeys_partial_cmp_spec() ==> ordered(*final(link)),
        exists|k: int|
            0 <= k <= inorder(*old(link)).len() && inorder(*final(link)) == inorder(
                *old(link),
            ).insert(k, value),
    decreases *old(link),
{
    if link.is_none() {
        *link = Some(Box::new(Node::new(value)));
        proof {
            assert(inorder(*link) =~= inorder(*old(link)).insert(0, value));
        }
    } else {
        let node = link.as_mut().unwrap();
        let ghost left0 = inorder(node.left);
        let ghost right0 = inorder(node.right);
        let ghost pivot = node.value;
        if value < node.value {
            insert_into(&mut node.left, value);
            proof {
                let k = choose|k: int|
                    0 <= k <= left0.len() && inorder(node.left) == left0.insert(k, value);
                assert(inorder(*final(link)) =~= inorder(*old(link)).insert(k, value));
            }
        } else {
            insert_into(&mut node.right, value);
            proof {
                let k = choose|k: int|
                    0 <= k <= right0.len() && inorder(node.right) == right0.insert(k, value);
                assert(inorder(*final(link)) =~= inorder(*old(link)).insert(
                    left0.len() + 1 + k,
                    value,
                ));
            }
        }
    }
}

/// Pushes the values of the tree at `link` onto `out`, in order.
fn collect_inorder<'a, T>(link: &'a Option<Box<Node<T>>>, out: &mut Vec<&'a T>)
    ensures
        final(out)@.len() == old(out)@.len() + inorder(*link).len(),
        forall|i: int| 0 <= i < old(out)@.len() ==> final(out)@[i] == old(out)@[i],
        forall|i: int|
            0 <= i < inorder(*link).len() ==> *final(out)@[old(out)@.len() + i] == inorder(*link)[i],
    decreases *link,
{
    match link {
        None => {},
        Some(node) => {
            collect_inorder(&node.left, out);
            out.push(&node.value);
            collect_inorder(&node.right, out);
        },
    }
}

/// A binary search tree of values.
pub struct BST<T> {
    root: Option<Box<Node<T>>>,
}

impl<T: PartialOrd> View for BST<T> {
    type V = Seq<T>;

    /// The values in order: a sorted sequence whenever `<` is a total order.
    closed spec fn view(&self) -> Seq<T> {
        inorder(self.root)
    }
}

impl<T: PartialOrd> BST<T> {
    /// The search-tree order holds at every node, whenever `<` behaves as
    /// `PartialOrd` specifies.
    pub closed spec fn wf(&self) -> bool {
        T::obeys_partial_cmp_spec() ==> ordered(self.root)
    }

    /// An empty tree.
    pub fn new() -> (r: BST<T>)
        ensures
            r.wf(),
            r@ == Seq::<T>::empty(),
    {
        BST { root: None }
    }

    /// Adds `value` as a new leaf: in the sequence of values in order it
    /// lands at some position, and all others keep their order.
    pub fn insert(&mut self, value: T)
        requires
            old(self).wf(),
        ensures
            final(self).wf(),
            exists|k: int| 0 <= k <= old(self)@.len() && final(self)@ == old(self)@.insert(k, value),
    {
        insert_into(&mut self.root, value);
        proof {
            let k = choose|k: int|
                0 <= k <= old(self)@.len() && inorder(self.root) == old(self)@.insert(k, value);
            assert(self@ == old(self)@.insert(k, value));
        }
    }

    /// The values of the tree, visited left subtree first, then the node,
    /// then the right subtree.
    pub fn traverse_inorder(&self) -> (r: Vec<&T>)
        requires
            self.wf(),
        ensures
            r@.len() == self@.len(),
            forall|i: int| 0 <= i < self@.len() ==> *r@[i] == self@[i],
    {
        let mut out: Vec<&T> = Vec::new();
        collect_inorder(&self.root, &mut out);
        out
    }
}

} // verus!

//! A doubly linked list whose nodes live in an arena.
//!
//! Each node stores its value together with the slots of its predecessor
//! (`prev`) and successor (`next`). The chain that starts at `head` and follows
//! `next` visits every slot of the arena exactly once; `prev` is only a
//! back-reference used to relink neighbours. Removing a node frees its slot at
//! once: the last slot of the arena is moved into the hole and the two links
//! that designated it are redirected. Dropping the list releases the arena one
//! node after another, with no recursion along the chain.
use vstd::prelude::*;
use crate::error::IndexOutOfRange;

verus! {

struct Node<T> {
    value: T,
    prev: Option<usize>,
    next: Option<usize>,
}

/// The links of the node at position `i` of `order` designate exactly its
/// neighbours in `order`, and its slot lies inside the arena.
spec fn link_ok<T>(nodes: Seq<Node<T>>, order: Seq<usize>, i: int) -> bool {
    let node = nodes[order[i] as int];
    &&& order[i] < nodes.len()
    &&& node.prev == (if i == 0 { None::<usize> } else { Some(order[i - 1]) })
    &&& node.next == (if i + 1 == order.len() { None::<usize> } else { Some(order[i + 1]) })
}

/// The chain described by `order` is a simple path through slots of the
/// arena that starts at `head`.
spec fn chain_links<T>(nodes: Seq<Node<T>>, head: Option<usize>, order: Seq<usize>) -> bool {
    &&& order.no_duplicates()
    &&& head == (if order.len() == 0 { None::<usize> } else { Some(order[0]) })
    &&& forall|i: int| 0 <= i < order.len() ==> #[trigger] link_ok(nodes, order, i)
}

/// The chain described by `order` is a simple path through the whole arena
/// that starts at `head`.
spec fn chain_ok<T>(nodes: Seq<Node<T>>, head: Option<usize>, order: Seq<usize>) -> bool {
    &&& order.len() == nodes.len()
    &&& chain_links(nodes, head, order)
}

/// A chain through all `m` slots of an arena passes through every slot.
proof fn lemma_chain_covers(order: Seq<usize>, m: usize, slot: usize)
    requires
        order.len() == m,
        order.no_duplicates(),
        forall|i: int| 0 <= i < order.len() ==> #[trigger] order[i] < m,
        slot < m,
    ensures
        exists|j: int| 0 <= j < order.len() && order[j] == slot,
{
    order.unique_seq_to_set();
    let full = Set::<usize>::range(0, m);
    vstd::set_lib::range_set_properties::<usize>(0, m);
    assert forall|x: usize| order.to_set().contains(x) implies full.contains(x) by {
        let i = choose|i: int| 0 <= i < order.len() && order[i] == x;
    }
    vstd::set_lib::lemma_subset_equality(order.to_set(), full);
    assert(full.contains(slot));
    assert(order.to_set().contains(slot));
}

/// The result of inserting `value` at `index`: before the element that held
/// that position, or after the last element when `index` is at or past the end.
pub open spec fn inserted_at<T>(s: Seq<T>, value: T, index: int) -> Seq<T> {
    if index < s.len() {
        s.insert(index, value)
    } else {
        s.push(value)
    }
}

/// The chain `order` after the node in slot `last` has moved to slot `s`.
spec fn moved_slot(order: Seq<usize>, s: usize, last: usize) -> Seq<usize> {
    order.map_values(|x: usize| if x == last { s } else { x })
}

/// A chain that misses exactly one slot `hole` of an arena of `m` slots
/// passes through every other slot.
proof fn lemma_slot_in_chain(order: Seq<usize>, m: usize, hole: usize, slot: usize)
    requires
        order.len() + 1 == m,
        order.no_duplicates(),
        forall|i: int| 0 <= i < order.len() ==> #[trigger] order[i] < m && order[i] != hole,
        hole < m,
        slot < m,
        slot != hole,
    ensures
        exists|j: int| 0 <= j < order.len() && order[j] == slot,
{
    order.unique_seq_to_set();
    let range = Set::<usize>::range(0, m);
    vstd::set_lib::range_set_properties::<usize>(0, m);
    assert(range.contains(hole));
    let full = range.remove(hole);
    assert forall|x: usize| order.to_set().contains(x) implies full.contains(x) by {
        let i = choose|i: int| 0 <= i < order.len() && order[i] == x;
    }
    vstd::set_lib::lemma_subset_equality(order.to_set(), full);
    assert(full.contains(slot));
    assert(order.to_set().contains(slot));
}

/// Inserting at any index at or past the end gives the same sequence as
/// appending: `insert(v, i)` with `i >= len()` is `append(v)`.
pub proof fn lemma_insert_past_end_is_append<T>(s: Seq<T>, value: T, index: int)
    requires
        index >= s.len(),
    ensures
        inserted_at(s, value, index) == s.push(value),
{
}

/// Removing at `index` right after inserting at `index`, for an index below
/// the length, hands back the inserted value and restores the original
/// sequence and length.
pub proof fn lemma_remove_undoes_insert<T>(s: Seq<T>, value: T, index: int)
    requires
        0 <= index < s.len(),
    ensures
        inserted_at(s, value, index)[index] == value,
        inserted_at(s, value, index).remove(index) == s,
        inserted_at(s, value, index).remove(index).len() == s.len(),
{
    assert(inserted_at(s, value, index).remove(index) =~= s);
}

/// A sequence of values with indexed insertion and removal, stored as a chain
/// of nodes linked in both directions.
pub struct DoublyLinkedList<T> {
    nodes: Vec<Node<T>>,
    head: Option<usize>,
    len: usize,
    /// The arena slot of the node at each position of the list.
    order: Ghost<Seq<usize>>,
}

impl<T> View for DoublyLinkedList<T> {
    type V = Seq<T>;

    closed spec fn view(&self) -> Seq<T> {
        Seq::new(self.order@.len(), |i: int| self.nodes@[self.order@[i] as int].value)
    }
}

impl<T> DoublyLinkedList<T> {
    /// The list's invariant: `len` counts the nodes, the chain from the head
    /// is a simple path through all of them, the head has no predecessor, the
    /// last node no successor, and each forward link is mirrored by a back link.
    pub closed spec fn wf(&self) -> bool {
        &&& self.len == self.nodes@.len()
        &&& chain_ok(self.nodes@, self.head, self.order@)
    }

    /// The slot reached from the head after following `next` `k` times, if any.
    pub closed spec fn walk(&self, k: nat) -> Option<usize>
        decreases k,
    {
        if k == 0 {
            self.head
        } else {
            match self.walk((k - 1) as nat) {
                Some(s) => if s < self.nodes@.len() {
                    self.nodes@[s as int].next
                } else {
                    None
                },
                None => None,
            }
        }
    }

    /// The number of nodes held in the arena.
    pub closed spec fn node_count(&self) -> nat {
        self.nodes@.len()
    }

    /// The walk from the head meets slot `slot` within the list's length.
    pub open spec fn reaches(&self, slot: usize) -> bool {
        exists|k: nat| k < self@.len() && #[trigger] self.walk(k) == Some(slot)
    }

    /// The back link of the node reached after `k` steps from the head, if any.
    pub closed spec fn back_link(&self, k: nat) -> Option<usize> {
        match self.walk(k) {
            Some(s) => if s < self.nodes@.len() {
                self.nodes@[s as int].prev
            } else {
                None
            },
            None => None,
        }
    }

    /// Walking from the head along `next` meets exactly `len` nodes and then
    /// stops; the back link of each node met designates the node met before
    /// it, and the head has none.
    pub proof fn lemma_chain_matches_len(&self)
        requires
            self.wf(),
        ensures
            forall|k: nat| k < self@.len() ==> (#[trigger] self.walk(k)) is Some,
            self.walk(self@.len()) is None,
            self.back_link(0) is None,
            forall|k: nat|
                0 < k < self@.len() ==> #[trigger] self.back_link(k) == self.walk((k - 1) as nat),
    {
        let ord = self.order@;
        assert forall|k: nat| k <= ord.len() implies self.walk(k) == (if k < ord.len() {
            Some(ord[k as int])
        } else {
            None::<usize>
        }) by {
            self.lemma_walk(k);
        }
        if ord.len() > 0 {
            assert(link_ok(self.nodes@, ord, 0));
        }
        assert forall|k: nat| 0 < k < self@.len() implies #[trigger] self.back_link(k)
            == self.walk((k - 1) as nat) by {
            assert(link_ok(self.nodes@, ord, k as int));
        }
    }

    /// Every node that the list holds lies on the chain from the head, and
    /// the walk meets no node twice: releasing the arena releases each node
    /// exactly once, and no node is held that the chain does not reach.
    pub proof fn lemma_nodes_on_chain(&self)
        requires
            self.wf(),
        ensures
            self.node_count() == self@.len(),
            forall|slot: usize| slot < self.node_count() ==> #[trigger] self.reaches(slot),
            forall|j: nat, k: nat|
                j < k < self@.len() ==> #[trigger] self.walk(j) != #[trigger] self.walk(k),
    {
        let ord = self.order@;
        assert forall|k: nat| k <= ord.len() implies #[trigger] self.walk(k) == (if k < ord.len() {
            Some(ord[k as int])
        } else {
            None::<usize>
        }) by {
            self.lemma_walk(k);
        }
        assert forall|slot: usize| slot < self.node_count() implies #[trigger] self.reaches(slot) by {
            assert forall|i: int| 0 <= i < ord.len() implies #[trigger] ord[i] < self.len by {
                assert(link_ok(self.nodes@, ord, i));
            }
            lemma_chain_covers(ord, self.len, slot);
            let j = choose|j: int| 0 <= j < ord.len() && ord[j] == slot;
            assert(self.walk(j as nat) == Some(slot));
        }
    }

    proof fn lemma_walk(&self, k: nat)
        requires
            self.wf(),
            k <= self.order@.len(),
        ensures
            self.walk(k) == (if k < self.order@.len() {
                Some(self.order@[k as int])
            } else {
                None::<usize>
            }),
        decreases k,
    {
        if k > 0 {
            self.lemma_walk((k - 1) as nat);
            assert(link_ok(self.nodes@, self.order@, k - 1));
        }
    }

    /// An empty list.
    pub fn new() -> (r: DoublyLinkedList<T>)
        ensures
            r.wf(),
            r@ == Seq::<T>::empty(),
    {
        DoublyLinkedList { nodes: Vec::new(), head: None, len: 0, order: Ghost(Seq::empty()) }
    }

    /// The number of elements.
    pub fn len(&self) -> (r: usize)
        requires
            self.wf(),
        ensures
            r == self@.len(),
    {
        self.len
    }

    /// The slot of the node at position `index`, found by walking from the head.
    fn slot_of(&self, index: usize) -> (r: usize)
        requires
            self.wf(),
            index < self.len,
        ensures
            r == self.order@[index as int],
            r < self.nodes@.len(),
    {
        let mut cur = self.head.unwrap();
        let mut i: usize = 0;
        while i < index
            invariant
                self.wf(),
                i <= index < self.len,
                cur == self.order@[i as int],
            decreases index - i,
        {
            proof {
                assert(link_ok(self.nodes@, self.order@, i as int));
            }
            cur = self.nodes[cur].next.unwrap();
            i += 1;
        }
        proof {
            assert(link_ok(self.nodes@, self.order@, i as int));
        }
        cur
    }

    /// The element at position `index`, or `IndexOutOfRange` when the list
    /// has no such position.
    pub fn get(&self, index: usize) -> (r: Result<&T, IndexOutOfRange>)
        requires
            self.wf(),
        ensures
            match r {
                Ok(v) => index < self@.len() && *v == self@[index as int],
                Err(e) => index >= self@.len() && e.index == index && e.len == self@.len(),
            },
    {
        if index >= self.len {
            return Err(IndexOutOfRange { index, len: self.len });
        }
        let s = self.slot_of(index);
        Ok(&self.nodes[s].value)
    }
    /// Inserts `value` at position `index`; at or past the end it is appended.
    /// Never fails.
    #[verifier::rlimit(30)]
    pub fn insert(&mut self, value: T, index: usize)
        requires
            old(self).wf(),
            old(self)@.len() < usize::MAX,
        ensures
            final(self).wf(),
            final(self)@ == inserted_at(old(self)@, value, index as int),
    {
        let ghost ord = self.order@;
        let ghost nodes0 = self.nodes@;
        let ghost view0 = self@;
        let n = self.nodes.len();
        proof {
            assert forall|i: int| 0 <= i < ord.len() implies #[trigger] ord[i] < n by {
                assert(link_ok(nodes0, ord, i));
            }
        }
        if self.len == 0 {
            self.nodes.push(Node { value, prev: None, next: None });
            self.head = Some(n);
            proof {
                self.order@ = seq![n];
            }
            proof {
                assert(link_ok(self.nodes@, self.order@, 0));
            }
        } else if index == 0 {
            let h = self.head.unwrap();
            proof {
                assert(link_ok(nodes0, ord, 0));
            }
            self.nodes[h].prev = Some(n);
            self.nodes.push(Node { value, prev: None, next: Some(h) });
            self.head = Some(n);
            proof {
                self.order@ = seq![n] + ord;
            }
            proof {
                let ord2 = self.order@;
                assert forall|i: int| 0 <= i < ord2.len() implies #[trigger] link_ok(
                    self.nodes@,
                    ord2,
                    i,
                ) by {
                    if i > 0 {
                        assert(link_ok(nodes0, ord, i - 1));
                    }
                }
            }
        } else if index < self.len {
            let t = self.slot_of(index);
            proof {
                assert(link_ok(nodes0, ord, index as int));
                assert(link_ok(nodes0, ord, index - 1));
            }
            let p = self.nodes[t].prev.unwrap();
            self.nodes[p].next = Some(n);
            self.nodes[t].prev = Some(n);
            self.nodes.push(Node { value, prev: Some(p), next: Some(t) });
            proof {
                self.order@ = ord.insert(index as int, n);
            }
            proof {
                let ord2 = self.order@;
                assert forall|i: int| 0 <= i < ord2.len() implies #[trigger] link_ok(
                    self.nodes@,
                    ord2,
                    i,
                ) by {
                    if i < index {
                        assert(link_ok(nodes0, ord, i));
                    } else if i > index {
                        assert(link_ok(nodes0, ord, i - 1));
                    }
                }
            }
        } else {
            let tail = self.slot_of(self.len - 1);
            proof {
                assert(link_ok(nodes0, ord, self.len - 1));
            }
            self.nodes[tail].next = Some(n);
            self.nodes.push(Node { value, prev: Some(tail), next: None });
            proof {
                self.order@ = ord.push(n);
            }
            proof {
                let ord2 = self.order@;
                assert forall|i: int| 0 <= i < ord2.len() implies #[trigger] link_ok(
                    self.nodes@,
                    ord2,
                    i,
                ) by {
                    if i < ord.len() {
                        assert(link_ok(nodes0, ord, i));
                    }
                }
            }
        }
        self.len = self.len + 1;
        proof {
            assert(self@ =~= inserted_at(view0, value, index as int));
        }
    }

    /// Adds `value` after the last element.
    pub fn append(&mut self, value: T)
        requires
            old(self).wf(),
            old(self)@.len() < usize::MAX,
        ensures
            final(self).wf(),
            final(self)@ == old(self)@.push(value),
    {
        let len = self.len;
        self.insert(value, len);
    }
    /// Detaches the node at position `index` from the chain: its neighbours
    /// now designate each other. The node stays in the arena, unreferenced.
    fn unlink(&mut self, index: usize) -> (s: usize)
        requires
            old(self).wf(),
            index < old(self).len,
        ensures
            s == old(self).order@[index as int],
            s < old(self).nodes@.len(),
            final(self).nodes@.len() == old(self).nodes@.len(),
            final(self).len == old(self).len,
            final(self).order == old(self).order,
            chain_links(final(self).nodes@, final(self).head, old(self).order@.remove(index as int)),
            forall|k: int|
                0 <= k < old(self).nodes@.len() ==> (#[trigger] final(self).nodes@[k]).value
                    == old(self).nodes@[k].value,
            !old(self).order@.remove(index as int).contains(s),
    {
        let ghost ord = self.order@;
        let ghost nodes0 = self.nodes@;
        let s = self.slot_of(index);
        proof {
            assert(link_ok(nodes0, ord, index as int));
            if index > 0 {
                assert(link_ok(nodes0, ord, index - 1));
            }
            if index + 1 < ord.len() {
                assert(link_ok(nodes0, ord, index + 1));
            }
        }
        let prev = self.nodes[s].prev;
        let next = self.nodes[s].next;
        match prev {
            Some(p) => {
                self.nodes[p].next = next;
            },
            None => {
                self.head = next;
            },
        }
        match next {
            Some(q) => {
                self.nodes[q].prev = prev;
            },
            None => {},
        }
        proof {
            let ord1 = ord.remove(index as int);
            assert forall|i: int| 0 <= i < ord1.len() implies #[trigger] link_ok(
                self.nodes@,
                ord1,
                i,
            ) by {
                if i < index {
                    assert(link_ok(nodes0, ord, i));
                } else {
                    assert(link_ok(nodes0, ord, i + 1));
                }
            }
            assert forall|i: int| 0 <= i < ord1.len() implies #[trigger] ord1[i] != s by {
                if i < index {
                    assert(ord[i] != ord[index as int]);
                } else {
                    assert(ord[i + 1] != ord[index as int]);
                }
            }
        }
        s
    }

    /// Frees slot `s`, which no link designates: the last node of the arena
    /// moves into it and the links that designated the moved node follow it.
    fn release_slot(&mut self, s: usize, order: Ghost<Seq<usize>>) -> (value: T)
        requires
            chain_links(old(self).nodes@, old(self).head, order@),
            order@.len() + 1 == old(self).nodes@.len(),
            s < old(self).nodes@.len(),
            !order@.contains(s),
        ensures
            value == old(self).nodes@[s as int].value,
            final(self).len == old(self).len,
            final(self).order == old(self).order,
            final(self).nodes@.len() == order@.len(),
            chain_links(final(self).nodes@, final(self).head, moved_slot(order@, s, order@.len() as usize)),
            forall|i: int|
                0 <= i < order@.len() ==> (#[trigger] final(self).nodes@[moved_slot(order@, s, order@.len() as usize)[i] as int]).value
                    == old(self).nodes@[order@[i] as int].value,
    {
        let ghost ord1 = order@;
        let ghost nodes1 = self.nodes@;
        let last = self.nodes.len() - 1;
        let ghost ord2 = moved_slot(ord1, s, last);
        let node = self.nodes.swap_remove(s);
        if s != last {
            proof {
                assert forall|i: int| 0 <= i < ord1.len() implies #[trigger] ord1[i] < nodes1.len()
                    && ord1[i] != s by {
                    assert(link_ok(nodes1, ord1, i));
                    if ord1[i] == s {
                        assert(ord1.contains(s));
                    }
                }
            }
            let ghost j: int;
            proof {
                lemma_slot_in_chain(ord1, nodes1.len() as usize, s, last);
                j = choose|j: int| 0 <= j < ord1.len() && ord1[j] == last;
                assert(link_ok(nodes1, ord1, j));
                if j > 0 {
                    assert(ord1[j - 1] != last);
                    assert(ord1[j - 1] != s);
                }
                if j + 1 < ord1.len() {
                    assert(ord1[j + 1] != last);
                    assert(ord1[j + 1] != s);
                }
            }
            let moved_prev = self.nodes[s].prev;
            let moved_next = self.nodes[s].next;
            match moved_prev {
                Some(p) => {
                    self.nodes[p].next = Some(s);
                },
                None => {
                    self.head = Some(s);
                },
            }
            match moved_next {
                Some(q) => {
                    self.nodes[q].prev = Some(s);
                },
                None => {},
            }
            proof {
                let nodes3 = self.nodes@;
                assert forall|i: int| 0 <= i < ord2.len() implies #[trigger] link_ok(
                    nodes3,
                    ord2,
                    i,
                ) && nodes3[ord2[i] as int].value == nodes1[ord1[i] as int].value by {
                    assert(link_ok(nodes1, ord1, i));
                    if i != j {
                        assert(ord1[i] != last);
                    }
                    if i > 0 && i - 1 != j {
                        assert(ord1[i - 1] != last);
                    }
                    if i + 1 < ord1.len() && i + 1 != j {
                        assert(ord1[i + 1] != last);
                    }
                }
                if j != 0 {
                    assert(ord1[0] != last);
                }
                assert forall|a: int, b: int| 0 <= a < ord2.len() && 0 <= b < ord2.len() && a != b
                    implies ord2[a] != ord2[b] by {
                    assert(ord1[a] != ord1[b]);
                }
            }
        } else {
            proof {
                assert forall|i: int| 0 <= i < ord1.len() implies ord1[i] != last by {}
                assert(ord2 =~= ord1);
                assert forall|i: int| 0 <= i < ord2.len() implies #[trigger] link_ok(
                    self.nodes@,
                    ord2,
                    i,
                ) && self.nodes@[ord2[i] as int].value == nodes1[ord1[i] as int].value by {
                    assert(link_ok(nodes1, ord1, i));
                }
            }
        }
        proof {
            assert forall|i: int| 0 <= i < ord1.len() implies (#[trigger] self.nodes@[ord2[i] as int]).value
                == nodes1[ord1[i] as int].value by {
                assert(link_ok(self.nodes@, ord2, i));
            }
        }
        node.value
    }

    /// Removes the element at position `index` and returns it, or returns
    /// `IndexOutOfRange` and leaves the list as it was when there is no such
    /// position.
    pub fn remove(&mut self, index: usize) -> (r: Result<T, IndexOutOfRange>)
        requires
            old(self).wf(),
        ensures
            final(self).wf(),
            match r {
                Ok(v) => index < old(self)@.len() && v == old(self)@[index as int]
                    && final(self)@ == old(self)@.remove(index as int),
                Err(e) => index >= old(self)@.len() && e.index == index && e.len == old(self)@.len()
                    && final(self)@ == old(self)@,
            },
    {
        if index >= self.len {
            return Err(IndexOutOfRange { index, len: self.len });
        }
        let ghost view0 = self@;
        let ghost nodes0 = self.nodes@;
        let ghost ord0 = self.order@;
        let ghost ord1 = self.order@.remove(index as int);
        let s = self.unlink(index);
        let ghost nodes1 = self.nodes@;
        let value = self.release_slot(s, Ghost(ord1));
        self.len = self.len - 1;
        proof {
            self.order@ = moved_slot(ord1, s, self.len);
            assert forall|i: int| 0 <= i < ord1.len() implies self@[i] == view0.remove(
                index as int,
            )[i] by {
                let k = if i < index {
                    i
                } else {
                    i + 1
                };
                assert(link_ok(nodes0, ord0, k));
                assert(nodes1[ord1[i] as int].value == nodes0[ord1[i] as int].value);
                assert(self.nodes@[self.order@[i] as int].value == nodes1[ord1[i] as int].value);
            }
            assert(self@ =~= view0.remove(index as int));
        }
        Ok(value)
    }
}

} // verus!

//! Linear and hierarchical containers: an arena-backed doubly linked list,
//! a singly linked list, a stack, a queue and a binary search tree.
pub mod bst;
pub mod dlinked_list;
pub mod doubly_linked_list;
pub mod error;
pub mod linked_list;
pub mod queue;
pub mod stack;

pub use bst::BST;
pub use doubly_linked_list::DoublyLinkedList;
pub use error::IndexOutOfRange;
pub use linked_list::LinkedList;
pub use queue::Queue;
pub use stack::Stack;

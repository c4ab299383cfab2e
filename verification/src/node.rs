//! The element record of the sequence.

use vstd::prelude::*;

verus! {

/// One element of the sequence: its payload and the handles of its two
/// neighbours.
///
/// A handle is the index of a node in the storage of the sequence that owns
/// it. `next` points toward the tail and `prev` toward the head; either is
/// absent at the corresponding end of the sequence.
pub struct Node<T: Copy> {
    pub value: T,
    pub next: Option<usize>,
    pub prev: Option<usize>,
}

impl<T: Copy> Clone for Node<T> {
    fn clone(&self) -> (node: Self)
        ensures
            node == *self,
    {
        *self
    }
}

impl<T: Copy> Copy for Node<T> {

}

impl<T: Copy> Node<T> {
    /// A detached node: it carries `value` and has no neighbours.
    pub fn new(value: T) -> (node: Self)
        ensures
            node.value == value,
            node.next is None,
            node.prev is None,
    {
        Node { value, next: None, prev: None }
    }
}

} // verus!

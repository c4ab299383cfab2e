//! Slot storage for nodes, addressed by stable handles.

use crate::node::Node;
use vstd::prelude::*;

verus! {

/// Owns every node of one sequence.
///
/// A handle is the index of a slot. A slot either holds a node or is vacant;
/// the handles of the vacant slots are kept on a stack for reuse, so that
/// both handing out and taking back a slot take constant time.
pub struct Arena<T: Copy> {
    slots: Vec<Option<Node<T>>>,
    vacant: Vec<usize>,
}

impl<T: Copy> View for Arena<T> {
    type V = Map<usize, Node<T>>;

    /// The nodes held, by handle.
    closed spec fn view(&self) -> Map<usize, Node<T>> {
        Map::new(
            |id: usize| id < self.slots@.len() && self.slots@[id as int] is Some,
            |id: usize| self.slots@[id as int]->0,
        )
    }
}

impl<T: Copy> Arena<T> {
    /// The reuse stack lists exactly the vacant slots, each once.
    pub closed spec fn well_formed(self) -> bool {
        &&& forall|k: int|
            0 <= k < self.vacant@.len() ==> (#[trigger] self.vacant@[k]) < self.slots@.len()
                && self.slots@[self.vacant@[k] as int] is None
        &&& forall|j: int, k: int|
            0 <= j < k < self.vacant@.len() ==> self.vacant@[j] != self.vacant@[k]
        &&& forall|id: usize| #[trigger] self.is_vacant(id) ==> self.vacant@.contains(id)
    }

    /// Slot `id` exists and holds no node.
    spec fn is_vacant(self, id: usize) -> bool {
        id < self.slots@.len() && self.slots@[id as int] is None
    }

    /// An arena that holds no node.
    pub fn new() -> (arena: Self)
        ensures
            arena.well_formed(),
            arena@ == Map::<usize, Node<T>>::empty(),
    {
        Arena { slots: Vec::new(), vacant: Vec::new() }
    }

    /// Stores `node` in a slot that held none and returns the slot's handle.
    pub fn store(&mut self, node: Node<T>) -> (id: usize)
        requires
            old(self).well_formed(),
        ensures
            final(self).well_formed(),
            !old(self)@.dom().contains(id),
            final(self)@ == old(self)@.insert(id, node),
    {
        match self.vacant.pop() {
            Some(id) => {
                self.slots[id] = Some(node);
                assert forall|other: usize| #[trigger] self.is_vacant(other) implies self.vacant@.contains(
                    other,
                ) by {
                    assert(old(self).is_vacant(other));
                    let k = old(self).vacant@.index_of(other);
                    assert(self.vacant@[k] == other);
                }
                id
            },
            None => {
                let id = self.slots.len();
                self.slots.push(Some(node));
                assert forall|other: usize| #[trigger] self.is_vacant(other) implies self.vacant@.contains(
                    other,
                ) by {
                    assert(old(self).is_vacant(other));
                }
                id
            },
        }
    }

    /// Vacates the slot `id` and returns the node it held.
    pub fn remove(&mut self, id: usize) -> (node: Node<T>)
        requires
            old(self).well_formed(),
            old(self)@.dom().contains(id),
        ensures
            final(self).well_formed(),
            node == old(self)@[id],
            final(self)@ == old(self)@.remove(id),
    {
        let node = self.get(id);
        self.slots[id] = None;
        self.vacant.push(id);
        assert forall|other: usize| #[trigger] self.is_vacant(other) implies self.vacant@.contains(
            other,
        ) by {
            if other == id {
                assert(self.vacant@[self.vacant@.len() - 1] == id);
            } else {
                assert(old(self).is_vacant(other));
                let k = old(self).vacant@.index_of(other);
                assert(self.vacant@[k] == other);
            }
        }
        node
    }

    /// The node held in slot `id`.
    pub fn get(&self, id: usize) -> (node: Node<T>)
        requires
            self@.dom().contains(id),
        ensures
            node == self@[id],
    {
        self.slots[id].unwrap()
    }

    /// Replaces the forward link of the node in slot `id`.
    pub fn set_next(&mut self, id: usize, next: Option<usize>)
        requires
            old(self).well_formed(),
            old(self)@.dom().contains(id),
        ensures
            final(self).well_formed(),
            final(self)@ == old(self)@.insert(
                id,
                Node { value: old(self)@[id].value, next, prev: old(self)@[id].prev },
            ),
    {
        let mut node = self.get(id);
        node.next = next;
        self.slots[id] = Some(node);
        assert forall|other: usize| #[trigger] self.is_vacant(other) implies self.vacant@.contains(
            other,
        ) by {
            assert(old(self).is_vacant(other));
        }
    }

    /// Replaces the backward link of the node in slot `id`.
    pub fn set_prev(&mut self, id: usize, prev: Option<usize>)
        requires
            old(self).well_formed(),
            old(self)@.dom().contains(id),
        ensures
            final(self).well_formed(),
            final(self)@ == old(self)@.insert(
                id,
                Node { value: old(self)@[id].value, next: old(self)@[id].next, prev },
            ),
    {
        let mut node = self.get(id);
        node.prev = prev;
        self.slots[id] = Some(node);
        assert forall|other: usize| #[trigger] self.is_vacant(other) implies self.vacant@.contains(
            other,
        ) by {
            assert(old(self).is_vacant(other));
        }
    }
}

} // verus!

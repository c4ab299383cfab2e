//! The doubly-linked sequence.

use crate::arena::Arena;
use crate::model::{back, front, pushed_back, pushed_front, without_back, without_front};
use crate::node::Node;
use vstd::prelude::*;

verus! {

/// A sequence of `T` with constant-time insertion and removal at both ends.
///
/// `head` and `tail` anchor a chain of nodes that are linked in both
/// directions. The view of a list is the sequence of its payloads, read from
/// the head to the tail.
pub struct List<T: Copy> {
    arena: Arena<T>,
    head: Option<usize>,
    tail: Option<usize>,
    chain: Ghost<Seq<usize>>,
}

impl<T: Copy> View for List<T> {
    type V = Seq<T>;

    /// The payloads of the nodes, from the head to the tail.
    open spec fn view(&self) -> Seq<T> {
        Seq::new(self.handles().len(), |k: int| self.nodes()[self.handles()[k]].value)
    }
}

impl<T: Copy> List<T> {
    /// The live nodes, by handle.
    pub closed spec fn nodes(self) -> Map<usize, Node<T>> {
        self.arena@
    }

    /// The handles of the nodes in sequence order, head first.
    pub closed spec fn handles(self) -> Seq<usize> {
        self.chain@
    }

    /// The handle that the head anchor holds, if any.
    pub closed spec fn head_handle(self) -> Option<usize> {
        self.head
    }

    /// The handle that the tail anchor holds, if any.
    pub closed spec fn tail_handle(self) -> Option<usize> {
        self.tail
    }

    /// The storage accounts for each of its slots as either occupied or free.
    pub closed spec fn storage_consistent(self) -> bool {
        self.arena.well_formed()
    }

    /// The structural invariant, which every list meets at all times:
    ///
    /// - the storage is consistent;
    /// - no node occurs twice in the chain, and no node lives outside it;
    /// - `head` anchors the first node of the chain and `tail` the last, and
    ///   both are absent when there is no node;
    /// - the backward link of each node leads to the node before it in the
    ///   chain and its forward link to the node after it, and each is absent
    ///   where the chain ends.
    #[verifier::type_invariant]
    pub open spec fn well_formed(self) -> bool {
        let chain = self.handles();
        let nodes = self.nodes();
        &&& self.storage_consistent()
        &&& chain.no_duplicates()
        &&& forall|id: usize| nodes.dom().contains(id) <==> chain.contains(id)
        &&& self.head_handle() == if chain.len() == 0 { None } else { Some(chain.first()) }
        &&& self.tail_handle() == if chain.len() == 0 { None } else { Some(chain.last()) }
        &&& forall|k: int|
            0 <= k < chain.len() ==> (#[trigger] nodes[chain[k]]).prev == if k == 0 {
                None
            } else {
                Some(chain[k - 1])
            }
        &&& forall|k: int|
            0 <= k < chain.len() ==> (#[trigger] nodes[chain[k]]).next == if k == chain.len() - 1 {
                None
            } else {
                Some(chain[k + 1])
            }
    }

    /// Where `steps` forward links lead from `from`; nowhere once a link is
    /// absent.
    pub open spec fn walk_next(self, from: Option<usize>, steps: nat) -> Option<usize>
        decreases steps,
    {
        if steps == 0 {
            from
        } else {
            match from {
                Some(id) => self.walk_next(self.nodes()[id].next, (steps - 1) as nat),
                None => None,
            }
        }
    }

    /// Where `steps` backward links lead from `from`; nowhere once a link is
    /// absent.
    pub open spec fn walk_prev(self, from: Option<usize>, steps: nat) -> Option<usize>
        decreases steps,
    {
        if steps == 0 {
            from
        } else {
            match from {
                Some(id) => self.walk_prev(self.nodes()[id].prev, (steps - 1) as nat),
                None => None,
            }
        }
    }

    /// Forward links from the `k`-th node lead along the chain and end
    /// behind its last node.
    proof fn lemma_walk_next_within(self, k: int, steps: nat)
        requires
            self.well_formed(),
            0 <= k < self.handles().len(),
            k + steps <= self.handles().len(),
        ensures
            k + steps < self.handles().len() ==> self.walk_next(Some(self.handles()[k]), steps)
                == Some(self.handles()[k + steps]),
            k + steps == self.handles().len() ==> self.walk_next(Some(self.handles()[k]), steps)
                is None,
        decreases steps,
    {
        if steps > 0 {
            let next = self.nodes()[self.handles()[k]].next;
            if k + 1 < self.handles().len() {
                assert(next == Some(self.handles()[k + 1]));
                self.lemma_walk_next_within(k + 1, (steps - 1) as nat);
            } else {
                assert(next is None);
                assert(self.walk_next(None, 0) is None);
            }
        }
    }

    /// Backward links from the `k`-th node lead along the chain and end
    /// before its first node.
    proof fn lemma_walk_prev_within(self, k: int, steps: nat)
        requires
            self.well_formed(),
            0 <= k < self.handles().len(),
            steps <= k + 1,
        ensures
            steps <= k ==> self.walk_prev(Some(self.handles()[k]), steps) == Some(
                self.handles()[k - steps],
            ),
            steps == k + 1 ==> self.walk_prev(Some(self.handles()[k]), steps) is None,
        decreases steps,
    {
        if steps > 0 {
            let prev = self.nodes()[self.handles()[k]].prev;
            if k > 0 {
                assert(prev == Some(self.handles()[k - 1]));
                self.lemma_walk_prev_within(k - 1, (steps - 1) as nat);
            } else {
                assert(prev is None);
                assert(self.walk_prev(None, 0) is None);
            }
        }
    }

    /// The two directions tell the same order: `k` forward links from the
    /// head and `k` backward links from the tail lead to the `k`-th node
    /// counted from that end. So each anchor is reached from the other in one
    /// step less than there are elements, and one step more leads nowhere.
    pub proof fn lemma_walks_meet(self)
        requires
            self.well_formed(),
        ensures
            forall|k: nat|
                k < self@.len() ==> #[trigger] self.walk_next(self.head_handle(), k) == Some(
                    self.handles()[k as int],
                ),
            forall|k: nat|
                k < self@.len() ==> #[trigger] self.walk_prev(self.tail_handle(), k) == Some(
                    self.handles()[self@.len() - 1 - k],
                ),
            self@.len() > 0 ==> self.walk_next(self.head_handle(), (self@.len() - 1) as nat)
                == self.tail_handle(),
            self@.len() > 0 ==> self.walk_prev(self.tail_handle(), (self@.len() - 1) as nat)
                == self.head_handle(),
            self.walk_next(self.head_handle(), self@.len()) is None,
            self.walk_prev(self.tail_handle(), self@.len()) is None,
    {
        let len = self@.len();
        assert forall|k: nat| k < len implies #[trigger] self.walk_next(self.head_handle(), k)
            == Some(self.handles()[k as int]) by {
            self.lemma_walk_next_within(0, k);
        }
        assert forall|k: nat| k < len implies #[trigger] self.walk_prev(self.tail_handle(), k)
            == Some(self.handles()[len - 1 - k]) by {
            self.lemma_walk_prev_within(len - 1, k);
        }
        if len > 0 {
            let last = (len - 1) as nat;
            assert(self.walk_next(self.head_handle(), last) == self.tail_handle());
            assert(self.walk_prev(self.tail_handle(), last) == self.head_handle());
            self.lemma_walk_next_within(0, len);
            self.lemma_walk_prev_within(len - 1, len);
        }
    }

    /// Two neighbours name each other: the node that a forward link leads to
    /// is live and its backward link leads back, and the other way round.
    pub proof fn lemma_links_agree(self)
        requires
            self.well_formed(),
        ensures
            forall|id: usize| #[trigger]
                self.nodes().dom().contains(id) ==> (self.nodes()[id].next matches Some(after)
                    ==> self.nodes().dom().contains(after) && self.nodes()[after].prev == Some(id)),
            forall|id: usize| #[trigger]
                self.nodes().dom().contains(id) ==> (self.nodes()[id].prev matches Some(before)
                    ==> self.nodes().dom().contains(before) && self.nodes()[before].next == Some(
                    id,
                )),
    {
        let chain = self.handles();
        let nodes = self.nodes();
        assert forall|id: usize| #[trigger] nodes.dom().contains(id) implies (nodes[id].next matches Some(
            after,
        ) ==> nodes.dom().contains(after) && nodes[after].prev == Some(id)) && (
        nodes[id].prev matches Some(before) ==> nodes.dom().contains(before) && nodes[before].next
            == Some(id)) by {
            assert(chain.contains(id));
            let k = chain.index_of(id);
            if k + 1 < chain.len() {
                assert(chain.contains(chain[k + 1]));
                assert(nodes[chain[k + 1]].prev == Some(chain[k]));
            }
            if k > 0 {
                assert(chain.contains(chain[k - 1]));
                assert(nodes[chain[k - 1]].next == Some(chain[k]));
            }
            assert(nodes[chain[k]].next is Some ==> k + 1 < chain.len());
            assert(nodes[chain[k]].prev is Some ==> k > 0);
        }
    }

    /// The node at the head is the only one without a predecessor and the
    /// node at the tail the only one without a successor; a list without
    /// elements has neither a node nor an anchor.
    pub proof fn lemma_ends_are_unique(self)
        requires
            self.well_formed(),
        ensures
            self@.len() == 0 <==> self.head_handle() is None,
            self@.len() == 0 <==> self.tail_handle() is None,
            self@.len() == 0 <==> self.nodes().dom() == Set::<usize>::empty(),
            self.head_handle() matches Some(head) ==> self.nodes().dom().contains(head),
            self.tail_handle() matches Some(tail) ==> self.nodes().dom().contains(tail),
            forall|id: usize| #[trigger]
                self.nodes().dom().contains(id) ==> (self.nodes()[id].prev is None
                    <==> self.head_handle() == Some(id)),
            forall|id: usize| #[trigger]
                self.nodes().dom().contains(id) ==> (self.nodes()[id].next is None
                    <==> self.tail_handle() == Some(id)),
    {
        let chain = self.handles();
        let nodes = self.nodes();
        if chain.len() == 0 {
            assert forall|id: usize| !nodes.dom().contains(id) by {
                assert(!chain.contains(id));
            }
            assert(nodes.dom() =~= Set::<usize>::empty());
        } else {
            assert(chain.contains(chain.first()));
            assert(chain.contains(chain.last()));
        }
        assert forall|id: usize| #[trigger] nodes.dom().contains(id) implies (nodes[id].prev is None
            <==> self.head_handle() == Some(id)) && (nodes[id].next is None <==> self.tail_handle()
            == Some(id)) by {
            assert(chain.contains(id));
            let k = chain.index_of(id);
            assert(nodes[chain[k]].prev is None <==> k == 0);
            assert(nodes[chain[k]].next is None <==> k == chain.len() - 1);
        }
    }

    /// The storage holds exactly one node for each element of the list.
    pub proof fn lemma_node_count(self)
        requires
            self.well_formed(),
        ensures
            self.nodes().dom().finite(),
            self.nodes().dom().len() == self@.len(),
    {
        let chain = self.handles();
        assert(self.nodes().dom() =~= chain.to_set());
        vstd::seq_lib::seq_to_set_is_finite(chain);
        chain.unique_seq_to_set();
    }

    /// An empty list.
    pub fn new() -> (list: Self)
        ensures
            list@ == Seq::<T>::empty(),
            list.handles() == Seq::<usize>::empty(),
            list.well_formed(),
    {
        List { arena: Arena::new(), head: None, tail: None, chain: Ghost(Seq::empty()) }
    }

    /// Moves the list out of `self` and leaves an empty one in its place.
    ///
    /// The operations rewire the parts of the list they have taken, and put
    /// the result back as a whole: `self` itself is never seen half linked.
    fn take(&mut self) -> (taken: Self)
        ensures
            taken == *old(self),
            taken.well_formed(),
            final(self).handles() == Seq::<usize>::empty(),
    {
        let mut taken = List::new();
        std::mem::swap(self, &mut taken);
        proof {
            use_type_invariant(&taken);
        }
        taken
    }

    /// Inserts `value` before the current head.
    ///
    /// The value goes into a node of its own, under a handle that no live
    /// node had; the other nodes keep theirs.
    pub fn push_front(&mut self, value: T)
        ensures
            final(self)@ == pushed_front(old(self)@, value),
            final(self).handles() == pushed_front(
                old(self).handles(),
                final(self).handles().first(),
            ),
            !old(self).nodes().dom().contains(final(self).handles().first()),
            final(self).well_formed(),
    {
        let List { mut arena, head, tail, chain } = self.take();
        let ghost before = arena@;
        let mut node = Node::new(value);
        node.next = head;
        let id = arena.store(node);
        let tail = match head {
            None => Some(id),
            Some(old_head) => {
                assert(chain@.contains(chain@[0]));
                arena.set_prev(old_head, Some(id));
                tail
            },
        };
        let ghost grown = seq![id] + chain@;
        proof {
            // The nodes that were there keep their values, and none of them
            // has the new handle.
            assert forall|k: int| 0 < k < grown.len() implies grown[k] == chain@[k - 1]
                && grown[k] != id && arena@[grown[k]].value == before[chain@[k - 1]].value by {
                assert(chain@.contains(chain@[k - 1]));
            }
            // The live nodes are those of the grown chain.
            assert forall|other: usize| arena@.dom().contains(other) <==> grown.contains(
                other,
            ) by {
                if other == id {
                    assert(grown[0] == id);
                } else if chain@.contains(other) {
                    let k = chain@.index_of(other);
                    assert(grown[k + 1] == other);
                } else if grown.contains(other) {
                    let k = grown.index_of(other);
                    assert(chain@[k - 1] == other);
                }
            }
        }
        *self = List { arena, head: Some(id), tail, chain: Ghost(grown) };
        assert(self@ =~= pushed_front(old(self)@, value));
    }

    /// Inserts `value` after the current tail.
    ///
    /// The value goes into a node of its own, under a handle that no live
    /// node had; the other nodes keep theirs.
    pub fn push_back(&mut self, value: T)
        ensures
            final(self)@ == pushed_back(old(self)@, value),
            final(self).handles() == pushed_back(
                old(self).handles(),
                final(self).handles().last(),
            ),
            !old(self).nodes().dom().contains(final(self).handles().last()),
            final(self).well_formed(),
    {
        let List { mut arena, head, tail, chain } = self.take();
        let ghost before = arena@;
        let mut node = Node::new(value);
        node.prev = tail;
        let id = arena.store(node);
        let head = match tail {
            None => Some(id),
            Some(old_tail) => {
                assert(chain@.contains(chain@[chain@.len() - 1]));
                arena.set_next(old_tail, Some(id));
                head
            },
        };
        let ghost grown = chain@.push(id);
        proof {
            // The nodes that were there keep their values, and none of them
            // has the new handle.
            assert forall|k: int| 0 <= k < chain@.len() implies grown[k] != id && arena@[grown[k]].value
                == before[chain@[k]].value by {
                assert(chain@.contains(chain@[k]));
            }
            // The live nodes are those of the grown chain.
            assert forall|other: usize| arena@.dom().contains(other) <==> grown.contains(
                other,
            ) by {
                if other == id {
                    assert(grown[chain@.len() as int] == id);
                } else if chain@.contains(other) {
                    let k = chain@.index_of(other);
                    assert(grown[k] == other);
                } else if grown.contains(other) {
                    let k = grown.index_of(other);
                    assert(chain@[k] == other);
                }
            }
        }
        *self = List { arena, head, tail: Some(id), chain: Ghost(grown) };
        assert(self@ =~= pushed_back(old(self)@, value));
    }

    /// Removes the tail and returns its value; an empty list gives nothing
    /// and stays empty.
    ///
    /// The node that held the value is given up; the other nodes keep their
    /// handles.
    pub fn pop_back(&mut self) -> (popped: Option<T>)
        ensures
            popped == back(old(self)@),
            final(self)@ == without_back(old(self)@),
            final(self).handles() == without_back(old(self).handles()),
            final(self).well_formed(),
    {
        proof {
            use_type_invariant(&*self);
        }
        if self.tail.is_none() {
            return None;
        }
        let List { mut arena, head, tail, chain } = self.take();
        let ghost before = arena@;
        let ghost last = chain@.len() - 1;
        let old_tail = tail.unwrap();
        assert(chain@.contains(chain@[last]));
        let node = arena.remove(old_tail);
        let (head, tail) = match node.prev {
            None => (None, None),
            Some(prev) => {
                assert(chain@.contains(chain@[last - 1]));
                arena.set_next(prev, None);
                (head, Some(prev))
            },
        };
        let ghost shrunk = chain@.drop_last();
        proof {
            // The nodes that stay keep their values, and none of them has
            // the handle that was given up.
            assert forall|k: int| 0 <= k < shrunk.len() implies shrunk[k] != old_tail
                && arena@[shrunk[k]].value == before[chain@[k]].value by {
                assert(chain@.contains(chain@[k]));
            }
            // The live nodes are those of the shortened chain.
            assert forall|other: usize| arena@.dom().contains(other) <==> shrunk.contains(
                other,
            ) by {
                if other != old_tail && chain@.contains(other) {
                    let k = chain@.index_of(other);
                    assert(shrunk[k] == other);
                } else if shrunk.contains(other) {
                    let k = shrunk.index_of(other);
                    assert(chain@[k] == other);
                }
            }
        }
        *self = List { arena, head, tail, chain: Ghost(shrunk) };
        assert(self@ =~= without_back(old(self)@));
        Some(node.value)
    }

    /// Removes the head and returns its value; an empty list gives nothing
    /// and stays empty.
    ///
    /// The node that held the value is given up; the other nodes keep their
    /// handles.
    pub fn pop_front(&mut self) -> (popped: Option<T>)
        ensures
            popped == front(old(self)@),
            final(self)@ == without_front(old(self)@),
            final(self).handles() == without_front(old(self).handles()),
            final(self).well_formed(),
    {
        proof {
            use_type_invariant(&*self);
        }
        if self.head.is_none() {
            return None;
        }
        let List { mut arena, head, tail, chain } = self.take();
        let ghost before = arena@;
        let old_head = head.unwrap();
        assert(chain@.contains(chain@[0]));
        let node = arena.remove(old_head);
        let (head, tail) = match node.next {
            None => (None, None),
            Some(next) => {
                assert(chain@.contains(chain@[1]));
                arena.set_prev(next, None);
                (Some(next), tail)
            },
        };
        let ghost shrunk = chain@.drop_first();
        proof {
            // The nodes that stay keep their values, and none of them has
            // the handle that was given up.
            assert forall|k: int| 0 <= k < shrunk.len() implies shrunk[k] != old_head
                && arena@[shrunk[k]].value == before[chain@[k + 1]].value by {
                assert(chain@.contains(chain@[k + 1]));
            }
            // The live nodes are those of the shortened chain.
            assert forall|other: usize| arena@.dom().contains(other) <==> shrunk.contains(
                other,
            ) by {
                if other != old_head && chain@.contains(other) {
                    let k = chain@.index_of(other);
                    assert(shrunk[k - 1] == other);
                } else if shrunk.contains(other) {
                    let k = shrunk.index_of(other);
                    assert(chain@[k + 1] == other);
                }
            }
        }
        *self = List { arena, head, tail, chain: Ghost(shrunk) };
        assert(self@ =~= without_front(old(self)@));
        Some(node.value)
    }
}

} // verus!

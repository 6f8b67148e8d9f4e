//! A node of the queue: a fixed-size container of slots plus a successor
//! link.
//!
//! A node built for capacity `cap` has `cap + 1` slots. Offsets `0` to
//! `cap - 1` store payloads; the slot at offset `cap` is the sentinel — it
//! never stores a payload, and a cursor whose offset reaches it signals "this
//! node is full; move on to the successor". Nodes are chained: the successor
//! of the node at position `j` of the queue's node list is the node at
//! position `j + 1`, and [`Node::next_installed`] records whether the
//! producer that claimed the last payload slot of node `j` has installed it —
//! it stands for the node's successor pointer being non-null.
//!
//! A drained node is left with an empty slot container; [`Node::freed`] says
//! exactly that. Draining stands for the free of the node's memory, and the
//! queue proves that it happens only once every payload slot of the node has
//! been read.

use vstd::prelude::*;

use crate::slot::Slot;

verus! {

/// A fixed-size container of slots, one link of the queue's chain.
pub struct Node<T> {
    /// The slots. A live node holds `cap + 1` of them, the last one being the
    /// unused sentinel; a drained node holds none.
    pub slots: Vec<Slot<T>>,

    /// Whether this node's successor has been installed. It stands for the
    /// successor pointer: set exactly once, by the producer that claimed this
    /// node's last payload slot.
    pub next_installed: bool,
}

impl<T> Node<T> {
    /// The node has been drained: its container is gone.
    pub open spec fn freed(self) -> bool {
        self.slots@.len() == 0
    }

    /// Creates a node of `size` fresh slots, with no successor yet.
    pub fn new(size: usize) -> (n: Node<T>)
        ensures
            n.slots@.len() == size,
            forall|o: int| 0 <= o < size ==> (#[trigger] n.slots@[o]).fresh(),
            !n.next_installed,
    {
        let mut slots: Vec<Slot<T>> = Vec::new();
        let mut i: usize = 0;
        while i < size
            invariant
                i <= size,
                slots@.len() == i,
                forall|o: int| 0 <= o < i ==> (#[trigger] slots@[o]).fresh(),
            decreases size - i,
        {
            slots.push(Slot::new());
            i = i + 1;
        }
        Node { slots, next_installed: false }
    }

    /// Spins until the successor is installed. A consumer that has read the
    /// last payload slot of this node must move the head to the successor,
    /// which the producer of that slot installs; this wait covers the interval
    /// between the producer's claim and the installation becoming visible.
    /// Between the steps of this sequential model an installed successor is
    /// what the precondition says, so the first load ends the spin.
    pub fn wait_next(&self)
        requires
            self.next_installed,
    {
        loop
            invariant
                self.next_installed,
            decreases 0int,
        {
            if self.next_installed {
                return;
            }
        }
    }

    /// Drains the node: the container is dropped, and with it any payloads
    /// still in its slots.
    pub fn free(&mut self)
        ensures
            final(self).freed(),
            final(self).next_installed == old(self).next_installed,
    {
        self.slots = Vec::new();
    }
}

} // verus!

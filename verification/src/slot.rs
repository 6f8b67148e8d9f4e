//! A slot holds one payload of the queue together with a state word.
//!
//! The state word carries three bit flags that are set in strict order and
//! never cleared:
//!
//! - [`FILLED`]: the producer has written the payload into the slot;
//! - [`READING`]: a consumer has taken the payload out;
//! - [`DRAINING`]: the slot's node was scheduled for destruction while the
//!   slot had not been read yet; whoever reads the slot inherits the duty to
//!   resume the drain.
//!
//! Because every change to the state word is a fetch-or, a flag that has been
//! observed set stays set for the lifetime of the slot.

use vstd::prelude::*;

verus! {

/// Bit flag set once the producer has written the payload into the slot.
pub const FILLED: usize = 1;

/// Bit flag set once a consumer has taken the payload out of the slot.
pub const READING: usize = 2;

/// Bit flag set on a slot whose node is scheduled for destruction while the
/// slot has not been read; the reader of the slot resumes the drain.
pub const DRAINING: usize = 4;

/// One cell of a node: a payload and a state word of monotonic bit flags.
pub struct Slot<T> {
    /// The payload cell: `None` until the producer writes the payload, and
    /// `None` again once a consumer has taken it out. A payload is therefore
    /// read at most once.
    pub item: Option<T>,

    /// The state word. Bits are only ever added, never cleared.
    pub state: usize,
}

/// Every flag set in `pre` is still set in `post`: slot state never decreases.
pub open spec fn keeps_flags(pre: usize, post: usize) -> bool {
    &&& pre & FILLED != 0 ==> post & FILLED != 0
    &&& pre & READING != 0 ==> post & READING != 0
    &&& pre & DRAINING != 0 ==> post & DRAINING != 0
}

/// A fetch-or can only add flags, so the state word is monotonic: a flag
/// observed set remains set through any number of further fetch-or steps.
pub proof fn lemma_or_keeps_flags(pre: usize, flags: usize)
    ensures
        keeps_flags(pre, pre | flags),
        (pre | flags) & flags == flags,
{
    assert((pre & 1 != 0 ==> (pre | flags) & 1 != 0) && (pre & 2 != 0 ==> (pre | flags) & 2 != 0)
        && (pre & 4 != 0 ==> (pre | flags) & 4 != 0) && ((pre | flags) & flags == flags))
        by (bit_vector);
}

impl<T> Slot<T> {
    /// A slot that holds nothing and has no flag set.
    pub open spec fn fresh(self) -> bool {
        self.state == 0 && self.item is None
    }

    /// Creates a fresh slot.
    pub fn new() -> (s: Slot<T>)
        ensures
            s.fresh(),
    {
        Slot { item: None, state: 0 }
    }

    /// Loads the state word.
    pub fn load(&self) -> (s: usize)
        ensures
            s == self.state,
    {
        self.state
    }

    /// The producer's payload write. The state word is untouched: the producer
    /// publishes the payload afterwards with a fetch-or of [`FILLED`].
    pub fn write(&mut self, item: T)
        requires
            old(self).item is None,
        ensures
            final(self).item == Some(item),
            final(self).state == old(self).state,
    {
        self.item = Some(item);
    }

    /// Spins until [`FILLED`] is observed. A consumer claims its slot before
    /// the producer's payload write is necessarily visible, and this wait
    /// covers that interval. Between the steps of this sequential model a
    /// claimed slot is always published already — the precondition — so the
    /// first load ends the spin.
    pub fn wait_filled(&self)
        requires
            self.state & FILLED != 0,
    {
        loop
            invariant
                self.state & FILLED != 0,
            decreases 0int,
        {
            if self.load() & FILLED != 0 {
                return;
            }
        }
    }

    /// The consumer's payload read, moving the payload out of the slot. The
    /// cell is empty afterwards, so the payload cannot be read a second time.
    pub fn read(&mut self) -> (item: T)
        requires
            old(self).item is Some,
        ensures
            old(self).item == Some(item),
            final(self).item is None,
            final(self).state == old(self).state,
    {
        let taken = self.item.take();
        taken.unwrap()
    }

    /// Adds `flags` to the state word and returns the prior word, as an atomic
    /// fetch-or does. Flags are only ever added, never cleared.
    pub fn fetch_or(&mut self, flags: usize) -> (prior: usize)
        ensures
            prior == old(self).state,
            final(self).state == old(self).state | flags,
            final(self).item == old(self).item,
            keeps_flags(old(self).state, final(self).state),
    {
        proof {
            lemma_or_keeps_flags(old(self).state, flags);
        }
        let prior = self.state;
        self.state = self.state | flags;
        prior
    }
}

} // verus!

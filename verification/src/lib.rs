//! An unbounded multi-producer multi-consumer FIFO queue, verified as a
//! sequential state machine.
//!
//! The queue is a chain of fixed-size nodes. Each node holds a small array of
//! slots; a slot carries one payload and a monotonic state word. A head cursor
//! and a tail cursor each pair an index with the position of their current
//! node. Producers claim a slot by advancing the tail index, consumers claim a
//! slot by advancing the head index, and a node is reclaimed once every one of
//! its slots has been read.
//!
//! Every operation of the protocol — claiming a slot, installing a successor
//! node, reading a payload, draining a node — is an atomic step in the
//! concurrent setting. Here each step is a verified function on the whole
//! queue state, so the verification covers the protocol's bookkeeping: the
//! index encoding, the sentinel offset that marks a full node, the slot state
//! bits, and the reclamation handshake.

pub mod index;
pub mod node;
pub mod queue;
pub mod slot;

pub use queue::Queue;

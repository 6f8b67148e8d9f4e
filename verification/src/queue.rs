//! The queue: a head cursor and a tail cursor over a chain of nodes.
//!
//! Producers claim a payload slot by advancing the tail index one sequence
//! number; the producer that claims the last payload slot of a node installs
//! the successor node and advances the tail past the node's sentinel offset.
//! Consumers claim the slot under the head index the same way; the consumer
//! that reads the last payload slot of a node moves the head to the successor
//! and drains the node. In a concurrent run each of those steps is one atomic
//! operation; here each is a verified function of the whole queue state, and
//! [`Inner::wf`] is the protocol invariant that every step preserves.
//!
//! The abstract value of the queue is a sequence: the payloads between the
//! pop count and the push count, in rank order. `push` appends to it, `pop`
//! takes its first element or reports the queue empty, exactly.

use vstd::prelude::*;

use crate::index::lemma_index_step;
use crate::index::lemma_rank_monotone;
use crate::index::lemma_rank_strict;
use crate::index::lemma_seq_parts;
use crate::index::lemma_seq_step;
use crate::index::marked;
use crate::index::node_of;
use crate::index::offset_of;
use crate::index::rank_of;
use crate::index::seq_of;
use crate::node::Node;
use crate::slot::keeps_flags;
use crate::slot::lemma_or_keeps_flags;
use crate::slot::DRAINING;
use crate::slot::FILLED;
use crate::slot::READING;
use vstd::arithmetic::div_mod::lemma_fundamental_div_mod_converse;
use vstd::arithmetic::div_mod::lemma_mod_division_less_than_divisor;

verus! {

/// Payload slots per node when the queue is built with [`Queue::new`]. Any
/// capacity of at least two works; [`Queue::with_capacity`] takes it as a
/// parameter so that small nodes can be exercised as easily as large ones.
pub const NODE_CAPACITY: usize = 7;

/// A cursor of the queue: an index carrying a sequence number and a mark bit,
/// paired with the chain position of the node that sequence number lives in.
pub(crate) struct Cursor {
    /// The index. The low bit is the mark; the sequence number is `index / 2`.
    pub index: usize,
    /// The chain position of the cursor's current node.
    pub node: usize,
}

/// The queue state proper: the two cursors and the chain of nodes.
pub(crate) struct Inner<T> {
    /// Payload slots per node. A node spans `cap + 1` sequence numbers; the
    /// last one is the sentinel and stores nothing.
    pub cap: usize,
    /// The consumers' cursor.
    pub head: Cursor,
    /// The producers' cursor.
    pub tail: Cursor,
    /// The chain. The successor of the node at position `j` is the node at
    /// position `j + 1`; a drained node stays in the chain as an emptied
    /// [`Node`], which stands for its memory having been freed.
    pub nodes: Vec<Node<T>>,
}

impl<T> Inner<T> {
    /// Sequence numbers spanned by one node: the payload slots plus the
    /// sentinel.
    pub(crate) open spec fn m(self) -> int {
        self.cap as int + 1
    }

    /// The head cursor's sequence number.
    pub(crate) open spec fn head_seq(self) -> int {
        seq_of(self.head.index)
    }

    /// The tail cursor's sequence number.
    pub(crate) open spec fn tail_seq(self) -> int {
        seq_of(self.tail.index)
    }

    /// How many pops have completed: the rank of the head cursor.
    pub(crate) open spec fn pops(self) -> int {
        self.head_seq() - self.head.node
    }

    /// How many pushes have completed: the rank of the tail cursor.
    pub(crate) open spec fn pushes(self) -> int {
        self.tail_seq() - self.tail.node
    }

    /// What the slot at offset `o` of the node at chain position `j` must look
    /// like, given how the slot's rank `j * cap + o` compares to the pop and
    /// push counts: consumed slots are read out and empty, slots between the
    /// counts hold their payload, slots past the tail and the sentinel are
    /// fresh.
    pub(crate) open spec fn slot_ok(self, j: int, o: int) -> bool {
        let c = self.cap as int;
        let d = j * c + o;
        let slot = self.nodes@[j].slots@[o];
        if o == c {
            slot.fresh()
        } else if d < self.pops() {
            slot.state == (FILLED | READING) && slot.item is None
        } else if d < self.pushes() {
            slot.state == FILLED && slot.item is Some
        } else {
            slot.fresh()
        }
    }

    /// The protocol invariant.
    pub(crate) open spec fn wf(self) -> bool {
        let m = self.m();
        &&& 2 <= self.cap
        &&& self.cap < usize::MAX
        &&& self.tail.index as int % 2 == 0
        &&& self.tail.index as int <= usize::MAX as int / 2
        &&& self.head_seq() <= self.tail_seq()
        &&& offset_of(self.head_seq(), m) < m - 1
        &&& offset_of(self.tail_seq(), m) < m - 1
        &&& self.head.node as int == node_of(self.head_seq(), m)
        &&& self.tail.node as int == node_of(self.tail_seq(), m)
        &&& self.nodes@.len() == self.tail.node as int + 1
        &&& (marked(self.head.index) ==> self.head.node < self.tail.node)
        &&& forall|j: int| 0 <= j < self.head.node ==> (#[trigger] self.nodes@[j]).freed()
        &&& forall|j: int|
            self.head.node <= j < self.nodes@.len() ==> (#[trigger] self.nodes@[j]).slots@.len()
                == m
        &&& forall|j: int|
            self.head.node <= j < self.nodes@.len() ==> ((#[trigger] self.nodes@[j]).next_installed
                <==> j + 1 < self.nodes@.len())
        &&& forall|j: int, o: int|
            self.head.node <= j < self.nodes@.len() && 0 <= o < self.m() ==> #[trigger] self
                .slot_ok(j, o)
    }

    /// The payload of rank `d`: payload ranks lay the slots of the chain out
    /// flat, `cap` to a node, skipping the sentinels.
    pub(crate) open spec fn item_at_rank(self, d: int) -> T {
        let c = self.cap as int;
        self.nodes@[d / c].slots@[d % c].item->Some_0
    }

    /// The abstract contents of the queue: the payloads whose rank lies
    /// between the pop count and the push count, oldest first.
    pub(crate) open spec fn contents(self) -> Seq<T> {
        Seq::new((self.pushes() - self.pops()) as nat, |i: int| self.item_at_rank(self.pops() + i))
    }

    /// Consequences of the invariant that the proofs lean on: both counters
    /// decompose over their cursor's node and offset, and the pop count never
    /// passes the push count.
    pub(crate) proof fn lemma_wf_facts(self)
        requires
            self.wf(),
        ensures
            self.pushes() == rank_of(self.tail_seq(), self.m()),
            self.pops() == rank_of(self.head_seq(), self.m()),
            self.pushes() == self.tail.node as int * (self.cap as int) + offset_of(
                self.tail_seq(),
                self.m(),
            ),
            self.pops() == self.head.node as int * (self.cap as int) + offset_of(
                self.head_seq(),
                self.m(),
            ),
            0 <= self.pops() <= self.pushes(),
            self.head.node as int * (self.cap as int) <= self.pops(),
            self.pushes() < (self.tail.node as int + 1) * (self.cap as int),
            self.pushes() <= self.tail_seq(),
            self.head.node <= self.tail.node,
            3 * (self.tail.node as int) <= self.tail_seq(),
    {
        let m = self.m();
        let c = self.cap as int;
        let hs = self.head_seq();
        let ts = self.tail_seq();
        lemma_seq_parts(hs, m);
        lemma_seq_parts(ts, m);
        lemma_rank_monotone(hs, ts, m);
        assert(node_of(ts, m) * m == node_of(ts, m) * c + node_of(ts, m) && node_of(hs, m) * m
            == node_of(hs, m) * c + node_of(hs, m) && (node_of(ts, m) + 1) * c == node_of(ts, m) * c
            + c && 3 * node_of(ts, m) <= node_of(ts, m) * m) by (nonlinear_arith)
            requires
                3 <= m,
                c == m - 1,
                0 <= node_of(hs, m),
                0 <= node_of(ts, m),
        ;
    }

    /// Creates an empty queue whose nodes hold `cap` payload slots each.
    pub(crate) fn new(cap: usize) -> (q: Inner<T>)
        requires
            2 <= cap < usize::MAX,
        ensures
            q.wf(),
            q.contents() == Seq::<T>::empty(),
            q.pushes() == 0,
            q.pops() == 0,
            q.cap == cap,
    {
        let size = cap + 1;
        let first: Node<T> = Node::new(size);
        let mut nodes: Vec<Node<T>> = Vec::new();
        nodes.push(first);
        let q = Inner {
            cap,
            head: Cursor { index: 0, node: 0 },
            tail: Cursor { index: 0, node: 0 },
            nodes,
        };
        proof {
            let m = q.m();
            lemma_fundamental_div_mod_converse(0, m, 0, 0);
            assert forall|j: int, o: int| 0 <= j < q.nodes@.len() && 0 <= o < m implies #[trigger] q
                .slot_ok(j, o) by {
                assert(q.nodes@[j].slots@[o].fresh());
                assert(j * (cap as int) + o >= 0) by (nonlinear_arith)
                    requires
                        j == 0,
                        0 <= o,
                ;
            }
            assert(q.contents() =~= Seq::<T>::empty());
        }
        q
    }

    /// Enqueues `item`: claims the slot under the tail index by advancing the
    /// index one sequence number, installs the successor node when the claimed
    /// slot is the last payload slot of its node, then writes the payload and
    /// publishes it by setting [`FILLED`].
    ///
    /// A concurrent producer that snapshots the tail while it rests on the
    /// sentinel offset spins until the successor is visible; between steps the
    /// invariant keeps the tail off the sentinel, so no such wait arises here,
    /// and the claim itself — a compare-and-exchange in the concurrent run —
    /// always succeeds.
    ///
    /// The push count is bounded because the tail index carries twice the
    /// sequence number in a machine word.
    pub(crate) fn push(&mut self, item: T)
        requires
            old(self).wf(),
            old(self).pushes() < usize::MAX as int / 8,
        ensures
            final(self).wf(),
            final(self).contents() == old(self).contents().push(item),
            final(self).pushes() == old(self).pushes() + 1,
            final(self).pops() == old(self).pops(),
            final(self).cap == old(self).cap,
            forall|j: int, o: int|
                0 <= j < old(self).nodes@.len() && 0 <= o <= old(self).cap ==> keeps_flags(
                    old(self).nodes@[j].slots@[o].state,
                    (#[trigger] final(self).nodes@[j].slots@[o]).state,
                ),
    {
        let ghost q0: Inner<T> = *old(self);
        let ghost m: int = q0.m();
        let ghost c: int = q0.cap as int;
        let ghost ts0: int = q0.tail_seq();
        let ghost tj0: int = q0.tail.node as int;
        let ghost offt: int = offset_of(ts0, m);
        let ghost p0: int = q0.pushes();

        proof {
            q0.lemma_wf_facts();
            lemma_index_step(q0.tail.index as int);
            // index headroom: the tail index is at most four times the push
            // count, which the precondition bounds
            assert(q0.tail.index as int == 2 * ts0);
            assert(ts0 == p0 + tj0);
            assert(2 * tj0 <= p0);
            assert(q0.tail.index as int + 4 <= usize::MAX as int / 2);
        }

        let size = self.cap + 1;
        let tail_index = self.tail.index;
        let offset = (tail_index / 2) % size;
        proof {
            lemma_mod_division_less_than_divisor(ts0, m);
            assert(offset as int == offt);
            assert(offt < c);
        }

        // claim the slot: one sequence number forward
        self.tail.index = tail_index + 2;

        let tail_node = self.tail.node;
        if offset + 1 == self.cap {
            // the claimed slot is the last payload slot of its node: install
            // the successor and advance the tail past the sentinel offset
            let fresh_node: Node<T> = Node::new(size);
            self.nodes.push(fresh_node);
            self.tail.node = tail_node + 1;
            let bumped = self.tail.index + 2;
            self.tail.index = bumped;
            let link = &mut self.nodes[tail_node];
            link.next_installed = true;
            proof {
                lemma_seq_step(ts0, m);
                lemma_seq_step(ts0 + 1, m);
                lemma_index_step(q0.tail.index as int + 2);
            }
        } else {
            proof {
                lemma_seq_step(ts0, m);
            }
        }

        // write the payload into the claimed slot, then publish it
        proof {
            assert(q0.slot_ok(tj0, offt));
            assert(p0 == tj0 * c + offt);
        }
        let ghost spre: usize = q0.nodes@[tj0].slots@[offt].state;
        let node = &mut self.nodes[tail_node];
        let slot = &mut node.slots[offset];
        slot.write(item);
        let _ = slot.fetch_or(FILLED);

        proof {
            assert(spre | FILLED == FILLED) by (bit_vector)
                requires
                    spre == 0usize,
            ;
            let q1: Inner<T> = *self;
            let installed: bool = offt + 1 == c;
            let p1: int = q1.pushes();
            assert(p1 == p0 + 1);
            assert(q1.nodes@[tj0].slots@.len() == m);
            assert(q1.nodes@[tj0].slots@[offt].state == FILLED);
            assert(q1.nodes@[tj0].slots@[offt].item == Some(item));
            assert(forall|o2: int|
                0 <= o2 < m && o2 != offt ==> q1.nodes@[tj0].slots@[o2]
                    == q0.nodes@[tj0].slots@[o2]);
            assert(forall|j: int|
                0 <= j < q0.nodes@.len() && j != tj0 ==> q1.nodes@[j] == q0.nodes@[j]);
            if installed {
                assert(q1.nodes@.len() == tj0 + 2);
                assert((tj0 + 1) * c == tj0 * c + c) by (nonlinear_arith);
                assert(forall|o2: int|
                    0 <= o2 < m ==> (#[trigger] q1.nodes@[tj0 + 1].slots@[o2]).fresh());
                assert(q1.nodes@[tj0].next_installed);
                assert(!q1.nodes@[tj0 + 1].next_installed);
            } else {
                assert(q1.nodes@.len() == tj0 + 1);
                assert(q1.nodes@[tj0].next_installed == q0.nodes@[tj0].next_installed);
            }

            // the successor link of every live node still reports whether its
            // successor exists
            assert forall|j: int| q1.head.node <= j < q1.nodes@.len() implies ((
            #[trigger] q1.nodes@[j]).next_installed <==> j + 1 < q1.nodes@.len()) by {
                if j < q0.nodes@.len() && j != tj0 {
                    assert(q1.nodes@[j] == q0.nodes@[j]);
                }
            }

            // the invariant is restored
            assert forall|j: int, o: int|
                q1.head.node <= j < q1.nodes@.len() && 0 <= o < m implies #[trigger] q1.slot_ok(
                j,
                o,
            ) by {
                let d = j * c + o;
                if j < q0.nodes@.len() {
                    assert(q0.slot_ok(j, o));
                }
                if o < c {
                    lemma_fundamental_div_mod_converse(d, c, j, o);
                    lemma_fundamental_div_mod_converse(p0, c, tj0, offt);
                    if j == tj0 && o == offt {
                        assert(d == p0);
                    } else {
                        assert(d != p0);
                        if j == tj0 + 1 {
                            assert((tj0 + 1) * c == tj0 * c + c) by (nonlinear_arith);
                            assert(d >= p1);
                        }
                    }
                }
            }
            assert(q1.wf());

            // the contents grew by exactly the pushed payload
            let v0 = q0.contents();
            let v1 = q1.contents();
            let pops0: int = q0.pops();
            assert(v1.len() == v0.len() + 1);
            assert forall|i: int| 0 <= i < v1.len() implies v1[i] == v0.push(item)[i] by {
                let d = pops0 + i;
                vstd::arithmetic::div_mod::lemma_fundamental_div_mod(d, c);
                lemma_mod_division_less_than_divisor(d, c);
                assert(c * (d / c) == (d / c) * c) by (nonlinear_arith);
                lemma_fundamental_div_mod_converse(p0, c, tj0, offt);
                if d < p0 {
                    assert(d / c <= tj0) by {
                        if d / c > tj0 {
                            vstd::arithmetic::mul::lemma_mul_inequality(tj0 + 1, d / c, c);
                            assert((tj0 + 1) * c == tj0 * c + c) by (nonlinear_arith);
                            assert(false);
                        }
                    }
                    assert(!(d / c == tj0 && d % c == offt));
                    assert(q1.nodes@[d / c].slots@[d % c] == q0.nodes@[d / c].slots@[d % c]);
                } else {
                    assert(d == p0);
                    assert(d / c == tj0 && d % c == offt);
                }
            }
            assert(v1 =~= v0.push(item));

            // no flag of any slot was cleared
            assert forall|j: int, o: int| 0 <= j < q0.nodes@.len() && 0 <= o <= c implies
                keeps_flags(
                q0.nodes@[j].slots@[o].state,
                (#[trigger] q1.nodes@[j].slots@[o]).state,
            ) by {
                if j == tj0 && o == offt {
                    lemma_or_keeps_flags(spre, FILLED);
                }
            }
        }
    }

    /// Every payload slot of the node at chain position `j` from offset
    /// `start` up to — but not including — the last one has been read.
    pub(crate) open spec fn node_read_from(self, j: int, start: int) -> bool {
        forall|o: int|
            start <= o < self.cap as int - 1 ==> (#[trigger] self.nodes@[j].slots@[o]).state
                & READING != 0
    }

    /// Reclaims the node at chain position `j`: inspects its payload slots
    /// from offset `start` up to — but not including — the last one, which
    /// belongs to the consumer that initiated the drain. If every inspected
    /// slot has been read, no consumer can still be using the node and it is
    /// freed. Otherwise the first unread slot is stamped [`DRAINING`] and the
    /// node is left alone: the consumer that reads that slot finds the stamp
    /// and resumes the drain. The node is freed if and only if every inspected
    /// slot had been read.
    pub(crate) fn drain(&mut self, j: usize, start: usize)
        requires
            2 <= old(self).cap,
            j < old(self).nodes@.len(),
            old(self).nodes@[j as int].slots@.len() == old(self).cap as int + 1,
            start as int <= old(self).cap as int - 1,
        ensures
            final(self).cap == old(self).cap,
            final(self).head == old(self).head,
            final(self).tail == old(self).tail,
            final(self).nodes@.len() == old(self).nodes@.len(),
            forall|j2: int|
                0 <= j2 < old(self).nodes@.len() && j2 != j as int ==> final(self).nodes@[j2]
                    == old(self).nodes@[j2],
            old(self).node_read_from(j as int, start as int)
                <==> final(self).nodes@[j as int].freed(),
            !old(self).node_read_from(j as int, start as int) ==> ({
                let pre = old(self).nodes@[j as int].slots@;
                let post = final(self).nodes@[j as int].slots@;
                &&& post.len() == pre.len()
                &&& forall|o: int|
                    0 <= o < pre.len() ==> (#[trigger] post[o]).item == pre[o].item && keeps_flags(
                        pre[o].state,
                        post[o].state,
                    )
            }),
    {
        let ghost base: Inner<T> = *old(self);
        let cap = self.cap;
        let mut o = start;
        while o < cap - 1
            invariant
                base == *old(self),
                2 <= cap,
                self.cap == cap,
                start <= o <= cap - 1,
                j < self.nodes@.len(),
                self.nodes@.len() == base.nodes@.len(),
                self.head == base.head,
                self.tail == base.tail,
                base.cap == cap,
                base.nodes@[j as int].slots@.len() == cap as int + 1,
                forall|j2: int|
                    0 <= j2 < base.nodes@.len() && j2 != j as int ==> self.nodes@[j2]
                        == base.nodes@[j2],
                self.nodes@[j as int].slots@.len() == base.nodes@[j as int].slots@.len(),
                forall|o2: int|
                    0 <= o2 < base.nodes@[j as int].slots@.len() ==> self.nodes@[j as int].slots@[o2]
                        == base.nodes@[j as int].slots@[o2],
                forall|k: int|
                    start <= k < o ==> (#[trigger] base.nodes@[j as int].slots@[k]).state & READING
                        != 0,
            decreases cap - 1 - o,
        {
            let node = &mut self.nodes[j];
            let slot = &mut node.slots[o];
            let s = slot.load();
            if s & READING == 0 {
                // The slot has not been read: stamp it and leave the drain to
                // its reader. In a concurrent run the reader may slip in
                // between the load and the fetch-or, in which case the stamp
                // finds READING already set and the scan goes on; between the
                // two steps of this sequential model nothing intervenes, so
                // the stamp always defers.
                let prior = slot.fetch_or(DRAINING);
                if prior & READING == 0 {
                    proof {
                        assert(base.nodes@[j as int].slots@[o as int].state & READING == 0);
                        assert(!base.node_read_from(j as int, start as int));
                        assert(self.nodes@[j as int].slots@.len() == base.cap as int + 1);
                    }
                    return;
                }
                proof {
                    assert(false);
                }
            }
            o = o + 1;
        }
        // every inspected slot has been read: free the node
        let node = &mut self.nodes[j];
        node.free();
    }

    /// Dequeues the oldest payload, or reports the queue empty.
    ///
    /// An unmarked head performs the emptiness check — in the concurrent run,
    /// a sequentially-consistent fence followed by a tail load; when the head
    /// and tail are then seen in different nodes, the mark bit goes onto the
    /// new index so that the next pop on this node can skip the check. The
    /// consumer of the last payload slot of a node moves the head to the
    /// successor — already installed by the producer of that slot — and then
    /// drains the node from offset zero; every other consumer announces itself
    /// with [`READING`] and resumes a deferred drain if the prior state shows
    /// [`DRAINING`]. The claim — a compare-and-exchange in the concurrent run
    /// — always succeeds here, and the claimed slot is already published, so
    /// the wait for [`FILLED`] has nothing to wait for.
    pub(crate) fn pop(&mut self) -> (r: Option<T>)
        requires
            old(self).wf(),
        ensures
            final(self).wf(),
            final(self).cap == old(self).cap,
            final(self).pushes() == old(self).pushes(),
            old(self).contents().len() == 0 ==> {
                &&& r is None
                &&& final(self).contents() == old(self).contents()
                &&& final(self).pops() == old(self).pops()
            },
            old(self).contents().len() > 0 ==> {
                &&& r == Some(old(self).contents()[0])
                &&& final(self).contents() == old(self).contents().skip(1)
                &&& final(self).pops() == old(self).pops() + 1
            },
            forall|j: int, o: int|
                0 <= j < old(self).nodes@.len() && 0 <= o <= old(self).cap
                    && !final(self).nodes@[j].freed() ==> keeps_flags(
                    old(self).nodes@[j].slots@[o].state,
                    (#[trigger] final(self).nodes@[j].slots@[o]).state,
                ),
    {
        let ghost q0: Inner<T> = *old(self);
        let ghost m: int = q0.m();
        let ghost c: int = q0.cap as int;
        let ghost hs0: int = q0.head_seq();
        let ghost ts0: int = q0.tail_seq();
        let ghost hj0: int = q0.head.node as int;
        let ghost tj0: int = q0.tail.node as int;
        let ghost offh: int = offset_of(hs0, m);
        let ghost pop0: int = q0.pops();
        let ghost p0: int = q0.pushes();

        proof {
            q0.lemma_wf_facts();
            lemma_index_step(q0.head.index as int);
            lemma_mod_division_less_than_divisor(hs0, m);
            lemma_seq_step(hs0, m);
            assert(q0.head.index as int <= q0.tail.index as int + 1);
        }

        let size = self.cap + 1;
        let head_index = self.head.index;
        let offset = (head_index / 2) % size;
        proof {
            assert(offset as int == offh);
        }

        let mut next_index = head_index + 2;
        if next_index % 2 == 0 {
            // the mark bit is clear: check whether the queue is empty — in
            // the concurrent run, a sequentially-consistent fence followed by
            // an acquire load of the tail index
            let tail_index = self.tail.index;
            if head_index / 2 == tail_index / 2 {
                proof {
                    assert(q0.contents().len() == 0);
                }
                return None;
            }
            // not empty; and when head and tail sit in different nodes, mark
            // the new index so the next pop on this node skips the check
            if (head_index / 2) / size != (tail_index / 2) / size {
                next_index = next_index + 1;
            }
            proof {
                lemma_rank_strict(hs0, ts0, m);
            }
        } else {
            proof {
                vstd::arithmetic::mul::lemma_mul_inequality(hj0 + 1, tj0, c);
                assert((hj0 + 1) * c == hj0 * c + c) by (nonlinear_arith);
            }
        }
        proof {
            assert(pop0 < p0);
            assert(q0.contents().len() > 0);
            assert(seq_of(next_index) == hs0 + 1);
            assert(marked(next_index) ==> hj0 < tj0);
        }

        // claim the slot: one sequence number forward
        let head_node = self.head.node;
        self.head.index = next_index;

        if offset + 1 == self.cap {
            // the claimed slot is the last payload slot of its node: move the
            // head to the successor, which the producer of this slot has
            // already installed, and set the mark exactly when the successor
            // has a successor of its own — then head and tail are known to sit
            // in different nodes
            proof {
                lemma_seq_step(hs0, m);
                lemma_seq_step(hs0 + 1, m);
                if hs0 + 1 == ts0 {
                    assert(offset_of(ts0, m) == m - 1);
                    assert(false);
                }
                lemma_rank_monotone(hs0 + 2, ts0, m);
                lemma_index_step(next_index as int);
                assert(q0.nodes@[hj0].next_installed);
                assert(q0.nodes@[hj0 + 1].next_installed <==> hj0 + 2 < q0.nodes@.len());
            }
            let link = &self.nodes[head_node];
            link.wait_next();
            let stripped = (next_index / 2) + 1;
            let new_index = stripped * 2;
            proof {
                lemma_fundamental_div_mod_converse(new_index as int, 2, stripped as int, 0);
                lemma_fundamental_div_mod_converse(new_index as int + 1, 2, stripped as int, 1);
            }
            let with_mark = if self.nodes[head_node + 1].next_installed {
                new_index + 1
            } else {
                new_index
            };
            self.head.node = head_node + 1;
            self.head.index = with_mark;
        }

        // read the payload out of the claimed slot
        proof {
            assert(q0.slot_ok(hj0, offh));
            assert(pop0 == hj0 * c + offh);
            assert(q0.nodes@[hj0].slots@.len() == m);
        }
        let ghost sread: usize = q0.nodes@[hj0].slots@[offh].state;
        proof {
            assert(sread & FILLED != 0) by (bit_vector)
                requires
                    sread == FILLED,
            ;
        }
        let node = &mut self.nodes[head_node];
        let slot = &mut node.slots[offset];
        slot.wait_filled();
        let item = slot.read();

        if offset + 1 == self.cap {
            // this consumer consumed the node's last payload slot, so it is
            // the one that reclaims the node
            let ghost qm: Inner<T> = *self;
            proof {
                assert forall|o: int| 0 <= o < c - 1 implies (#[trigger] qm.nodes@[hj0].slots@[o]).state
                    & READING != 0 by {
                    assert(q0.slot_ok(hj0, o));
                    assert(qm.nodes@[hj0].slots@[o] == q0.nodes@[hj0].slots@[o]);
                    let s2 = q0.nodes@[hj0].slots@[o].state;
                    assert(s2 & READING != 0) by (bit_vector)
                        requires
                            s2 == FILLED | READING,
                    ;
                }
                assert(qm.node_read_from(hj0, 0));
            }
            self.drain(head_node, 0);
        } else {
            // announce the read; had a draining peer stamped this slot, the
            // prior state would show it and this consumer would resume the
            // drain
            let prior = slot.fetch_or(READING);
            proof {
                assert(prior & DRAINING == 0) by (bit_vector)
                    requires
                        prior == FILLED,
                ;
            }
            if prior & DRAINING != 0 {
                self.drain(head_node, offset + 1);
            }
        }

        proof {
            let q1: Inner<T> = *self;
            let pops1: int = q1.pops();
            assert(q1.tail == q0.tail);
            assert(q1.cap == q0.cap);
            if offh + 1 == c {
                // node transition: the consumed node is freed, everything past
                // it is untouched
                assert(pop0 == hj0 * c + (c - 1));
                assert((hj0 + 1) * c == hj0 * c + c) by (nonlinear_arith);
                assert(q1.head_seq() == hs0 + 2);
                assert(q1.head.node as int == hj0 + 1);
                assert(pops1 == pop0 + 1);
                assert(q1.nodes@[hj0].freed());
                assert(forall|j2: int|
                    0 <= j2 < q1.nodes@.len() && j2 != hj0 ==> q1.nodes@[j2] == q0.nodes@[j2]);
                assert forall|j: int, o: int|
                    q1.head.node <= j < q1.nodes@.len() && 0 <= o < m implies #[trigger] q1.slot_ok(
                    j,
                    o,
                ) by {
                    assert(q0.slot_ok(j, o));
                    vstd::arithmetic::mul::lemma_mul_inequality(hj0 + 1, j, c);
                    assert((hj0 + 1) * c <= j * c + o);
                }
                assert forall|j: int| q1.head.node <= j < q1.nodes@.len() implies ((
                #[trigger] q1.nodes@[j]).next_installed <==> j + 1 < q1.nodes@.len()) by {
                    assert(q1.nodes@[j] == q0.nodes@[j]);
                }
                assert(q1.wf());
            } else {
                // no transition: only the consumed slot changed
                assert(q1.head_seq() == hs0 + 1);
                assert(q1.head.node as int == hj0);
                assert(pops1 == pop0 + 1);
                assert(q1.nodes@[hj0].slots@[offh].item is None);
                assert(q1.nodes@[hj0].slots@[offh].state == (FILLED | READING));
                assert(forall|j2: int|
                    0 <= j2 < q1.nodes@.len() && j2 != hj0 ==> q1.nodes@[j2] == q0.nodes@[j2]);
                assert(forall|o2: int|
                    0 <= o2 < m && o2 != offh ==> q1.nodes@[hj0].slots@[o2]
                        == q0.nodes@[hj0].slots@[o2]);
                assert forall|j: int, o: int|
                    q1.head.node <= j < q1.nodes@.len() && 0 <= o < m implies #[trigger] q1.slot_ok(
                    j,
                    o,
                ) by {
                    assert(q0.slot_ok(j, o));
                    if o < c {
                        lemma_fundamental_div_mod_converse(j * c + o, c, j, o);
                        lemma_fundamental_div_mod_converse(pop0, c, hj0, offh);
                    }
                }
                assert(q1.nodes@[hj0].next_installed == q0.nodes@[hj0].next_installed);
                assert forall|j: int| q1.head.node <= j < q1.nodes@.len() implies ((
                #[trigger] q1.nodes@[j]).next_installed <==> j + 1 < q1.nodes@.len()) by {
                    if j != hj0 {
                        assert(q1.nodes@[j] == q0.nodes@[j]);
                    }
                }
                assert(q1.wf());
            }

            // the contents lost exactly their first element
            let v0 = q0.contents();
            let v1 = q1.contents();
            assert(v1.len() == v0.len() - 1);
            lemma_fundamental_div_mod_converse(pop0, c, hj0, offh);
            assert(item == v0[0]);
            assert forall|i: int| 0 <= i < v1.len() implies v1[i] == v0.skip(1)[i] by {
                let d = pop0 + 1 + i;
                vstd::arithmetic::div_mod::lemma_fundamental_div_mod(d, c);
                lemma_mod_division_less_than_divisor(d, c);
                assert(c * (d / c) == (d / c) * c) by (nonlinear_arith);
                assert(d / c <= tj0) by {
                    if d / c > tj0 {
                        vstd::arithmetic::mul::lemma_mul_inequality(tj0 + 1, d / c, c);
                        assert((tj0 + 1) * c == tj0 * c + c) by (nonlinear_arith);
                        assert(false);
                    }
                }
                if offh + 1 == c {
                    assert((hj0 + 1) * c == hj0 * c + c) by (nonlinear_arith);
                    assert(d / c >= hj0 + 1) by {
                        if d / c <= hj0 {
                            vstd::arithmetic::mul::lemma_mul_inequality(d / c, hj0, c);
                            assert(false);
                        }
                    }
                    assert(q1.nodes@[d / c].slots@[d % c] == q0.nodes@[d / c].slots@[d % c]);
                } else {
                    assert(!(d / c == hj0 && d % c == offh));
                    assert(q1.nodes@[d / c].slots@[d % c] == q0.nodes@[d / c].slots@[d % c]);
                }
            }
            assert(v1 =~= v0.skip(1));

            // no flag of a surviving slot was cleared
            assert forall|j: int, o: int|
                0 <= j < q0.nodes@.len() && 0 <= o <= c && !q1.nodes@[j].freed() implies
                keeps_flags(
                q0.nodes@[j].slots@[o].state,
                (#[trigger] q1.nodes@[j].slots@[o]).state,
            ) by {
                if j == hj0 && o == offh && offh + 1 != c {
                    lemma_or_keeps_flags(sread, READING);
                }
            }
        }
        Some(item)
    }
}

/// An unbounded first-in first-out queue of payloads of type `T`.
///
/// The abstract value of a queue is the sequence of payloads it holds, oldest
/// first: [`Queue::push`] appends to that sequence and [`Queue::pop`] removes
/// its first element, returning `None` exactly when the sequence is empty. In
/// its concurrent setting the handle is shared between producer and consumer
/// threads; here it owns the queue state, and each operation is one verified
/// step of the protocol.
pub struct Queue<T> {
    inner: Inner<T>,
}

impl<T> View for Queue<T> {
    type V = Seq<T>;

    closed spec fn view(&self) -> Seq<T> {
        self.inner.contents()
    }
}

impl<T> Queue<T> {
    /// The protocol invariant: constructors establish it and every operation
    /// preserves it.
    pub closed spec fn wf(self) -> bool {
        self.inner.wf()
    }

    /// Payload slots per node.
    pub closed spec fn capacity(self) -> int {
        self.inner.cap as int
    }

    /// How many pushes have completed over the queue's lifetime.
    pub closed spec fn pushes(self) -> int {
        self.inner.pushes()
    }

    /// How many pops have completed over the queue's lifetime.
    pub closed spec fn pops(self) -> int {
        self.inner.pops()
    }

    /// How many nodes have ever been linked into the chain, freed ones
    /// included.
    pub closed spec fn node_count(self) -> int {
        self.inner.nodes@.len() as int
    }

    /// The node at chain position `j` has been freed.
    pub closed spec fn node_freed(self, j: int) -> bool {
        self.inner.nodes@[j].freed()
    }

    /// The state word of the slot at offset `o` of the node at chain position
    /// `j`.
    pub closed spec fn slot_state(self, j: int, o: int) -> usize {
        self.inner.nodes@[j].slots@[o].state
    }

    /// The slot at offset `o` of the node at chain position `j` currently
    /// holds a payload.
    pub closed spec fn slot_holds_payload(self, j: int, o: int) -> bool {
        self.inner.nodes@[j].slots@[o].item is Some
    }

    /// Creates an empty queue with [`NODE_CAPACITY`] payload slots per node.
    pub fn new() -> (q: Queue<T>)
        ensures
            q.wf(),
            q@ == Seq::<T>::empty(),
            q.pushes() == 0,
            q.pops() == 0,
            q.capacity() == NODE_CAPACITY as int,
    {
        Queue { inner: Inner::new(NODE_CAPACITY) }
    }

    /// Creates an empty queue with `cap` payload slots per node. Any capacity
    /// of at least two drives the same protocol; a small one reaches the
    /// node-boundary paths after only a few operations.
    pub fn with_capacity(cap: usize) -> (q: Queue<T>)
        requires
            2 <= cap < usize::MAX,
        ensures
            q.wf(),
            q@ == Seq::<T>::empty(),
            q.pushes() == 0,
            q.pops() == 0,
            q.capacity() == cap as int,
    {
        Queue { inner: Inner::new(cap) }
    }

    /// Enqueues `item`. Every push succeeds; the pushed item goes to the back
    /// of the queue's sequence. The number of pushes over the queue's lifetime
    /// is bounded because the tail index carries twice the sequence number in
    /// one machine word.
    pub fn push(&mut self, item: T)
        requires
            old(self).wf(),
            old(self).pushes() < usize::MAX as int / 8,
        ensures
            final(self).wf(),
            final(self)@ == old(self)@.push(item),
            final(self).pushes() == old(self).pushes() + 1,
            final(self).pops() == old(self).pops(),
            final(self).capacity() == old(self).capacity(),
            forall|j: int, o: int|
                0 <= j < old(self).node_count() && 0 <= o <= old(self).capacity() ==> keeps_flags(
                    old(self).slot_state(j, o),
                    #[trigger] final(self).slot_state(j, o),
                ),
    {
        self.inner.push(item)
    }

    /// Dequeues the oldest item, or returns `None` exactly when the queue is
    /// empty. A later push can make the queue non-empty again.
    pub fn pop(&mut self) -> (r: Option<T>)
        requires
            old(self).wf(),
        ensures
            final(self).wf(),
            final(self).pushes() == old(self).pushes(),
            final(self).capacity() == old(self).capacity(),
            old(self)@.len() == 0 ==> {
                &&& r is None
                &&& final(self)@ == old(self)@
                &&& final(self).pops() == old(self).pops()
            },
            old(self)@.len() > 0 ==> {
                &&& r == Some(old(self)@[0])
                &&& final(self)@ == old(self)@.skip(1)
                &&& final(self).pops() == old(self).pops() + 1
            },
            forall|j: int, o: int|
                0 <= j < old(self).node_count() && 0 <= o <= old(self).capacity()
                    && !final(self).node_freed(j) ==> keeps_flags(
                    old(self).slot_state(j, o),
                    #[trigger] final(self).slot_state(j, o),
                ),
    {
        self.inner.pop()
    }
}

impl<T> Default for Queue<T> {
    /// Same as [`Queue::new`].
    fn default() -> (q: Queue<T>)
        ensures
            q.wf(),
            q@ == Seq::<T>::empty(),
            q.pushes() == 0,
            q.pops() == 0,
            q.capacity() == NODE_CAPACITY as int,
    {
        Queue::new()
    }
}

/// Conservation: every payload ever pushed has either been popped or is still
/// in the queue. The push count splits into the pop count plus the queue's
/// current length, so no interleaving of operations loses a payload or hands
/// one out twice.
pub proof fn lemma_push_pop_conservation<T>(q: Queue<T>)
    requires
        q.wf(),
    ensures
        q.pushes() == q.pops() + q@.len(),
{
    q.inner.lemma_wf_facts();
}

/// A payload is read at most once: once a slot's [`READING`] flag is set, the
/// slot holds no payload any more, so nothing is left there to hand out a
/// second time.
pub proof fn lemma_read_slot_holds_no_payload<T>(q: Queue<T>, j: int, o: int)
    requires
        q.wf(),
        0 <= j < q.node_count(),
        !q.node_freed(j),
        0 <= o <= q.capacity(),
        q.slot_state(j, o) & READING != 0,
    ensures
        !q.slot_holds_payload(j, o),
{
    let inner = q.inner;
    assert(j >= inner.head.node) by {
        if j < inner.head.node {
            assert(inner.nodes@[j].freed());
        }
    }
    assert(inner.slot_ok(j, o));
    let s = inner.nodes@[j].slots@[o].state;
    assert(!(s == 0 || s == FILLED)) by (bit_vector)
        requires
            s & READING != 0,
    ;
}

/// A node is freed only once every one of its payload slots has been read:
/// all the payload ranks of a freed node lie below the pop count.
pub proof fn lemma_freed_node_fully_consumed<T>(q: Queue<T>, j: int)
    requires
        q.wf(),
        0 <= j < q.node_count(),
        q.node_freed(j),
    ensures
        (j + 1) * q.capacity() <= q.pops(),
{
    let inner = q.inner;
    let c = inner.cap as int;
    inner.lemma_wf_facts();
    assert(j < inner.head.node) by {
        if j >= inner.head.node {
            assert(inner.nodes@[j].slots@.len() == inner.m());
        }
    }
    vstd::arithmetic::mul::lemma_mul_inequality(j + 1, inner.head.node as int, c);
}

} // verus!

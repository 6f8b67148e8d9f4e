//! The index encoding of the queue's cursors.
//!
//! A cursor index packs a mark bit into its lowest bit and a sequence number
//! into the remaining bits: an index `v` stands for sequence number `v / 2`,
//! and the mark is set when `v` is odd. Each successful push or pop advances
//! the index by `2`, that is, by one sequence number.
//!
//! Sequence numbers are laid out over the chain of nodes. With `m` slots per
//! node, sequence number `s` lives in the node at chain position `s / m`, at
//! offset `s % m` within it. The last offset of a node, `m - 1`, is the
//! sentinel: no payload is stored there, and a cursor standing on it means
//! "this node is full; its successor holds the next payload".
//!
//! Because every node spends one sequence number on the sentinel, the number
//! of payload slots below sequence number `s` — its rank — is `s - s / m`.
//! The rank of the head cursor counts the pops performed so far, the rank of
//! the tail cursor the pushes.

use vstd::prelude::*;

use vstd::arithmetic::div_mod::lemma_fundamental_div_mod;
use vstd::arithmetic::div_mod::lemma_fundamental_div_mod_converse;
use vstd::arithmetic::div_mod::lemma_mod_division_less_than_divisor;

verus! {

/// The sequence number encoded in a cursor index: everything above the mark
/// bit.
pub open spec fn seq_of(index: usize) -> int {
    index as int / 2
}

/// Whether the mark bit (the lowest bit) of a cursor index is set.
pub open spec fn marked(index: usize) -> bool {
    index as int % 2 == 1
}

/// The chain position of the node that holds sequence number `s`, for nodes
/// of `m` slots.
pub open spec fn node_of(s: int, m: int) -> int {
    s / m
}

/// The offset of sequence number `s` within its node, for nodes of `m` slots.
pub open spec fn offset_of(s: int, m: int) -> int {
    s % m
}

/// The rank of sequence number `s`: how many payload (non-sentinel) sequence
/// numbers lie strictly below `s`. Every node below `s` spends exactly one
/// sequence number on its sentinel.
pub open spec fn rank_of(s: int, m: int) -> int {
    s - s / m
}

/// Sequence number `s` splits into its node and offset: `s = node * m + off`,
/// with the offset inside `[0, m)`, and its rank is `node * (m - 1) + off`.
pub proof fn lemma_seq_parts(s: int, m: int)
    requires
        2 <= m,
        0 <= s,
    ensures
        s == node_of(s, m) * m + offset_of(s, m),
        0 <= offset_of(s, m) < m,
        0 <= node_of(s, m) <= s,
        rank_of(s, m) == node_of(s, m) * (m - 1) + offset_of(s, m),
        0 <= rank_of(s, m) <= s,
        node_of(s, m) <= rank_of(s, m),
{
    lemma_fundamental_div_mod(s, m);
    lemma_mod_division_less_than_divisor(s, m);
    assert(m * (s / m) == (s / m) * m) by (nonlinear_arith);
    let j = node_of(s, m);
    let o = offset_of(s, m);
    assert(j * m == j * (m - 1) + j) by (nonlinear_arith);
    assert(0 <= j && j <= j * (m - 1)) by (nonlinear_arith)
        requires
            2 <= m,
            0 <= s,
            s == j * m + o,
            0 <= o < m,
    ;
}

/// How node and offset move when a sequence number advances by one: the
/// offset steps forward inside the node, or wraps from the sentinel to offset
/// zero of the successor. The rank grows exactly on payload offsets.
pub proof fn lemma_seq_step(s: int, m: int)
    requires
        2 <= m,
        0 <= s,
    ensures
        offset_of(s, m) + 1 < m ==> {
            &&& node_of(s + 1, m) == node_of(s, m)
            &&& offset_of(s + 1, m) == offset_of(s, m) + 1
            &&& rank_of(s + 1, m) == rank_of(s, m) + 1
        },
        offset_of(s, m) + 1 == m ==> {
            &&& node_of(s + 1, m) == node_of(s, m) + 1
            &&& offset_of(s + 1, m) == 0
            &&& rank_of(s + 1, m) == rank_of(s, m)
        },
{
    lemma_seq_parts(s, m);
    let j = node_of(s, m);
    let o = offset_of(s, m);
    if o + 1 < m {
        lemma_fundamental_div_mod_converse(s + 1, m, j, o + 1);
    } else {
        assert(s + 1 == (j + 1) * m + 0) by (nonlinear_arith)
            requires
                s == j * m + o,
                o + 1 == m,
        ;
        lemma_fundamental_div_mod_converse(s + 1, m, j + 1, 0);
    }
}

/// Rank never decreases as the sequence number grows.
pub proof fn lemma_rank_monotone(s1: int, s2: int, m: int)
    requires
        2 <= m,
        0 <= s1 <= s2,
    ensures
        rank_of(s1, m) <= rank_of(s2, m),
        node_of(s1, m) <= node_of(s2, m),
    decreases s2 - s1,
{
    if s1 < s2 {
        lemma_rank_monotone(s1, s2 - 1, m);
        lemma_seq_parts(s2 - 1, m);
        lemma_seq_step(s2 - 1, m);
    }
}

/// Rank strictly grows past a payload (non-sentinel) sequence number.
pub proof fn lemma_rank_strict(s1: int, s2: int, m: int)
    requires
        2 <= m,
        0 <= s1 < s2,
        offset_of(s1, m) < m - 1,
    ensures
        rank_of(s1, m) < rank_of(s2, m),
{
    lemma_seq_step(s1, m);
    lemma_rank_monotone(s1 + 1, s2, m);
}

/// How a cursor index moves: adding `2` advances the sequence number by one
/// and keeps the mark bit; on an unmarked index, adding `1` or `3` sets the
/// mark, adding `3` also advances the sequence number.
pub proof fn lemma_index_step(v: int)
    requires
        0 <= v,
    ensures
        (v + 2) / 2 == v / 2 + 1,
        (v + 2) % 2 == v % 2,
        v % 2 == 0 ==> v == 2 * (v / 2),
        v % 2 == 0 ==> (v + 1) / 2 == v / 2 && (v + 1) % 2 == 1,
        v % 2 == 0 ==> (v + 3) / 2 == v / 2 + 1 && (v + 3) % 2 == 1,
        v % 2 == 1 ==> v == 2 * (v / 2) + 1,
{
    lemma_fundamental_div_mod(v, 2);
    lemma_mod_division_less_than_divisor(v, 2);
    if v % 2 == 0 {
        lemma_fundamental_div_mod_converse(v + 2, 2, v / 2 + 1, 0);
        lemma_fundamental_div_mod_converse(v + 1, 2, v / 2, 1);
        lemma_fundamental_div_mod_converse(v + 3, 2, v / 2 + 1, 1);
    } else {
        lemma_fundamental_div_mod_converse(v + 2, 2, v / 2 + 1, 1);
    }
}

} // verus!

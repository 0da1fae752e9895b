//! Verified ordered data structures.
//!
//! The centrepiece is [`llrb::LLRB`], a left-leaning red-black tree that
//! maintains, per node, a subtree size (for order-statistic queries) and a
//! folded accumulator (for range-sum queries).  Alongside it live a verified
//! van Emde Boas tree over a fixed integer universe, binary and d-ary
//! max-heaps with heapsort, and a few classic sorting routines.

pub mod heap;
pub mod llrb;
pub mod sorts;
pub mod veb;

use vstd::prelude::*;

verus! {

/// Wrapping (modular) addition on `u64`: the associative, total combinator
/// used for the tree's folded accumulator.
pub open spec fn wadd(a: u64, b: u64) -> u64 {
    vstd::wrapping::u64_specs::wrapping_add(a, b)
}

pub proof fn lemma_wadd_comm(a: u64, b: u64)
    ensures
        wadd(a, b) == wadd(b, a),
{
}

pub proof fn lemma_wadd_assoc(a: u64, b: u64, c: u64)
    ensures
        wadd(wadd(a, b), c) == wadd(a, wadd(b, c)),
{
}

} // verus!

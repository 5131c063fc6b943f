//! The mathematical model of the packed-array tree layout.
//!
//! The executable code works with array slots; these spec functions are the
//! single source of truth for the slot arithmetic: parent, sibling and leaf
//! slots, powers of two, and the number of parent steps from a slot up to
//! the root.

use vstd::prelude::*;
use vstd::arithmetic::power2::{
    pow2, lemma2_to64, lemma2_to64_rest, lemma_pow2_pos, lemma_pow2_unfold,
};

verus! {

/// `n` is a power of two (0 is not; 1 is).
pub open spec fn is_pow2(n: nat) -> bool
    decreases n,
{
    if n == 0 {
        false
    } else if n == 1 {
        true
    } else {
        n % 2 == 0 && is_pow2(n / 2)
    }
}

/// Floor of the base-2 logarithm.
pub open spec fn log2(n: nat) -> nat
    decreases n,
{
    if n <= 1 {
        0
    } else {
        1 + log2(n / 2)
    }
}

/// Slot of the parent of the node at (non-root) slot `i`.
pub open spec fn parent_slot(i: int) -> int {
    (i - 1) / 2
}

/// Slot of the sibling of the node at (non-root) slot `i`: an even slot is a
/// right child whose sibling lies just below it, an odd slot is a left child
/// whose sibling lies just above it.
pub open spec fn sibling_slot(i: int) -> int {
    if i % 2 == 0 {
        i - 1
    } else {
        i + 1
    }
}

/// Slot of the leaf for data block `i`, in a tree of `n` nodes in all.
pub open spec fn leaf_slot(n: int, i: int) -> int {
    n / 2 + i
}

/// Number of parent steps from slot `i` up to the root.
pub open spec fn steps_to_root(i: int) -> nat
    decreases i,
{
    if i <= 0 {
        0
    } else {
        1 + steps_to_root(parent_slot(i))
    }
}

/// Every power of two is `pow2` of its logarithm.
pub proof fn lemma_pow2_log2(n: nat)
    requires
        is_pow2(n),
    ensures
        n == pow2(log2(n)),
    decreases n,
{
    if n == 1 {
        lemma2_to64();
    } else {
        lemma_pow2_log2(n / 2);
        lemma_pow2_unfold((1 + log2(n / 2)) as nat);
    }
}

/// `pow2` values satisfy the recursive power-of-two predicate.
pub proof fn lemma_is_pow2_pow2(k: nat)
    ensures
        is_pow2(pow2(k)),
    decreases k,
{
    if k == 0 {
        lemma2_to64();
    } else {
        lemma_is_pow2_pow2((k - 1) as nat);
        lemma_pow2_pos((k - 1) as nat);
        lemma_pow2_unfold(k);
    }
}

/// Of two distinct powers of two, the smaller fits twice into the larger.
pub proof fn lemma_pow2_double_le(n: nat, m: nat)
    requires
        is_pow2(n),
        is_pow2(m),
        n < m,
    ensures
        2 * n <= m,
    decreases n,
{
    if n > 1 {
        lemma_pow2_double_le(n / 2, m / 2);
    }
}

/// A tree over a power-of-two number of leaves that fits in `usize` has a
/// total node count `2*l - 1` that fits in `usize` as well.
pub proof fn lemma_capacity_fits(l: nat)
    requires
        is_pow2(l),
        l <= usize::MAX,
    ensures
        2 * l - 1 <= usize::MAX,
{
    lemma2_to64();
    lemma2_to64_rest();
    lemma_is_pow2_pow2(32);
    lemma_is_pow2_pow2(64);
    if usize::MAX == 0xffff_ffff {
        lemma_pow2_double_le(l, 0x1_0000_0000);
    } else {
        lemma_pow2_double_le(l, 0x1_0000_0000_0000_0000);
    }
}

/// Every slot in the layer `[pow2(k) - 1, 2*pow2(k) - 1)` sits `k` parent
/// steps above the root.
pub proof fn lemma_steps_to_root_in_layer(k: nat, s: int)
    requires
        pow2(k) - 1 <= s < 2 * pow2(k) - 1,
    ensures
        steps_to_root(s) == k,
    decreases k,
{
    if k == 0 {
        lemma2_to64();
    } else {
        lemma_pow2_unfold(k);
        lemma_pow2_pos((k - 1) as nat);
        lemma_steps_to_root_in_layer((k - 1) as nat, parent_slot(s));
    }
}

} // verus!

//! Arithmetic on 32-bit sequence numbers, which wrap around to zero.

use vstd::prelude::*;

verus! {

/// How far `id` lies ahead of `base`, going upward from `base` and wrapping past the largest ID.
pub open spec fn delta(id: u32, base: u32) -> int {
    if id >= base {
        id - base
    } else {
        id - base + 0x1_0000_0000
    }
}

/// The ID that lies `n` places after `id`.
pub open spec fn advance(id: u32, n: int) -> u32 {
    ((id + n) % 0x1_0000_0000) as u32
}

/// Going `n` places ahead of an ID gives the one ID at distance `n` from it.
pub proof fn lemma_advance_delta(base: u32, n: int)
    requires
        0 <= n < 0x1_0000_0000,
    ensures
        delta(advance(base, n), base) == n,
{
}

/// An ID lies exactly its distance ahead of any base.
pub proof fn lemma_delta_advance(id: u32, base: u32)
    ensures
        0 <= delta(id, base) < 0x1_0000_0000,
        advance(base, delta(id, base)) == id,
{
}

/// Going ahead in two steps is going ahead by their sum.
pub proof fn lemma_advance_sum(id: u32, m: int, n: int)
    ensures
        advance(advance(id, m), n) == advance(id, m + n),
{
}

/// Distances from a base that has moved up by `n` places are smaller by `n`.
pub proof fn lemma_delta_shift(id: u32, base: u32, n: int)
    requires
        0 <= n <= delta(id, base),
    ensures
        delta(id, advance(base, n)) == delta(id, base) - n,
{
}

} // verus!

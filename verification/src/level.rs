//! Drawing the maximum layer of a new node. Layers follow a geometric
//! distribution: a node reaches layer `l+1` with probability `1/m` given that
//! it reached layer `l`, which matches the textbook draw
//! `floor(-ln(uniform) / ln(m))`. The draws come from a deterministic
//! in-index generator, so index construction is reproducible.

use vstd::prelude::*;

verus! {

/// Hard cap on node layers; a draw beyond it is clamped. With `m >= 2` the
/// chance of reaching it is below `2^-30`.
pub const MAX_LEVEL: usize = 30;

/// One step of a 64-bit linear congruential generator (Knuth's MMIX
/// multiplier); the low bits cycle quickly, so callers use the high bits.
pub fn rng_next(state: u64) -> (next: u64) {
    state.wrapping_mul(6364136223846793005).wrapping_add(1442695040888963407)
}

/// Draws the layer of a new node: starting at 0, climb one layer with
/// probability `1/m` until a draw fails or the cap is reached. Returns the
/// layer and the advanced generator state.
pub fn draw_level(state: u64, m: usize) -> (r: (usize, u64))
    requires
        m >= 2,
    ensures
        r.0 <= MAX_LEVEL,
{
    let mut s = state;
    let mut level: usize = 0;
    while level < MAX_LEVEL
        invariant
            m >= 2,
            level <= MAX_LEVEL,
        decreases MAX_LEVEL - level,
    {
        s = rng_next(s);
        if (s >> 32) % (m as u64) != 0 {
            break ;
        }
        level = level + 1;
    }
    (level, s)
}

} // verus!

//! Deterministic pseudo-random generators used by the games.
use vstd::prelude::*;

verus! {

/// Multiplier of the linear congruential generator.
pub const LCG_MUL: u32 = 1103515245;

/// Increment of the linear congruential generator.
pub const LCG_INC: u32 = 12345;

/// The state that follows `state` in the linear congruential generator,
/// computed modulo 2^32.
pub open spec fn lcg_next_state(state: u32) -> u32 {
    ((state as int * LCG_MUL as int + LCG_INC as int) % 0x1_0000_0000) as u32
}

/// The 15-bit value the linear congruential generator hands out for a state.
pub open spec fn lcg_output(state: u32) -> u32 {
    (state >> 16u32) & 0x7FFFu32
}

/// Advances the linear congruential generator: returns the new state.
pub fn lcg_step(state: u32) -> (next: u32)
    ensures
        next == lcg_next_state(state),
{
    state.wrapping_mul(LCG_MUL).wrapping_add(LCG_INC)
}

/// The 15-bit output for a generator state.
pub fn lcg_value(state: u32) -> (out: u32)
    ensures
        out == lcg_output(state),
        out < 0x8000,
{
    let out = (state >> 16u32) & 0x7FFFu32;
    assert(out < 0x8000) by (bit_vector)
        requires
            out == (state >> 16u32) & 0x7FFFu32,
    ;
    out
}

/// One round of the xorshift32 generator (shifts 13, 17, 5).
pub open spec fn xorshift_next(s: u32) -> u32 {
    let a = s ^ (s << 13u32);
    let b = a ^ (a >> 17u32);
    b ^ (b << 5u32)
}

/// Advances the xorshift32 generator by one round.
pub fn xorshift32(state: u32) -> (next: u32)
    ensures
        next == xorshift_next(state),
{
    let mut s = state;
    s = s ^ (s << 13u32);
    s = s ^ (s >> 17u32);
    s = s ^ (s << 5u32);
    s
}

} // verus!

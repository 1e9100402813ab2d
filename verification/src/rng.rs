//! The pseudo-random generator behind sampling: a 64-bit xorshift generator
//! with a multiplicative output scramble.

use vstd::prelude::*;

verus! {

/// The odd constant by which the state is multiplied to give an output.
pub const SCRAMBLE: u64 = 0x2545_F491_4F6C_DD1D;

/// Number of distinct values of a uniform draw: draws lie in `0..DRAW_RANGE`.
pub const DRAW_RANGE: u32 = 0x0100_0000;

/// The state that follows `state`.
pub open spec fn next_state(state: u64) -> u64 {
    let a: u64 = state ^ (state >> 12);
    let b: u64 = a ^ (a << 25);
    b ^ (b >> 27)
}

/// The 32-bit output given on reaching `state`: the upper half of the
/// product of the state and `SCRAMBLE`, taken modulo 2^64.
pub open spec fn output(state: u64) -> u32 {
    (((state as int * SCRAMBLE as int) % 0x1_0000_0000_0000_0000) / 0x1_0000_0000) as u32
}

/// The uniform draw given on reaching `state`: the upper 24 bits of the output.
pub open spec fn draw_of(state: u64) -> u32 {
    output(state) >> 8
}

/// The state after `n` advances from `state`.
pub open spec fn state_after(state: u64, n: nat) -> u64
    decreases n,
{
    if n == 0 {
        state
    } else {
        next_state(state_after(state, (n - 1) as nat))
    }
}

/// Advancing once and then `n` times is advancing `n + 1` times.
pub proof fn lemma_state_after_shift(state: u64, n: nat)
    ensures
        state_after(next_state(state), n) == state_after(state, n + 1),
    decreases n,
{
    assert(state_after(state, n + 1) == next_state(state_after(state, n)));
    if n > 0 {
        lemma_state_after_shift(state, (n - 1) as nat);
    } else {
        assert(state_after(state, 0) == state);
    }
}

/// Advances the state once and returns the 32-bit output of the new state.
pub fn random_u32(state: &mut u64) -> (r: u32)
    ensures
        *final(state) == next_state(*old(state)),
        r == output(*final(state)),
{
    let mut s: u64 = *state;
    s = s ^ (s >> 12);
    s = s ^ (s << 25);
    s = s ^ (s >> 27);
    *state = s;
    let product: u64 = s.wrapping_mul(SCRAMBLE);
    let high: u64 = product >> 32;
    assert(high == product / 0x1_0000_0000) by (bit_vector)
        requires
            high == product >> 32,
    ;
    high as u32
}

/// Advances the state once and returns a uniform draw below `DRAW_RANGE`.
pub fn random_draw(state: &mut u64) -> (r: u32)
    ensures
        *final(state) == next_state(*old(state)),
        r == draw_of(*final(state)),
        r < DRAW_RANGE,
{
    let x: u32 = random_u32(state);
    let r: u32 = x >> 8;
    assert(r < 0x0100_0000u32) by (bit_vector)
        requires
            r == x >> 8,
    ;
    r
}

} // verus!

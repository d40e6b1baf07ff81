use vstd::prelude::*;

verus! {

/// One step of the 64-bit xorshift generator (shifts 13, 7, 17).
pub open spec fn xorshift_next(s: u64) -> u64 {
    let a = s ^ (s << 13u64);
    let b = a ^ (a >> 7u64);
    b ^ (b << 17u64)
}

/// Advances the generator state and returns the new state.
pub fn xorshift(state: &mut u64) -> (r: u64)
    ensures
        *final(state) == xorshift_next(*old(state)),
        r == *final(state),
{
    *state = *state ^ (*state << 13u64);
    *state = *state ^ (*state >> 7u64);
    *state = *state ^ (*state << 17u64);
    *state
}

} // verus!

//! Bit-parallel updates of packed piece orientations.
use vstd::prelude::*;

verus! {

/// `x` with each even bit swapped with the odd bit just above it.
pub open spec fn swap_bit_pairs_u64(x: u64) -> u64 {
    ((x >> 1) & 0x5555_5555_5555_5555) | ((x & 0x5555_5555_5555_5555) << 1)
}

/// `x` with each even bit swapped with the odd bit just above it.
pub open spec fn swap_bit_pairs_u32(x: u32) -> u32 {
    ((x >> 1) & 0x5555_5555) | ((x & 0x5555_5555) << 1)
}

/// Updates 2-bit orientations in parallel: each output bit is the constant
/// from `m1`, xor the same input bit where `ma` is set, xor the neighboring
/// bit of the same orientation where `mb` is set.
pub fn update_orientations_u64(input: u64, masks: [u64; 3]) -> (r: u64)
    ensures
        r == masks[0] ^ (masks[1] & input) ^ (masks[2] & swap_bit_pairs_u64(input)),
{
    let m1 = masks[0];
    let ma = masks[1];
    let mb = masks[2];
    let a = input;
    let b = ((input >> 1) & 0x5555_5555_5555_5555) | ((input & 0x5555_5555_5555_5555) << 1);
    m1 ^ (ma & a) ^ (mb & b)
}

/// Updates 2-bit orientations in parallel; see [`update_orientations_u64`].
pub fn update_orientations_u32(input: u32, masks: [u32; 3]) -> (r: u32)
    ensures
        r == masks[0] ^ (masks[1] & input) ^ (masks[2] & swap_bit_pairs_u32(input)),
{
    let m1 = masks[0];
    let ma = masks[1];
    let mb = masks[2];
    let a = input;
    let b = ((input >> 1) & 0x5555_5555) | ((input & 0x5555_5555) << 1);
    m1 ^ (ma & a) ^ (mb & b)
}

/// Swapping the bits of each pair twice gives the input back.
pub proof fn law_swap_bit_pairs_involution(x: u64)
    ensures
        swap_bit_pairs_u64(swap_bit_pairs_u64(x)) == x,
{
    assert(((((x >> 1) & 0x5555_5555_5555_5555) | ((x & 0x5555_5555_5555_5555) << 1)) >> 1)
        & 0x5555_5555_5555_5555 | (((((x >> 1) & 0x5555_5555_5555_5555) | ((x & 0x5555_5555_5555_5555)
        << 1)) & 0x5555_5555_5555_5555) << 1) == x) by (bit_vector);
}

} // verus!

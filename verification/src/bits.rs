//! The bit probe: reading single bits of a key, counted from the most
//! significant end, and the critical bit at which two distinct keys first
//! differ.

use vstd::prelude::*;
use vstd::std_specs::bits::axiom_u8_leading_zeros;
use vstd::std_specs::bits::u8_leading_zeros;

verus! {

/// Whether the bit of `k` at position `p % 8`, counted from the most
/// significant bit (`p == 0` names the MSB), is set. Positions wrap at the
/// key width, so the probe is total in `p`; only positions below 8 are
/// meaningful to the tree.
pub open spec fn bit_set(k: u8, p: u32) -> bool {
    (k >> ((7 - (p % 8)) as u8)) & 1u8 != 0u8
}

/// The probe behind every branching decision: is the bit of `value` at
/// position `pos` (from the MSB) set?
pub fn bit_at(value: &u8, pos: &u32) -> (b: bool)
    ensures
        b == bit_set(*value, *pos),
{
    let shift: u32 = 7 - (*pos % 8);
    ((*value >> (shift as u8)) & 1u8) != 0u8
}

/// The position, from the MSB, of the first bit at which two distinct keys
/// differ: the leading-zero count of their XOR. The key that carries a zero
/// at that position is the numerically smaller one.
pub proof fn lemma_crit_bit(a: u8, b: u8)
    requires
        a != b,
    ensures
        ({
            let c = u8_leading_zeros(a ^ b);
            &&& c < 8
            &&& bit_set(a, c) != bit_set(b, c)
            &&& a < b ==> !bit_set(a, c) && bit_set(b, c)
            &&& b < a ==> !bit_set(b, c) && bit_set(a, c)
        }),
{
    let x: u8 = a ^ b;
    assert(x != 0) by (bit_vector)
        requires
            x == a ^ b && a != b,
    ;
    axiom_u8_leading_zeros(x);
    let c: u32 = u8_leading_zeros(x);
    assert(c < 8);
    let s: u8 = (7 - c) as u8;
    assert((x >> s) & 1u8 != 0u8);
    assert(x >> ((8 - c) as u8) == 0);
    assert((((a >> s) & 1u8 != 0u8) != ((b >> s) & 1u8 != 0u8)) && (a < b ==> (a >> s) & 1u8
        == 0u8) && (b < a ==> (b >> s) & 1u8 == 0u8)) by (bit_vector)
        requires
            s < 8 && ((a ^ b) >> s) & 1u8 != 0u8 && (a ^ b) >> ((s + 1) as u8) == 0,
    ;
    assert(bit_set(a, c) == ((a >> s) & 1u8 != 0u8));
    assert(bit_set(b, c) == ((b >> s) & 1u8 != 0u8));
}

} // verus!

//! Bit layout of a codeword and the mathematical model of the code.
//!
//! A codeword is 32 bits, most significant first: a 21-bit payload in bits
//! 31..11, 10 BCH parity bits in bits 10..1 and an overall even-parity bit in
//! bit 0.
use vstd::prelude::*;

verus! {

/// Index of the most significant bit of a word.
pub const HIGHEST_BIT: u32 = 31;

/// Number of payload bits.
pub const PAYLOAD_BITS: u32 = 21;

/// Number of BCH parity bits.
pub const ECC_BITS: u32 = 10;

/// The BCH parity bits, once shifted down to bit 0.
pub const ECC_MASK: u32 = 0x3FF;

/// The payload bits of a codeword.
pub const PAYLOAD_MASK: u32 = 0xFFFF_F800;

/// The generator polynomial `0b11101101001`, aligned with the top of a word
/// for most-significant-first long division.
pub const GENERATOR: u32 = 0xED20_0000;

/// One step of long division by the generator: cancel the top bit if it is
/// set, then move to the next coefficient.
pub open spec fn division_step(w: u32) -> u32 {
    if w & 0x8000_0000u32 != 0 {
        ((w ^ GENERATOR) << 1u32) as u32
    } else {
        (w << 1u32) as u32
    }
}

/// The working register after `steps` steps of long division.
pub open spec fn long_division(w: u32, steps: nat) -> u32
    decreases steps,
{
    if steps == 0 {
        w
    } else {
        long_division(division_step(w), (steps - 1) as nat)
    }
}

/// The BCH parity of a word's payload, placed in bits 10..1: the remainder
/// of the payload polynomial, times x^10, divided by the generator.
pub open spec fn bch_parity(cw: u32) -> u32 {
    long_division(cw & PAYLOAD_MASK, PAYLOAD_BITS as nat) >> 21u32
}

/// The payload of `cw` followed by its BCH parity, with bit 0 clear.
pub open spec fn with_ecc(cw: u32) -> u32 {
    (cw & PAYLOAD_MASK) | bch_parity(cw)
}

/// Whether bit `n` of `w` is set.
pub open spec fn bit(w: u32, n: u32) -> bool {
    w & (1u32 << n) != 0
}

/// Number of set bits among bits `0..n` of `w`.
pub open spec fn ones_below(w: u32, n: nat) -> nat
    decreases n,
{
    if n == 0 {
        0
    } else {
        ones_below(w, (n - 1) as nat) + if bit(w, (n - 1) as u32) {
            1nat
        } else {
            0nat
        }
    }
}

/// Number of set bits of `w`.
pub open spec fn ones(w: u32) -> nat {
    ones_below(w, 32)
}

/// The codeword that carries the payload of `cw`: payload, BCH parity, and
/// the bit that makes the number of set bits even.
pub open spec fn encoded(cw: u32) -> u32 {
    with_ecc(cw) | (ones(with_ecc(cw)) % 2) as u32
}

/// Whether `cw` is a codeword: it equals the encoding of its own payload.
pub open spec fn is_codeword(cw: u32) -> bool {
    encoded(cw) == cw
}

/// The 10-bit syndrome of a received word: its BCH parity bits XOR the ones
/// recomputed from its payload.
pub open spec fn syndrome(cw: u32) -> u32 {
    ((encoded(cw) ^ cw) >> 1u32) & ECC_MASK
}

} // verus!

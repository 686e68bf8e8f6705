//! Computing the BCH parity bits and the overall parity bit of a payload.
use vstd::prelude::*;

use crate::laws::{lemma_encode_idempotent, lemma_encoded_even, lemma_encoded_payload};
use crate::layout::{
    bit, bch_parity, division_step, encoded, long_division, ones, ones_below, syndrome, ECC_BITS,
    GENERATOR, HIGHEST_BIT, PAYLOAD_BITS, PAYLOAD_MASK,
};

verus! {

/// A mask of the `n` lowest bits.
pub fn low_bits_mask(n: u32) -> (r: u32)
    requires
        n < 32,
    ensures
        r == (1u32 << n) - 1,
{
    assert(1u32 << n >= 1) by (bit_vector)
        requires
            n < 32,
    ;
    (1u32 << n) - 1
}

/// Whether bit `n` of `word` is set.
pub fn is_bit_set(word: u32, n: u32) -> (r: bool)
    requires
        n < 32,
    ensures
        r == bit(word, n),
{
    word & (1u32 << n) != 0
}

/// The word with only bit `n` set.
pub fn high_bit(n: u32) -> (r: u32)
    requires
        n < 32,
    ensures
        r == 1u32 << n,
{
    1u32 << n
}

/// The BCH parity bits of the payload of `cw`, in bits 10..1; the parity
/// bits that `cw` already carries are ignored.
pub fn get_bch_code(cw: u32) -> (r: u32)
    ensures
        r == bch_parity(cw),
{
    let mut local_cw = cw & PAYLOAD_MASK;
    let mut count: u32 = 0;
    while count < PAYLOAD_BITS
        invariant
            count <= PAYLOAD_BITS,
            long_division(local_cw, (PAYLOAD_BITS - count) as nat) == long_division(
                cw & PAYLOAD_MASK,
                PAYLOAD_BITS as nat,
            ),
        decreases PAYLOAD_BITS - count,
    {
        let ghost before = local_cw;
        assert(1u32 << 31u32 == 0x8000_0000u32) by (bit_vector);
        if is_bit_set(local_cw, HIGHEST_BIT) {
            local_cw ^= GENERATOR;
            assert(before & 0x8000_0000u32 != 0);
        } else {
            assert(before & 0x8000_0000u32 == 0);
        }
        local_cw = local_cw << 1u32;
        assert(local_cw == division_step(before));
        count += 1;
    }
    local_cw >> 21u32
}

/// Bit 0 set where `w` has an odd number of set bits.
pub fn parity_of(w: u32) -> (r: u32)
    ensures
        r == ones(w) % 2,
{
    let mut count: u32 = 0;
    let mut i: u32 = 0;
    while i < 32
        invariant
            i <= 32,
            count == ones_below(w, i as nat),
            count <= i,
        decreases 32 - i,
    {
        if is_bit_set(w, i) {
            count += 1;
        }
        i += 1;
    }
    count % 2
}

/// Encodes the payload of `cw` (its bits 31..11; the rest is ignored) as a
/// codeword: the payload, its BCH parity in bits 10..1, and in bit 0 the
/// bit that makes the number of set bits even.
pub fn bch_encode(cw: u32) -> (r: u32)
    ensures
        r == encoded(cw),
        r & PAYLOAD_MASK == cw & PAYLOAD_MASK,
        ones(r) % 2 == 0,
        encoded(r) == r,
{
    proof {
        lemma_encoded_payload(cw);
        lemma_encoded_even(cw);
        lemma_encode_idempotent(cw);
    }
    let local_cw = (cw & PAYLOAD_MASK) | get_bch_code(cw);
    let parity = parity_of(local_cw);
    local_cw | parity
}

/// The syndrome of a received word: its BCH parity bits XOR those
/// recomputed from its payload. Zero exactly when the parity bits agree.
pub fn calculate_syndrome(cw: u32) -> (r: u32)
    ensures
        r == syndrome(cw),
{
    let mask = low_bits_mask(ECC_BITS);
    assert(mask == 0x3FF) by {
        assert((1u32 << 10u32) - 1 == 0x3FF) by (bit_vector);
    }
    ((bch_encode(cw) ^ cw) >> 1u32) & mask
}

} // verus!

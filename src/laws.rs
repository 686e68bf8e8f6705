//! Properties of the code, proved over the model.
use vstd::prelude::*;

use crate::layout::{
    bch_parity, bit, division_step, encoded, long_division, ones, ones_below, syndrome, with_ecc,
    PAYLOAD_MASK,
};

verus! {

/// Whether the `m` lowest bits of `w` are clear.
pub open spec fn low_clear(w: u32, m: u32) -> bool {
    (w >> m) << m == w
}

proof fn lemma_step_low_clear(w: u32, m: u32)
    requires
        m <= 21,
        low_clear(w, m),
    ensures
        low_clear(division_step(w), (m + 1) as u32),
{
    let n: u32 = (m + 1) as u32;
    assert(m <= 21 && n == m + 1 && (w >> m) << m == w ==> (division_step(w) >> n) << n
        == division_step(w)) by (bit_vector);
}

proof fn lemma_step_keeps_low_clear(w: u32)
    requires
        low_clear(w, 22),
    ensures
        low_clear(division_step(w), 22),
{
    assert((w >> 22u32) << 22u32 == w ==> (division_step(w) >> 22u32) << 22u32
        == division_step(w)) by (bit_vector);
}

proof fn lemma_division_low_clear(w: u32, m: u32, steps: nat)
    requires
        m <= 22,
        low_clear(w, m),
        m + steps >= 22,
    ensures
        low_clear(long_division(w, steps), 22),
    decreases steps,
{
    if steps > 0 {
        if m < 22 {
            lemma_step_low_clear(w, m);
            lemma_division_low_clear(division_step(w), (m + 1) as u32, (steps - 1) as nat);
        } else {
            lemma_step_keeps_low_clear(w);
            lemma_division_low_clear(division_step(w), m, (steps - 1) as nat);
        }
    }
}

/// The BCH parity of any word occupies bits 10..1 only.
pub proof fn lemma_parity_field(cw: u32)
    ensures
        bch_parity(cw) & 0xFFFF_F801u32 == 0,
{
    let w = cw & PAYLOAD_MASK;
    assert((w >> 11u32) << 11u32 == w) by (bit_vector)
        requires
            w == cw & 0xFFFF_F800u32,
    ;
    lemma_division_low_clear(w, 11, 21);
    let r = long_division(w, 21);
    assert((r >> 22u32) << 22u32 == r ==> (r >> 21u32) & 0xFFFF_F801u32 == 0) by (bit_vector);
}

/// Encoding keeps the payload bits.
pub proof fn lemma_encoded_payload(cw: u32)
    ensures
        encoded(cw) & PAYLOAD_MASK == cw & PAYLOAD_MASK,
        encoded(cw) & 0xFFFF_FFFEu32 == with_ecc(cw),
        with_ecc(cw) & 1u32 == 0,
{
    lemma_parity_field(cw);
    let p = bch_parity(cw);
    let e = with_ecc(cw);
    let b = (ones(e) % 2) as u32;
    assert(e & 0xFFFF_F800u32 == cw & 0xFFFF_F800u32 && e & 1u32 == 0) by (bit_vector)
        requires
            p & 0xFFFF_F801u32 == 0,
            e == (cw & 0xFFFF_F800u32) | p,
    ;
    assert((e | b) & 0xFFFF_F800u32 == cw & 0xFFFF_F800u32 && (e | b) & 0xFFFF_FFFEu32 == e)
        by (bit_vector)
        requires
            b <= 1,
            e & 1u32 == 0,
            e & 0xFFFF_F800u32 == cw & 0xFFFF_F800u32,
    ;
}

/// Encoding is idempotent: a codeword encodes to itself.
pub proof fn lemma_encode_idempotent(cw: u32)
    ensures
        encoded(encoded(cw)) == encoded(cw),
{
    lemma_encoded_payload(cw);
    assert(with_ecc(encoded(cw)) == with_ecc(cw));
}

/// Every encoded word has a zero syndrome.
pub proof fn lemma_encoded_syndrome_zero(cw: u32)
    ensures
        syndrome(encoded(cw)) == 0,
{
    lemma_encode_idempotent(cw);
    let c = encoded(cw);
    assert(((c ^ c) >> 1u32) & 0x3FFu32 == 0) by (bit_vector);
}

proof fn lemma_ones_below_set_low_bit(w: u32, n: nat)
    requires
        w & 1u32 == 0,
        1 <= n <= 32,
    ensures
        ones_below(w | 1u32, n) == ones_below(w, n) + 1,
    decreases n,
{
    let k = (n - 1) as u32;
    if n == 1 {
        assert(w & 1u32 == 0 ==> (w | 1u32) & (1u32 << 0u32) != 0 && w & (1u32 << 0u32) == 0)
            by (bit_vector);
        assert(ones_below(w | 1u32, 0) == 0);
        assert(ones_below(w, 0) == 0);
    } else {
        lemma_ones_below_set_low_bit(w, (n - 1) as nat);
        assert(1 <= k < 32 ==> ((w | 1u32) & (1u32 << k) != 0 <==> w & (1u32 << k) != 0))
            by (bit_vector);
        assert(bit(w | 1u32, k) == bit(w, k));
    }
}

/// Every encoded word has an even number of set bits.
pub proof fn lemma_encoded_even(cw: u32)
    ensures
        ones(encoded(cw)) % 2 == 0,
{
    lemma_encoded_payload(cw);
    let e = with_ecc(cw);
    if ones(e) % 2 == 0 {
        assert(e | 0u32 == e) by (bit_vector);
    } else {
        lemma_ones_below_set_low_bit(e, 32);
    }
}

} // verus!

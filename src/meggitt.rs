//! The bit-serial (Meggitt) decoder: a 10-bit syndrome register is shifted
//! in step with the 31 bits above the overall parity bit, most significant
//! first, and a bit is corrected where the register shows an error in it.
use vstd::prelude::*;

use crate::encoder::{bch_encode, calculate_syndrome, high_bit};
use crate::layout::{encoded, syndrome};

verus! {

/// The generator polynomial in its 11-bit form, for the syndrome register.
pub const REGISTER_FEEDBACK: u32 = 0x769;

/// One step of the syndrome register: multiply by x modulo the generator.
pub open spec fn register_shift(s: u32) -> u32 {
    let t = (s << 1u32) as u32;
    (if t & 0x400u32 != 0 {
        t ^ REGISTER_FEEDBACK
    } else {
        t
    }) & 0x3FFu32
}

/// The register holding x^j modulo the generator.
pub open spec fn register_power(j: nat) -> u32
    decreases j,
{
    if j == 0 {
        1
    } else {
        register_shift(register_power((j - 1) as nat))
    }
}

/// The register values that show an error in the bit being processed: x^30
/// alone (one error), or x^30 plus x^j for `j < 30` (a second error `30 - j`
/// bits further on, cyclically).
pub open spec fn error_patterns_model() -> Seq<u32> {
    seq![register_power(30)] + Seq::new(
        30,
        |j: int| register_power(30) ^ register_power(j as nat),
    )
}

/// The register and word after processing the bits `31 - t` down to 1.
pub open spec fn meggitt_run(reg: u32, word: u32, t: nat) -> (u32, u32)
    decreases 31 - t,
{
    if t >= 31 {
        (reg, word)
    } else if error_patterns_model().contains(reg) {
        meggitt_run(
            register_shift(reg ^ register_power(30)),
            word ^ (1u32 << ((31 - t) as u32)),
            t + 1,
        )
    } else {
        meggitt_run(register_shift(reg), word, t + 1)
    }
}

/// What the bit-serial decoder gives for `cw`: `cw` itself where its syndrome
/// is zero; where the register is back to zero after the pass, the encoding
/// of the corrected word; otherwise failure.
pub open spec fn meggitt_repaired(cw: u32) -> Result<u32, ()> {
    let s = syndrome(cw);
    if s == 0 {
        Ok(cw)
    } else {
        let (reg, word) = meggitt_run(s, cw, 0);
        if reg == 0 {
            Ok(encoded(word))
        } else {
            Err(())
        }
    }
}

/// One step of the syndrome register.
pub fn shift_register(s: u32) -> (r: u32)
    requires
        s < 0x400,
    ensures
        r == register_shift(s),
        r < 0x400,
{
    let t = s << 1u32;
    let folded = if t & 0x400 != 0 {
        t ^ REGISTER_FEEDBACK
    } else {
        t
    };
    let r = folded & 0x3FF;
    assert(r < 0x400) by (bit_vector)
        requires
            r == folded & 0x3FFu32,
    ;
    r
}

proof fn lemma_power_bounded(j: nat)
    ensures
        register_power(j) < 0x400,
    decreases j,
{
    if j > 0 {
        let p = register_power((j - 1) as nat);
        let t = (p << 1u32) as u32;
        let f = if t & 0x400u32 != 0 {
            t ^ 0x769u32
        } else {
            t
        };
        assert(f & 0x3FFu32 < 0x400) by (bit_vector);
    }
}

/// Derives the register values that show an error in the current bit, by
/// running the register from x^0.
pub fn error_patterns() -> (r: Vec<u32>)
    ensures
        r@ == error_patterns_model(),
{
    let mut powers: Vec<u32> = Vec::new();
    let mut reg: u32 = 1;
    let mut j: usize = 0;
    while j < 31
        invariant
            j <= 31,
            reg == register_power(j as nat),
            powers@ == Seq::new(j as nat, |i: int| register_power(i as nat)),
        decreases 31 - j,
    {
        powers.push(reg);
        proof {
            lemma_power_bounded(j as nat);
        }
        reg = shift_register(reg);
        assert(powers@ =~= Seq::new((j + 1) as nat, |i: int| register_power(i as nat)));
        j += 1;
    }
    let top = powers[30];
    let mut patterns: Vec<u32> = Vec::new();
    patterns.push(top);
    let mut j: usize = 0;
    while j < 30
        invariant
            j <= 30,
            top == register_power(30),
            powers@ == Seq::new(31, |i: int| register_power(i as nat)),
            patterns@ == seq![register_power(30)] + Seq::new(
                j as nat,
                |i: int| register_power(30) ^ register_power(i as nat),
            ),
        decreases 30 - j,
    {
        patterns.push(top ^ powers[j]);
        assert(patterns@ =~= seq![register_power(30)] + Seq::new(
            (j + 1) as nat,
            |i: int| register_power(30) ^ register_power(i as nat),
        ));
        j += 1;
    }
    patterns
}

/// Whether `s` is one of `patterns`, which must be the error patterns.
fn is_error_pattern(patterns: &Vec<u32>, s: u32) -> (r: bool)
    requires
        patterns@ == error_patterns_model(),
    ensures
        r == error_patterns_model().contains(s),
{
    let mut i: usize = 0;
    while i < patterns.len()
        invariant
            patterns@ == error_patterns_model(),
            i <= patterns.len(),
            forall|k: int| 0 <= k < i ==> patterns@[k] != s,
        decreases patterns.len() - i,
    {
        if patterns[i] == s {
            return true;
        }
        i += 1;
    }
    false
}

/// Repairs a received word with the bit-serial decoder: up to two bit errors
/// among bits 31..1 are corrected, and the parity bits of the result are
/// recomputed from the corrected payload. Fails where the register is not
/// back to zero after the pass.
pub fn meggitt_repair(cw: u32) -> (r: Result<u32, ()>)
    ensures
        r == meggitt_repaired(cw),
{
    let start = calculate_syndrome(cw);
    if start == 0 {
        return Ok(cw);
    }
    let patterns = error_patterns();
    let top = patterns[0];
    proof {
        lemma_power_bounded(30);
    }
    let mut syn = start;
    let ghost e = encoded(cw);
    assert(syn < 0x400) by (bit_vector)
        requires
            syn == start,
            start == ((e ^ cw) >> 1u32) & 0x3FFu32,
    ;
    let mut word = cw;
    let mut t: u32 = 0;
    while t < 31
        invariant
            t <= 31,
            syn < 0x400,
            top == register_power(30),
            top < 0x400,
            patterns@ == error_patterns_model(),
            meggitt_run(syn, word, t as nat) == meggitt_run(start, cw, 0),
        decreases 31 - t,
    {
        if is_error_pattern(&patterns, syn) {
            word = word ^ high_bit(31 - t);
            assert(syn ^ top < 0x400) by (bit_vector)
                requires
                    syn < 0x400,
                    top < 0x400,
            ;
            syn = syn ^ top;
        }
        syn = shift_register(syn);
        t += 1;
    }
    if syn == 0 {
        Ok(bch_encode(word))
    } else {
        Err(())
    }
}

} // verus!

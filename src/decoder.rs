//! Repairing a received word by looking its syndrome up in the table.
use vstd::prelude::*;

use crate::encoder::{bch_encode, calculate_syndrome, high_bit};
use crate::layout::{encoded, syndrome};
use crate::syndrome_table::{
    enumerate_syndromes, entry_in_range, error_table, lemma_error_table, ErrorEntry,
};

verus! {

/// The first entry of `t`, from index `i` on, recorded for syndrome `s`.
pub open spec fn lookup(t: Seq<ErrorEntry>, s: u32, i: int) -> Option<ErrorEntry>
    decreases t.len() - i,
{
    if i < 0 || i >= t.len() {
        None
    } else if t[i].0 == s {
        Some(t[i])
    } else {
        lookup(t, s, i + 1)
    }
}

/// The bits that an entry says to flip.
pub open spec fn entry_mask(e: ErrorEntry) -> u32 {
    (1u32 << e.1) ^ match e.2 {
        Some(s) => 1u32 << s,
        None => 0u32,
    }
}

/// What repairing `cw` gives: `cw` itself where its syndrome is zero; where
/// the table records its syndrome, the encoding of `cw` with the recorded bits
/// flipped; otherwise failure.
pub open spec fn repaired(cw: u32) -> Result<u32, ()> {
    let s = syndrome(cw);
    if s == 0 {
        Ok(cw)
    } else {
        match lookup(error_table(), s, 0) {
            Some(e) => Ok(encoded(cw ^ entry_mask(e))),
            None => Err(()),
        }
    }
}

/// Repairs `cw` with the table `table`, which must be the syndrome table.
pub fn correct_with_table(table: &Vec<ErrorEntry>, cw: u32) -> (r: Result<u32, ()>)
    requires
        table@ == error_table(),
    ensures
        r == repaired(cw),
{
    let syn = calculate_syndrome(cw);
    if syn == 0 {
        return Ok(cw);
    }
    let mut i: usize = 0;
    while i < table.len()
        invariant
            table@ == error_table(),
            i <= table.len(),
            syn == syndrome(cw),
            syn != 0,
            lookup(table@, syn, 0) == lookup(table@, syn, i as int),
        decreases table.len() - i,
    {
        let (s, b, c) = table[i];
        if s == syn {
            proof {
                lemma_error_table();
                assert(entry_in_range(table@[i as int]));
            }
            let firstbit = high_bit(b);
            let secondbit = match c {
                Some(n) => high_bit(n),
                None => 0,
            };
            let corrected = cw ^ firstbit ^ secondbit;
            proof {
                let e = table@[i as int];
                assert(e == (s, b, c));
                assert(lookup(table@, syn, i as int) == Some(e));
                let m = entry_mask(e);
                assert(m == firstbit ^ secondbit);
                assert(corrected == cw ^ m) by (bit_vector)
                    requires
                        corrected == cw ^ firstbit ^ secondbit,
                        m == firstbit ^ secondbit,
                ;
            }
            return Ok(bch_encode(corrected));
        }
        i += 1;
    }
    Err(())
}

/// Repairs a received word: up to two bit errors among bits 31..1 are
/// corrected, and the parity bits of the result are recomputed from the
/// corrected payload. Fails where the syndrome is not one of a one-bit or
/// two-bit error.
pub fn bch_repair(cw: u32) -> (r: Result<u32, ()>)
    ensures
        r == repaired(cw),
{
    let table = enumerate_syndromes();
    correct_with_table(&table, cw)
}

} // verus!

//! Both decoders correct every error of one or two bits among bits 31..1.
//!
//! The syndrome is linear, and every such error has a syndrome of its own:
//! the table lists each error after every error with another syndrome, and
//! the syndrome register shows an error pattern exactly at the erroneous
//! bits.
use vstd::prelude::*;

use crate::decoder::{entry_mask, lookup, repaired};
use crate::laws::{lemma_encoded_syndrome_zero, lemma_parity_field};
use crate::meggitt::{
    error_patterns_model, meggitt_repaired, meggitt_run, register_power, register_shift,
};
use crate::layout::{
    bch_parity, division_step, encoded, is_codeword, long_division, ones, syndrome, with_ecc,
    PAYLOAD_MASK,
};
use crate::syndrome_table::{
    double_entries, double_entry, double_row, error_table, lemma_double_entries,
    lemma_double_entries_prefix, lemma_error_table, reference_word, single_entry, ErrorEntry,
};

verus! {

/// The syndrome of the word with only bit `k` set, for `k < 32`.
pub open spec fn bit_syndrome(k: u32) -> u32 {
    if k == 0 {
        0x000u32
    } else if k == 1 {
        0x001u32
    } else if k == 2 {
        0x002u32
    } else if k == 3 {
        0x004u32
    } else if k == 4 {
        0x008u32
    } else if k == 5 {
        0x010u32
    } else if k == 6 {
        0x020u32
    } else if k == 7 {
        0x040u32
    } else if k == 8 {
        0x080u32
    } else if k == 9 {
        0x100u32
    } else if k == 10 {
        0x200u32
    } else if k == 11 {
        0x369u32
    } else if k == 12 {
        0x1BBu32
    } else if k == 13 {
        0x376u32
    } else if k == 14 {
        0x185u32
    } else if k == 15 {
        0x30Au32
    } else if k == 16 {
        0x17Du32
    } else if k == 17 {
        0x2FAu32
    } else if k == 18 {
        0x29Du32
    } else if k == 19 {
        0x253u32
    } else if k == 20 {
        0x3CFu32
    } else if k == 21 {
        0x0F7u32
    } else if k == 22 {
        0x1EEu32
    } else if k == 23 {
        0x3DCu32
    } else if k == 24 {
        0x0D1u32
    } else if k == 25 {
        0x1A2u32
    } else if k == 26 {
        0x344u32
    } else if k == 27 {
        0x1E1u32
    } else if k == 28 {
        0x3C2u32
    } else if k == 29 {
        0x0EDu32
    } else if k == 30 {
        0x1DAu32
    } else {
        0x3B4u32
    }
}

/// The register after `m` steps of dividing the word with only its top bit
/// set, for `m <= 21`.
pub open spec fn top_bit_remainder(m: u32) -> u32 {
    if m == 0 {
        0x8000_0000u32
    } else if m == 1 {
        0xDA40_0000u32
    } else if m == 2 {
        0x6EC0_0000u32
    } else if m == 3 {
        0xDD80_0000u32
    } else if m == 4 {
        0x6140_0000u32
    } else if m == 5 {
        0xC280_0000u32
    } else if m == 6 {
        0x5F40_0000u32
    } else if m == 7 {
        0xBE80_0000u32
    } else if m == 8 {
        0xA740_0000u32
    } else if m == 9 {
        0x94C0_0000u32
    } else if m == 10 {
        0xF3C0_0000u32
    } else if m == 11 {
        0x3DC0_0000u32
    } else if m == 12 {
        0x7B80_0000u32
    } else if m == 13 {
        0xF700_0000u32
    } else if m == 14 {
        0x3440_0000u32
    } else if m == 15 {
        0x6880_0000u32
    } else if m == 16 {
        0xD100_0000u32
    } else if m == 17 {
        0x7840_0000u32
    } else if m == 18 {
        0xF080_0000u32
    } else if m == 19 {
        0x3B40_0000u32
    } else if m == 20 {
        0x7680_0000u32
    } else {
        0xED00_0000u32
    }
}

proof fn lemma_step_linear(a: u32, b: u32)
    by (bit_vector)
    ensures
        division_step(a ^ b) == division_step(a) ^ division_step(b),
{
}

proof fn lemma_division_linear(a: u32, b: u32, n: nat)
    ensures
        long_division(a ^ b, n) == long_division(a, n) ^ long_division(b, n),
    decreases n,
{
    if n > 0 {
        lemma_step_linear(a, b);
        lemma_division_linear(division_step(a), division_step(b), (n - 1) as nat);
    }
}

proof fn lemma_syndrome_formula(w: u32)
    ensures
        syndrome(w) == ((bch_parity(w) ^ w) >> 1u32) & 0x3FFu32,
{
    lemma_parity_field(w);
    let p = bch_parity(w);
    let e = with_ecc(w);
    let b = (ones(e) % 2) as u32;
    assert(encoded(w) == e | b);
    assert((((e | b) ^ w) >> 1u32) & 0x3FFu32 == ((p ^ w) >> 1u32) & 0x3FFu32) by (bit_vector)
        requires
            p & 0xFFFF_F801u32 == 0,
            e == (w & 0xFFFF_F800u32) | p,
            b <= 1,
    ;
}

/// The syndrome is linear: that of `a ^ b` is that of `a` XOR that of `b`.
pub proof fn lemma_syndrome_linear(a: u32, b: u32)
    ensures
        syndrome(a ^ b) == syndrome(a) ^ syndrome(b),
{
    lemma_syndrome_formula(a);
    lemma_syndrome_formula(b);
    lemma_syndrome_formula(a ^ b);
    let ma = a & PAYLOAD_MASK;
    let mb = b & PAYLOAD_MASK;
    assert((a ^ b) & 0xFFFF_F800u32 == ma ^ mb) by (bit_vector)
        requires
            ma == a & 0xFFFF_F800u32,
            mb == b & 0xFFFF_F800u32,
    ;
    lemma_division_linear(ma, mb, 21);
    let la = long_division(ma, 21);
    let lb = long_division(mb, 21);
    let pa = bch_parity(a);
    let pb = bch_parity(b);
    let pab = bch_parity(a ^ b);
    assert(pab == pa ^ pb) by (bit_vector)
        requires
            pab == (la ^ lb) >> 21u32,
            pa == la >> 21u32,
            pb == lb >> 21u32,
    ;
    assert(((pab ^ (a ^ b)) >> 1u32) & 0x3FFu32 == (((pa ^ a) >> 1u32) & 0x3FFu32) ^ (((pb ^ b)
        >> 1u32) & 0x3FFu32)) by (bit_vector)
        requires
            pab == pa ^ pb,
    ;
}

proof fn lemma_division_last_step(w: u32, n: nat)
    ensures
        long_division(w, n + 1) == division_step(long_division(w, n)),
    decreases n,
{
    if n == 0 {
        assert(long_division(division_step(w), 0) == division_step(w));
    } else {
        lemma_division_last_step(division_step(w), (n - 1) as nat);
    }
}

proof fn lemma_division_of_zero(n: nat)
    ensures
        long_division(0, n) == 0,
    decreases n,
{
    if n > 0 {
        assert(division_step(0) == 0) by (bit_vector);
        lemma_division_of_zero((n - 1) as nat);
    }
}

proof fn lemma_remainder_steps(m: u32)
    by (bit_vector)
    requires
        m < 21,
    ensures
        division_step(top_bit_remainder(m)) == top_bit_remainder((m + 1) as u32),
{
}

proof fn lemma_top_bit_division(m: u32)
    requires
        m <= 21,
    ensures
        long_division(0x8000_0000u32, m as nat) == top_bit_remainder(m),
    decreases m,
{
    if m > 0 {
        lemma_top_bit_division((m - 1) as u32);
        lemma_division_last_step(0x8000_0000u32, (m - 1) as nat);
        lemma_remainder_steps((m - 1) as u32);
    }
}

proof fn lemma_single_bit_division(p: u32, n: nat)
    requires
        11 <= p <= 31,
        n + p >= 31,
    ensures
        long_division(1u32 << p, n) == long_division(0x8000_0000u32, (n + p - 31) as nat),
    decreases 31 - p,
{
    if p == 31 {
        assert(1u32 << 31u32 == 0x8000_0000u32) by (bit_vector);
    } else {
        let q = (p + 1) as u32;
        assert(division_step(1u32 << p) == 1u32 << q) by (bit_vector)
            requires
                p < 31,
                q == p + 1,
        ;
        lemma_single_bit_division(q, (n - 1) as nat);
    }
}

/// The syndrome of a single set bit.
pub proof fn lemma_bit_syndrome(k: u32)
    requires
        k < 32,
    ensures
        syndrome(1u32 << k) == bit_syndrome(k),
{
    let w = 1u32 << k;
    lemma_syndrome_formula(w);
    if k <= 10 {
        assert(w & 0xFFFF_F800u32 == 0) by (bit_vector)
            requires
                w == 1u32 << k,
                k <= 10,
        ;
        lemma_division_of_zero(21);
        assert(0u32 >> 21u32 == 0) by (bit_vector);
        assert(((0u32 ^ w) >> 1u32) & 0x3FFu32 == bit_syndrome(k)) by (bit_vector)
            requires
                w == 1u32 << k,
                k <= 10,
        ;
    } else {
        assert(w & 0xFFFF_F800u32 == w) by (bit_vector)
            requires
                w == 1u32 << k,
                11 <= k < 32,
        ;
        lemma_single_bit_division(k, 21);
        lemma_top_bit_division((k - 10) as u32);
        let r = top_bit_remainder((k - 10) as u32);
        assert((((r >> 21u32) ^ w) >> 1u32) & 0x3FFu32 == bit_syndrome(k)) by (bit_vector)
            requires
                r == top_bit_remainder((k - 10) as u32),
                w == 1u32 << k,
                11 <= k < 32,
        ;
    }
}

proof fn lemma_singles_differ(k: u32, b: u32)
    by (bit_vector)
    requires
        1 <= k < 32,
        b < k,
    ensures
        bit_syndrome(b) != bit_syndrome(k),
{
}

proof fn lemma_single_differs_from_pair(k: u32, j: u32, b: u32)
    by (bit_vector)
    requires
        1 <= j < k < 32,
        b < 32,
    ensures
        bit_syndrome(b) != bit_syndrome(k) ^ bit_syndrome(j),
{
}

proof fn lemma_pairs_differ(k: u32, j: u32, f: u32, g: u32)
    by (bit_vector)
    requires
        1 <= j < k < 32,
        g < f < k,
    ensures
        bit_syndrome(f) ^ bit_syndrome(g) != bit_syndrome(k) ^ bit_syndrome(j),
{
}

proof fn lemma_row_pairs_differ(k: u32, j: u32, g: u32)
    by (bit_vector)
    requires
        1 <= j < k < 32,
        g < j,
    ensures
        bit_syndrome(k) ^ bit_syndrome(g) != bit_syndrome(k) ^ bit_syndrome(j),
{
}

proof fn lemma_codeword_plus(c: u32, x: u32)
    requires
        syndrome(c) == 0,
    ensures
        syndrome(c ^ x) == syndrome(x),
{
    lemma_syndrome_linear(c, x);
    let s = syndrome(x);
    assert(0u32 ^ s == s) by (bit_vector);
}

proof fn lemma_single_entry_syndrome(b: u32)
    requires
        b < 32,
    ensures
        single_entry(b).0 == bit_syndrome(b),
{
    lemma_encoded_syndrome_zero(0x1234_0000);
    lemma_codeword_plus(reference_word(), 1u32 << b);
    lemma_bit_syndrome(b);
}

proof fn lemma_double_entry_syndrome(f: u32, g: u32)
    requires
        g < f < 32,
    ensures
        double_entry(f, g).0 == bit_syndrome(f) ^ bit_syndrome(g),
{
    let x = (1u32 << f) | (1u32 << g);
    assert(x == (1u32 << f) ^ (1u32 << g)) by (bit_vector)
        requires
            x == (1u32 << f) | (1u32 << g),
            g < f < 32,
    ;
    lemma_encoded_syndrome_zero(0x1234_0000);
    lemma_codeword_plus(reference_word(), x);
    lemma_syndrome_linear(1u32 << f, 1u32 << g);
    lemma_bit_syndrome(f);
    lemma_bit_syndrome(g);
}

proof fn lemma_lookup_finds(t: Seq<ErrorEntry>, s: u32, idx: int, i: int)
    requires
        0 <= i <= idx < t.len(),
        t[idx].0 == s,
        forall|j: int| i <= j < idx ==> (#[trigger] t[j]).0 != s,
    ensures
        lookup(t, s, i) == Some(t[idx]),
    decreases idx - i,
{
    if i < idx {
        lemma_lookup_finds(t, s, idx, i + 1);
    }
}

/// A codeword with one of its bits 31..1 flipped is repaired to the
/// codeword.
pub proof fn lemma_corrects_single_error(c: u32, k: u32)
    requires
        is_codeword(c),
        1 <= k < 32,
    ensures
        repaired(c ^ (1u32 << k)) == Ok::<u32, ()>(c),
{
    let w = c ^ (1u32 << k);
    lemma_encoded_syndrome_zero(c);
    lemma_codeword_plus(c, 1u32 << k);
    lemma_bit_syndrome(k);
    let s = bit_syndrome(k);
    let t = error_table();
    lemma_error_table();
    lemma_single_entry_syndrome(k);
    assert(t[k as int] == single_entry(k));
    assert forall|b: int| 0 <= b < k implies (#[trigger] t[b]).0 != s by {
        assert(t[b] == single_entry(b as u32));
        lemma_single_entry_syndrome(b as u32);
        lemma_singles_differ(k, b as u32);
    }
    lemma_lookup_finds(t, s, k as int, 0);
    lemma_singles_differ(k, 0);
    assert(w ^ ((1u32 << k) ^ 0u32) == c) by (bit_vector)
        requires
            w == c ^ (1u32 << k),
    ;
}

/// A codeword with two distinct bits `j < k` among bits 31..1 flipped is
/// repaired to the codeword.
pub proof fn lemma_corrects_double_error(c: u32, j: u32, k: u32)
    requires
        is_codeword(c),
        1 <= j < k < 32,
    ensures
        repaired(c ^ (1u32 << j) ^ (1u32 << k)) == Ok::<u32, ()>(c),
{
    let e = (1u32 << k) ^ (1u32 << j);
    let w = c ^ (1u32 << j) ^ (1u32 << k);
    assert(w == c ^ e) by (bit_vector)
        requires
            w == c ^ (1u32 << j) ^ (1u32 << k),
            e == (1u32 << k) ^ (1u32 << j),
    ;
    lemma_encoded_syndrome_zero(c);
    lemma_codeword_plus(c, e);
    lemma_syndrome_linear(1u32 << k, 1u32 << j);
    lemma_bit_syndrome(k);
    lemma_bit_syndrome(j);
    let s = bit_syndrome(k) ^ bit_syndrome(j);
    assert(syndrome(w) == s);

    let t = error_table();
    lemma_error_table();
    let kn = k as nat;
    let below = double_entries(kn);
    let upto = double_entries(kn + 1);
    let row = double_row(k);
    lemma_double_entries(kn);
    lemma_double_entries_prefix(kn + 1, 32);
    assert(upto == below + row);
    let lk = below.len() as int;
    let idx = 32 + lk + j;
    assert(t[idx] == double_entries(32)[lk + j]);
    assert(t[idx] == upto[lk + j]);
    assert(t[idx] == double_entry(k, j));
    lemma_double_entry_syndrome(k, j);
    assert forall|i: int| 0 <= i < idx implies (#[trigger] t[i]).0 != s by {
        if i < 32 {
            assert(t[i] == single_entry(i as u32));
            lemma_single_entry_syndrome(i as u32);
            lemma_single_differs_from_pair(k, j, i as u32);
        } else if i < 32 + lk {
            assert(t[i] == double_entries(32)[i - 32]);
            assert(t[i] == upto[i - 32]);
            assert(t[i] == below[i - 32]);
            let f = below[i - 32].1;
            let g = below[i - 32].2->0;
            assert(below[i - 32] == double_entry(f, g));
            lemma_double_entry_syndrome(f, g);
            lemma_pairs_differ(k, j, f, g);
        } else {
            let g = (i - 32 - lk) as u32;
            assert(t[i] == upto[i - 32]);
            assert(t[i] == row[i - 32 - lk]);
            assert(t[i] == double_entry(k, g));
            lemma_double_entry_syndrome(k, g);
            lemma_row_pairs_differ(k, j, g);
        }
    }
    lemma_lookup_finds(t, s, idx, 0);
    lemma_single_differs_from_pair(k, j, 0);
    assert(entry_mask(double_entry(k, j)) == e);
    assert(w ^ e == c) by (bit_vector)
        requires
            w == c ^ e,
    ;
}

proof fn lemma_shift_bit_syndrome(k: u32)
    by (bit_vector)
    requires
        1 <= k < 31,
    ensures
        register_shift(bit_syndrome(k)) == bit_syndrome((k + 1) as u32),
{
}

proof fn lemma_bit_syndrome_bounded(k: u32)
    by (bit_vector)
    ensures
        bit_syndrome(k) < 0x400,
{
}

proof fn lemma_shift_linear(a: u32, b: u32)
    by (bit_vector)
    requires
        a < 0x400,
        b < 0x400,
    ensures
        register_shift(a ^ b) == register_shift(a) ^ register_shift(b),
        register_shift(0) == 0,
{
}

/// The register holding x^j holds the syndrome of bit `j + 1`.
pub proof fn lemma_power_syndrome(j: nat)
    requires
        j < 31,
    ensures
        register_power(j) == bit_syndrome((j + 1) as u32),
    decreases j,
{
    if j > 0 {
        lemma_power_syndrome((j - 1) as nat);
        lemma_shift_bit_syndrome(j as u32);
    }
}

proof fn lemma_patterns(i: int)
    requires
        0 <= i < 31,
    ensures
        error_patterns_model().len() == 31,
        i == 0 ==> error_patterns_model()[i] == bit_syndrome(31),
        i > 0 ==> error_patterns_model()[i] == bit_syndrome(31) ^ bit_syndrome(i as u32),
{
    lemma_power_syndrome(30);
    if i > 0 {
        lemma_power_syndrome((i - 1) as nat);
    }
}

proof fn lemma_zero_not_pattern()
    ensures
        !error_patterns_model().contains(0),
{
    assert forall|i: int| 0 <= i < error_patterns_model().len() implies #[trigger] error_patterns_model()[i]
        != 0 by {
        lemma_patterns(i);
        if i == 0 {
            lemma_singles_differ(31, 0);
        } else {
            lemma_single_differs_from_pair(31, i as u32, 0);
        }
    }
}

proof fn lemma_single_not_pattern(a: u32)
    requires
        1 <= a <= 30,
    ensures
        !error_patterns_model().contains(bit_syndrome(a)),
{
    assert forall|i: int| 0 <= i < error_patterns_model().len() implies #[trigger] error_patterns_model()[i]
        != bit_syndrome(a) by {
        lemma_patterns(i);
        if i == 0 {
            lemma_singles_differ(31, a);
        } else {
            lemma_single_differs_from_pair(31, i as u32, a);
        }
    }
}

proof fn lemma_pair_not_pattern(a: u32, b: u32)
    requires
        1 <= b < a <= 30,
    ensures
        !error_patterns_model().contains(bit_syndrome(a) ^ bit_syndrome(b)),
{
    assert forall|i: int| 0 <= i < error_patterns_model().len() implies #[trigger] error_patterns_model()[i]
        != bit_syndrome(a) ^ bit_syndrome(b) by {
        lemma_patterns(i);
        if i == 0 {
            lemma_single_differs_from_pair(a, b, 31);
        } else {
            lemma_pairs_differ(31, i as u32, a, b);
        }
    }
}

proof fn lemma_run_clean(word: u32, t: nat)
    requires
        t <= 31,
    ensures
        meggitt_run(0, word, t) == (0u32, word),
    decreases 31 - t,
{
    if t < 31 {
        lemma_zero_not_pattern();
        lemma_shift_linear(0, 0);
        lemma_run_clean(word, t + 1);
    }
}

proof fn lemma_run_single(k: u32, t: nat, word: u32)
    requires
        1 <= k,
        k + t <= 31,
    ensures
        meggitt_run(bit_syndrome((k + t) as u32), word, t) == (0u32, word ^ (1u32 << k)),
    decreases 31 - t,
{
    let a = (k + t) as u32;
    let s = bit_syndrome(a);
    if a == 31 {
        lemma_patterns(0);
        assert(error_patterns_model().contains(s));
        lemma_power_syndrome(30);
        assert(s ^ s == 0) by (bit_vector);
        lemma_shift_linear(0, 0);
        assert((31 - t) as u32 == k);
        lemma_run_clean(word ^ (1u32 << k), t + 1);
    } else {
        lemma_single_not_pattern(a);
        lemma_shift_bit_syndrome(a);
        assert((k + (t + 1)) as u32 == (a + 1) as u32);
        lemma_run_single(k, t + 1, word);
    }
}

proof fn lemma_run_double(k: u32, j: u32, t: nat, word: u32)
    requires
        1 <= j < k,
        k + t <= 31,
    ensures
        meggitt_run(bit_syndrome((k + t) as u32) ^ bit_syndrome((j + t) as u32), word, t) == (
            0u32,
            word ^ (1u32 << k) ^ (1u32 << j),
        ),
    decreases 31 - t,
{
    let a = (k + t) as u32;
    let b = (j + t) as u32;
    let s = bit_syndrome(a) ^ bit_syndrome(b);
    if a == 31 {
        lemma_patterns(b as int);
        assert(error_patterns_model()[b as int] == s);
        assert(error_patterns_model().contains(s));
        lemma_power_syndrome(30);
        let sa = bit_syndrome(a);
        let sb = bit_syndrome(b);
        assert(sa ^ sb ^ sa == sb) by (bit_vector);
        lemma_shift_bit_syndrome(b);
        assert((31 - t) as u32 == k);
        assert((j + (t + 1)) as u32 == (b + 1) as u32);
        lemma_run_single(j, t + 1, word ^ (1u32 << k));
    } else {
        lemma_pair_not_pattern(a, b);
        lemma_bit_syndrome_bounded(a);
        lemma_bit_syndrome_bounded(b);
        lemma_shift_linear(bit_syndrome(a), bit_syndrome(b));
        lemma_shift_bit_syndrome(a);
        lemma_shift_bit_syndrome(b);
        assert((k + (t + 1)) as u32 == (a + 1) as u32);
        assert((j + (t + 1)) as u32 == (b + 1) as u32);
        lemma_run_double(k, j, t + 1, word);
    }
}

/// The bit-serial decoder repairs a codeword with one of its bits 31..1
/// flipped to the codeword.
pub proof fn lemma_meggitt_corrects_single_error(c: u32, k: u32)
    requires
        is_codeword(c),
        1 <= k < 32,
    ensures
        meggitt_repaired(c ^ (1u32 << k)) == Ok::<u32, ()>(c),
{
    let w = c ^ (1u32 << k);
    lemma_encoded_syndrome_zero(c);
    lemma_codeword_plus(c, 1u32 << k);
    lemma_bit_syndrome(k);
    lemma_singles_differ(k, 0);
    assert((k + 0nat) as u32 == k);
    lemma_run_single(k, 0, w);
    assert(w ^ (1u32 << k) == c) by (bit_vector)
        requires
            w == c ^ (1u32 << k),
    ;
}

/// The bit-serial decoder repairs a codeword with two distinct bits `j < k`
/// among bits 31..1 flipped to the codeword.
pub proof fn lemma_meggitt_corrects_double_error(c: u32, j: u32, k: u32)
    requires
        is_codeword(c),
        1 <= j < k < 32,
    ensures
        meggitt_repaired(c ^ (1u32 << j) ^ (1u32 << k)) == Ok::<u32, ()>(c),
{
    let e = (1u32 << k) ^ (1u32 << j);
    let w = c ^ (1u32 << j) ^ (1u32 << k);
    assert(w == c ^ e) by (bit_vector)
        requires
            w == c ^ (1u32 << j) ^ (1u32 << k),
            e == (1u32 << k) ^ (1u32 << j),
    ;
    lemma_encoded_syndrome_zero(c);
    lemma_codeword_plus(c, e);
    lemma_syndrome_linear(1u32 << k, 1u32 << j);
    lemma_bit_syndrome(k);
    lemma_bit_syndrome(j);
    lemma_single_differs_from_pair(k, j, 0);
    assert((k + 0nat) as u32 == k && (j + 0nat) as u32 == j);
    lemma_run_double(k, j, 0, w);
    assert(w ^ (1u32 << k) ^ (1u32 << j) == c) by (bit_vector)
        requires
            w == c ^ (1u32 << j) ^ (1u32 << k),
    ;
}

/// The two decoders agree on every word whose syndrome is zero.
pub proof fn lemma_decoders_agree_on_valid(cw: u32)
    requires
        syndrome(cw) == 0,
    ensures
        meggitt_repaired(cw) == repaired(cw),
{
}

/// The two decoders agree on a codeword with one of its bits 31..1 flipped.
pub proof fn lemma_decoders_agree_on_single_error(c: u32, k: u32)
    requires
        is_codeword(c),
        1 <= k < 32,
    ensures
        meggitt_repaired(c ^ (1u32 << k)) == repaired(c ^ (1u32 << k)),
{
    lemma_corrects_single_error(c, k);
    lemma_meggitt_corrects_single_error(c, k);
}

/// The two decoders agree on a codeword with two distinct bits among bits
/// 31..1 flipped.
pub proof fn lemma_decoders_agree_on_double_error(c: u32, j: u32, k: u32)
    requires
        is_codeword(c),
        1 <= j < k < 32,
    ensures
        meggitt_repaired(c ^ (1u32 << j) ^ (1u32 << k)) == repaired(c ^ (1u32 << j) ^ (1u32 << k)),
{
    lemma_corrects_double_error(c, j, k);
    lemma_meggitt_corrects_double_error(c, j, k);
}

} // verus!

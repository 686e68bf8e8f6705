//! The table from syndrome to the one or two bit positions to correct.
//!
//! It is built by flipping every single bit and every pair of distinct bits
//! of one codeword and recording the syndrome that results.
use vstd::prelude::*;

use crate::encoder::{bch_encode, calculate_syndrome, high_bit};
use crate::layout::{encoded, syndrome};

verus! {

/// A table entry: a syndrome, the bit to flip, and a second bit to flip for
/// a two-bit error.
pub type ErrorEntry = (u32, u32, Option<u32>);

/// The codeword whose corruptions fill the table; any codeword would do.
pub open spec fn reference_word() -> u32 {
    encoded(0x1234_0000)
}

/// The entry for an error in bit `b` alone.
pub open spec fn single_entry(b: u32) -> ErrorEntry {
    (syndrome(reference_word() ^ (1u32 << b)), b, None)
}

/// The entry for errors in bits `f` and `s`.
pub open spec fn double_entry(f: u32, s: u32) -> ErrorEntry {
    (syndrome(reference_word() ^ ((1u32 << f) | (1u32 << s))), f, Some(s))
}

/// Entries for single errors in bits `0..n`.
pub open spec fn single_entries(n: nat) -> Seq<ErrorEntry> {
    Seq::new(n, |b: int| single_entry(b as u32))
}

/// Entries for errors in bit `f` and one lower bit, lowest first.
pub open spec fn double_row(f: u32) -> Seq<ErrorEntry> {
    Seq::new(f as nat, |s: int| double_entry(f, s as u32))
}

/// Entries for errors in two distinct bits below `n`, by higher bit, then
/// by lower bit.
pub open spec fn double_entries(n: nat) -> Seq<ErrorEntry>
    decreases n,
{
    if n == 0 {
        Seq::empty()
    } else {
        double_entries((n - 1) as nat) + double_row((n - 1) as u32)
    }
}

/// The whole table: every single-bit error, then every two-bit error.
pub open spec fn error_table() -> Seq<ErrorEntry> {
    single_entries(32) + double_entries(32)
}

/// Whether the bit positions of an entry name bits of a word, the second
/// below the first.
pub open spec fn entry_in_range(e: ErrorEntry) -> bool {
    &&& e.1 < 32
    &&& match e.2 {
        Some(s) => s < e.1,
        None => true,
    }
}

/// The entries for two-bit errors below bit `n`: how many there are, and
/// that each is the entry of its two bits.
pub proof fn lemma_double_entries(n: nat)
    requires
        n <= 32,
    ensures
        2 * double_entries(n).len() == n * (n - 1),
        forall|i: int|
            0 <= i < double_entries(n).len() ==> #[trigger] double_entries(n)[i].1 < n
                && entry_in_range(double_entries(n)[i]) && double_entries(n)[i].2 is Some
                && double_entries(n)[i] == double_entry(
                double_entries(n)[i].1,
                double_entries(n)[i].2->0,
            ),
    decreases n,
{
    if n == 0 {
        assert(double_entries(n).len() == 0);
    } else {
        let m = (n - 1) as nat;
        lemma_double_entries(m);
        assert(m * (m - 1) + 2 * m == n * (n - 1)) by (nonlinear_arith)
            requires
                m == n - 1,
                n >= 1,
        ;
        let prev = double_entries(m);
        let row = double_row(m as u32);
        assert(double_entries(n) == prev + row);
        assert(row.len() == m);
        assert forall|i: int| 0 <= i < double_entries(n).len() implies #[trigger] double_entries(
            n,
        )[i].1 < n && entry_in_range(double_entries(n)[i]) && double_entries(n)[i].2 is Some
            && double_entries(n)[i] == double_entry(
            double_entries(n)[i].1,
            double_entries(n)[i].2->0,
        ) by {
            if i < prev.len() {
                assert(double_entries(n)[i] == prev[i]);
            } else {
                assert(double_entries(n)[i] == row[i - prev.len()]);
            }
        }
    }
}

/// The entries for two-bit errors below bit `n` begin those below bit `m`.
pub proof fn lemma_double_entries_prefix(n: nat, m: nat)
    requires
        n <= m,
    ensures
        double_entries(n).len() <= double_entries(m).len(),
        forall|i: int|
            0 <= i < double_entries(n).len() ==> double_entries(m)[i] == #[trigger] double_entries(
                n,
            )[i],
    decreases m - n,
{
    if n < m {
        let p = (m - 1) as nat;
        lemma_double_entries_prefix(n, p);
        assert(double_entries(m) == double_entries(p) + double_row(p as u32));
    }
}

/// The table has one entry per single-bit and per two-bit error of a word,
/// and each names bits of a word.
pub proof fn lemma_error_table()
    ensures
        error_table().len() == 528,
        forall|i: int| 0 <= i < error_table().len() ==> entry_in_range(#[trigger] error_table()[i]),
{
    lemma_double_entries(32);
    assert forall|i: int| 0 <= i < error_table().len() implies entry_in_range(
        #[trigger] error_table()[i],
    ) by {
        if i < 32 {
            assert(error_table()[i] == single_entry(i as u32));
        } else {
            assert(error_table()[i] == double_entries(32)[i - 32]);
        }
    }
}

/// The number of single-bit and two-bit errors of a 32-bit word.
pub fn count_bit_errors() -> (r: usize)
    ensures
        r == error_table().len(),
        r == 528,
{
    proof {
        lemma_error_table();
    }
    let single_bits: usize = 32;
    let double_bits: usize = (31 * 32) / 2;
    double_bits + single_bits
}

/// Builds the syndrome table.
pub fn enumerate_syndromes() -> (r: Vec<ErrorEntry>)
    ensures
        r@ == error_table(),
{
    let example_word = bch_encode(0x1234_0000);
    let mut output: Vec<ErrorEntry> = Vec::with_capacity(count_bit_errors());

    let mut single_bit: u32 = 0;
    while single_bit < 32
        invariant
            single_bit <= 32,
            example_word == reference_word(),
            output@ == single_entries(single_bit as nat),
        decreases 32 - single_bit,
    {
        let error = high_bit(single_bit);
        let corrupted = example_word ^ error;
        let syndrome = calculate_syndrome(corrupted);
        output.push((syndrome, single_bit, None));
        assert(output@ =~= single_entries((single_bit + 1) as nat));
        single_bit += 1;
    }

    let mut first_bit: u32 = 0;
    while first_bit < 32
        invariant
            first_bit <= 32,
            example_word == reference_word(),
            output@ == single_entries(32) + double_entries(first_bit as nat),
        decreases 32 - first_bit,
    {
        let mut second_bit: u32 = 0;
        while second_bit < first_bit
            invariant
                second_bit <= first_bit < 32,
                example_word == reference_word(),
                output@ == single_entries(32) + double_entries(first_bit as nat) + double_row(
                    first_bit,
                ).take(second_bit as int),
            decreases first_bit - second_bit,
        {
            let error = high_bit(first_bit) | high_bit(second_bit);
            let corrupted = example_word ^ error;
            let syndrome = calculate_syndrome(corrupted);
            output.push((syndrome, first_bit, Some(second_bit)));
            assert(double_row(first_bit).take(second_bit + 1) =~= double_row(first_bit).take(
                second_bit as int,
            ).push(double_entry(first_bit, second_bit)));
            second_bit += 1;
        }
        assert(double_row(first_bit).take(first_bit as int) =~= double_row(first_bit));
        assert(double_entries((first_bit + 1) as nat) == double_entries(first_bit as nat)
            + double_row(first_bit));
        assert(output@ =~= single_entries(32) + double_entries((first_bit + 1) as nat));
        first_bit += 1;
    }
    output
}

} // verus!

use bch_codec::decoder::correct_with_table;
use bch_codec::encoder::{
    calculate_syndrome, get_bch_code, high_bit, is_bit_set, low_bits_mask, parity_of,
};
use bch_codec::meggitt::{error_patterns, meggitt_repair, shift_register};
use bch_codec::syndrome_table::{count_bit_errors, enumerate_syndromes};
use bch_codec::{bch_encode, bch_repair};

// The idle and sync codewords of the paging protocol.
const TEST_CWS: [u32; 2] = [0x7A89C197u32, 0x7CD215D8u32];

#[test]
fn test_bch_sanity() {
    for n in 0..TEST_CWS.len() {
        assert_eq!(
            bch_encode(TEST_CWS[n]),
            TEST_CWS[n],
            "testCW index {}: {:00x}",
            n,
            TEST_CWS[n]
        );
    }
}

#[test]
fn test_bch_single_bit_errors() {
    for n in 0..TEST_CWS.len() {
        let original_cw: u32 = TEST_CWS[n];
        let mut mask: u32 = 0x80000000;
        while mask > 0 {
            let damaged_cw = original_cw ^ mask;
            let result = bch_repair(damaged_cw);
            assert!(
                result.is_ok(),
                "origCW:{:08X}, errormask:{:08X}",
                original_cw,
                mask
            );
            let repaired_cw = result.unwrap();
            // The parity bit itself is not corrected.
            assert_eq!(
                original_cw & 0xFFFFFFFE,
                repaired_cw & 0xFFFFFFFE,
                "origCW:{:08X}, errormask:{:08X}",
                original_cw,
                mask
            );
            mask >>= 1;
        }
    }
}

#[test]
fn test_bch_double_bit_errors() {
    let mut num_tests = 0;
    for n in 0..TEST_CWS.len() {
        let original_cw = TEST_CWS[n];
        let mut mask1: u32 = 0x80000000;
        while mask1 > 1 {
            let mut mask2 = mask1 >> 1;
            while mask2 > 1 {
                let damaged_cw = original_cw ^ mask1 ^ mask2;
                let result = bch_repair(damaged_cw);
                assert!(
                    result.is_ok(),
                    "origCW:{:08X}, errormask:{:08X}",
                    original_cw,
                    mask1 ^ mask2
                );
                let repaired_cw = result.unwrap();
                assert_eq!(
                    original_cw & 0xFFFFFFFE,
                    repaired_cw & 0xFFFFFFFE,
                    "origCW:{:08X}, errormask:{:08X}",
                    original_cw,
                    mask1 ^ mask2
                );
                num_tests += 1;
                mask2 >>= 1;
            }
            mask1 >>= 1;
        }
    }
    println!("\t{} tests finished\n", num_tests);
}

#[test]
fn encode_rebuilds_reference_parity() {
    assert_eq!(bch_encode(0x7A89C197 & 0xFFFFF800), 0x7A89C197);
    assert_eq!(bch_encode(0x7CD215D8 & 0xFFFFF800), 0x7CD215D8);
}

#[test]
fn encode_ignores_low_bits() {
    assert_eq!(bch_encode(0x7A89C000), 0x7A89C197);
    assert_eq!(bch_encode(0x7A89C7FF), 0x7A89C197);
    assert_eq!(bch_encode(0x1234_0000), 0x1234_078B);
}

#[test]
fn encode_edge_payloads() {
    assert_eq!(bch_encode(0), 0);
    assert_eq!(bch_encode(0xFFFF_FFFF), 0xFFFF_FFFF);
}

#[test]
fn encode_is_idempotent_on_values() {
    for x in [0u32, 1, 0x1234_5678, 0xDEAD_BEEF, 0x8000_0000, 0xFFFF_F800] {
        let once = bch_encode(x);
        assert_eq!(bch_encode(once), once);
    }
}

#[test]
fn encoded_words_have_zero_syndrome() {
    for p in [0u32, 0x0000_0800, 0x1F_FFFF << 11, 0x0A5A5 << 11, 0x1_0000 << 11] {
        let c = bch_encode(p);
        assert_eq!(bch_encode(c) ^ c, 0);
        assert_eq!(calculate_syndrome(c), 0);
    }
}

#[test]
fn encoded_words_have_even_parity() {
    for x in [3u32, 0x1234_5678, 0xDEAD_BEEF, 0x7A89C197, 0x0000_0800] {
        assert_eq!(bch_encode(x).count_ones() % 2, 0);
    }
}

#[test]
fn bch_code_of_idle_word() {
    assert_eq!(get_bch_code(0x7A89C197), 0x196);
    assert_eq!(get_bch_code(0x7A89C000), 0x196);
    assert_eq!(get_bch_code(0), 0);
}

#[test]
fn syndromes_of_single_errors() {
    assert_eq!(calculate_syndrome(0x7A89C197), 0);
    assert_eq!(calculate_syndrome(0x7A89C197 ^ (1 << 5)), 0x010);
    assert_eq!(calculate_syndrome(0x7A89C197 ^ (1 << 20)), 0x3CF);
    assert_eq!(calculate_syndrome(0x7A89C197 ^ 1), 0);
}

#[test]
fn syndrome_table_layout() {
    let table = enumerate_syndromes();
    assert_eq!(count_bit_errors(), 528);
    assert_eq!(table.len(), 528);
    assert_eq!(table[0], (0, 0, None));
    assert_eq!(table[5], (0x010, 5, None));
    assert_eq!(table[32], (0x001, 1, Some(0)));
    assert_eq!(table[40], (0x00A, 4, Some(2)));
    assert_eq!(table[527], (0x3B4 ^ 0x1DA, 31, Some(30)));
}

#[test]
fn repair_leaves_valid_word_alone() {
    assert_eq!(bch_repair(0x7A89C197), Ok(0x7A89C197));
    // An error in the overall parity bit alone leaves the syndrome at zero.
    assert_eq!(bch_repair(0x7A89C196), Ok(0x7A89C196));
}

#[test]
fn repair_restores_exact_codeword() {
    let c = 0x7CD215D8u32;
    assert_eq!(bch_repair(c ^ (1 << 31)), Ok(c));
    assert_eq!(bch_repair(c ^ (1 << 1)), Ok(c));
    assert_eq!(bch_repair(c ^ (1 << 17) ^ (1 << 3)), Ok(c));
    let d = bch_encode(0xDEAD_BEEF);
    assert_eq!(bch_repair(d ^ (1 << 30) ^ (1 << 12)), Ok(d));
}

#[test]
fn repair_rejects_uncorrectable_word() {
    let c = 0x7A89C197u32;
    assert_eq!(bch_repair(c ^ (1 << 1) ^ (1 << 2) ^ (1 << 3)), Err(()));
}

#[test]
fn three_bit_error_may_be_miscorrected() {
    let c = 0x7A89C197u32;
    let r = bch_repair(c ^ (1 << 1) ^ (1 << 2) ^ (1 << 5));
    assert_eq!(r, Ok(0x7A19C1B0));
    assert_ne!(r, Ok(c));
}

#[test]
fn repair_with_prebuilt_table_matches() {
    let table = enumerate_syndromes();
    let c = 0x7A89C197u32;
    for w in [c, c ^ 4, c ^ (1 << 29) ^ (1 << 7), c ^ 0xE] {
        assert_eq!(correct_with_table(&table, w), bch_repair(w));
    }
}

#[test]
fn bit_helpers() {
    assert_eq!(low_bits_mask(10), 0x3FF);
    assert_eq!(low_bits_mask(0), 0);
    assert_eq!(high_bit(31), 0x8000_0000);
    assert!(is_bit_set(0x7A89C197, 31) == false);
    assert!(is_bit_set(0x7A89C197, 30));
    assert_eq!(parity_of(0b1011), 1);
    assert_eq!(parity_of(0xFFFF_FFFF), 0);
}

#[test]
fn meggitt_matches_table_within_two_errors() {
    let others = [bch_encode(0xDEAD_BEEF), bch_encode(0x0000_0800)];
    for c in TEST_CWS.iter().chain(others.iter()).copied() {
        assert_eq!(meggitt_repair(c), Ok(c));
        for k in 1..32 {
            let w = c ^ (1u32 << k);
            assert_eq!(meggitt_repair(w), Ok(c));
            assert_eq!(meggitt_repair(w), bch_repair(w));
            for j in 1..k {
                let w2 = w ^ (1u32 << j);
                assert_eq!(meggitt_repair(w2), Ok(c));
                assert_eq!(meggitt_repair(w2), bch_repair(w2));
            }
        }
    }
}

#[test]
fn meggitt_rejects_uncorrectable_word() {
    let c = 0x7A89C197u32;
    assert_eq!(meggitt_repair(c ^ 0b1110), Err(()));
    assert_eq!(meggitt_repair(c ^ 1), Ok(c ^ 1));
}

#[test]
fn meggitt_three_bit_error_may_be_miscorrected() {
    let c = 0x7A89C197u32;
    assert_eq!(meggitt_repair(c ^ (1 << 1) ^ (1 << 2) ^ (1 << 5)), Ok(0x7A19C1B0));
}

#[test]
fn syndrome_register_steps() {
    assert_eq!(shift_register(0x001), 0x002);
    assert_eq!(shift_register(0x200), 0x369);
    assert_eq!(shift_register(0x3B4), 0x001);
    let patterns = error_patterns();
    assert_eq!(patterns.len(), 31);
    assert_eq!(patterns[0], 0x3B4);
    assert_eq!(patterns[1], 0x3B5);
    assert_eq!(patterns[30], 0x26E);
}

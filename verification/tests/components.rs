use divans::copy::get_dist_slot;
use divans::interface::{round_up_mod_4, BillingDesignation, DivansResult};
use divans::mnemonic::{distance_mnemonic_code, get_distance_from_mnemonic_code};
use divans::probability::{Cdf16, NibbleCoder, Speed};

#[test]
fn dist_slot_direct_and_boundary_values() {
    assert_eq!(get_dist_slot(1), 0);
    assert_eq!(get_dist_slot(2), 1);
    assert_eq!(get_dist_slot(3), 2);
    assert_eq!(get_dist_slot(4), 3);
    assert_eq!(get_dist_slot(5), 4);
    assert_eq!(get_dist_slot(6), 4);
    assert_eq!(get_dist_slot(7), 5);
    assert_eq!(get_dist_slot(8), 5);
    assert_eq!(get_dist_slot(9), 6);
}

#[test]
fn dist_slot_logarithmic_values() {
    // slot = 2k + next bit below the leading bit of distance - 1
    assert_eq!(get_dist_slot(100), 13);
    assert_eq!(get_dist_slot((1 << 20) + 1), 40);
    assert_eq!(get_dist_slot(u32::MAX), 63);
}

#[test]
fn round_up_mod_4_values() {
    assert_eq!(round_up_mod_4(1), 4);
    assert_eq!(round_up_mod_4(4), 4);
    assert_eq!(round_up_mod_4(5), 8);
    assert_eq!(round_up_mod_4(29), 32);
    assert_eq!(round_up_mod_4(60), 60);
}

#[test]
fn mnemonic_code_is_inverse_of_lookup() {
    let lru = [100u32, 50, 25, 7];
    for code in 0u8..15 {
        let (dist, ok, _slot) = get_distance_from_mnemonic_code(&lru, code, 4);
        if ok {
            let found = distance_mnemonic_code(&lru, dist, 4);
            assert!(found <= code);
            let (dist2, ok2, _slot2) = get_distance_from_mnemonic_code(&lru, found, 4);
            assert!(ok2);
            assert_eq!(dist2, dist);
        }
    }
}

#[test]
fn mnemonic_code_sentinel_when_absent() {
    let lru = [100u32, 50, 25, 7];
    assert_eq!(distance_mnemonic_code(&lru, 9999, 4), 15);
    assert_eq!(distance_mnemonic_code(&lru, 100, 4), 0);
    assert_eq!(distance_mnemonic_code(&lru, 50, 4), 1);
    // offsets of the two most recent distances
    assert_eq!(distance_mnemonic_code(&lru, 101, 4), 4);
    assert_eq!(distance_mnemonic_code(&lru, 99, 4), 5);
    assert_eq!(distance_mnemonic_code(&lru, 53, 4), 14);
    // "previous minus three" is not in the mnemonic table; it has its own
    // shortcut in direct distance coding
    assert_eq!(distance_mnemonic_code(&lru, 47, 4), 15);
}

#[test]
fn mnemonic_lookup_table_values() {
    let lru = [100u32, 50, 25, 7];
    assert_eq!(get_distance_from_mnemonic_code(&lru, 0, 1), (100, true, 0));
    assert_eq!(get_distance_from_mnemonic_code(&lru, 2, 1), (25, true, 2));
    assert_eq!(get_distance_from_mnemonic_code(&lru, 13, 1), (97, true, 0));
    assert_eq!(get_distance_from_mnemonic_code(&lru, 14, 1), (53, true, 1));
    // a resolved distance of zero is not a cache hit
    let ones = [1u32, 1, 1, 1];
    let (dist, ok, _slot) = get_distance_from_mnemonic_code(&ones, 5, 1);
    assert_eq!(dist, 0);
    assert!(!ok);
}

#[test]
fn blend_bumps_and_renormalizes() {
    let mut cdf = Cdf16::new();
    for &w in cdf.counts.iter() {
        assert_eq!(w, 32);
    }
    cdf.blend(3, Speed::new(512, 16384));
    assert_eq!(cdf.counts[3], 544);
    assert_eq!(cdf.counts[0], 32);
    // drive one weight to the limit and observe the halving
    let mut hot = Cdf16::new();
    let speed = Speed::new(1024, 2048);
    hot.blend(7, speed);
    assert_eq!(hot.counts[7], 1056);
    hot.blend(7, speed);
    // 1056 + 1024 reaches the limit, so every weight halves plus one
    assert_eq!(hot.counts[7], 2080 / 2 + 1);
    assert_eq!(hot.counts[0], 17);
}

#[test]
fn blend_is_deterministic() {
    let mut a = Cdf16::new();
    let mut b = Cdf16::new();
    for sym in [0u8, 3, 3, 15, 7] {
        a.blend(sym, Speed::slow());
        b.blend(sym, Speed::slow());
        assert_eq!(a.counts, b.counts);
    }
}

#[test]
fn coder_packs_two_nibbles_per_byte() {
    let prob = Cdf16::new();
    let billing = BillingDesignation::CopyCommand(divans::copy::CopySubstate::Begin);
    let mut enc = NibbleCoder::encoder();
    for mut nib in [1u8, 2, 3] {
        enc.get_or_put_nibble(&mut nib, &prob, billing);
    }
    let mut out: Vec<u8> = Vec::new();
    assert_eq!(enc.flush(&mut out, 16), DivansResult::Success);
    assert_eq!(out, vec![0x12, 0x30]);
    let mut dec = NibbleCoder::decoder();
    dec.supply_input(&out);
    let mut got: Vec<u8> = Vec::new();
    for _ in 0..4 {
        let mut nib = 0u8;
        dec.get_or_put_nibble(&mut nib, &prob, billing);
        got.push(nib);
    }
    assert_eq!(got, vec![1, 2, 3, 0]);
}

#[test]
fn encoder_masks_symbols_to_nibbles() {
    let prob = Cdf16::new();
    let billing = BillingDesignation::CopyCommand(divans::copy::CopySubstate::Begin);
    let mut enc = NibbleCoder::encoder();
    let mut nib = 0xabu8;
    enc.get_or_put_nibble(&mut nib, &prob, billing);
    let mut out: Vec<u8> = Vec::new();
    assert_eq!(enc.flush(&mut out, 16), DivansResult::Success);
    assert_eq!(out, vec![0xb0]);
}

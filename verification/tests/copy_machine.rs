use divans::codec::{CrossCommandState, PriorAlgorithm};
use divans::copy::{CopyState, CopySubstate};
use divans::interface::{CopyCommand, DivansResult, ErrMsg};

fn encode_commands(mode: PriorAlgorithm, cmds: &[CopyCommand], chunk: usize) -> Vec<u8> {
    let mut sess = CrossCommandState::new_encoder(mode);
    let mut out: Vec<u8> = Vec::new();
    for cmd in cmds {
        let mut st = CopyState::begin();
        let mut cap = out.len() + chunk;
        loop {
            match st.encode_or_decode(&mut sess, cmd, &mut out, cap) {
                DivansResult::Success => break,
                DivansResult::NeedsMoreOutput => {
                    cap += chunk;
                }
                r => panic!("unexpected encode result {:?}", r),
            }
        }
        sess.bk.obs_distance(cmd.distance);
    }
    let mut cap = out.len() + chunk;
    loop {
        match sess.coder.flush(&mut out, cap) {
            DivansResult::Success => break,
            DivansResult::NeedsMoreOutput => {
                cap += chunk;
            }
            r => panic!("unexpected flush result {:?}", r),
        }
    }
    out
}

fn decode_commands(
    mode: PriorAlgorithm,
    bytes: &[u8],
    count: usize,
    chunk: usize,
) -> Vec<CopyCommand> {
    let mut sess = CrossCommandState::new_decoder(mode);
    let mut fed = 0usize;
    let mut scratch: Vec<u8> = Vec::new();
    let placeholder = CopyCommand { distance: 1, num_bytes: 1 };
    let mut decoded: Vec<CopyCommand> = Vec::new();
    for _ in 0..count {
        let mut st = CopyState::begin();
        loop {
            match st.encode_or_decode(&mut sess, &placeholder, &mut scratch, 0) {
                DivansResult::Success => break,
                DivansResult::NeedsMoreInput => {
                    let end = (fed + chunk).min(bytes.len());
                    if end > fed {
                        let part: Vec<u8> = bytes[fed..end].to_vec();
                        sess.coder.supply_input(&part);
                        fed = end;
                    } else {
                        // the command may have finished on the very last
                        // nibble; re-invocation then reports success
                        assert!(
                            matches!(st.state, CopySubstate::FullyDecoded),
                            "decoder ran out of input"
                        );
                    }
                }
                r => panic!("unexpected decode result {:?}", r),
            }
        }
        decoded.push(st.cc);
        sess.bk.obs_distance(st.cc.distance);
    }
    decoded
}

fn roundtrip(mode: PriorAlgorithm, cmds: &[CopyCommand]) {
    let bytes = encode_commands(mode, cmds, 64);
    let decoded = decode_commands(mode, &bytes, cmds.len(), 64);
    assert_eq!(decoded, cmds.to_vec());
}

#[test]
fn roundtrip_single_legacy() {
    roundtrip(
        PriorAlgorithm::Legacy,
        &[CopyCommand { distance: 1000, num_bytes: 50 }],
    );
}

#[test]
fn roundtrip_single_lzma() {
    roundtrip(
        PriorAlgorithm::Lzma,
        &[CopyCommand { distance: 1000, num_bytes: 50 }],
    );
}

#[test]
fn roundtrip_sequence_legacy() {
    roundtrip(
        PriorAlgorithm::Legacy,
        &[
            CopyCommand { distance: 7, num_bytes: 3 },
            CopyCommand { distance: 7, num_bytes: 3 },
            CopyCommand { distance: 80000, num_bytes: 200 },
            CopyCommand { distance: 1, num_bytes: 1 },
            CopyCommand { distance: 80000, num_bytes: 70000 },
            CopyCommand { distance: 12, num_bytes: 16 },
        ],
    );
}

#[test]
fn roundtrip_sequence_lzma() {
    roundtrip(
        PriorAlgorithm::Lzma,
        &[
            CopyCommand { distance: 7, num_bytes: 3 },
            CopyCommand { distance: 7, num_bytes: 1 },
            CopyCommand { distance: 80000, num_bytes: 200 },
            CopyCommand { distance: 1, num_bytes: 9 },
            CopyCommand { distance: 80000, num_bytes: 70000 },
            CopyCommand { distance: 12, num_bytes: 17 },
            CopyCommand { distance: 12, num_bytes: 18 },
            CopyCommand { distance: 13, num_bytes: 300 },
        ],
    );
}

#[test]
fn roundtrip_distance_slot_boundaries() {
    for &d in &[1u32, 4, 5, 6, (1 << 20) + 1] {
        roundtrip(
            PriorAlgorithm::Legacy,
            &[CopyCommand { distance: d, num_bytes: 4 }],
        );
        roundtrip(
            PriorAlgorithm::Lzma,
            &[CopyCommand { distance: d, num_bytes: 4 }],
        );
    }
}

#[test]
fn roundtrip_length_shortcut_boundaries() {
    for &n in &[1u32, 9, 10, 14, 15, 17, 18, 19, 273, 274, 65553, 65554, 1 << 20] {
        roundtrip(
            PriorAlgorithm::Legacy,
            &[CopyCommand { distance: 42, num_bytes: n }],
        );
        roundtrip(
            PriorAlgorithm::Lzma,
            &[CopyCommand { distance: 42, num_bytes: n }],
        );
    }
}

#[test]
fn mnemonic_previous_minus_three() {
    // Seed the distance history with [_, d1, d2, d3] on both sides and code a
    // command whose distance is exactly d1 - 3, taking the dedicated
    // shortcut.
    let lru = [200u32, 100, 50, 25];
    let cmd = CopyCommand { distance: 97, num_bytes: 6 };
    let mut enc = CrossCommandState::new_encoder(PriorAlgorithm::Legacy);
    enc.bk.distance_lru = lru;
    let mut st = CopyState::begin();
    let mut out: Vec<u8> = Vec::new();
    assert_eq!(
        st.encode_or_decode(&mut enc, &cmd, &mut out, 64),
        DivansResult::Success
    );
    loop {
        match enc.coder.flush(&mut out, 64) {
            DivansResult::Success => break,
            DivansResult::NeedsMoreOutput => panic!("flush stalled"),
            r => panic!("unexpected flush result {:?}", r),
        }
    }
    let mut dec = CrossCommandState::new_decoder(PriorAlgorithm::Legacy);
    dec.bk.distance_lru = lru;
    dec.coder.supply_input(&out);
    let mut st2 = CopyState::begin();
    let mut scratch: Vec<u8> = Vec::new();
    let placeholder = CopyCommand { distance: 1, num_bytes: 1 };
    assert_eq!(
        st2.encode_or_decode(&mut dec, &placeholder, &mut scratch, 0),
        DivansResult::Success
    );
    assert_eq!(st2.cc.distance, 97);
    assert_eq!(st2.cc.num_bytes, 6);
}

#[test]
fn suspension_transparency_encode() {
    let cmds = [
        CopyCommand { distance: 90000, num_bytes: 777 },
        CopyCommand { distance: 3, num_bytes: 20 },
        CopyCommand { distance: 90000, num_bytes: 2 },
    ];
    for mode in [PriorAlgorithm::Legacy, PriorAlgorithm::Lzma] {
        let unchunked = encode_commands(mode, &cmds, 4096);
        for chunk in [1usize, 2, 3, 7] {
            assert_eq!(encode_commands(mode, &cmds, chunk), unchunked);
        }
    }
}

#[test]
fn suspension_transparency_decode() {
    let cmds = [
        CopyCommand { distance: 90000, num_bytes: 777 },
        CopyCommand { distance: 5, num_bytes: 1 },
    ];
    for mode in [PriorAlgorithm::Legacy, PriorAlgorithm::Lzma] {
        let bytes = encode_commands(mode, &cmds, 4096);
        for chunk in [1usize, 2, 5] {
            let decoded = decode_commands(mode, &bytes, cmds.len(), chunk);
            assert_eq!(decoded, cmds.to_vec());
        }
    }
}

#[test]
fn distance_zero_rejected_encode() {
    let mut enc = CrossCommandState::new_encoder(PriorAlgorithm::Legacy);
    let mut st = CopyState::begin();
    let mut out: Vec<u8> = Vec::new();
    let cmd = CopyCommand { distance: 0, num_bytes: 1 };
    assert_eq!(
        st.encode_or_decode(&mut enc, &cmd, &mut out, 64),
        DivansResult::Failure(ErrMsg::Distance0NotAllowed)
    );
    assert!(matches!(st.state, CopySubstate::Begin));
    assert!(out.is_empty());
    assert!(enc.coder.nibbles.is_empty());
    // no adaptive table was touched
    for cdf in enc.bk.copy_priors.cdfs.iter() {
        for &w in cdf.counts.iter() {
            assert_eq!(w, 32);
        }
    }
}

#[test]
fn distance_zero_rejected_decode() {
    let mut dec = CrossCommandState::new_decoder(PriorAlgorithm::Lzma);
    dec.coder.supply_input(&vec![0xff, 0xff]);
    let mut st = CopyState::begin();
    let mut scratch: Vec<u8> = Vec::new();
    let cmd = CopyCommand { distance: 0, num_bytes: 1 };
    assert_eq!(
        st.encode_or_decode(&mut dec, &cmd, &mut scratch, 0),
        DivansResult::Failure(ErrMsg::Distance0NotAllowed)
    );
    assert_eq!(dec.coder.pos, 0);
    for cdf in dec.bk.copy_priors.cdfs.iter() {
        for &w in cdf.counts.iter() {
            assert_eq!(w, 32);
        }
    }
}

#[test]
fn mnemonic_bad_code_fails_decode() {
    // Legacy stream: length nibble 3, then mnemonic nibble 5, which resolves
    // to cache slot 0 minus one; with that cache entry equal to 1 the
    // resolved distance is 0 and the stream is rejected.
    let mut dec = CrossCommandState::new_decoder(PriorAlgorithm::Legacy);
    dec.bk.distance_lru = [1, 2, 3, 4];
    dec.coder.supply_input(&vec![0x35]);
    let mut st = CopyState::begin();
    let mut scratch: Vec<u8> = Vec::new();
    let placeholder = CopyCommand { distance: 1, num_bytes: 1 };
    assert_eq!(
        st.encode_or_decode(&mut dec, &placeholder, &mut scratch, 0),
        DivansResult::Failure(ErrMsg::CopyDistanceMnemonicCodeBad(0, 0))
    );
}

#[test]
fn impossible_length_shortcut_fails_decode() {
    // Alternate-regime stream: mnemonic nibble 15 (none applies), length
    // shortcut 0, then the sentinel overflow nibble 10, which no encoder
    // emits.
    let mut dec = CrossCommandState::new_decoder(PriorAlgorithm::Lzma);
    dec.coder.supply_input(&vec![0xf0, 0xa0]);
    let mut st = CopyState::begin();
    let mut scratch: Vec<u8> = Vec::new();
    let placeholder = CopyCommand { distance: 1, num_bytes: 1 };
    assert_eq!(
        st.encode_or_decode(&mut dec, &placeholder, &mut scratch, 0),
        DivansResult::Failure(ErrMsg::InternalInconsistencyInCopyLenSubstateCode(0))
    );
}

#[test]
fn impossible_overflow_nibble_fails_decode() {
    // Alternate-regime stream: mnemonic 15, length shortcut 1, then the
    // sentinel second-overflow nibble 10.
    let mut dec = CrossCommandState::new_decoder(PriorAlgorithm::Lzma);
    dec.coder.supply_input(&vec![0xf1, 0xa0]);
    let mut st = CopyState::begin();
    let mut scratch: Vec<u8> = Vec::new();
    let placeholder = CopyCommand { distance: 1, num_bytes: 1 };
    assert_eq!(
        st.encode_or_decode(&mut dec, &placeholder, &mut scratch, 0),
        DivansResult::Failure(ErrMsg::InternalInconsistencyInCopyLenSubstateCode(1))
    );
}

#[test]
fn impossible_distance_slot_fails_decode() {
    // Alternate-regime stream: mnemonic 15, length shortcut 0, length 5,
    // then slot nibbles 15 and 15, claiming slot 255 which no 32-bit
    // distance has.
    let mut dec = CrossCommandState::new_decoder(PriorAlgorithm::Lzma);
    dec.coder.supply_input(&vec![0xf0, 0x5f, 0xf0]);
    let mut st = CopyState::begin();
    let mut scratch: Vec<u8> = Vec::new();
    let placeholder = CopyCommand { distance: 1, num_bytes: 1 };
    assert_eq!(
        st.encode_or_decode(&mut dec, &placeholder, &mut scratch, 0),
        DivansResult::Failure(ErrMsg::InternalInconsistencyInCopyLenSubstateCode(3))
    );
}

#[test]
fn adaptive_determinism() {
    let cmds = [
        CopyCommand { distance: 100, num_bytes: 30 },
        CopyCommand { distance: 100, num_bytes: 30 },
        CopyCommand { distance: 97, num_bytes: 512 },
        CopyCommand { distance: 5, num_bytes: 1 },
    ];
    for mode in [PriorAlgorithm::Legacy, PriorAlgorithm::Lzma] {
        let first = encode_commands(mode, &cmds, 64);
        let second = encode_commands(mode, &cmds, 64);
        assert_eq!(first, second);
        let d1 = decode_commands(mode, &first, cmds.len(), 64);
        let d2 = decode_commands(mode, &first, cmds.len(), 64);
        assert_eq!(d1, d2);
        assert_eq!(d1, cmds.to_vec());
    }
}

#[test]
fn adaptation_off_leaves_tables_untouched() {
    let mut enc = CrossCommandState::new_encoder(PriorAlgorithm::Lzma);
    enc.adapt = false;
    let mut st = CopyState::begin();
    let mut out: Vec<u8> = Vec::new();
    let cmd = CopyCommand { distance: 1000, num_bytes: 50 };
    assert_eq!(
        st.encode_or_decode(&mut enc, &cmd, &mut out, 64),
        DivansResult::Success
    );
    assert!(!enc.coder.nibbles.is_empty());
    for cdf in enc.bk.copy_priors.cdfs.iter() {
        for &w in cdf.counts.iter() {
            assert_eq!(w, 32);
        }
    }
}

#[test]
fn fully_decoded_is_terminal() {
    let mut enc = CrossCommandState::new_encoder(PriorAlgorithm::Legacy);
    let mut st = CopyState::begin();
    let mut out: Vec<u8> = Vec::new();
    let cmd = CopyCommand { distance: 44, num_bytes: 13 };
    assert_eq!(
        st.encode_or_decode(&mut enc, &cmd, &mut out, 64),
        DivansResult::Success
    );
    // every further invocation succeeds without coding anything
    let before = enc.coder.nibbles.len();
    assert_eq!(
        st.encode_or_decode(&mut enc, &cmd, &mut out, 64),
        DivansResult::Success
    );
    assert_eq!(enc.coder.nibbles.len(), before);
}

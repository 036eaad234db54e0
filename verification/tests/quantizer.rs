use img_watermarking::bits::Bitstream;
use img_watermarking::error::WatermarkError;
use img_watermarking::qim::{
    embed_wm, extract_wm, generate_dither_signal, in_range, mask_index, pair_dithers,
    round_to_step_size, COEFFICIENT_MASK,
};

fn bits_of(values: &[bool]) -> Bitstream {
    let mut bits = Bitstream::new();
    for v in values {
        bits.push(*v);
    }
    bits
}

fn flat_dithers(step: i64, lo: i64) -> Vec<(i64, i64)> {
    let half = step / 2;
    let hi = if lo > 0 { lo - half } else { lo + half };
    vec![(lo, hi); 12]
}

#[test]
fn rounds_to_the_nearest_multiple() {
    assert_eq!(round_to_step_size(0, 100), 0);
    assert_eq!(round_to_step_size(49, 100), 0);
    assert_eq!(round_to_step_size(51, 100), 100);
    assert_eq!(round_to_step_size(149, 100), 100);
    assert_eq!(round_to_step_size(151, 100), 200);
    assert_eq!(round_to_step_size(1234, 1), 1234);
    assert_eq!(round_to_step_size(10, 7), 7);
    assert_eq!(round_to_step_size(11, 7), 14);
}

#[test]
fn ties_round_upward() {
    assert_eq!(round_to_step_size(50, 100), 100);
    assert_eq!(round_to_step_size(150, 100), 200);
    assert_eq!(round_to_step_size(-50, 100), 0);
    assert_eq!(round_to_step_size(-150, 100), -100);
}

#[test]
fn negative_values_round_by_the_same_rule() {
    assert_eq!(round_to_step_size(-49, 100), 0);
    assert_eq!(round_to_step_size(-51, 100), -100);
    assert_eq!(round_to_step_size(-149, 100), -100);
    assert_eq!(round_to_step_size(-151, 100), -200);
    assert_eq!(round_to_step_size(-3, 7), 0);
    assert_eq!(round_to_step_size(-4, 7), -7);
    assert_eq!(round_to_step_size(-1234, 1), -1234);
}

#[test]
fn rounds_near_the_ends_of_the_range() {
    assert_eq!(round_to_step_size(i64::MAX - 1, 2), i64::MAX - 1);
    assert_eq!(round_to_step_size(i64::MIN + 1, 2), i64::MIN + 2);
    assert_eq!(round_to_step_size(i64::MAX - 7, 10), i64::MAX - 7);
}

#[test]
fn mask_is_the_twelve_fixed_places() {
    let expected = [4usize, 5, 6, 7, 11, 12, 13, 14, 15, 18, 19, 20];
    assert_eq!(COEFFICIENT_MASK, expected);
    for i in 0..64usize {
        assert_eq!(in_range(i), expected.contains(&i));
    }
    assert!(!in_range(64));
    assert!(!in_range(usize::MAX));
    for slot in 0..12usize {
        assert_eq!(mask_index(slot), expected[slot]);
    }
}

#[test]
fn dither_pairs_follow_the_sign_of_the_offset() {
    let pairs = pair_dithers(&vec![7, -7, 0, 49, -50, 1], 50);
    assert_eq!(
        pairs,
        vec![(7, -43), (-7, 43), (0, 50), (49, -1), (-50, 0), (1, -49)]
    );
}

#[test]
fn dither_signal_is_reproducible() {
    let a = generate_dither_signal(12, 100, 123456);
    let b = generate_dither_signal(12, 100, 123456);
    assert_eq!(a, b);
    assert_eq!(a.len(), 12);
}

#[test]
fn dither_signal_depends_on_the_seed() {
    let a = generate_dither_signal(12, 1_000_000, 1);
    let b = generate_dither_signal(12, 1_000_000, 2);
    assert_ne!(a, b);
}

#[test]
fn dither_signal_has_the_length_asked_for() {
    assert_eq!(generate_dither_signal(0, 100, 9).len(), 0);
    assert_eq!(generate_dither_signal(5, 100, 9).len(), 5);
    let long = generate_dither_signal(40, 100, 9);
    let short = generate_dither_signal(12, 100, 9);
    assert_eq!(&long[..12], &short[..]);
}

#[test]
fn dither_pairs_are_valid() {
    for step in [2i64, 3, 10, 11, 100, 102_400] {
        let half = step / 2;
        for seed in [0u64, 1, 123456, u64::MAX] {
            for (lo, hi) in generate_dither_signal(12, step, seed) {
                assert!(-half <= lo && lo < half);
                if lo > 0 {
                    assert_eq!(hi, lo - half);
                } else {
                    assert_eq!(hi, lo + half);
                }
            }
        }
    }
}

#[test]
fn dither_offsets_are_spread_over_the_range() {
    let pairs = generate_dither_signal(200, 1_000_000, 42);
    assert!(pairs.iter().any(|p| p.0 > 0));
    assert!(pairs.iter().any(|p| p.0 < 0));
    let first = pairs[0].0;
    assert!(pairs.iter().any(|p| p.0 != first));
}

#[test]
fn embed_moves_masked_coefficients_onto_the_lattice() {
    // step 10, first dither 3, second dither 3 - 5 = -2
    let dithers = flat_dithers(10, 3);
    let mut block: Vec<i64> = (0..64).map(|i| 30 + i as i64).collect();
    let before = block.clone();
    let pattern = [
        false, true, false, true, false, true, false, true, false, true, false, true,
    ];
    assert_eq!(embed_wm(&mut block, &bits_of(&pattern), &dithers, 10), Ok(()));
    for i in 0..64usize {
        if !in_range(i) {
            assert_eq!(block[i], before[i]);
        }
    }
    // slot 0, place 4, value 34, clear bit: quantize(37, 10) - 3 = 40 - 3
    assert_eq!(block[4], 37);
    // slot 1, place 5, value 35, set bit: quantize(33, 10) + 2 = 30 + 2
    assert_eq!(block[5], 32);
    // slot 2, place 6, value 36, clear bit: quantize(39, 10) - 3
    assert_eq!(block[6], 37);
    // slot 3, place 7, value 37, set bit: quantize(35, 10) + 2 = 40 + 2 (a tie goes up)
    assert_eq!(block[7], 42);
    // slot 4, place 11, value 41, clear bit: quantize(44, 10) - 3
    assert_eq!(block[11], 37);
    // slot 11, place 20, value 50, set bit: quantize(48, 10) + 2
    assert_eq!(block[20], 52);
}

#[test]
fn embed_handles_negative_coefficients() {
    let dithers = flat_dithers(100, -20);
    let mut block: Vec<i64> = vec![-1234; 64];
    let pattern = [true; 12];
    assert_eq!(embed_wm(&mut block, &bits_of(&pattern), &dithers, 100), Ok(()));
    // set bit, dither -20 + 50 = 30: quantize(-1204, 100) - 30 = -1200 - 30
    assert_eq!(block[4], -1230);
    assert_eq!(block[0], -1234);
    let read = extract_wm(&block, &dithers, 100).unwrap();
    assert_eq!(read.to_bools(), pattern.to_vec());
}

#[test]
fn extract_reads_back_every_pattern_of_one_block() {
    let dithers = generate_dither_signal(12, 100, 77);
    for pattern in 0u32..4096 {
        let wanted: Vec<bool> = (0..12).map(|k| pattern >> k & 1 == 1).collect();
        let mut block: Vec<i64> = (0..64).map(|i| (i as i64 - 32) * 37).collect();
        assert_eq!(embed_wm(&mut block, &bits_of(&wanted), &dithers, 100), Ok(()));
        let read = extract_wm(&block, &dithers, 100).unwrap();
        assert_eq!(read.len(), 12);
        assert_eq!(read.to_bools(), wanted);
    }
}

#[test]
fn extract_reads_back_with_the_smallest_steps() {
    for step in [2i64, 3, 4, 5, 9, 10, 11] {
        let dithers = generate_dither_signal(12, step, 5);
        let wanted = vec![
            true, false, false, true, true, true, false, false, true, false, true, false,
        ];
        let mut block: Vec<i64> = (0..64).map(|i| 1000 - 31 * i as i64).collect();
        assert_eq!(embed_wm(&mut block, &bits_of(&wanted), &dithers, step), Ok(()));
        assert_eq!(extract_wm(&block, &dithers, step).unwrap().to_bools(), wanted);
    }
}

#[test]
fn extract_tolerates_noise_below_a_tenth_of_a_step() {
    let dithers = generate_dither_signal(12, 100, 2024);
    let wanted = vec![
        false, true, true, false, true, false, false, true, true, true, false, false,
    ];
    for noise in [-9i64, -5, -1, 1, 5, 9] {
        let mut block: Vec<i64> = (0..64).map(|i| 500 - 17 * i as i64).collect();
        assert_eq!(embed_wm(&mut block, &bits_of(&wanted), &dithers, 100), Ok(()));
        for i in 0..64usize {
            if in_range(i) {
                block[i] += noise;
            } else {
                block[i] += 1000 * noise;
            }
        }
        assert_eq!(extract_wm(&block, &dithers, 100).unwrap().to_bools(), wanted);
    }
}

#[test]
fn extract_tests_only_the_lattice_of_the_clear_bit() {
    // step 100, first dither 0: a coefficient reads as a clear bit only within
    // less than 10 of a multiple of 100, and as a set bit everywhere else.
    let dithers = vec![(0i64, 50i64); 12];
    let mut block: Vec<i64> = vec![0; 64];
    block[4] = 9;
    block[5] = 10;
    block[6] = -9;
    block[7] = -10;
    block[11] = 50;
    block[12] = 191;
    block[13] = 190;
    block[14] = -291;
    block[15] = 30;
    block[18] = 70;
    block[19] = 100;
    block[20] = -100;
    let read = extract_wm(&block, &dithers, 100).unwrap().to_bools();
    assert_eq!(
        read,
        vec![false, true, false, true, true, false, true, false, true, true, false, false]
    );
}

#[test]
fn embed_refuses_a_group_that_is_not_twelve_bits() {
    let dithers = flat_dithers(100, 10);
    for len in [0usize, 1, 11, 13, 24] {
        let mut block: Vec<i64> = (0..64).collect();
        let before = block.clone();
        let bits = bits_of(&vec![true; len]);
        assert_eq!(
            embed_wm(&mut block, &bits, &dithers, 100),
            Err(WatermarkError::PayloadLengthMismatch)
        );
        assert_eq!(block, before);
    }
}

#[test]
fn embed_refuses_a_block_that_is_not_64_long() {
    let dithers = flat_dithers(100, 10);
    for len in [0usize, 21, 63, 65] {
        let mut block: Vec<i64> = vec![5; len];
        let bits = bits_of(&[false; 12]);
        assert_eq!(
            embed_wm(&mut block, &bits, &dithers, 100),
            Err(WatermarkError::InvalidGridIndex)
        );
        assert_eq!(block, vec![5; len]);
    }
}

#[test]
fn extract_refuses_a_block_that_is_not_64_long() {
    let dithers = flat_dithers(100, 10);
    for len in [0usize, 21, 63, 65] {
        let block: Vec<i64> = vec![5; len];
        assert!(matches!(
            extract_wm(&block, &dithers, 100),
            Err(WatermarkError::InvalidGridIndex)
        ));
    }
}

#[test]
fn extract_always_gives_twelve_bits() {
    let dithers = generate_dither_signal(12, 50, 3);
    let block: Vec<i64> = (0..64).map(|i| i64::MAX - i as i64).collect();
    assert_eq!(extract_wm(&block, &dithers, 50).unwrap().len(), 12);
    let block: Vec<i64> = (0..64).map(|i| i64::MIN + i as i64).collect();
    assert_eq!(extract_wm(&block, &dithers, 50).unwrap().len(), 12);
}

use img_watermarking::bits::Bitstream;
use img_watermarking::color_recode::{recode_to_3bits, recode_to_rgb};
use img_watermarking::colorspace::{convert_to_RGB, convert_to_YCbCr};
use img_watermarking::dct::{
    apply_2d_dct, apply_2d_idct, merge_into_plane, reconstruct_image_from_rgb,
    split_image_into_blocks, split_into_blocks,
};
use img_watermarking::error::WatermarkError;
use img_watermarking::pixels::PixelImage;
use img_watermarking::qim::generate_dither_signal;
use img_watermarking::{
    blocks_have_headroom, embed_bitstream, embed_watermark, extract_bitstream, extract_watermark,
};
use rustdct::DctPlanner;

/// Coefficient units in one unit of the transform's output.
const SCALE: f64 = 1024.0;

fn forward_transform(blocks: &mut Vec<Vec<f32>>) {
    let mut planner = DctPlanner::new();
    let dct = planner.plan_dct2(8);
    let row_dct = |mut row: Vec<f32>| {
        dct.process_dct2(&mut row);
        row
    };
    assert_eq!(apply_2d_dct(blocks, &row_dct), Ok(()));
}

fn inverse_transform(blocks: &mut Vec<Vec<f32>>) {
    let mut planner = DctPlanner::new();
    let idct = planner.plan_dct3(8);
    let row_idct = |mut row: Vec<f32>| {
        idct.process_dct3(&mut row);
        row
    };
    let scale = |sample: f32| sample * (4.0 / 64.0);
    assert_eq!(apply_2d_idct(blocks, &row_idct, &scale), Ok(()));
}

fn to_floats(blocks: &Vec<Vec<i64>>, scale: f64) -> Vec<Vec<f32>> {
    blocks
        .iter()
        .map(|block| block.iter().map(|v| (*v as f64 / scale) as f32).collect())
        .collect()
}

fn to_integers(blocks: &Vec<Vec<f32>>, scale: f64) -> Vec<Vec<i64>> {
    blocks
        .iter()
        .map(|block| block.iter().map(|v| (*v as f64 * scale).round() as i64).collect())
        .collect()
}

fn coefficients_of_plane(plane: &Vec<u8>, width: usize, height: usize) -> Vec<Vec<i64>> {
    let samples = split_into_blocks(plane, width, height).unwrap();
    let mut floats = to_floats(&samples, 1.0);
    forward_transform(&mut floats);
    to_integers(&floats, SCALE)
}

fn plane_of_coefficients(coefficients: &Vec<Vec<i64>>, width: usize, height: usize) -> Vec<u8> {
    let mut floats = to_floats(coefficients, SCALE);
    inverse_transform(&mut floats);
    merge_into_plane(&to_integers(&floats, 1.0), width, height).unwrap()
}

fn checkerboard(width: u32, height: u32, cell: u32) -> PixelImage {
    let mut data: Vec<u8> = Vec::new();
    for y in 0..height {
        for x in 0..width {
            let level = if (x / cell + y / cell) % 2 == 0 { 255 } else { 0 };
            data.push(level);
            data.push(level);
            data.push(level);
        }
    }
    PixelImage::new(width, height, 3, data).unwrap()
}

fn colored_payload(width: u32, height: u32) -> PixelImage {
    let mut data: Vec<u8> = Vec::new();
    for y in 0..height {
        for x in 0..width {
            data.push(if x % 16 < 8 { 255 } else { 0 });
            data.push(if y % 32 < 16 { 255 } else { 0 });
            data.push(if (x + y) % 24 < 12 { 255 } else { 0 });
        }
    }
    PixelImage::new(width, height, 3, data).unwrap()
}

fn step_units(step_size: f64) -> i64 {
    (step_size * SCALE).round() as i64
}

#[test]
fn transform_round_trip_recovers_the_samples() {
    let samples: Vec<Vec<i64>> = (0..20)
        .map(|b| (0..64).map(|c| ((b * 97 + c * 31 + c * c) % 256) as i64).collect())
        .collect();
    let mut floats = to_floats(&samples, 1.0);
    forward_transform(&mut floats);
    inverse_transform(&mut floats);
    assert_eq!(to_integers(&floats, 1.0), samples);
}

#[test]
fn transform_of_a_flat_block_is_its_sum() {
    let mut floats = vec![vec![128.0f32; 64]];
    forward_transform(&mut floats);
    let coefficients = to_integers(&floats, 1.0);
    assert_eq!(coefficients[0][0], 128 * 64);
    for c in 1..64 {
        assert_eq!(coefficients[0][c], 0);
    }
}

#[test]
fn test_2d_dct() {
    let width = 64u32;
    let height = 48u32;
    let mut data: Vec<u8> = Vec::new();
    for y in 0..height {
        for x in 0..width {
            data.push((x * 3 + y) as u8);
            data.push((255 - x * 2) as u8);
            data.push((x * y % 256) as u8);
        }
    }
    let image = PixelImage::new(width, height, 3, data.clone()).unwrap();
    let (blocks_r, blocks_g, blocks_b) = split_image_into_blocks(&image).unwrap();
    let mut r = to_floats(&blocks_r, 1.0);
    let mut g = to_floats(&blocks_g, 1.0);
    let mut b = to_floats(&blocks_b, 1.0);

    forward_transform(&mut r);
    forward_transform(&mut g);
    forward_transform(&mut b);

    let transformed_image = reconstruct_image_from_rgb(
        &to_integers(&r, 1.0),
        &to_integers(&g, 1.0),
        &to_integers(&b, 1.0),
        width,
        height,
    )
    .unwrap();
    assert_eq!(transformed_image.width(), width);
    assert_eq!(transformed_image.height(), height);
    assert_ne!(transformed_image.as_bytes(), &data);

    inverse_transform(&mut r);
    inverse_transform(&mut g);
    inverse_transform(&mut b);

    let unchanged_image = reconstruct_image_from_rgb(
        &to_integers(&r, 1.0),
        &to_integers(&g, 1.0),
        &to_integers(&b, 1.0),
        width,
        height,
    )
    .unwrap();
    assert_eq!(unchanged_image.as_bytes(), &data);
}

#[test]
fn embed_fails_when_bits_and_blocks_do_not_match() {
    let watermark = checkerboard(128, 128, 8);
    for count in [0usize, 1, 4095, 4097] {
        let mut blocks: Vec<Vec<i64>> = vec![(0..64).collect(); count];
        let before = blocks.clone();
        assert_eq!(
            embed_watermark(&mut blocks, &watermark, 123456, 100),
            Err(WatermarkError::PayloadLengthMismatch)
        );
        assert_eq!(blocks, before);
    }
    let dithers = generate_dither_signal(12, 100, 1);
    for len in [0usize, 11, 13, 23, 25, 36] {
        let mut blocks: Vec<Vec<i64>> = vec![vec![0; 64]; 2];
        let bits = Bitstream::from_bools(&vec![true; len]).unwrap();
        assert_eq!(
            embed_bitstream(&mut blocks, &bits, &dithers, 100),
            Err(WatermarkError::PayloadLengthMismatch)
        );
        assert_eq!(blocks, vec![vec![0; 64]; 2]);
    }
}

#[test]
fn embed_fails_on_broken_blocks() {
    let dithers = generate_dither_signal(12, 100, 1);
    let mut blocks: Vec<Vec<i64>> = vec![vec![0; 64], vec![0; 60]];
    let bits = Bitstream::from_bools(&vec![true; 24]).unwrap();
    assert_eq!(
        embed_bitstream(&mut blocks, &bits, &dithers, 100),
        Err(WatermarkError::InvalidGridIndex)
    );
    assert_eq!(blocks, vec![vec![0; 64], vec![0; 60]]);
    assert!(matches!(
        extract_bitstream(&blocks, &dithers, 100),
        Err(WatermarkError::InvalidGridIndex)
    ));
    assert!(matches!(
        extract_watermark(&blocks, 4, 2, 1, 100),
        Err(WatermarkError::InvalidGridIndex)
    ));
}

#[test]
fn extract_fails_when_blocks_do_not_fill_the_payload() {
    let blocks: Vec<Vec<i64>> = vec![vec![0; 64]; 2];
    assert!(matches!(
        extract_watermark(&blocks, 3, 3, 1, 100),
        Err(WatermarkError::PayloadLengthMismatch)
    ));
    assert!(matches!(
        extract_watermark(&blocks, 128, 128, 1, 100),
        Err(WatermarkError::PayloadLengthMismatch)
    ));
    assert!(extract_watermark(&blocks, 4, 2, 1, 100).is_ok());
    assert!(extract_watermark(&blocks, 1, 8, 1, 100).is_ok());
}

#[test]
fn each_block_takes_its_own_twelve_bits() {
    let dithers = generate_dither_signal(12, 100, 31);
    let wanted: Vec<bool> = (0..60).map(|i| i * i % 7 < 3).collect();
    let bits = Bitstream::from_bools(&wanted).unwrap();
    let mut blocks: Vec<Vec<i64>> = (0..5)
        .map(|b| (0..64).map(|c| (b * 1000 - c * 77) as i64).collect())
        .collect();
    let before = blocks.clone();
    assert_eq!(embed_bitstream(&mut blocks, &bits, &dithers, 100), Ok(()));
    for b in 0..5usize {
        let mut alone = before[b].clone();
        let group = Bitstream::from_bools(&wanted[12 * b..12 * b + 12].to_vec()).unwrap();
        assert_eq!(
            img_watermarking::qim::embed_wm(&mut alone, &group, &dithers, 100),
            Ok(())
        );
        assert_eq!(blocks[b], alone);
    }
    assert_eq!(
        extract_bitstream(&blocks, &dithers, 100).unwrap().to_bools(),
        wanted
    );
}

#[test]
fn watermark_is_read_back_from_the_coefficients() {
    let watermark = colored_payload(16, 8);
    let mut blocks: Vec<Vec<i64>> = (0..32)
        .map(|b| (0..64).map(|c| (c * 513 - b * 4099) as i64).collect())
        .collect();
    assert_eq!(embed_watermark(&mut blocks, &watermark, 99, 64), Ok(()));
    let (bits, image) = extract_watermark(&blocks, 16, 8, 99, 64).unwrap();
    assert_eq!(bits.to_bools(), recode_to_3bits(&watermark).to_bools());
    assert_eq!(image.as_bytes(), watermark.as_bytes());
    assert_eq!(image.width(), 16);
    assert_eq!(image.height(), 8);
}

#[test]
fn another_key_does_not_read_the_watermark() {
    let watermark = colored_payload(16, 8);
    let mut blocks: Vec<Vec<i64>> = (0..32).map(|_| vec![0; 64]).collect();
    assert_eq!(embed_watermark(&mut blocks, &watermark, 99, 1_000_000), Ok(()));
    let (bits, _) = extract_watermark(&blocks, 16, 8, 100, 1_000_000).unwrap();
    assert_ne!(bits.to_bools(), recode_to_3bits(&watermark).to_bools());
}

#[test]
fn headroom_is_missing_only_at_the_ends_of_the_range() {
    let mut blocks: Vec<Vec<i64>> = vec![vec![0; 64]; 3];
    assert!(blocks_have_headroom(&blocks, 100));
    blocks[1][0] = i64::MAX;
    assert!(blocks_have_headroom(&blocks, 100));
    blocks[1][4] = i64::MAX - 50;
    assert!(blocks_have_headroom(&blocks, 100));
    blocks[1][4] = i64::MAX - 49;
    assert!(!blocks_have_headroom(&blocks, 100));
    blocks[1][4] = 0;
    blocks[2][20] = i64::MIN + 49;
    assert!(!blocks_have_headroom(&blocks, 100));
    blocks[2][20] = i64::MIN + 50;
    assert!(blocks_have_headroom(&blocks, 100));
}

#[test]
fn end_to_end_on_the_luma_plane() {
    let width = 512usize;
    let height = 512usize;
    let host: Vec<u8> = vec![128; width * height];
    let watermark = checkerboard(128, 128, 8);
    let step = step_units(100.0);

    let mut coefficients = coefficients_of_plane(&host, width, height);
    assert!(blocks_have_headroom(&coefficients, step));
    assert_eq!(embed_watermark(&mut coefficients, &watermark, 123456, step), Ok(()));
    let watermarked = plane_of_coefficients(&coefficients, width, height);
    assert_ne!(watermarked, host);

    let received = coefficients_of_plane(&watermarked, width, height);
    let (bits, image) = extract_watermark(&received, 128, 128, 123456, step).unwrap();
    let wanted = recode_to_3bits(&watermark).to_bools();
    let errors = bits
        .to_bools()
        .iter()
        .zip(wanted.iter())
        .filter(|(a, b)| a != b)
        .count();
    assert_eq!(errors, 0);
    assert_eq!(image.as_bytes(), watermark.as_bytes());
}

#[test]
fn test_complete_workflow() {
    let key = 0123456_u64;
    let step_size = 100.0;

    // *********** Embedding the watermark **********
    let image = PixelImage::new(512, 512, 3, vec![128; 512 * 512 * 3]).unwrap();
    let (width, height) = (image.width(), image.height());

    let (y_plane, cb_plane, cr_plane) = convert_to_YCbCr(&image).unwrap();
    let mut y_blocks = coefficients_of_plane(&y_plane, width as usize, height as usize);

    let wm_image = checkerboard(128, 128, 8);
    let wm_bits = recode_to_3bits(&wm_image);

    let dithers = generate_dither_signal(12, step_units(step_size), key);
    assert_eq!(
        embed_bitstream(&mut y_blocks, &wm_bits, &dithers, step_units(step_size)),
        Ok(())
    );

    // In between embedding result test
    let extracted_wm = extract_bitstream(&y_blocks, &dithers, step_units(step_size)).unwrap();
    assert_eq!(extracted_wm.to_bools(), wm_bits.to_bools());
    let in_between = recode_to_rgb(&extracted_wm, 128, 128).unwrap();
    assert_eq!(in_between.as_bytes(), wm_image.as_bytes());

    let watermarked_y_plane = plane_of_coefficients(&y_blocks, width as usize, height as usize);
    let wmd_image =
        convert_to_RGB(width, height, &watermarked_y_plane, &cb_plane, &cr_plane).unwrap();

    // ************ Extracting the watermark ***************
    let (wmkd_y_plane, _, _) = convert_to_YCbCr(&wmd_image).unwrap();
    let wmkd_y_blocks = coefficients_of_plane(&wmkd_y_plane, width as usize, height as usize);
    let extracted_wm = extract_bitstream(&wmkd_y_blocks, &dithers, step_units(step_size)).unwrap();
    assert_eq!(extracted_wm.len(), 12 * 4096);
    assert_eq!(extracted_wm.to_bools(), wm_bits.to_bools());

    let reconstructed_wm = recode_to_rgb(&extracted_wm, 128, 128).unwrap();
    assert_eq!(reconstructed_wm.as_bytes(), wm_image.as_bytes());
}

#[test]
fn test_interface() {
    let k = 2143658709;
    let host: Vec<u8> = vec![128; 512 * 512];
    for wm in [checkerboard(128, 128, 8), colored_payload(128, 128)] {
        for ss in [10.0, 20.0, 50.0, 100.0] {
            let step = step_units(ss);
            let mut coefficients = coefficients_of_plane(&host, 512, 512);
            assert_eq!(embed_watermark(&mut coefficients, &wm, k, step), Ok(()));
            let (_, extracted_wm) = extract_watermark(&coefficients, 128, 128, k, step).unwrap();
            assert_eq!(extracted_wm.as_bytes(), wm.as_bytes());
            if ss == 100.0 {
                let plane = plane_of_coefficients(&coefficients, 512, 512);
                let received = coefficients_of_plane(&plane, 512, 512);
                let (_, extracted_wm) = extract_watermark(&received, 128, 128, k, step).unwrap();
                assert_eq!(extracted_wm.as_bytes(), wm.as_bytes());
            }
        }
    }
}

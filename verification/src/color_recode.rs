//! Recoding between a payload image and its bits: one bit for each byte
//! of the image, and one three-channel pixel for each three bits.
use crate::bits::{max_bits, Bitstream};
use crate::error::WatermarkError;
use crate::pixels::{buffer_fits, buffer_len, PixelImage};
use vstd::prelude::*;

verus! {

/// One bit per byte: set where the byte is above 127.
pub open spec fn threshold_bits(bytes: Seq<u8>) -> Seq<bool> {
    Seq::new(bytes.len(), |i: int| bytes[i] > 127)
}

/// One byte per bit: 255 for a set bit, 0 for a clear one.
pub open spec fn bit_levels(bits: Seq<bool>) -> Seq<u8> {
    Seq::new(
        bits.len(),
        |i: int|
            if bits[i] {
                255u8
            } else {
                0u8
            },
    )
}

/// Each byte pushed to the nearer end of its range: 255 from 128 on, else 0.
pub open spec fn binarized(bytes: Seq<u8>) -> Seq<u8> {
    Seq::new(
        bytes.len(),
        |i: int|
            if bytes[i] >= 128 {
                255u8
            } else {
                0u8
            },
    )
}

/// Turns an image into a bitstream, one bit for every byte of its raw
/// buffer in storage order: set for a byte above 127, clear otherwise.
pub fn recode_to_3bits(image: &PixelImage) -> (bits: Bitstream)
    ensures
        bits@ == threshold_bits(image.bytes()),
{
    let data = image.as_bytes();
    let mut bits = Bitstream::new();
    let mut i: usize = 0;
    while i < data.len()
        invariant
            i <= data@.len() <= max_bits(),
            bits@ == threshold_bits(data@.take(i as int)),
        decreases data@.len() - i,
    {
        bits.push(data[i] > 127);
        assert(bits@ =~= threshold_bits(data@.take(i + 1)));
        i += 1;
    }
    assert(data@.take(data@.len() as int) == data@);
    bits
}

/// Turns a bitstream back into a three-channel image of the given size.
/// Each group of three bits is one pixel, left to right and then top to
/// bottom: the first bit is red, the second green, the third blue, and a
/// set bit is full intensity, a clear one none. The image has no alpha
/// channel: every pixel is opaque. A stream that does not hold exactly
/// three bits for each pixel is refused.
pub fn recode_to_rgb(bits: &Bitstream, width: u32, height: u32) -> (out: Result<
    PixelImage,
    WatermarkError,
>)
    ensures
        match out {
            Ok(image) => {
                &&& buffer_fits(width, height, 3, bits@.len())
                &&& image.spec_width() == width
                &&& image.spec_height() == height
                &&& image.spec_channels() == 3
                &&& image.bytes() == bit_levels(bits@)
            },
            Err(e) => {
                &&& !buffer_fits(width, height, 3, bits@.len())
                &&& e == WatermarkError::PayloadLengthMismatch
            },
        },
{
    let n: usize = bits.len();
    if buffer_len(width, height, 3) != Some(n) {
        return Err(WatermarkError::PayloadLengthMismatch);
    }
    let mut data: Vec<u8> = Vec::new();
    let mut i: usize = 0;
    while i < n
        invariant
            i <= n == bits@.len(),
            data@ == bit_levels(bits@.take(i as int)),
        decreases n - i,
    {
        let level: u8 = if bits.get(i) {
            255
        } else {
            0
        };
        data.push(level);
        assert(data@ =~= bit_levels(bits@.take(i + 1)));
        i += 1;
    }
    assert(bits@.take(bits@.len() as int) == bits@);
    match PixelImage::new(width, height, 3, data) {
        Ok(image) => Ok(image),
        Err(_) => Err(WatermarkError::PayloadLengthMismatch),
    }
}

/// Recoding bytes to bits and the bits back to bytes gives as many bytes,
/// binarized: 255 where the byte was 128 or more, 0 elsewhere. So the bits
/// of a three-channel image are accepted as an image of the same size, and
/// that image is the first one binarized.
pub proof fn lemma_recode_round_trip(bytes: Seq<u8>)
    ensures
        threshold_bits(bytes).len() == bytes.len(),
        bit_levels(threshold_bits(bytes)) == binarized(bytes),
{
    assert(bit_levels(threshold_bits(bytes)) =~= binarized(bytes));
}

} // verus!

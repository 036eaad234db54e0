//! Decoded images as raw buffers of 8-bit samples.
use crate::bits::max_bits;
use crate::error::WatermarkError;
use vstd::prelude::*;

verus! {

/// The number of bytes in the raw buffer of an image of the given size.
pub open spec fn byte_count(width: u32, height: u32, channels: u8) -> int {
    width as int * height as int * channels as int
}

/// Whether a raw buffer of `len` bytes is an image of the given size: it has
/// one byte per channel of each pixel, and few enough bytes for each to be
/// given a bit of one bitstream.
pub open spec fn buffer_fits(width: u32, height: u32, channels: u8, len: nat) -> bool {
    len == byte_count(width, height, channels) && len <= max_bits()
}

/// The length of the raw buffer of an image of the given size, where a
/// buffer of that length can be held.
pub fn buffer_len(width: u32, height: u32, channels: u8) -> (out: Option<usize>)
    ensures
        match out {
            Some(len) => len == byte_count(width, height, channels) && len <= max_bits(),
            None => byte_count(width, height, channels) > max_bits(),
        },
{
    assert(width as int * height as int <= 0xffff_ffff * 0xffff_ffff) by (nonlinear_arith)
        requires
            0 <= width <= 0xffff_ffff,
            0 <= height <= 0xffff_ffff,
    ;
    let area: u128 = (width as u128) * (height as u128);
    assert(area as int * channels as int <= 0xffff_ffff * 0xffff_ffff * 0xff) by (nonlinear_arith)
        requires
            0 <= area <= 0xffff_ffff * 0xffff_ffff,
            0 <= channels <= 0xff,
    ;
    let count: u128 = area * (channels as u128);
    if count > (usize::MAX / 8) as u128 {
        None
    } else {
        Some(count as usize)
    }
}

/// A decoded image: 8-bit samples, channel-interleaved, pixels left to right
/// and rows top to bottom.
pub struct PixelImage {
    width: u32,
    height: u32,
    channels: u8,
    data: Vec<u8>,
}

impl PixelImage {
    #[verifier::type_invariant]
    spec fn consistent(self) -> bool {
        buffer_fits(self.width, self.height, self.channels, self.data@.len())
    }

    /// The width in pixels.
    pub closed spec fn spec_width(&self) -> u32 {
        self.width
    }

    /// The height in pixels.
    pub closed spec fn spec_height(&self) -> u32 {
        self.height
    }

    /// The number of bytes per pixel.
    pub closed spec fn spec_channels(&self) -> u8 {
        self.channels
    }

    /// The raw buffer.
    pub closed spec fn bytes(&self) -> Seq<u8> {
        self.data@
    }

    /// Makes an image of a raw buffer, which is refused unless it has the
    /// length that the size asks for.
    pub fn new(width: u32, height: u32, channels: u8, data: Vec<u8>) -> (out: Result<
        PixelImage,
        WatermarkError,
    >)
        ensures
            match out {
                Ok(image) => {
                    &&& buffer_fits(width, height, channels, data@.len())
                    &&& image.spec_width() == width
                    &&& image.spec_height() == height
                    &&& image.spec_channels() == channels
                    &&& image.bytes() == data@
                },
                Err(e) => {
                    &&& !buffer_fits(width, height, channels, data@.len())
                    &&& e == WatermarkError::DimensionMismatch
                },
            },
    {
        match buffer_len(width, height, channels) {
            Some(len) => {
                if data.len() != len {
                    return Err(WatermarkError::DimensionMismatch);
                }
            },
            None => {
                return Err(WatermarkError::DimensionMismatch);
            },
        }
        Ok(PixelImage { width, height, channels, data })
    }

    /// The width in pixels.
    pub fn width(&self) -> (w: u32)
        ensures
            w == self.spec_width(),
    {
        self.width
    }

    /// The height in pixels.
    pub fn height(&self) -> (h: u32)
        ensures
            h == self.spec_height(),
    {
        self.height
    }

    /// The number of bytes per pixel.
    pub fn channels(&self) -> (c: u8)
        ensures
            c == self.spec_channels(),
    {
        self.channels
    }

    /// The raw buffer, which has the length that the size asks for.
    pub fn as_bytes(&self) -> (data: &Vec<u8>)
        ensures
            data@ == self.bytes(),
            buffer_fits(self.spec_width(), self.spec_height(), self.spec_channels(), data@.len()),
    {
        proof {
            use_type_invariant(self);
        }
        &self.data
    }
}

} // verus!

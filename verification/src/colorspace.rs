//! Conversion between RGB images and luma and chroma planes, done by the
//! `yuvutils_rs` converter in full range with the BT.709 matrix.
use crate::error::WatermarkError;
use crate::pixels::{buffer_fits, buffer_len, PixelImage};
use vstd::prelude::*;
use yuvutils_rs::{
    rgb_to_yuv444, yuv444_to_rgb, BufferStoreMut, YuvConversionMode, YuvPlanarImage,
    YuvPlanarImageMut, YuvRange, YuvStandardMatrix,
};

verus! {

/// The number of samples in a row of the chroma planes.
pub open spec fn chroma_stride(width: u32, downsample: bool) -> int {
    if downsample {
        (width + 1) / 2
    } else {
        width as int
    }
}

/// Whether `strides` are the strides of an image `width` pixels wide: three
/// bytes for each pixel in a row of the RGB buffer, one sample for each in a
/// row of the luma plane, and a chroma stride in each chroma plane.
pub open spec fn strides_match(width: u32, downsample: bool, strides: (u32, u32, u32, u32)) -> bool {
    &&& strides.0 == width * 3
    &&& strides.1 == width
    &&& strides.2 == chroma_stride(width, downsample)
    &&& strides.3 == chroma_stride(width, downsample)
}

/// Calculates the strides that a colorspace conversion needs: in this
/// order, of the RGB buffer, of the luma plane and of the two chroma planes.
/// `downsample` is for chroma planes of half the width; the conversions of
/// this library keep the full width.
pub fn get_strides(width: u32, downsample: bool) -> (strides: (u32, u32, u32, u32))
    requires
        width * 3 <= u32::MAX,
    ensures
        strides_match(width, downsample, strides),
{
    let rgb_stride: u32 = width * 3;
    let y_stride: u32 = width;
    let cb_stride: u32 = if downsample {
        (width + 1) / 2
    } else {
        width
    };
    let cr_stride: u32 = if downsample {
        (width + 1) / 2
    } else {
        width
    };
    (rgb_stride, y_stride, cb_stride, cr_stride)
}

/// Whether three planes and an RGB buffer of these lengths belong to one
/// image of the given size, with full-width chroma.
pub open spec fn planes_fit(
    width: u32,
    height: u32,
    y_len: nat,
    cb_len: nat,
    cr_len: nat,
    rgb_len: nat,
) -> bool {
    &&& width * 3 <= u32::MAX
    &&& y_len == width * height
    &&& cb_len == width * height
    &&& cr_len == width * height
    &&& rgb_len == width * height * 3
}

/// `yuvutils_rs::rgb_to_yuv444` in full range, with the BT.709 matrix and
/// in balanced mode, on three planes borrowed from the caller. The call
/// writes into the planes and leaves their lengths alone; nothing is said
/// of what it writes, nor of whether it succeeds.
#[verifier::external_body]
fn rgb_to_planes(
    y: &mut Vec<u8>,
    cb: &mut Vec<u8>,
    cr: &mut Vec<u8>,
    rgb: &Vec<u8>,
    width: u32,
    height: u32,
    strides: (u32, u32, u32, u32),
) -> (done: bool)
    requires
        planes_fit(width, height, old(y)@.len(), old(cb)@.len(), old(cr)@.len(), rgb@.len()),
        strides_match(width, false, strides),
    ensures
        final(y)@.len() == old(y)@.len(),
        final(cb)@.len() == old(cb)@.len(),
        final(cr)@.len() == old(cr)@.len(),
{
    let mut planar = YuvPlanarImageMut {
        y_plane: BufferStoreMut::Borrowed(y.as_mut_slice()),
        y_stride: strides.1,
        u_plane: BufferStoreMut::Borrowed(cb.as_mut_slice()),
        u_stride: strides.2,
        v_plane: BufferStoreMut::Borrowed(cr.as_mut_slice()),
        v_stride: strides.3,
        width,
        height,
    };
    let (range, matrix) = (YuvRange::Full, YuvStandardMatrix::Bt709);
    rgb_to_yuv444(&mut planar, rgb, strides.0, range, matrix, YuvConversionMode::Balanced).is_ok()
}

/// `yuvutils_rs::yuv444_to_rgb` in full range and with the BT.709 matrix.
/// The call writes into `rgb` and leaves its length alone; nothing is said
/// of what it writes, nor of whether it succeeds.
#[verifier::external_body]
fn planes_to_rgb(
    rgb: &mut Vec<u8>,
    y: &[u8],
    cb: &[u8],
    cr: &[u8],
    width: u32,
    height: u32,
    strides: (u32, u32, u32, u32),
) -> (done: bool)
    requires
        planes_fit(width, height, y@.len(), cb@.len(), cr@.len(), old(rgb)@.len()),
        strides_match(width, false, strides),
    ensures
        final(rgb)@.len() == old(rgb)@.len(),
{
    let planar = YuvPlanarImage {
        y_plane: y,
        y_stride: strides.1,
        u_plane: cb,
        u_stride: strides.2,
        v_plane: cr,
        v_stride: strides.3,
        width,
        height,
    };
    let (range, matrix) = (YuvRange::Full, YuvStandardMatrix::Bt709);
    yuv444_to_rgb(&planar, rgb.as_mut_slice(), strides.0, range, matrix).is_ok()
}

/// A buffer of `len` zero bytes.
fn zeroed(len: usize) -> (buffer: Vec<u8>)
    ensures
        buffer@.len() == len,
{
    let mut buffer: Vec<u8> = Vec::new();
    let mut i: usize = 0;
    while i < len
        invariant
            i <= len,
            buffer@.len() == i,
        decreases len - i,
    {
        buffer.push(0);
        i += 1;
    }
    buffer
}

/// What a conversion to planes returns once the converter has run: the
/// three planes where it succeeded, a dimension mismatch where it did not.
pub fn planes_outcome(done: bool, y: Vec<u8>, cb: Vec<u8>, cr: Vec<u8>) -> (out: Result<
    (Vec<u8>, Vec<u8>, Vec<u8>),
    WatermarkError,
>)
    ensures
        out == if done {
            Ok::<(Vec<u8>, Vec<u8>, Vec<u8>), WatermarkError>((y, cb, cr))
        } else {
            Err::<(Vec<u8>, Vec<u8>, Vec<u8>), WatermarkError>(WatermarkError::DimensionMismatch)
        },
{
    if done {
        Ok((y, cb, cr))
    } else {
        Err(WatermarkError::DimensionMismatch)
    }
}

/// Converts an RGB image to luma and chroma planes of full width and
/// height: `(y_plane, cb_plane, cr_plane)`. An image that does not have
/// exactly three channels, or whose rows are too long for the converter, is
/// refused. For any other image the converter decides; where it succeeds,
/// each plane holds one sample for each pixel.
#[allow(non_snake_case)]
pub fn convert_to_YCbCr(image: &PixelImage) -> (out: Result<
    (Vec<u8>, Vec<u8>, Vec<u8>),
    WatermarkError,
>)
    ensures
        match out {
            Ok((y, cb, cr)) => {
                &&& image.spec_channels() == 3
                &&& image.spec_width() * 3 <= u32::MAX
                &&& y@.len() == image.spec_width() * image.spec_height()
                &&& cb@.len() == image.spec_width() * image.spec_height()
                &&& cr@.len() == image.spec_width() * image.spec_height()
            },
            Err(e) => e == WatermarkError::DimensionMismatch,
        },
        image.spec_channels() != 3 || image.spec_width() * 3 > u32::MAX ==> out is Err,
{
    let width: u32 = image.width();
    let height: u32 = image.height();
    if image.channels() != 3 || width > u32::MAX / 3 {
        return Err(WatermarkError::DimensionMismatch);
    }
    let rgb = image.as_bytes();
    let buffer_size: usize = rgb.len() / 3;
    assert(buffer_size == width * height) by (nonlinear_arith)
        requires
            buffer_size == (width * height * 3) / 3,
    ;
    let mut y: Vec<u8> = zeroed(buffer_size);
    let mut cb: Vec<u8> = zeroed(buffer_size);
    let mut cr: Vec<u8> = zeroed(buffer_size);
    let strides = get_strides(width, false);
    let done: bool = rgb_to_planes(&mut y, &mut cb, &mut cr, rgb, width, height, strides);
    planes_outcome(done, y, cb, cr)
}

/// What a conversion to RGB returns once the converter has run: the image
/// around the buffer where it succeeded, a dimension mismatch where it did
/// not.
pub fn image_outcome(done: bool, width: u32, height: u32, rgb: Vec<u8>) -> (out: Result<
    PixelImage,
    WatermarkError,
>)
    ensures
        match out {
            Ok(image) => {
                &&& done
                &&& buffer_fits(width, height, 3, rgb@.len())
                &&& image.spec_width() == width
                &&& image.spec_height() == height
                &&& image.spec_channels() == 3
                &&& image.bytes() == rgb@
            },
            Err(e) => e == WatermarkError::DimensionMismatch,
        },
        done && buffer_fits(width, height, 3, rgb@.len()) ==> out is Ok,
{
    if !done {
        return Err(WatermarkError::DimensionMismatch);
    }
    PixelImage::new(width, height, 3, rgb)
}

/// Converts luma and chroma planes of full width and height to an RGB
/// image. Planes that do not hold one sample for each pixel, rows too long
/// for the converter and an image too large to be held are refused. For any
/// other input the converter decides; where it succeeds, the image has the
/// given size and three channels.
#[allow(non_snake_case)]
pub fn convert_to_RGB(
    width: u32,
    height: u32,
    y_plane: &[u8],
    cb_plane: &[u8],
    cr_plane: &[u8],
) -> (out: Result<PixelImage, WatermarkError>)
    ensures
        match out {
            Ok(image) => {
                &&& planes_fit(
                    width,
                    height,
                    y_plane@.len(),
                    cb_plane@.len(),
                    cr_plane@.len(),
                    image.bytes().len(),
                )
                &&& image.spec_width() == width
                &&& image.spec_height() == height
                &&& image.spec_channels() == 3
            },
            Err(e) => e == WatermarkError::DimensionMismatch,
        },
        !planes_fit(
            width,
            height,
            y_plane@.len(),
            cb_plane@.len(),
            cr_plane@.len(),
            (width * height * 3) as nat,
        ) || !buffer_fits(width, height, 3, (width * height * 3) as nat) ==> out is Err,
{
    if width > u32::MAX / 3 {
        return Err(WatermarkError::DimensionMismatch);
    }
    let len: usize = match buffer_len(width, height, 3) {
        Some(len) => len,
        None => {
            return Err(WatermarkError::DimensionMismatch);
        },
    };
    let area: usize = len / 3;
    assert(area == width * height) by (nonlinear_arith)
        requires
            area == (width * height * 3) / 3,
    ;
    if y_plane.len() != area || cb_plane.len() != area || cr_plane.len() != area {
        return Err(WatermarkError::DimensionMismatch);
    }
    let strides = get_strides(width, false);
    let mut rgb: Vec<u8> = zeroed(len);
    let done: bool = planes_to_rgb(&mut rgb, y_plane, cb_plane, cr_plane, width, height, strides);
    image_outcome(done, width, height, rgb)
}

} // verus!

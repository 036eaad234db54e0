//! Hides a payload image in the luma coefficients of a host image by
//! quantization index modulation with dither, and reads it back.
//!
//! The host's luma plane is cut into blocks of 8 by 8 samples, each block
//! is turned into 64 frequency coefficients, and 12 fixed coefficients of
//! each block take one payload bit each: the coefficient is moved onto one
//! of two interleaved lattices, and which lattice tells the bit. A key
//! seeds the dither that places the lattices.
//!
//! Everything here computes on integers. Samples are whole gray levels;
//! coefficients are whole numbers of a unit that the caller chooses (a
//! fixed-point scale), and the step size counts the same units. The
//! transform between samples and coefficients is laid out here for any
//! kind of sample: which passes run over a block and in what order. The
//! cosine transform of one row, which works on floating point, is handed
//! in by the caller, and decoding and encoding of image files are the
//! caller's too.
pub mod bits;
pub mod color_recode;
pub mod colorspace;
pub mod dct;
pub mod error;
pub mod pixels;
pub mod qim;

use crate::bits::{max_bits, Bitstream};
use crate::color_recode::{
    binarized, bit_levels, lemma_recode_round_trip, recode_to_3bits, recode_to_rgb, threshold_bits,
};
use crate::dct::{all_blocks_whole, all_whole};
use crate::error::WatermarkError;
use crate::pixels::{buffer_fits, buffer_len, PixelImage};
use crate::qim::{
    dither_signal, embed_group, embedded_block, extract_group, extracted_bits,
    generate_dither_signal, has_headroom, lemma_extract_inverts_embed, samples,
    valid_dither_signal,
};
use vstd::prelude::*;

verus! {

/// The samples of each block of a vector of blocks, as mathematical
/// integers.
pub open spec fn block_samples(blocks: Seq<Vec<i64>>) -> Seq<Seq<int>> {
    Seq::new(blocks.len(), |b: int| samples(blocks[b]@))
}

/// Whether every block leaves its masked coefficients room to move by half
/// a step.
pub open spec fn all_have_headroom(blocks: Seq<Vec<i64>>, step: int) -> bool {
    forall|b: int| 0 <= b < blocks.len() ==> has_headroom((#[trigger] blocks[b])@, step)
}

/// Blocks with a bitstream embedded: block number `b` carries the bits
/// from `12 * b` up to `12 * b + 12`.
pub open spec fn embedded_blocks(
    blocks: Seq<Seq<int>>,
    bits: Seq<bool>,
    dithers: Seq<(i64, i64)>,
    step: int,
) -> Seq<Seq<int>> {
    Seq::new(
        blocks.len(),
        |b: int| embedded_block(blocks[b], bits.subrange(12 * b, 12 * b + 12), dithers, step),
    )
}

/// The bitstream read from blocks: 12 bits from each, block after block.
pub open spec fn extracted_stream(blocks: Seq<Seq<int>>, dithers: Seq<(i64, i64)>, step: int) -> Seq<
    bool,
> {
    Seq::new(12 * blocks.len(), |i: int| extracted_bits(blocks[i / 12], dithers, step)[i % 12])
}

/// Embeds a bitstream into blocks of coefficients, 12 bits into each block
/// in turn. The stream has to hold exactly 12 bits for each block, or it is
/// refused as a payload length mismatch: no bit is dropped and none is made
/// up. Blocks that are not 64 coefficients long are refused as an invalid
/// grid index. Where anything is refused the blocks are left untouched.
pub fn embed_bitstream(
    blocks: &mut Vec<Vec<i64>>,
    bits: &Bitstream,
    dithers: &Vec<(i64, i64)>,
    step_size: i64,
) -> (out: Result<(), WatermarkError>)
    requires
        step_size > 0,
        dithers@.len() == 12,
        all_have_headroom(old(blocks)@, step_size as int),
    ensures
        match out {
            Ok(_) => {
                &&& bits@.len() == 12 * old(blocks)@.len()
                &&& all_whole(old(blocks)@)
                &&& block_samples(final(blocks)@) == embedded_blocks(
                    block_samples(old(blocks)@),
                    bits@,
                    dithers@,
                    step_size as int,
                )
            },
            Err(e) => {
                &&& *final(blocks) == *old(blocks)
                &&& if bits@.len() != 12 * old(blocks)@.len() {
                    e == WatermarkError::PayloadLengthMismatch
                } else {
                    !all_whole(old(blocks)@) && e == WatermarkError::InvalidGridIndex
                }
            },
        },
{
    let count: usize = blocks.len();
    let total: usize = bits.len();
    if total % 12 != 0 || total / 12 != count {
        return Err(WatermarkError::PayloadLengthMismatch);
    }
    if !all_blocks_whole(blocks) {
        return Err(WatermarkError::InvalidGridIndex);
    }
    let ghost before = blocks@;
    let mut b: usize = 0;
    while b < count
        invariant
            b <= count,
            count == blocks@.len(),
            before.len() == count,
            total == bits@.len(),
            total == 12 * count,
            dithers@.len() == 12,
            step_size > 0,
            all_whole(before),
            all_have_headroom(before, step_size as int),
            forall|i: int|
                0 <= i < b ==> samples((#[trigger] blocks@[i])@) == embedded_block(
                    samples(before[i]@),
                    bits@.subrange(12 * i, 12 * i + 12),
                    dithers@,
                    step_size as int,
                ),
            forall|i: int| b <= i < count ==> #[trigger] blocks@[i] == before[i],
        decreases count - b,
    {
        embed_group(&mut blocks[b], bits, 12 * b, dithers, step_size);
        b += 1;
    }
    assert(block_samples(blocks@) =~= embedded_blocks(
        block_samples(before),
        bits@,
        dithers@,
        step_size as int,
    ));
    Ok(())
}

/// Reads the bitstream that blocks of coefficients carry: 12 bits from
/// each block, block after block. More blocks than one bitstream has room
/// for are refused as a payload length mismatch, blocks that are not 64
/// coefficients long as an invalid grid index.
pub fn extract_bitstream(blocks: &Vec<Vec<i64>>, dithers: &Vec<(i64, i64)>, step_size: i64) -> (out:
    Result<Bitstream, WatermarkError>)
    requires
        step_size > 0,
        dithers@.len() == 12,
    ensures
        match out {
            Ok(bits) => {
                &&& 12 * blocks@.len() <= max_bits()
                &&& all_whole(blocks@)
                &&& bits@ == extracted_stream(block_samples(blocks@), dithers@, step_size as int)
            },
            Err(e) => if 12 * blocks@.len() > max_bits() {
                e == WatermarkError::PayloadLengthMismatch
            } else {
                !all_whole(blocks@) && e == WatermarkError::InvalidGridIndex
            },
        },
{
    let count: usize = blocks.len();
    if count > (usize::MAX / 8) / 12 {
        return Err(WatermarkError::PayloadLengthMismatch);
    }
    if !all_blocks_whole(blocks) {
        return Err(WatermarkError::InvalidGridIndex);
    }
    let mut bits = Bitstream::new();
    let mut b: usize = 0;
    while b < count
        invariant
            b <= count,
            count == blocks@.len(),
            12 * count <= max_bits(),
            dithers@.len() == 12,
            step_size > 0,
            all_whole(blocks@),
            bits@ == extracted_stream(
                block_samples(blocks@.take(b as int)),
                dithers@,
                step_size as int,
            ),
        decreases count - b,
    {
        let ghost sofar = bits@;
        extract_group(&mut bits, &blocks[b], dithers, step_size);
        assert(bits@ =~= extracted_stream(
            block_samples(blocks@.take(b + 1)),
            dithers@,
            step_size as int,
        )) by {
            let next = extracted_stream(
                block_samples(blocks@.take(b + 1)),
                dithers@,
                step_size as int,
            );
            assert forall|i: int| 0 <= i < 12 * (b + 1) implies bits@[i] == next[i] by {
                if i < 12 * b {
                    assert(sofar[i] == extracted_bits(
                        block_samples(blocks@.take(b as int))[i / 12],
                        dithers@,
                        step_size as int,
                    )[i % 12]);
                } else {
                    assert(i / 12 == b && i % 12 == i - 12 * b);
                }
            }
        }
        b += 1;
    }
    assert(blocks@.take(count as int) == blocks@);
    Ok(bits)
}

/// Tells whether every masked coefficient of every block can move by half
/// a step in either direction without leaving the range of an `i64`, which
/// is what `embed_bitstream` and `embed_watermark` ask of their blocks.
pub fn blocks_have_headroom(blocks: &Vec<Vec<i64>>, step_size: i64) -> (roomy: bool)
    requires
        step_size > 0,
    ensures
        roomy == all_have_headroom(blocks@, step_size as int),
{
    let half: i64 = step_size / 2;
    let mut b: usize = 0;
    while b < blocks.len()
        invariant
            b <= blocks@.len(),
            half == step_size / 2,
            step_size > 0,
            forall|i: int| 0 <= i < b ==> has_headroom((#[trigger] blocks@[i])@, step_size as int),
        decreases blocks@.len() - b,
    {
        let block = &blocks[b];
        let mut i: usize = 0;
        while i < block.len()
            invariant
                i <= block@.len(),
                b < blocks@.len(),
                block@ == blocks@[b as int]@,
                half == step_size / 2,
                step_size > 0,
                forall|j: int|
                    0 <= j < i && crate::qim::in_mask(j) ==> i64::MIN + step_size / 2
                        <= #[trigger] block@[j] <= i64::MAX - step_size / 2,
            decreases block@.len() - i,
        {
            if crate::qim::in_range(i) && (block[i] < i64::MIN + half || block[i] > i64::MAX
                - half) {
                assert(!has_headroom(blocks@[b as int]@, step_size as int));
                return false;
            }
            i += 1;
        }
        assert(has_headroom(blocks@[b as int]@, step_size as int));
        b += 1;
    }
    true
}

/// Embeds a watermark image into the coefficient blocks of a host. The
/// watermark is recoded to one bit for each byte of its buffer, the dither
/// signal is generated from `key` and `step_size`, and each block in turn
/// takes 12 bits. The bits have to be exactly 12 for each block: any other
/// watermark is refused as a payload length mismatch and the blocks are
/// left untouched. The dither signal of a key is always a valid one.
///
/// A larger `step_size` makes the watermark easier to read back and easier
/// to see.
pub fn embed_watermark(
    blocks: &mut Vec<Vec<i64>>,
    watermark: &PixelImage,
    key: u64,
    step_size: i64,
) -> (out: Result<(), WatermarkError>)
    requires
        step_size >= 2,
        all_have_headroom(old(blocks)@, step_size as int),
    ensures
        match out {
            Ok(_) => {
                &&& watermark.bytes().len() == 12 * old(blocks)@.len()
                &&& all_whole(old(blocks)@)
                &&& block_samples(final(blocks)@) == embedded_blocks(
                    block_samples(old(blocks)@),
                    threshold_bits(watermark.bytes()),
                    dither_signal(12, step_size, key),
                    step_size as int,
                )
            },
            Err(e) => {
                &&& *final(blocks) == *old(blocks)
                &&& if watermark.bytes().len() != 12 * old(blocks)@.len() {
                    e == WatermarkError::PayloadLengthMismatch
                } else {
                    !all_whole(old(blocks)@) && e == WatermarkError::InvalidGridIndex
                }
            },
        },
        valid_dither_signal(dither_signal(12, step_size, key), step_size as int),
{
    let wm_bits = recode_to_3bits(watermark);
    let dithers = generate_dither_signal(12, step_size, key);
    embed_bitstream(blocks, &wm_bits, &dithers, step_size)
}

/// Extracts the watermark that the coefficient blocks of a host carry: the
/// bitstream, and the image of the given size that the bits recode to. The
/// dither signal is generated from `key` and `step_size`, which have to be
/// those of the embedding. Blocks that do not carry exactly three bits for
/// each pixel of the watermark are refused as a payload length mismatch.
pub fn extract_watermark(
    blocks: &Vec<Vec<i64>>,
    payload_width: u32,
    payload_height: u32,
    key: u64,
    step_size: i64,
) -> (out: Result<(Bitstream, PixelImage), WatermarkError>)
    requires
        step_size >= 2,
    ensures
        match out {
            Ok((bits, image)) => {
                &&& buffer_fits(payload_width, payload_height, 3, (12 * blocks@.len()) as nat)
                &&& all_whole(blocks@)
                &&& bits@ == extracted_stream(
                    block_samples(blocks@),
                    dither_signal(12, step_size, key),
                    step_size as int,
                )
                &&& image.spec_width() == payload_width
                &&& image.spec_height() == payload_height
                &&& image.spec_channels() == 3
                &&& image.bytes() == bit_levels(bits@)
            },
            Err(e) => if !buffer_fits(
                payload_width,
                payload_height,
                3,
                (12 * blocks@.len()) as nat,
            ) {
                e == WatermarkError::PayloadLengthMismatch
            } else {
                !all_whole(blocks@) && e == WatermarkError::InvalidGridIndex
            },
        },
        valid_dither_signal(dither_signal(12, step_size, key), step_size as int),
{
    let dithers = generate_dither_signal(12, step_size, key);
    let count: usize = blocks.len();
    match buffer_len(payload_width, payload_height, 3) {
        Some(len) => {
            if len % 12 != 0 || len / 12 != count {
                return Err(WatermarkError::PayloadLengthMismatch);
            }
        },
        None => {
            return Err(WatermarkError::PayloadLengthMismatch);
        },
    }
    let bits = match extract_bitstream(blocks, &dithers, step_size) {
        Ok(bits) => bits,
        Err(e) => {
            return Err(e);
        },
    };
    match recode_to_rgb(&bits, payload_width, payload_height) {
        Ok(image) => Ok((bits, image)),
        Err(e) => Err(e),
    }
}

/// What is embedded is what is extracted: for blocks of 64 coefficients, a
/// bitstream of 12 bits for each block, a valid dither signal and a step of
/// 2 or more, the stream read from the embedded blocks is the stream that
/// was embedded.
pub proof fn lemma_extract_inverts_embed_stream(
    blocks: Seq<Seq<int>>,
    bits: Seq<bool>,
    dithers: Seq<(i64, i64)>,
    step: int,
)
    requires
        step >= 2,
        forall|b: int| 0 <= b < blocks.len() ==> (#[trigger] blocks[b]).len() == 64,
        bits.len() == 12 * blocks.len(),
        valid_dither_signal(dithers, step),
    ensures
        extracted_stream(embedded_blocks(blocks, bits, dithers, step), dithers, step) == bits,
{
    let embedded = embedded_blocks(blocks, bits, dithers, step);
    let read = extracted_stream(embedded, dithers, step);
    assert forall|i: int| 0 <= i < bits.len() implies read[i] == bits[i] by {
        let b = i / 12;
        let group = bits.subrange(12 * b, 12 * b + 12);
        lemma_extract_inverts_embed(blocks[b], group, dithers, step);
        assert(group[i % 12] == bits[i]);
    }
    assert(read =~= bits);
}

/// A watermark comes back binarized: for blocks of 64 coefficients, a
/// payload of as many bytes as the blocks carry bits, a valid dither signal
/// and a step of 2 or more, the image recoded from the bits of the embedded
/// blocks holds 255 where the payload held 128 or more, and 0 elsewhere.
pub proof fn lemma_watermark_round_trip(
    blocks: Seq<Seq<int>>,
    payload: Seq<u8>,
    dithers: Seq<(i64, i64)>,
    step: int,
)
    requires
        step >= 2,
        forall|b: int| 0 <= b < blocks.len() ==> (#[trigger] blocks[b]).len() == 64,
        payload.len() == 12 * blocks.len(),
        valid_dither_signal(dithers, step),
    ensures
        bit_levels(
            extracted_stream(
                embedded_blocks(blocks, threshold_bits(payload), dithers, step),
                dithers,
                step,
            ),
        ) == binarized(payload),
{
    lemma_extract_inverts_embed_stream(blocks, threshold_bits(payload), dithers, step);
    lemma_recode_round_trip(payload);
}

} // verus!

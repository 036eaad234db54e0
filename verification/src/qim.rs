//! Dither-modulated quantization of one block: the coefficient mask, the
//! quantizer, the key-seeded dither signal, and embedding and extraction of
//! a group of 12 bits.
use crate::bits::{max_bits, Bitstream};
use crate::error::WatermarkError;
use rand::Rng;
use rand::SeedableRng;
use rand_chacha::ChaCha8Rng;
use vstd::prelude::*;

verus! {

/// The number of coefficients in one block.
pub const BLOCK_LEN: usize = 64;

/// The number of payload bits that one block carries.
pub const GROUP_BITS: usize = 12;

/// The places in a block, in ascending order, that carry one payload bit
/// each. Embedding and extraction both go by this one table.
pub const COEFFICIENT_MASK: [usize; 12] = [4, 5, 6, 7, 11, 12, 13, 14, 15, 18, 19, 20];

/// The place in a block of the coefficient that carries bit number `slot`.
pub open spec fn mask_position(slot: int) -> int {
    COEFFICIENT_MASK@[slot] as int
}

/// Whether the coefficient at `index` carries a payload bit.
pub open spec fn in_mask(index: int) -> bool {
    4 <= index <= 7 || 11 <= index <= 15 || 18 <= index <= 20
}

/// The number of the bit that the coefficient at `index` carries, where it
/// carries one.
pub open spec fn mask_slot(index: int) -> int {
    if index <= 7 {
        index - 4
    } else if index <= 15 {
        index - 7
    } else {
        index - 9
    }
}

/// The table lists exactly the places that `in_mask` accepts, each once and
/// in ascending order, and `mask_slot` finds each one's row.
pub proof fn lemma_mask_table()
    ensures
        forall|slot: int|
            0 <= slot < 12 ==> in_mask(#[trigger] mask_position(slot)) && mask_slot(
                mask_position(slot),
            ) == slot,
        forall|index: int|
            in_mask(index) ==> 0 <= #[trigger] mask_slot(index) < 12 && mask_position(
                mask_slot(index),
            ) == index,
        forall|a: int, b: int|
            0 <= a < b < 12 ==> #[trigger] mask_position(a) < #[trigger] mask_position(b),
{
    assert forall|slot: int| 0 <= slot < 12 implies in_mask(#[trigger] mask_position(slot))
        && mask_slot(mask_position(slot)) == slot by {
        lemma_mask_rows(slot);
    }
    assert forall|index: int| in_mask(index) implies 0 <= #[trigger] mask_slot(index) < 12
        && mask_position(mask_slot(index)) == index by {
        lemma_mask_rows(mask_slot(index));
    }
    assert forall|a: int, b: int| 0 <= a < b < 12 implies #[trigger] mask_position(a)
        < #[trigger] mask_position(b) by {
        lemma_mask_rows(a);
        lemma_mask_rows(b);
    }
}

/// Row `slot` of the table, written out.
proof fn lemma_mask_rows(slot: int)
    requires
        0 <= slot < 12,
    ensures
        mask_position(slot) == if slot < 4 {
            slot + 4
        } else if slot < 9 {
            slot + 7
        } else {
            slot + 9
        },
{
    assert(COEFFICIENT_MASK@[0] == 4 && COEFFICIENT_MASK@[1] == 5 && COEFFICIENT_MASK@[2] == 6
        && COEFFICIENT_MASK@[3] == 7);
    assert(COEFFICIENT_MASK@[4] == 11 && COEFFICIENT_MASK@[5] == 12 && COEFFICIENT_MASK@[6] == 13
        && COEFFICIENT_MASK@[7] == 14 && COEFFICIENT_MASK@[8] == 15);
    assert(COEFFICIENT_MASK@[9] == 18 && COEFFICIENT_MASK@[10] == 19 && COEFFICIENT_MASK@[11]
        == 20);
}

/// Tells whether the coefficient at place `i` of a block carries a payload
/// bit.
pub fn in_range(i: usize) -> (carries: bool)
    ensures
        carries == in_mask(i as int),
{
    (4 <= i && i <= 7) || (11 <= i && i <= 15) || (18 <= i && i <= 20)
}

/// Looks up the place of the coefficient that carries bit number `slot`.
pub fn mask_index(slot: usize) -> (index: usize)
    requires
        slot < 12,
    ensures
        index == mask_position(slot as int),
        in_mask(index as int),
        index < 64,
{
    proof {
        lemma_mask_rows(slot as int);
    }
    COEFFICIENT_MASK[slot]
}

/// The multiple of `step` nearest to `value`; a value halfway between two
/// multiples goes to the upper one. Negative values are rounded by the same
/// rule as positive ones.
pub open spec fn quantize(value: int, step: int) -> int {
    ((2 * value + step) / (2 * step)) * step
}

/// What pins `quantize` down: its result is a multiple of `step`, and
/// `value` lies no more than half a step below it and less than half a step
/// above it.
pub proof fn lemma_quantize_nearest(value: int, step: int)
    requires
        step > 0,
    ensures
        quantize(value, step) % step == 0,
        2 * quantize(value, step) - step <= 2 * value < 2 * quantize(value, step) + step,
{
    let t = 2 * value + step;
    let d = 2 * step;
    let k = t / d;
    assert(t == d * k + t % d && 0 <= t % d < d) by (nonlinear_arith)
        requires
            d > 0,
            k == t / d,
    ;
    assert((k * step) % step == 0) by (nonlinear_arith)
        requires
            step > 0,
    ;
    assert(d * k == 2 * (k * step)) by (nonlinear_arith)
        requires
            d == 2 * step,
    ;
}

/// The only multiple of `step` that has `value` within half a step, the
/// lower end included, is `quantize(value, step)`.
pub proof fn lemma_quantize_unique(value: int, step: int, multiple: int)
    requires
        step > 0,
        multiple % step == 0,
        2 * multiple - step <= 2 * value < 2 * multiple + step,
    ensures
        quantize(value, step) == multiple,
{
    lemma_quantize_nearest(value, step);
    let q = quantize(value, step);
    assert(q == multiple) by (nonlinear_arith)
        requires
            step > 0,
            q % step == 0,
            multiple % step == 0,
            -2 * step < 2 * (q - multiple) < 2 * step,
    ;
}

/// `nearest` is `quantize` on machine integers wide enough for every sum of
/// a coefficient and a dither.
fn nearest_multiple(value: i128, step: i64) -> (nearest: i128)
    requires
        step > 0,
        -0x2_0000_0000_0000_0000 <= value <= 0x2_0000_0000_0000_0000,
    ensures
        nearest == quantize(value as int, step as int),
{
    let twice: i128 = 2 * value + step as i128;
    let span: i128 = 2 * (step as i128);
    let count: i128 = if twice >= 0 {
        twice / span
    } else {
        let up: i128 = (span - 1 - twice) / span;
        assert(-up == twice as int / span as int) by (nonlinear_arith)
            requires
                span > 0,
                twice < 0,
                up == (span - 1 - twice) / (span as int),
        ;
        -up
    };
    assert(-0x4_0000_0000_0000_0001 <= count * step <= 0x4_0000_0000_0000_0001
        && -0x4_0000_0000_0000_0001 <= count <= 0x4_0000_0000_0000_0001) by (nonlinear_arith)
        requires
            step > 0,
            span == 2 * step,
            count == twice as int / span as int,
            -0x4_0000_0000_0000_0001 <= twice <= 0x4_0000_0000_0000_0001 + step,
    ;
    count * (step as i128)
}

/// Rounds `num` to the nearest multiple of `step_size`, halves upward.
pub fn round_to_step_size(num: i64, step_size: i64) -> (rounded: i64)
    requires
        step_size > 0,
        i64::MIN + step_size / 2 <= num <= i64::MAX - step_size / 2,
    ensures
        rounded == quantize(num as int, step_size as int),
{
    let nearest: i128 = nearest_multiple(num as i128, step_size);
    proof {
        lemma_quantize_nearest(num as int, step_size as int);
    }
    nearest as i64
}

/// The dither pair built on one drawn offset `t`: `t` itself for a clear
/// bit, and for a set bit the offset half a step away from it, downward
/// where `t` is positive and upward where it is not.
pub open spec fn dither_pair(t: i64, half: i64) -> (i64, i64) {
    if t > 0 {
        (t, (t - half) as i64)
    } else {
        (t, (t + half) as i64)
    }
}

/// The dither pairs built on a sequence of drawn offsets.
pub open spec fn paired_dithers(draws: Seq<i64>, half: i64) -> Seq<(i64, i64)> {
    Seq::new(draws.len(), |k: int| dither_pair(draws[k], half))
}

/// Whether `pair` is a dither pair for quantization step `step`: its first
/// offset lies in `[-step/2, step/2)` and its second is the first moved by
/// `step/2` toward zero or past it.
pub open spec fn valid_dither_pair(pair: (i64, i64), step: int) -> bool {
    &&& -(step / 2) <= pair.0 < step / 2
    &&& pair.1 == if pair.0 > 0 {
        pair.0 - step / 2
    } else {
        pair.0 + step / 2
    }
}

/// Whether `dithers` holds one valid dither pair for each bit of a group.
pub open spec fn valid_dither_signal(dithers: Seq<(i64, i64)>, step: int) -> bool {
    &&& dithers.len() == 12
    &&& forall|k: int| 0 <= k < 12 ==> valid_dither_pair(#[trigger] dithers[k], step)
}

/// The offsets that a ChaCha8 generator seeded with `seed` gives when it is
/// asked `length` times in a row for an integer in `[-half, half)`.
pub uninterp spec fn seeded_draws(seed: u64, half: i64, length: usize) -> Seq<i64>;

/// The dither signal for a key and a step size.
pub open spec fn dither_signal(length: usize, step_size: i64, seed: u64) -> Seq<(i64, i64)> {
    paired_dithers(seeded_draws(seed, (step_size / 2) as i64, length), (step_size / 2) as i64)
}

/// `ChaCha8Rng::seed_from_u64`, then `Rng::random_range` on `-half..half`
/// once for each of `length` offsets. The generator is a function of its
/// seed, so the offsets are a function of the three arguments; each lies in
/// the range asked for. An empty range makes the outside code panic, so
/// `half` has to be positive.
#[verifier::external_body]
fn draw_offsets(seed: u64, half: i64, length: usize) -> (draws: Vec<i64>)
    requires
        half > 0,
    ensures
        draws@ == seeded_draws(seed, half, length),
        draws@.len() == length,
        forall|k: int| 0 <= k < draws@.len() ==> -half <= #[trigger] draws@[k] < half,
{
    let mut rng = ChaCha8Rng::seed_from_u64(seed);
    (0..length).map(|_| rng.random_range(-half..half)).collect()
}

/// Builds the dither pair on each drawn offset.
pub fn pair_dithers(draws: &Vec<i64>, half: i64) -> (dithers: Vec<(i64, i64)>)
    requires
        half >= 0,
    ensures
        dithers@ == paired_dithers(draws@, half),
{
    let mut dithers: Vec<(i64, i64)> = Vec::new();
    let mut k: usize = 0;
    while k < draws.len()
        invariant
            half >= 0,
            k <= draws@.len(),
            dithers@ == paired_dithers(draws@.take(k as int), half),
        decreases draws@.len() - k,
    {
        let t: i64 = draws[k];
        let pair: (i64, i64) = if t > 0 {
            (t, t - half)
        } else {
            (t, t + half)
        };
        dithers.push(pair);
        assert(dithers@ =~= paired_dithers(draws@.take(k + 1), half));
        k += 1;
    }
    assert(draws@.take(draws@.len() as int) == draws@);
    dithers
}

/// Generates the dither signal for a key: `length` dither pairs, each built
/// on an offset drawn from `[-step_size/2, step_size/2)` by a generator
/// seeded with `seed`. The same arguments give the same pairs. `length` is
/// 12 wherever the signal serves to embed or extract.
pub fn generate_dither_signal(length: usize, step_size: i64, seed: u64) -> (dithers: Vec<
    (i64, i64),
>)
    requires
        step_size >= 2,
    ensures
        dithers@ == dither_signal(length, step_size, seed),
        dithers@.len() == length,
        forall|k: int|
            0 <= k < dithers@.len() ==> valid_dither_pair(#[trigger] dithers@[k], step_size as int),
{
    let half: i64 = step_size / 2;
    let draws = draw_offsets(seed, half, length);
    pair_dithers(&draws, half)
}

/// Two dither signals generated for the same length, step size and seed are
/// the same signal.
pub proof fn lemma_dither_signal_repeats(
    first: Seq<(i64, i64)>,
    second: Seq<(i64, i64)>,
    length: usize,
    step_size: i64,
    seed: u64,
)
    requires
        first == dither_signal(length, step_size, seed),
        second == dither_signal(length, step_size, seed),
    ensures
        first == second,
{
}

/// The samples of a block as mathematical integers.
pub open spec fn samples(block: Seq<i64>) -> Seq<int> {
    Seq::new(block.len(), |i: int| block[i] as int)
}

/// The dither of a pair that stands for `bit`.
pub open spec fn chosen_dither(pair: (i64, i64), bit: bool) -> int {
    if bit {
        pair.1 as int
    } else {
        pair.0 as int
    }
}

/// A coefficient moved onto the lattice of the multiples of `step` shifted
/// by `-dither`.
pub open spec fn embed_coefficient(value: int, dither: int, step: int) -> int {
    quantize(value + dither, step) - dither
}

/// The bit read from one coefficient: clear where the coefficient, shifted
/// by the dither for a clear bit, lies closer than a tenth of a step to a
/// multiple of `step`, and set everywhere else.
pub open spec fn extract_bit(value: int, low_dither: int, step: int) -> bool {
    let probe = value + low_dither;
    let off = quantize(probe, step) - probe;
    !(10 * off < step && -step < 10 * off)
}

/// A block with a group of 12 bits embedded: the coefficient at the place
/// of slot `k` is moved onto the lattice that `bits[k]` selects from
/// `dithers[k]`, and every other coefficient is left as it is.
pub open spec fn embedded_block(
    block: Seq<int>,
    bits: Seq<bool>,
    dithers: Seq<(i64, i64)>,
    step: int,
) -> Seq<int> {
    Seq::new(
        block.len(),
        |i: int|
            if in_mask(i) {
                embed_coefficient(
                    block[i],
                    chosen_dither(dithers[mask_slot(i)], bits[mask_slot(i)]),
                    step,
                )
            } else {
                block[i]
            },
    )
}

/// The 12 bits read from a block, one from each masked coefficient in the
/// order of the table.
pub open spec fn extracted_bits(block: Seq<int>, dithers: Seq<(i64, i64)>, step: int) -> Seq<
    bool,
> {
    Seq::new(12, |k: int| extract_bit(block[mask_position(k)], dithers[k].0 as int, step))
}

/// Whether every masked coefficient of `block` can move by half a step in
/// either direction and still be an `i64`.
pub open spec fn has_headroom(block: Seq<i64>, step: int) -> bool {
    forall|i: int|
        0 <= i < block.len() && in_mask(i) ==> i64::MIN + step / 2 <= #[trigger] block[i]
            <= i64::MAX - step / 2
}

/// Embeds the 12 bits of `bits` that start at `offset` into `host`.
pub(crate) fn embed_group(
    host: &mut Vec<i64>,
    bits: &Bitstream,
    offset: usize,
    dithers: &Vec<(i64, i64)>,
    step_size: i64,
)
    requires
        old(host)@.len() == 64,
        offset + 12 <= bits@.len() <= usize::MAX,
        dithers@.len() == 12,
        step_size > 0,
        has_headroom(old(host)@, step_size as int),
    ensures
        samples(final(host)@) == embedded_block(
            samples(old(host)@),
            bits@.subrange(offset as int, offset + 12),
            dithers@,
            step_size as int,
        ),
{
    let ghost before = host@;
    let ghost group = bits@.subrange(offset as int, offset + 12);
    let mut k: usize = 0;
    while k < 12
        invariant
            k <= 12,
            host@.len() == 64,
            before.len() == 64,
            offset + 12 <= bits@.len() <= usize::MAX,
            group == bits@.subrange(offset as int, offset + 12),
            dithers@.len() == 12,
            step_size > 0,
            has_headroom(before, step_size as int),
            forall|i: int|
                0 <= i < 64 ==> #[trigger] host@[i] as int == if in_mask(i) && mask_slot(i) < k {
                    embed_coefficient(
                        before[i] as int,
                        chosen_dither(dithers@[mask_slot(i)], group[mask_slot(i)]),
                        step_size as int,
                    )
                } else {
                    before[i] as int
                },
        decreases 12 - k,
    {
        let index: usize = mask_index(k);
        let pair: (i64, i64) = dithers[k];
        let bit: bool = bits.get(offset + k);
        let dither: i64 = if bit {
            pair.1
        } else {
            pair.0
        };
        proof {
            lemma_mask_table();
            assert(mask_slot(index as int) == k);
            assert(host@[index as int] == before[index as int]);
            assert(group[k as int] == bit);
            lemma_quantize_nearest(host@[index as int] + dither, step_size as int);
        }
        let shifted: i128 = host[index] as i128 + dither as i128;
        let moved: i128 = nearest_multiple(shifted, step_size) - dither as i128;
        host.set(index, moved as i64);
        k += 1;
    }
    assert(samples(host@) =~= embedded_block(samples(before), group, dithers@, step_size as int));
}

/// Embeds a group of 12 bits into one block of coefficients. For the 12
/// masked places in ascending order, paired one to one with the bits: the
/// coefficient `c` becomes `quantize(c + d, step_size) - d`, where `d` is
/// the second dither of the pair for a set bit and the first for a clear
/// one. A watermark of any other length than 12 bits is refused, and so is
/// a block that is not 64 coefficients long; the block is then untouched.
pub fn embed_wm(
    host_signal: &mut Vec<i64>,
    watermark: &Bitstream,
    dither_signal: &Vec<(i64, i64)>,
    step_size: i64,
) -> (out: Result<(), WatermarkError>)
    requires
        step_size > 0,
        dither_signal@.len() == 12,
        has_headroom(old(host_signal)@, step_size as int),
    ensures
        match out {
            Ok(_) => {
                &&& watermark@.len() == 12
                &&& old(host_signal)@.len() == 64
                &&& samples(final(host_signal)@) == embedded_block(
                    samples(old(host_signal)@),
                    watermark@,
                    dither_signal@,
                    step_size as int,
                )
            },
            Err(e) => {
                &&& final(host_signal)@ == old(host_signal)@
                &&& if watermark@.len() != 12 {
                    e == WatermarkError::PayloadLengthMismatch
                } else {
                    old(host_signal)@.len() != 64 && e == WatermarkError::InvalidGridIndex
                }
            },
        },
{
    if watermark.len() != GROUP_BITS {
        return Err(WatermarkError::PayloadLengthMismatch);
    }
    if host_signal.len() != BLOCK_LEN {
        return Err(WatermarkError::InvalidGridIndex);
    }
    assert(watermark@.subrange(0, 12) == watermark@);
    embed_group(host_signal, watermark, 0, dither_signal, step_size);
    Ok(())
}

/// Reads the 12 bits of one block and appends them to `out`.
pub(crate) fn extract_group(
    out: &mut Bitstream,
    block: &Vec<i64>,
    dithers: &Vec<(i64, i64)>,
    step_size: i64,
)
    requires
        block@.len() == 64,
        dithers@.len() == 12,
        step_size > 0,
        old(out)@.len() + 12 <= max_bits(),
    ensures
        final(out)@ == old(out)@ + extracted_bits(samples(block@), dithers@, step_size as int),
{
    let ghost before = out@;
    let ghost group = extracted_bits(samples(block@), dithers@, step_size as int);
    let mut k: usize = 0;
    while k < 12
        invariant
            k <= 12,
            block@.len() == 64,
            dithers@.len() == 12,
            step_size > 0,
            before.len() + 12 <= max_bits(),
            group == extracted_bits(samples(block@), dithers@, step_size as int),
            out@ == before + group.take(k as int),
        decreases 12 - k,
    {
        let index: usize = mask_index(k);
        let probe: i128 = block[index] as i128 + dithers[k].0 as i128;
        let nearest: i128 = nearest_multiple(probe, step_size);
        proof {
            lemma_quantize_nearest(probe as int, step_size as int);
        }
        let off: i128 = nearest - probe;
        let clear: bool = 10 * off < step_size as i128 && -(step_size as i128) < 10 * off;
        out.push(!clear);
        assert(group[k as int] == !clear);
        assert(before + group.take(k as int + 1) =~= (before + group.take(k as int)).push(
            !clear,
        ));
        k += 1;
    }
    assert(group.take(12) == group);
}

/// Extracts the 12 bits that a block of coefficients carries. For each
/// masked place in ascending order the coefficient is shifted by the first
/// dither of its pair; the bit is clear where the result lies closer than a
/// tenth of a step to a multiple of the step, and set otherwise. Whatever
/// the coefficients are, a block of 64 gives 12 bits; a block of any other
/// length is refused.
pub fn extract_wm(
    watermarked_signal: &Vec<i64>,
    dither_signal: &Vec<(i64, i64)>,
    step_size: i64,
) -> (out: Result<Bitstream, WatermarkError>)
    requires
        step_size > 0,
        dither_signal@.len() == 12,
    ensures
        match out {
            Ok(bits) => {
                &&& watermarked_signal@.len() == 64
                &&& bits@ == extracted_bits(
                    samples(watermarked_signal@),
                    dither_signal@,
                    step_size as int,
                )
            },
            Err(e) => watermarked_signal@.len() != 64 && e == WatermarkError::InvalidGridIndex,
        },
{
    if watermarked_signal.len() != BLOCK_LEN {
        return Err(WatermarkError::InvalidGridIndex);
    }
    let mut bits = Bitstream::new();
    extract_group(&mut bits, watermarked_signal, dither_signal, step_size);
    assert(Seq::<bool>::empty() + extracted_bits(
        samples(watermarked_signal@),
        dither_signal@,
        step_size as int,
    ) =~= extracted_bits(samples(watermarked_signal@), dither_signal@, step_size as int));
    Ok(bits)
}

/// Two multiples of `step` are equal or at least `step` apart.
proof fn lemma_multiples_apart(a: int, b: int, step: int)
    requires
        step > 0,
        a % step == 0,
        b % step == 0,
    ensures
        a == b || a - b >= step || b - a >= step,
{
    assert(a == b || a - b >= step || b - a >= step) by (nonlinear_arith)
        requires
            step > 0,
            a % step == 0,
            b % step == 0,
    ;
}

/// One coefficient: a bit embedded with a valid dither pair is read back
/// from the coefficient, also after noise of less than a tenth of a step
/// was added to it.
pub proof fn lemma_coefficient_round_trip(
    value: int,
    pair: (i64, i64),
    bit: bool,
    step: int,
    noise: int,
)
    requires
        step >= 2,
        valid_dither_pair(pair, step),
        -step < 10 * noise < step,
    ensures
        extract_bit(
            embed_coefficient(value, chosen_dither(pair, bit), step) + noise,
            pair.0 as int,
            step,
        ) == bit,
{
    let dither = chosen_dither(pair, bit);
    let lattice = quantize(value + dither, step);
    let probe = lattice - dither + noise + pair.0;
    let nearest = quantize(probe, step);
    lemma_quantize_nearest(value + dither, step);
    lemma_quantize_nearest(probe, step);
    if bit {
        lemma_multiples_apart(nearest, lattice, step);
    } else {
        lemma_quantize_unique(probe, step, lattice);
    }
}

/// Extraction tolerates noise: where each coefficient that carries a bit
/// arrives within less than a tenth of a step of the value that embedding
/// gave it, extraction reads the embedded bits. The other coefficients
/// may arrive as anything.
pub proof fn lemma_extract_tolerates_noise(
    block: Seq<int>,
    bits: Seq<bool>,
    dithers: Seq<(i64, i64)>,
    step: int,
    received: Seq<int>,
)
    requires
        step >= 2,
        block.len() == 64,
        bits.len() == 12,
        valid_dither_signal(dithers, step),
        received.len() == 64,
        forall|k: int|
            0 <= k < 12 ==> -step < 10 * (#[trigger] received[mask_position(k)] - embedded_block(
                block,
                bits,
                dithers,
                step,
            )[mask_position(k)]) < step,
    ensures
        extracted_bits(received, dithers, step) == bits,
{
    lemma_mask_table();
    let embedded = embedded_block(block, bits, dithers, step);
    assert forall|k: int| 0 <= k < 12 implies extracted_bits(received, dithers, step)[k]
        == bits[k] by {
        let i = mask_position(k);
        assert(in_mask(i) && mask_slot(i) == k);
        assert(0 <= i < 64);
        let noise = received[i] - embedded[i];
        assert(-step < 10 * noise < step);
        lemma_coefficient_round_trip(block[i], dithers[k], bits[k], step, noise);
        assert(embedded[i] == embed_coefficient(block[i], chosen_dither(dithers[k], bits[k]), step));
    }
    assert(extracted_bits(received, dithers, step) =~= bits);
}

/// Embedding and then extracting gives the embedded bits back: for every
/// block, every group of 12 bits and every valid dither signal, with a step
/// of 2 or more.
pub proof fn lemma_extract_inverts_embed(
    block: Seq<int>,
    bits: Seq<bool>,
    dithers: Seq<(i64, i64)>,
    step: int,
)
    requires
        step >= 2,
        block.len() == 64,
        bits.len() == 12,
        valid_dither_signal(dithers, step),
    ensures
        extracted_bits(embedded_block(block, bits, dithers, step), dithers, step) == bits,
{
    lemma_extract_tolerates_noise(
        block,
        bits,
        dithers,
        step,
        embedded_block(block, bits, dithers, step),
    );
}

} // verus!

//! The grid of 8 by 8 blocks and the transform of a block in two
//! dimensions: cutting a plane into blocks, putting blocks back into a
//! plane, transposing a block, and running a transform of one row over the
//! rows and the columns of each block.
use crate::error::WatermarkError;
use crate::pixels::{buffer_fits, buffer_len, PixelImage};
use vstd::arithmetic::div_mod::lemma_fundamental_div_mod_converse;
use vstd::prelude::*;

verus! {

/// The side of a block, in samples.
pub const BLK_WIDTH: usize = 8;

/// Whether a plane of `len` samples is `width` wide and `height` high and
/// can be cut into blocks without a rest.
pub open spec fn grid_fits(width: int, height: int, len: int) -> bool {
    width % 8 == 0 && height % 8 == 0 && len == width * height
}

/// The number of blocks in a plane.
pub open spec fn block_count(width: int, height: int) -> int {
    (width / 8) * (height / 8)
}

/// Where in a plane the sample lies that is number `cell` of block number
/// `block`. Blocks are counted along the rows of blocks, left to right and
/// then top to bottom, and so are the samples within a block.
pub open spec fn sample_position(width: int, block: int, cell: int) -> int {
    ((block / (width / 8)) * 8 + cell / 8) * width + ((block % (width / 8)) * 8 + cell % 8)
}

/// The block in which the sample at `position` of a plane lies.
pub open spec fn position_block(width: int, position: int) -> int {
    ((position / width) / 8) * (width / 8) + (position % width) / 8
}

/// The place within its block of the sample at `position` of a plane.
pub open spec fn position_cell(width: int, position: int) -> int {
    ((position / width) % 8) * 8 + (position % width) % 8
}

/// One block cut out of a plane.
pub open spec fn block_of_plane(plane: Seq<u8>, width: int, block: int) -> Seq<i64> {
    Seq::new(64, |cell: int| plane[sample_position(width, block, cell)] as i64)
}

/// All blocks of a plane, in block order.
pub open spec fn blocks_of_plane(plane: Seq<u8>, width: int, height: int) -> Seq<Seq<i64>> {
    Seq::new(
        block_count(width, height) as nat,
        |block: int| block_of_plane(plane, width, block),
    )
}

/// A sample as a byte: values below 0 become 0 and values above 255 become
/// 255.
pub open spec fn clamp_to_byte(sample: i64) -> u8 {
    if sample < 0 {
        0u8
    } else if sample > 255 {
        255u8
    } else {
        sample as u8
    }
}

/// The plane that a sequence of blocks covers, each sample clamped to a
/// byte.
pub open spec fn merged_plane(blocks: Seq<Seq<i64>>, width: int, height: int) -> Seq<u8> {
    Seq::new(
        (width * height) as nat,
        |position: int|
            clamp_to_byte(blocks[position_block(width, position)][position_cell(width, position)]),
    )
}

/// The contents of a vector of blocks.
pub open spec fn block_views(blocks: Seq<Vec<i64>>) -> Seq<Seq<i64>> {
    Seq::new(blocks.len(), |block: int| blocks[block]@)
}

/// Whether `blocks` are the blocks of some plane of the given size: as many
/// as the plane has, each of 64 samples.
pub open spec fn blocks_fit(blocks: Seq<Seq<i64>>, width: int, height: int) -> bool {
    &&& blocks.len() == block_count(width, height)
    &&& forall|block: int| 0 <= block < blocks.len() ==> (#[trigger] blocks[block]).len() == 64
}

/// In a grid of `columns` columns and `rows` rows, the cell in row `row`
/// and column `column` has a number below `columns * rows`, and the number
/// gives row and column back.
pub proof fn lemma_grid_cell(columns: int, rows: int, row: int, column: int)
    requires
        0 <= row < rows,
        0 <= column < columns,
    ensures
        0 <= row * columns,
        0 <= row * columns + column < columns * rows,
        (row * columns + column) / columns == row,
        (row * columns + column) % columns == column,
{
    assert(0 <= row * columns && row * columns + columns <= columns * rows) by (nonlinear_arith)
        requires
            0 <= row < rows,
            0 < columns,
    ;
    lemma_fundamental_div_mod_converse(row * columns + column, columns, row, column);
}

/// A number below `columns * rows` is the number of a cell of the grid.
pub proof fn lemma_grid_number(columns: int, rows: int, number: int)
    requires
        0 < columns,
        0 <= number < columns * rows,
    ensures
        0 <= number / columns < rows,
        0 <= number % columns < columns,
        number == (number / columns) * columns + number % columns,
{
    assert(0 <= number / columns < rows && 0 <= number % columns < columns && number == (number
        / columns) * columns + number % columns) by (nonlinear_arith)
        requires
            0 < columns,
            0 <= number < columns * rows,
    ;
}

/// Cuts the block in row `by` and column `bx` of the grid of blocks out of
/// a plane.
fn cut_block(plane: &Vec<u8>, width: usize, height: usize, by: usize, bx: usize) -> (block: Vec<
    i64,
>)
    requires
        grid_fits(width as int, height as int, plane@.len() as int),
        by < height / 8,
        bx < width / 8,
    ensures
        block@ == block_of_plane(plane@, width as int, by * (width / 8) + bx),
{
    let ghost number = by * (width / 8) + bx;
    proof {
        lemma_grid_cell(width as int / 8, height as int / 8, by as int, bx as int);
    }
    let mut block: Vec<i64> = Vec::new();
    let mut cell: usize = 0;
    while cell < 64
        invariant
            cell <= 64,
            grid_fits(width as int, height as int, plane.len() as int),
            by < height / 8,
            bx < width / 8,
            number / (width as int / 8) == by,
            number % (width as int / 8) == bx,
            block@.len() == cell,
            forall|c: int|
                0 <= c < cell ==> #[trigger] block@[c] == plane@[sample_position(
                    width as int,
                    number,
                    c,
                )] as i64,
        decreases 64 - cell,
    {
        let row: usize = by * 8 + cell / 8;
        let column: usize = bx * 8 + cell % 8;
        proof {
            lemma_grid_cell(width as int, height as int, row as int, column as int);
        }
        block.push(plane[row * width + column] as i64);
        cell += 1;
    }
    assert(block@ =~= block_of_plane(plane@, width as int, number));
    block
}

/// Splits a plane of samples into blocks of 8 by 8. The blocks come in
/// rows, left to right and then top to bottom; within a block the samples
/// stand row by row. A width or height that is no multiple of 8 is refused
/// as a dimension mismatch, a plane that does not have `width * height`
/// samples as an invalid grid index.
pub fn split_into_blocks(plane: &Vec<u8>, width: usize, height: usize) -> (out: Result<
    Vec<Vec<i64>>,
    WatermarkError,
>)
    ensures
        match out {
            Ok(blocks) => {
                &&& grid_fits(width as int, height as int, plane@.len() as int)
                &&& block_views(blocks@) == blocks_of_plane(plane@, width as int, height as int)
            },
            Err(e) => {
                &&& !grid_fits(width as int, height as int, plane@.len() as int)
                &&& e == if width % 8 != 0 || height % 8 != 0 {
                    WatermarkError::DimensionMismatch
                } else {
                    WatermarkError::InvalidGridIndex
                }
            },
        },
{
    if width % BLK_WIDTH != 0 || height % BLK_WIDTH != 0 {
        return Err(WatermarkError::DimensionMismatch);
    }
    match width.checked_mul(height) {
        Some(area) => {
            if area != plane.len() {
                return Err(WatermarkError::InvalidGridIndex);
            }
        },
        None => {
            assert(plane@.len() == plane.len());
            return Err(WatermarkError::InvalidGridIndex);
        },
    }
    let across: usize = width / BLK_WIDTH;
    let down: usize = height / BLK_WIDTH;
    let mut blocks: Vec<Vec<i64>> = Vec::new();
    let mut by: usize = 0;
    while by < down
        invariant
            by <= down,
            across == width / 8,
            down == height / 8,
            grid_fits(width as int, height as int, plane@.len() as int),
            blocks@.len() == by * across,
            forall|b: int|
                0 <= b < blocks@.len() ==> (#[trigger] blocks@[b])@ == block_of_plane(
                    plane@,
                    width as int,
                    b,
                ),
        decreases down - by,
    {
        let mut bx: usize = 0;
        while bx < across
            invariant
                by < down,
                bx <= across,
                across == width / 8,
                down == height / 8,
                grid_fits(width as int, height as int, plane@.len() as int),
                blocks@.len() == by * across + bx,
                forall|b: int|
                    0 <= b < blocks@.len() ==> (#[trigger] blocks@[b])@ == block_of_plane(
                        plane@,
                        width as int,
                        b,
                    ),
            decreases across - bx,
        {
            let block = cut_block(plane, width, height, by, bx);
            blocks.push(block);
            bx += 1;
        }
        assert(by * across + across == (by + 1) * across) by (nonlinear_arith);
        by += 1;
    }
    assert(down * across == block_count(width as int, height as int)) by (nonlinear_arith)
        requires
            across == width / 8,
            down == height / 8,
    ;
    assert(block_views(blocks@) =~= blocks_of_plane(plane@, width as int, height as int));
    Ok(blocks)
}

/// Whether every block has 64 samples.
pub open spec fn all_whole<T>(blocks: Seq<Vec<T>>) -> bool {
    forall|block: int| 0 <= block < blocks.len() ==> (#[trigger] blocks[block])@.len() == 64
}

/// Tells whether every block of `blocks` has 64 samples.
pub fn all_blocks_whole<T>(blocks: &Vec<Vec<T>>) -> (whole: bool)
    ensures
        whole == all_whole(blocks@),
{
    let mut b: usize = 0;
    while b < blocks.len()
        invariant
            b <= blocks@.len(),
            forall|block: int| 0 <= block < b ==> (#[trigger] blocks@[block])@.len() == 64,
        decreases blocks@.len() - b,
    {
        if blocks[b].len() != 64 {
            return false;
        }
        b += 1;
    }
    true
}

/// Clamps a sample to the range of a byte.
pub fn clamp_sample(sample: i64) -> (byte: u8)
    ensures
        byte == clamp_to_byte(sample),
{
    if sample < 0 {
        0
    } else if sample > 255 {
        255
    } else {
        sample as u8
    }
}

/// Merges blocks of 8 by 8 back into a plane, in the order in which
/// `split_into_blocks` gives them. Each sample is clamped to a byte: what
/// lies below 0 becomes 0, what lies above 255 becomes 255. A width or
/// height that is no multiple of 8, or a plane too large to be addressed,
/// is refused as a dimension mismatch; blocks that are not as many as the
/// plane has, or not of 64 samples each, as an invalid grid index.
pub fn merge_into_plane(blocks: &Vec<Vec<i64>>, width: usize, height: usize) -> (out: Result<
    Vec<u8>,
    WatermarkError,
>)
    ensures
        match out {
            Ok(plane) => {
                &&& grid_fits(width as int, height as int, plane@.len() as int)
                &&& blocks_fit(block_views(blocks@), width as int, height as int)
                &&& plane@ == merged_plane(block_views(blocks@), width as int, height as int)
            },
            Err(e) => if width % 8 != 0 || height % 8 != 0 || width * height > usize::MAX {
                e == WatermarkError::DimensionMismatch
            } else {
                &&& !blocks_fit(block_views(blocks@), width as int, height as int)
                &&& e == WatermarkError::InvalidGridIndex
            },
        },
{
    if width % BLK_WIDTH != 0 || height % BLK_WIDTH != 0 {
        return Err(WatermarkError::DimensionMismatch);
    }
    let area: usize = match width.checked_mul(height) {
        Some(area) => area,
        None => {
            return Err(WatermarkError::DimensionMismatch);
        },
    };
    let across: usize = width / BLK_WIDTH;
    let down: usize = height / BLK_WIDTH;
    assert(across * down <= width * height) by (nonlinear_arith)
        requires
            0 <= across <= width,
            0 <= down <= height,
    ;
    let whole: bool = all_blocks_whole(blocks);
    assert(forall|block: int|
        0 <= block < blocks@.len() ==> (#[trigger] blocks@[block])@.len() == block_views(
            blocks@,
        )[block].len());
    if blocks.len() != across * down || !whole {
        return Err(WatermarkError::InvalidGridIndex);
    }
    let mut plane: Vec<u8> = Vec::new();
    let mut y: usize = 0;
    while y < height
        invariant
            y <= height,
            width % 8 == 0,
            height % 8 == 0,
            across == width / 8,
            down == height / 8,
            area == width * height,
            across * down <= usize::MAX,
            blocks_fit(block_views(blocks@), width as int, height as int),
            plane@.len() == y * width,
            forall|p: int|
                0 <= p < plane@.len() ==> #[trigger] plane@[p] == clamp_to_byte(
                    blocks@[position_block(width as int, p)]@[position_cell(width as int, p)],
                ),
        decreases height - y,
    {
        let mut x: usize = 0;
        while x < width
            invariant
                y < height,
                x <= width,
                width % 8 == 0,
                height % 8 == 0,
                across == width / 8,
                down == height / 8,
                area == width * height,
                across * down <= usize::MAX,
                blocks_fit(block_views(blocks@), width as int, height as int),
                plane@.len() == y * width + x,
                forall|p: int|
                    0 <= p < plane@.len() ==> #[trigger] plane@[p] == clamp_to_byte(
                        blocks@[position_block(width as int, p)]@[position_cell(width as int, p)],
                    ),
            decreases width - x,
        {
            proof {
                lemma_grid_cell(width as int, height as int, y as int, x as int);
                lemma_grid_cell(across as int, down as int, y as int / 8, x as int / 8);
            }
            let block: usize = (y / 8) * across + x / 8;
            let cell: usize = (y % 8) * 8 + x % 8;
            assert(block_views(blocks@)[block as int].len() == 64);
            plane.push(clamp_sample(blocks[block][cell]));
            x += 1;
        }
        assert(y * width + width == (y + 1) * width) by (nonlinear_arith);
        y += 1;
    }
    assert(height * width == width * height) by (nonlinear_arith);
    assert(plane@ =~= merged_plane(block_views(blocks@), width as int, height as int)) by {
        assert forall|p: int| 0 <= p < plane@.len() implies plane@[p] == merged_plane(
            block_views(blocks@),
            width as int,
            height as int,
        )[p] by {
            assert(width > 0) by (nonlinear_arith)
                requires
                    0 <= p < width * height,
                    width >= 0,
            ;
            lemma_grid_number(width as int, height as int, p);
            lemma_grid_cell(
                across as int,
                down as int,
                (p / width as int) / 8,
                (p % width as int) / 8,
            );
        }
    }
    Ok(plane)
}

/// Blocks with every sample clamped to a byte.
pub open spec fn clamped_blocks(blocks: Seq<Seq<i64>>) -> Seq<Seq<i64>> {
    Seq::new(
        blocks.len(),
        |block: int|
            Seq::new(blocks[block].len(), |cell: int| clamp_to_byte(blocks[block][cell]) as i64),
    )
}

/// Block and cell of a sample, and the sample's position, name the same
/// place: within a plane that can be cut into blocks, going from a position
/// to its block and cell and back gives the position.
pub proof fn lemma_position_round_trip(width: int, height: int, position: int)
    requires
        0 <= width,
        0 <= height,
        width % 8 == 0,
        height % 8 == 0,
        0 <= position < width * height,
    ensures
        0 <= position_block(width, position) < block_count(width, height),
        0 <= position_cell(width, position) < 64,
        sample_position(
            width,
            position_block(width, position),
            position_cell(width, position),
        ) == position,
{
    assert(width > 0) by (nonlinear_arith)
        requires
            0 <= position < width * height,
            width >= 0,
    ;
    lemma_grid_number(width, height, position);
    let y = position / width;
    let x = position % width;
    lemma_grid_cell(width / 8, height / 8, y / 8, x / 8);
    assert((y / 8) * (width / 8) + x / 8 == position_block(width, position));
    assert(((y / 8) * 8 + y % 8) * width + ((x / 8) * 8 + x % 8) == y * width + x);
}

/// The other way round: going from a block and a cell to the position and
/// back gives block and cell.
pub proof fn lemma_cell_round_trip(width: int, height: int, block: int, cell: int)
    requires
        0 <= width,
        0 <= height,
        width % 8 == 0,
        height % 8 == 0,
        0 <= block < block_count(width, height),
        0 <= cell < 64,
    ensures
        0 <= sample_position(width, block, cell) < width * height,
        position_block(width, sample_position(width, block, cell)) == block,
        position_cell(width, sample_position(width, block, cell)) == cell,
{
    let across = width / 8;
    assert(across > 0) by (nonlinear_arith)
        requires
            0 <= block < across * (height / 8),
            across >= 0,
    ;
    lemma_grid_number(across, height / 8, block);
    let row = (block / across) * 8 + cell / 8;
    let column = (block % across) * 8 + cell % 8;
    lemma_grid_cell(width, height, row, column);
    assert((row / 8) * across + column / 8 == block);
}

/// Splitting a plane and merging the blocks gives the plane back.
pub proof fn lemma_merge_inverts_split(plane: Seq<u8>, width: int, height: int)
    requires
        0 <= width,
        0 <= height,
        grid_fits(width, height, plane.len() as int),
    ensures
        blocks_fit(blocks_of_plane(plane, width, height), width, height),
        merged_plane(blocks_of_plane(plane, width, height), width, height) == plane,
{
    let blocks = blocks_of_plane(plane, width, height);
    let merged = merged_plane(blocks, width, height);
    assert(0 <= block_count(width, height)) by (nonlinear_arith)
        requires
            0 <= width,
            0 <= height,
    ;
    assert forall|position: int| 0 <= position < plane.len() implies merged[position]
        == plane[position] by {
        lemma_position_round_trip(width, height, position);
    }
    assert(merged =~= plane);
}

/// Merging blocks and splitting the plane gives the blocks back, each
/// sample clamped to a byte.
pub proof fn lemma_split_inverts_merge(blocks: Seq<Seq<i64>>, width: int, height: int)
    requires
        0 <= width,
        0 <= height,
        width % 8 == 0,
        height % 8 == 0,
        blocks_fit(blocks, width, height),
    ensures
        grid_fits(width, height, merged_plane(blocks, width, height).len() as int),
        blocks_of_plane(merged_plane(blocks, width, height), width, height) == clamped_blocks(
            blocks,
        ),
{
    let merged = merged_plane(blocks, width, height);
    let split = blocks_of_plane(merged, width, height);
    assert(0 <= width * height) by (nonlinear_arith)
        requires
            0 <= width,
            0 <= height,
    ;
    assert forall|block: int| 0 <= block < blocks.len() implies split[block] == clamped_blocks(
        blocks,
    )[block] by {
        assert forall|cell: int| 0 <= cell < 64 implies split[block][cell] == clamped_blocks(
            blocks,
        )[block][cell] by {
            lemma_cell_round_trip(width, height, block, cell);
        }
        assert(split[block] =~= clamped_blocks(blocks)[block]);
    }
    assert(split =~= clamped_blocks(blocks));
}

/// A block of 8 by 8 with rows and columns exchanged.
pub open spec fn transposed<T>(block: Seq<T>) -> Seq<T> {
    Seq::new(64, |cell: int| block[(cell % 8) * 8 + cell / 8])
}

/// Exchanges the rows and columns of a block, whatever its samples are. A
/// block that is not 64 samples long is refused.
pub fn transpose_block<T: Copy>(block: &Vec<T>) -> (out: Result<Vec<T>, WatermarkError>)
    ensures
        match out {
            Ok(turned) => block@.len() == 64 && turned@ == transposed(block@),
            Err(e) => block@.len() != 64 && e == WatermarkError::InvalidGridIndex,
        },
{
    if block.len() != 64 {
        return Err(WatermarkError::InvalidGridIndex);
    }
    let mut turned: Vec<T> = Vec::new();
    let mut cell: usize = 0;
    while cell < 64
        invariant
            cell <= 64,
            block@.len() == 64,
            turned@.len() == cell,
            forall|c: int| 0 <= c < cell ==> #[trigger] turned@[c] == block@[(c % 8) * 8 + c / 8],
        decreases 64 - cell,
    {
        turned.push(block[(cell % 8) * 8 + cell / 8]);
        cell += 1;
    }
    assert(turned@ =~= transposed(block@));
    Ok(turned)
}

/// Transposing a block twice gives the block back.
pub proof fn lemma_transpose_twice<T>(block: Seq<T>)
    requires
        block.len() == 64,
    ensures
        transposed(transposed(block)) == block,
{
    assert(transposed(transposed(block)) =~= block);
}

/// Row `row` of a block of 8 by 8.
pub open spec fn block_row<T>(block: Seq<T>, row: int) -> Seq<T> {
    block.subrange(8 * row, 8 * row + 8)
}

/// Whether `pass` can only hand back rows of 8 samples.
pub open spec fn keeps_rows<T, F: Fn(Vec<T>) -> Vec<T>>(pass: F) -> bool {
    forall|input: Vec<T>, output: Vec<T>| #[trigger]
        call_ensures(pass, (input,), output) ==> output@.len() == 8
}

/// Whether row `row` of `after` is a result of `pass` on row `row` of
/// `before`.
pub open spec fn row_passed<T, F: Fn(Vec<T>) -> Vec<T>>(
    pass: F,
    before: Seq<T>,
    after: Seq<T>,
    row: int,
) -> bool {
    exists|input: Vec<T>, output: Vec<T>|
        input@ == block_row(before, row) && output@ == block_row(after, row)
            && #[trigger] call_ensures(pass, (input,), output)
}

/// Whether `after` is what one pass over the rows of `before` can give:
/// each of its 8 rows is a result of `pass` on the same row of `before`.
pub open spec fn rows_passed<T, F: Fn(Vec<T>) -> Vec<T>>(
    pass: F,
    before: Seq<T>,
    after: Seq<T>,
) -> bool {
    &&& after.len() == 64
    &&& forall|row: int| 0 <= row < 8 ==> #[trigger] row_passed(pass, before, after, row)
}

/// Whether `after` is what the transform in two dimensions can give for
/// `before`: a pass over the rows, a transposition, a second pass over the
/// rows, which are the columns of the block, and a transposition back.
pub open spec fn transformed<T, F: Fn(Vec<T>) -> Vec<T>>(
    pass: F,
    before: Seq<T>,
    after: Seq<T>,
) -> bool {
    exists|first: Seq<T>, second: Seq<T>|
        #![trigger rows_passed(pass, before, first), rows_passed(pass, transposed(first), second)]
        rows_passed(pass, before, first) && rows_passed(pass, transposed(first), second) && after
            == transposed(second)
}

/// Whether each sample of `after` is a result of `scale` on the same sample
/// of `before`.
pub open spec fn scaled<T, G: Fn(T) -> T>(scale: G, before: Seq<T>, after: Seq<T>) -> bool {
    &&& after.len() == before.len()
    &&& forall|i: int|
        0 <= i < before.len() ==> call_ensures(scale, (before[i],), #[trigger] after[i])
}

/// Applies `row_pass` to each row of a block. Gives nothing where the pass
/// hands back a row that is not 8 samples long.
fn pass_rows<T: Copy, F: Fn(Vec<T>) -> Vec<T>>(block: &Vec<T>, row_pass: &F) -> (out: Option<
    Vec<T>,
>)
    requires
        block@.len() == 64,
        forall|row: Vec<T>| row@.len() == 8 ==> call_requires(*row_pass, (row,)),
    ensures
        out is Some ==> rows_passed(*row_pass, block@, out->Some_0@),
        keeps_rows(*row_pass) ==> out is Some,
{
    let mut done: Vec<T> = Vec::new();
    let ghost mut inputs: Seq<Vec<T>> = Seq::empty();
    let ghost mut outputs: Seq<Vec<T>> = Seq::empty();
    let mut r: usize = 0;
    while r < 8
        invariant
            r <= 8,
            block@.len() == 64,
            forall|row: Vec<T>| row@.len() == 8 ==> call_requires(*row_pass, (row,)),
            done@.len() == 8 * r,
            inputs.len() == r,
            outputs.len() == r,
            forall|q: int|
                0 <= q < r ==> (#[trigger] inputs[q])@ == block_row(block@, q) && call_ensures(
                    *row_pass,
                    (inputs[q],),
                    outputs[q],
                ) && outputs[q]@ == block_row(done@, q),
        decreases 8 - r,
    {
        let mut row: Vec<T> = Vec::new();
        let mut j: usize = 0;
        while j < 8
            invariant
                j <= 8,
                r < 8,
                block@.len() == 64,
                row@.len() == j,
                forall|k: int| 0 <= k < j ==> #[trigger] row@[k] == block@[8 * r + k],
            decreases 8 - j,
        {
            row.push(block[8 * r + j]);
            j += 1;
        }
        assert(row@ =~= block_row(block@, r as int));
        let ghost input = row;
        let output = row_pass(row);
        if output.len() != 8 {
            return None;
        }
        let ghost before = done@;
        let mut k: usize = 0;
        while k < 8
            invariant
                k <= 8,
                output@.len() == 8,
                done@.len() == before.len() + k,
                forall|i: int| 0 <= i < before.len() ==> #[trigger] done@[i] == before[i],
                forall|i: int| 0 <= i < k ==> #[trigger] done@[before.len() + i] == output@[i],
            decreases 8 - k,
        {
            done.push(output[k]);
            k += 1;
        }
        proof {
            assert forall|q: int| 0 <= q < r implies block_row(done@, q) == block_row(
                before,
                q,
            ) by {
                assert(block_row(done@, q) =~= block_row(before, q));
            }
            assert forall|i: int| 0 <= i < 8 implies block_row(done@, r as int)[i]
                == output@[i] by {
                assert(done@[before.len() + i] == output@[i]);
            }
            assert(output@ =~= block_row(done@, r as int));
            inputs = inputs.push(input);
            outputs = outputs.push(output);
        }
        r += 1;
    }
    proof {
        assert forall|row: int| 0 <= row < 8 implies #[trigger] row_passed(
            *row_pass,
            block@,
            done@,
            row,
        ) by {
            let input = inputs[row];
            let output = outputs[row];
            assert(input@ == block_row(block@, row) && output@ == block_row(done@, row)
                && call_ensures(*row_pass, (input,), output));
        }
    }
    Some(done)
}

/// Transforms a block in two dimensions with a transform of one dimension:
/// `row_pass` is applied to each of the 8 rows, the block is transposed,
/// `row_pass` is applied to each row of the result, which holds a column
/// of the block, and the block is transposed back. The pass has to take
/// every row of 8 samples. A block that is not 64 samples long is refused,
/// and so is a pass that hands back a row of another length than 8.
pub fn transform_block<T: Copy, F: Fn(Vec<T>) -> Vec<T>>(block: &Vec<T>, row_pass: &F) -> (out:
    Result<Vec<T>, WatermarkError>)
    requires
        forall|row: Vec<T>| row@.len() == 8 ==> call_requires(*row_pass, (row,)),
    ensures
        match out {
            Ok(after) => block@.len() == 64 && transformed(*row_pass, block@, after@),
            Err(e) => e == WatermarkError::InvalidGridIndex,
        },
        block@.len() != 64 ==> out is Err,
        block@.len() == 64 && keeps_rows(*row_pass) ==> out is Ok,
{
    if block.len() != 64 {
        return Err(WatermarkError::InvalidGridIndex);
    }
    let first = match pass_rows(block, row_pass) {
        Some(rows) => rows,
        None => {
            return Err(WatermarkError::InvalidGridIndex);
        },
    };
    let turned = match transpose_block(&first) {
        Ok(turned) => turned,
        Err(e) => {
            return Err(e);
        },
    };
    let second = match pass_rows(&turned, row_pass) {
        Some(rows) => rows,
        None => {
            return Err(WatermarkError::InvalidGridIndex);
        },
    };
    let after = match transpose_block(&second) {
        Ok(after) => after,
        Err(e) => {
            return Err(e);
        },
    };
    assert(rows_passed(*row_pass, block@, first@) && rows_passed(
        *row_pass,
        transposed(first@),
        second@,
    ));
    Ok(after)
}

/// Applies `scale` to each sample of a block, once.
pub fn scale_block<T: Copy, G: Fn(T) -> T>(block: &Vec<T>, scale: &G) -> (after: Vec<T>)
    requires
        forall|sample: T| call_requires(*scale, (sample,)),
    ensures
        scaled(*scale, block@, after@),
{
    let mut after: Vec<T> = Vec::new();
    let mut i: usize = 0;
    while i < block.len()
        invariant
            i <= block@.len(),
            forall|sample: T| call_requires(*scale, (sample,)),
            after@.len() == i,
            forall|k: int|
                0 <= k < i ==> call_ensures(*scale, (block@[k],), #[trigger] after@[k]),
        decreases block@.len() - i,
    {
        after.push(scale(block[i]));
        i += 1;
    }
    after
}

/// Whether `after` is what the inverse transform can give for `before`:
/// the transform in two dimensions with `pass`, and then `scale` on each
/// sample, once.
pub open spec fn transformed_and_scaled<T, F: Fn(Vec<T>) -> Vec<T>, G: Fn(T) -> T>(
    pass: F,
    scale: G,
    before: Seq<T>,
    after: Seq<T>,
) -> bool {
    exists|unscaled: Seq<T>| #[trigger]
        transformed(pass, before, unscaled) && scaled(scale, unscaled, after)
}

/// Whether block number `b` of `after` is a whole block of `before`
/// transformed.
pub open spec fn block_transformed<T, F: Fn(Vec<T>) -> Vec<T>>(
    pass: F,
    before: Seq<Vec<T>>,
    after: Seq<Vec<T>>,
    b: int,
) -> bool {
    before[b]@.len() == 64 && transformed(pass, before[b]@, after[b]@)
}

/// Whether block number `b` of `after` is a whole block of `before`
/// transformed and scaled.
pub open spec fn block_transformed_and_scaled<T, F: Fn(Vec<T>) -> Vec<T>, G: Fn(T) -> T>(
    pass: F,
    scale: G,
    before: Seq<Vec<T>>,
    after: Seq<Vec<T>>,
    b: int,
) -> bool {
    before[b]@.len() == 64 && transformed_and_scaled(pass, scale, before[b]@, after[b]@)
}

/// Applies the forward transform in two dimensions to each block, in
/// place: `row_dct`, a transform of one row of 8 samples, goes over the
/// rows and then over the columns of the block. Blocks that are not 64
/// samples long are refused, and so is a row transform that hands back a
/// row of another length than 8; the blocks are then left untouched.
pub fn apply_2d_dct<T: Copy, F: Fn(Vec<T>) -> Vec<T>>(blocks: &mut Vec<Vec<T>>, row_dct: &F) -> (out:
    Result<(), WatermarkError>)
    requires
        forall|row: Vec<T>| row@.len() == 8 ==> call_requires(*row_dct, (row,)),
    ensures
        match out {
            Ok(_) => {
                &&& final(blocks)@.len() == old(blocks)@.len()
                &&& forall|b: int|
                    0 <= b < old(blocks)@.len() ==> #[trigger] block_transformed(
                        *row_dct,
                        old(blocks)@,
                        final(blocks)@,
                        b,
                    )
            },
            Err(e) => e == WatermarkError::InvalidGridIndex && *final(blocks) == *old(blocks),
        },
        !all_whole(old(blocks)@) ==> out is Err,
        all_whole(old(blocks)@) && keeps_rows(*row_dct) ==> out is Ok,
{
    let mut done: Vec<Vec<T>> = Vec::new();
    let mut b: usize = 0;
    while b < blocks.len()
        invariant
            b <= blocks@.len(),
            *blocks == *old(blocks),
            forall|row: Vec<T>| row@.len() == 8 ==> call_requires(*row_dct, (row,)),
            done@.len() == b,
            forall|i: int|
                0 <= i < b ==> #[trigger] block_transformed(*row_dct, blocks@, done@, i),
        decreases blocks@.len() - b,
    {
        let after = match transform_block(&blocks[b], row_dct) {
            Ok(after) => after,
            Err(e) => {
                return Err(e);
            },
        };
        let ghost earlier = done@;
        done.push(after);
        assert forall|i: int| 0 <= i < b + 1 implies #[trigger] block_transformed(
            *row_dct,
            blocks@,
            done@,
            i,
        ) by {
            if i < b {
                assert(block_transformed(*row_dct, blocks@, earlier, i));
                assert(done@[i] == earlier[i]);
            }
        }
        b += 1;
    }
    assert forall|i: int| 0 <= i < blocks@.len() implies (#[trigger] blocks@[i])@.len() == 64 by {
        assert(block_transformed(*row_dct, blocks@, done@, i));
    }
    *blocks = done;
    Ok(())
}

/// Applies the inverse transform in two dimensions to each block, in
/// place: `row_idct`, the inverse transform of one row of 8 samples, goes
/// over the rows and then over the columns of the block, and after both
/// passes `scale` is applied to each sample, once. Blocks that are not 64
/// samples long are refused, and so is a row transform that hands back a
/// row of another length than 8; the blocks are then left untouched.
pub fn apply_2d_idct<T: Copy, F: Fn(Vec<T>) -> Vec<T>, G: Fn(T) -> T>(
    blocks: &mut Vec<Vec<T>>,
    row_idct: &F,
    scale: &G,
) -> (out: Result<(), WatermarkError>)
    requires
        forall|row: Vec<T>| row@.len() == 8 ==> call_requires(*row_idct, (row,)),
        forall|sample: T| call_requires(*scale, (sample,)),
    ensures
        match out {
            Ok(_) => {
                &&& final(blocks)@.len() == old(blocks)@.len()
                &&& forall|b: int|
                    0 <= b < old(blocks)@.len() ==> #[trigger] block_transformed_and_scaled(
                        *row_idct,
                        *scale,
                        old(blocks)@,
                        final(blocks)@,
                        b,
                    )
            },
            Err(e) => e == WatermarkError::InvalidGridIndex && *final(blocks) == *old(blocks),
        },
        !all_whole(old(blocks)@) ==> out is Err,
        all_whole(old(blocks)@) && keeps_rows(*row_idct) ==> out is Ok,
{
    let mut done: Vec<Vec<T>> = Vec::new();
    let mut b: usize = 0;
    while b < blocks.len()
        invariant
            b <= blocks@.len(),
            *blocks == *old(blocks),
            forall|row: Vec<T>| row@.len() == 8 ==> call_requires(*row_idct, (row,)),
            forall|sample: T| call_requires(*scale, (sample,)),
            done@.len() == b,
            forall|i: int|
                0 <= i < b ==> #[trigger] block_transformed_and_scaled(
                    *row_idct,
                    *scale,
                    blocks@,
                    done@,
                    i,
                ),
        decreases blocks@.len() - b,
    {
        let unscaled = match transform_block(&blocks[b], row_idct) {
            Ok(unscaled) => unscaled,
            Err(e) => {
                return Err(e);
            },
        };
        let after = scale_block(&unscaled, scale);
        assert(transformed(*row_idct, blocks@[b as int]@, unscaled@));
        let ghost earlier = done@;
        done.push(after);
        assert forall|i: int| 0 <= i < b + 1 implies #[trigger] block_transformed_and_scaled(
            *row_idct,
            *scale,
            blocks@,
            done@,
            i,
        ) by {
            if i < b {
                assert(block_transformed_and_scaled(*row_idct, *scale, blocks@, earlier, i));
                assert(done@[i] == earlier[i]);
            }
        }
        b += 1;
    }
    assert forall|i: int| 0 <= i < blocks@.len() implies (#[trigger] blocks@[i])@.len() == 64 by {
        assert(block_transformed_and_scaled(*row_idct, *scale, blocks@, done@, i));
    }
    *blocks = done;
    Ok(())
}

/// A block with each row replaced by what `g` makes of it.
pub open spec fn rows_mapped<T>(g: spec_fn(Seq<T>) -> Seq<T>, block: Seq<T>) -> Seq<T> {
    Seq::new(64, |cell: int| g(block_row(block, cell / 8))[cell % 8])
}

/// Where the row transform is a function, so is the transform in two
/// dimensions: if `pass` can only give `g` of its row, and a row of 8
/// samples at that, then the only result for a block is `g` over its rows,
/// transposed, `g` over the rows again, transposed back.
pub proof fn lemma_transform_of_function<T, F: Fn(Vec<T>) -> Vec<T>>(
    pass: F,
    g: spec_fn(Seq<T>) -> Seq<T>,
    before: Seq<T>,
    after: Seq<T>,
)
    requires
        forall|input: Vec<T>, output: Vec<T>| #[trigger]
            call_ensures(pass, (input,), output) ==> output@ == g(input@),
        transformed(pass, before, after),
    ensures
        after == transposed(rows_mapped(g, transposed(rows_mapped(g, before)))),
{
    let (first, second) = choose|first: Seq<T>, second: Seq<T>|
        #![trigger rows_passed(pass, before, first), rows_passed(pass, transposed(first), second)]
        rows_passed(pass, before, first) && rows_passed(pass, transposed(first), second) && after
            == transposed(second);
    lemma_rows_of_function(pass, g, before, first);
    lemma_rows_of_function(pass, g, transposed(first), second);
}

/// One pass of a row transform that is a function gives that function over
/// the rows.
proof fn lemma_rows_of_function<T, F: Fn(Vec<T>) -> Vec<T>>(
    pass: F,
    g: spec_fn(Seq<T>) -> Seq<T>,
    before: Seq<T>,
    after: Seq<T>,
)
    requires
        forall|input: Vec<T>, output: Vec<T>| #[trigger]
            call_ensures(pass, (input,), output) ==> output@ == g(input@),
        rows_passed(pass, before, after),
    ensures
        after == rows_mapped(g, before),
{
    assert forall|cell: int| 0 <= cell < 64 implies after[cell] == rows_mapped(g, before)[cell] by {
        let row = cell / 8;
        assert(row_passed(pass, before, after, row));
        assert(block_row(after, row)[cell % 8] == after[cell]);
    }
    assert(after =~= rows_mapped(g, before));
}

/// One channel of a channel-interleaved buffer, as a plane.
pub open spec fn channel_plane(bytes: Seq<u8>, channels: int, channel: int) -> Seq<u8> {
    Seq::new((bytes.len() as int / channels) as nat, |p: int| bytes[p * channels + channel])
}

/// Three planes of equal size woven into one buffer, sample by sample.
pub open spec fn interleaved(red: Seq<u8>, green: Seq<u8>, blue: Seq<u8>) -> Seq<u8> {
    Seq::new(
        3 * red.len(),
        |i: int|
            if i % 3 == 0 {
                red[i / 3]
            } else if i % 3 == 1 {
                green[i / 3]
            } else {
                blue[i / 3]
            },
    )
}

/// Copies one channel of an image into a plane of its own.
fn take_channel(image: &PixelImage, channel: u8) -> (plane: Vec<u8>)
    requires
        channel < image.spec_channels(),
    ensures
        plane@ == channel_plane(image.bytes(), image.spec_channels() as int, channel as int),
        plane@.len() == image.spec_width() * image.spec_height(),
{
    let data = image.as_bytes();
    let channels: usize = image.channels() as usize;
    let count: usize = data.len() / channels;
    assert(count == image.spec_width() * image.spec_height()) by (nonlinear_arith)
        requires
            channels > 0,
            count == (image.spec_width() * image.spec_height() * channels) / (channels as int),
    ;
    let mut plane: Vec<u8> = Vec::new();
    let mut p: usize = 0;
    while p < count
        invariant
            p <= count,
            channel < channels,
            count == data.len() / channels,
            data@ == image.bytes(),
            channels == image.spec_channels(),
            plane@.len() == p,
            forall|q: int| 0 <= q < p ==> #[trigger] plane@[q] == data@[q * channels + channel],
        decreases count - p,
    {
        assert(0 <= p * channels && p * channels + channels <= data.len()) by (nonlinear_arith)
            requires
                0 <= p < count,
                channels > 0,
                count == data.len() / channels,
        ;
        plane.push(data[p * channels + channel as usize]);
        p += 1;
    }
    assert(plane@ =~= channel_plane(
        image.bytes(),
        image.spec_channels() as int,
        channel as int,
    ));
    plane
}

/// Splits the red, green and blue channels of an image into blocks of 8 by
/// 8, each channel as `split_into_blocks` splits a plane. An image with
/// fewer than three channels, or with a width or height that is no multiple
/// of 8, is refused.
pub fn split_image_into_blocks(image: &PixelImage) -> (out: Result<
    (Vec<Vec<i64>>, Vec<Vec<i64>>, Vec<Vec<i64>>),
    WatermarkError,
>)
    ensures
        match out {
            Ok((red, green, blue)) => {
                &&& image.spec_channels() >= 3
                &&& image.spec_width() % 8 == 0
                &&& image.spec_height() % 8 == 0
                &&& block_views(red@) == blocks_of_plane(
                    channel_plane(image.bytes(), image.spec_channels() as int, 0),
                    image.spec_width() as int,
                    image.spec_height() as int,
                )
                &&& block_views(green@) == blocks_of_plane(
                    channel_plane(image.bytes(), image.spec_channels() as int, 1),
                    image.spec_width() as int,
                    image.spec_height() as int,
                )
                &&& block_views(blue@) == blocks_of_plane(
                    channel_plane(image.bytes(), image.spec_channels() as int, 2),
                    image.spec_width() as int,
                    image.spec_height() as int,
                )
            },
            Err(e) => {
                &&& image.spec_channels() < 3 || image.spec_width() % 8 != 0
                    || image.spec_height() % 8 != 0
                &&& e == WatermarkError::DimensionMismatch
            },
        },
{
    if image.channels() < 3 {
        return Err(WatermarkError::DimensionMismatch);
    }
    let width: usize = image.width() as usize;
    let height: usize = image.height() as usize;
    let red = match split_into_blocks(&take_channel(image, 0), width, height) {
        Ok(blocks) => blocks,
        Err(_) => {
            return Err(WatermarkError::DimensionMismatch);
        },
    };
    let green = match split_into_blocks(&take_channel(image, 1), width, height) {
        Ok(blocks) => blocks,
        Err(_) => {
            return Err(WatermarkError::DimensionMismatch);
        },
    };
    let blue = match split_into_blocks(&take_channel(image, 2), width, height) {
        Ok(blocks) => blocks,
        Err(_) => {
            return Err(WatermarkError::DimensionMismatch);
        },
    };
    Ok((red, green, blue))
}

/// Builds a three-channel image from the blocks of its red, green and blue
/// planes, each merged as `merge_into_plane` merges them. A width or height
/// that is no multiple of 8, or an image too large to be held, is refused
/// as a dimension mismatch; blocks that do not fit the size as an invalid
/// grid index.
pub fn reconstruct_image_from_rgb(
    blocks_r: &Vec<Vec<i64>>,
    blocks_g: &Vec<Vec<i64>>,
    blocks_b: &Vec<Vec<i64>>,
    width: u32,
    height: u32,
) -> (out: Result<PixelImage, WatermarkError>)
    ensures
        match out {
            Ok(image) => {
                &&& image.spec_width() == width
                &&& image.spec_height() == height
                &&& image.spec_channels() == 3
                &&& blocks_fit(block_views(blocks_r@), width as int, height as int)
                &&& blocks_fit(block_views(blocks_g@), width as int, height as int)
                &&& blocks_fit(block_views(blocks_b@), width as int, height as int)
                &&& image.bytes() == interleaved(
                    merged_plane(block_views(blocks_r@), width as int, height as int),
                    merged_plane(block_views(blocks_g@), width as int, height as int),
                    merged_plane(block_views(blocks_b@), width as int, height as int),
                )
            },
            Err(e) => if width % 8 != 0 || height % 8 != 0 || !buffer_fits(
                width,
                height,
                3,
                (width * height * 3) as nat,
            ) {
                e == WatermarkError::DimensionMismatch
            } else {
                &&& !(blocks_fit(block_views(blocks_r@), width as int, height as int) && blocks_fit(
                    block_views(blocks_g@),
                    width as int,
                    height as int,
                ) && blocks_fit(block_views(blocks_b@), width as int, height as int))
                &&& e == WatermarkError::InvalidGridIndex
            },
        },
{
    if width % 8 != 0 || height % 8 != 0 {
        return Err(WatermarkError::DimensionMismatch);
    }
    let len: usize = match buffer_len(width, height, 3) {
        Some(len) => len,
        None => {
            return Err(WatermarkError::DimensionMismatch);
        },
    };
    assert(0 <= width * height <= width * height * 3) by (nonlinear_arith);
    let red = match merge_into_plane(blocks_r, width as usize, height as usize) {
        Ok(plane) => plane,
        Err(_) => {
            return Err(WatermarkError::InvalidGridIndex);
        },
    };
    let green = match merge_into_plane(blocks_g, width as usize, height as usize) {
        Ok(plane) => plane,
        Err(_) => {
            return Err(WatermarkError::InvalidGridIndex);
        },
    };
    let blue = match merge_into_plane(blocks_b, width as usize, height as usize) {
        Ok(plane) => plane,
        Err(_) => {
            return Err(WatermarkError::InvalidGridIndex);
        },
    };
    let mut data: Vec<u8> = Vec::new();
    let mut p: usize = 0;
    while p < red.len()
        invariant
            p <= red@.len(),
            red@.len() == green@.len(),
            red@.len() == blue@.len(),
            data@.len() == 3 * p,
            forall|i: int|
                0 <= i < 3 * p ==> #[trigger] data@[i] == interleaved(red@, green@, blue@)[i],
        decreases red@.len() - p,
    {
        data.push(red[p]);
        data.push(green[p]);
        data.push(blue[p]);
        p += 1;
    }
    assert(data@ =~= interleaved(red@, green@, blue@));
    match PixelImage::new(width, height, 3, data) {
        Ok(image) => Ok(image),
        Err(_) => Err(WatermarkError::DimensionMismatch),
    }
}

} // verus!

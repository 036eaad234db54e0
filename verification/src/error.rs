//! The ways in which an input can be refused.
use vstd::prelude::*;

verus! {

/// Why an operation of this library refused its input.
#[derive(Clone, Copy, Debug, PartialEq, Eq, Structural)]
pub enum WatermarkError {
    /// A width, height or channel count does not fit the data it describes,
    /// or is not a multiple of the block side where it has to be.
    DimensionMismatch,
    /// The number of payload bits is not the number that the blocks carry.
    PayloadLengthMismatch,
    /// A block, or a set of blocks, does not cover the plane it belongs to.
    InvalidGridIndex,
}

} // verus!

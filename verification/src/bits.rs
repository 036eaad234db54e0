//! The payload as a sequence of bits.
use crate::error::WatermarkError;
use bitvec::order::Lsb0;
use bitvec::vec::BitVec;
use vstd::prelude::*;

verus! {

/// An ordered sequence of bits, packed one bit per bit of memory.
///
/// The packing is done by `bitvec::vec::BitVec`, which this type holds; the
/// bits themselves are seen through the view, a `Seq<bool>`.
#[verifier::external_body]
pub struct Bitstream {
    bits: BitVec<usize, Lsb0>,
}

/// The bits that a bitstream holds, the first one pushed at index 0.
pub uninterp spec fn bit_seq(stream: Bitstream) -> Seq<bool>;

impl View for Bitstream {
    type V = Seq<bool>;

    open spec fn view(&self) -> Seq<bool> {
        bit_seq(*self)
    }
}

/// The largest number of bits that one bitstream can hold.
pub open spec fn max_bits() -> nat {
    (usize::MAX / 8) as nat
}

/// `BitVec::new`: a bit vector that holds no bit.
#[verifier::external_body]
fn bitvec_new() -> (stream: Bitstream)
    ensures
        bit_seq(stream) == Seq::<bool>::empty(),
{
    Bitstream { bits: BitVec::new() }
}

/// `BitVec::len`: the number of bits held.
#[verifier::external_body]
fn bitvec_len(stream: &Bitstream) -> (n: usize)
    ensures
        n == bit_seq(*stream).len(),
{
    stream.bits.len()
}

/// Indexing a `BitVec` by a `usize`: the bit at that position. The index has
/// to lie below the length, since the outside code panics on any other.
#[verifier::external_body]
fn bitvec_index(stream: &Bitstream, index: usize) -> (bit: bool)
    requires
        index < bit_seq(*stream).len(),
    ensures
        bit == bit_seq(*stream)[index as int],
{
    stream.bits[index]
}

/// `BitVec::push`: appends one bit behind the others. The outside code
/// panics once the length would pass `usize::MAX >> 3`, so the vector has to
/// be shorter than that before the call.
#[verifier::external_body]
fn bitvec_push(stream: &mut Bitstream, value: bool)
    requires
        bit_seq(*old(stream)).len() < max_bits(),
    ensures
        bit_seq(*final(stream)) == bit_seq(*old(stream)).push(value),
{
    stream.bits.push(value)
}

impl Bitstream {
    /// A bitstream without bits.
    pub fn new() -> (stream: Bitstream)
        ensures
            stream@ == Seq::<bool>::empty(),
    {
        bitvec_new()
    }

    /// The number of bits in the stream.
    pub fn len(&self) -> (n: usize)
        ensures
            n == self@.len(),
    {
        bitvec_len(self)
    }

    /// The bit at `index`.
    pub fn get(&self, index: usize) -> (bit: bool)
        requires
            index < self@.len(),
        ensures
            bit == self@[index as int],
    {
        bitvec_index(self, index)
    }

    /// Appends `value` to the stream.
    pub fn push(&mut self, value: bool)
        requires
            old(self)@.len() < max_bits(),
        ensures
            final(self)@ == old(self)@.push(value),
    {
        bitvec_push(self, value)
    }

    /// The stream that holds the bits of `values`, in their order. A vector
    /// of more than `max_bits()` bits does not fit and is refused.
    pub fn from_bools(values: &Vec<bool>) -> (out: Result<Bitstream, WatermarkError>)
        ensures
            values@.len() <= max_bits() ==> out is Ok && out->Ok_0@ == values@,
            values@.len() > max_bits() ==> out == Err::<Bitstream, WatermarkError>(
                WatermarkError::PayloadLengthMismatch,
            ),
    {
        if values.len() > usize::MAX / 8 {
            return Err(WatermarkError::PayloadLengthMismatch);
        }
        let mut stream = Bitstream::new();
        let mut i: usize = 0;
        while i < values.len()
            invariant
                i <= values@.len() <= max_bits(),
                stream@ == values@.take(i as int),
            decreases values@.len() - i,
        {
            stream.push(values[i]);
            assert(values@.take(i as int).push(values@[i as int]) == values@.take(i + 1));
            i += 1;
        }
        assert(values@.take(values@.len() as int) == values@);
        Ok(stream)
    }

    /// The bits of the stream as a vector, in their order.
    pub fn to_bools(&self) -> (values: Vec<bool>)
        ensures
            values@ == self@,
    {
        let n = self.len();
        let mut values: Vec<bool> = Vec::new();
        let mut i: usize = 0;
        while i < n
            invariant
                i <= n == self@.len(),
                values@ == self@.take(i as int),
            decreases n - i,
        {
            values.push(self.get(i));
            assert(self@.take(i as int).push(self@[i as int]) == self@.take(i + 1));
            i += 1;
        }
        assert(self@.take(self@.len() as int) == self@);
        values
    }
}

} // verus!

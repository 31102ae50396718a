//! Bit-level streams: the `Read` and `Write` capabilities the codec is
//! polymorphic over, and their buffered implementations.
//!
//! A writer's observable state is the sequence of bits written so far
//! (`written`); a reader's is the whole underlying bit stream (`stream`) and
//! how many bits have been consumed (`pos`). Both are MSB-first within each
//! byte.

use vstd::prelude::*;
use crate::Bit;
use crate::bits::{bits_of, bits_to_bytes, bits_val, byte_bits};

verus! {

/// Error
///
/// Potential errors when interacting with a stream. Running out of bits is
/// the only kind.
#[derive(Debug, Clone, Copy, PartialEq, Eq, Structural)]
pub enum Error {
    EOF,
}

/// The number of bits a `read_bits`/`peak_bits` call actually asks for:
/// requests beyond 64 bits are clamped to 64, the width of the result.
pub open spec fn clamp64(num: u32) -> nat {
    if num > 64 {
        64nat
    } else {
        num as nat
    }
}

/// Read
///
/// Read is a trait that encapsulates the functionality required to read from
/// a stream of bits packed MSB-first into bytes.
pub trait Read: Sized {
    /// Well-formedness of the reader.
    spec fn inv(&self) -> bool;

    /// The whole underlying bit stream.
    spec fn stream(&self) -> Seq<bool>;

    /// The number of bits consumed so far.
    spec fn pos(&self) -> nat;

    /// Read a single bit from the underlying stream.
    fn read_bit(&mut self) -> (r: Result<Bit, Error>)
        requires
            old(self).inv(),
        ensures
            final(self).inv(),
            final(self).stream() == old(self).stream(),
            old(self).pos() + 1 <= old(self).stream().len() ==> {
                &&& r == Ok::<Bit, Error>(
                    if old(self).stream()[old(self).pos() as int] {
                        Bit::One
                    } else {
                        Bit::Zero
                    },
                )
                &&& final(self).pos() == old(self).pos() + 1
            },
            old(self).pos() + 1 > old(self).stream().len() ==> {
                &&& r == Err::<Bit, Error>(Error::EOF)
                &&& final(self).pos() == old(self).pos()
            },
    ;

    /// Read a single byte from the underlying stream.
    fn read_byte(&mut self) -> (r: Result<u8, Error>)
        requires
            old(self).inv(),
        ensures
            final(self).inv(),
            final(self).stream() == old(self).stream(),
            old(self).pos() + 8 <= old(self).stream().len() ==> {
                &&& r == Ok::<u8, Error>(
                    bits_val(
                        old(self).stream().subrange(
                            old(self).pos() as int,
                            old(self).pos() + 8nat as int,
                        ),
                    ) as u8,
                )
                &&& final(self).pos() == old(self).pos() + 8
            },
            old(self).pos() + 8 > old(self).stream().len() ==> {
                &&& r == Err::<u8, Error>(Error::EOF)
                &&& final(self).pos() == old(self).pos()
            },
    ;

    /// Read `num` bits from the underlying stream, MSB-first, right-aligned
    /// in the result. `num` is clamped to 64.
    fn read_bits(&mut self, num: u32) -> (r: Result<u64, Error>)
        requires
            old(self).inv(),
        ensures
            final(self).inv(),
            final(self).stream() == old(self).stream(),
            old(self).pos() + clamp64(num) <= old(self).stream().len() ==> {
                &&& r == Ok::<u64, Error>(
                    bits_val(
                        old(self).stream().subrange(
                            old(self).pos() as int,
                            (old(self).pos() + clamp64(num)) as int,
                        ),
                    ) as u64,
                )
                &&& final(self).pos() == old(self).pos() + clamp64(num)
            },
            old(self).pos() + clamp64(num) > old(self).stream().len() ==> {
                &&& r == Err::<u64, Error>(Error::EOF)
                &&& final(self).pos() == old(self).pos()
            },
    ;

    /// Get the next `num` bits as `read_bits` would, but do not update the
    /// place in the stream.
    fn peak_bits(&mut self, num: u32) -> (r: Result<u64, Error>)
        requires
            old(self).inv(),
        ensures
            final(self).inv(),
            final(self).stream() == old(self).stream(),
            final(self).pos() == old(self).pos(),
            old(self).pos() + clamp64(num) <= old(self).stream().len() ==> r == Ok::<u64, Error>(
                bits_val(
                    old(self).stream().subrange(
                        old(self).pos() as int,
                        (old(self).pos() + clamp64(num)) as int,
                    ),
                ) as u64,
            ),
            old(self).pos() + clamp64(num) > old(self).stream().len() ==> r == Err::<u64, Error>(
                Error::EOF,
            ),
    ;
}

/// Write
///
/// Write is a trait that encapsulates the functionality required to write a
/// stream of bits packed MSB-first into bytes.
pub trait Write: Sized {
    /// Well-formedness of the writer.
    spec fn inv(&self) -> bool;

    /// The bits written so far.
    spec fn written(&self) -> Seq<bool>;

    /// Write a single bit to the underlying stream.
    fn write_bit(&mut self, bit: Bit)
        requires
            old(self).inv(),
        ensures
            final(self).inv(),
            final(self).written() == old(self).written().push(bit.spec_bool()),
    ;

    /// Write a single byte to the underlying stream, MSB-first.
    fn write_byte(&mut self, byte: u8)
        requires
            old(self).inv(),
        ensures
            final(self).inv(),
            final(self).written() == old(self).written() + byte_bits(byte),
    ;

    /// Write the bottom `num` bits of `bits` to the underlying stream,
    /// most significant of them first.
    fn write_bits(&mut self, bits: u64, num: u32)
        requires
            old(self).inv(),
            num <= 64,
        ensures
            final(self).inv(),
            final(self).written() == old(self).written() + bits_of(bits, num as nat),
    ;

    /// Close the underlying stream and return the accumulated bytes; the
    /// last byte is zero-padded.
    fn close(self) -> (r: Vec<u8>)
        requires
            self.inv(),
        ensures
            r@ == bits_to_bytes(self.written()),
    ;
}

} // verus!

pub mod buffered_read;
pub mod buffered_write;

pub use self::buffered_read::BufferedReader;
pub use self::buffered_write::BufferedWriter;

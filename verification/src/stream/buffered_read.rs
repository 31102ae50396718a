//! A bit reader over an owned byte buffer.

use vstd::prelude::*;
use vstd::arithmetic::power2::*;
use crate::Bit;
use crate::bits::{byte_bits, bytes_bits, bits_val, lemma_bits_val_bound, lemma_bits_val_take_step};
use crate::stream::{clamp64, Error, Read};

verus! {

/// BufferedReader
///
/// Consumes bits MSB-first from an owned byte buffer. `index` is the byte
/// being read; `pos` is the bit position inside it.
#[derive(Debug)]
pub struct BufferedReader {
    bytes: Vec<u8>,
    index: usize,
    pos: u32,
}

impl BufferedReader {
    /// Create a new BufferedReader which reads the bits of `bytes`.
    pub fn new(bytes: Vec<u8>) -> (r: Self)
        ensures
            r.inv(),
            r.stream() == bytes_bits(bytes@),
            r.pos() == 0,
    {
        BufferedReader { bytes, index: 0, pos: 0 }
    }

    /// The byte the reader currently stands in, or EOF past the end.
    fn get_byte(&self) -> (r: Result<u8, Error>)
        ensures
            self.index < self.bytes@.len() ==> r == Ok::<u8, Error>(self.bytes@[self.index as int]),
            self.index >= self.bytes@.len() ==> r == Err::<u8, Error>(Error::EOF),
    {
        if self.index < self.bytes.len() {
            Ok(self.bytes[self.index])
        } else {
            Err(Error::EOF)
        }
    }

    /// Read `n <= 64` bits, checking for the end of the stream up front.
    fn read_n_bits(&mut self, n: u32) -> (r: Result<u64, Error>)
        requires
            old(self).inv(),
            n <= 64,
        ensures
            final(self).inv(),
            final(self).stream() == old(self).stream(),
            old(self).pos() + n <= old(self).stream().len() ==> {
                &&& r == Ok::<u64, Error>(
                    bits_val(
                        old(self).stream().subrange(old(self).pos() as int, old(self).pos() + n),
                    ) as u64,
                )
                &&& final(self).pos() == old(self).pos() + n
            },
            old(self).pos() + n > old(self).stream().len() ==> {
                &&& r == Err::<u64, Error>(Error::EOF)
                &&& final(self).pos() == old(self).pos()
            },
    {
        let avail = self.bytes.len() - self.index;
        if avail < 9 {
            // With at most eight bytes left the remaining bit count fits
            // comfortably in a u32 and must be compared against n.
            let has = 8 * (avail as u32) - self.pos;
            if n > has {
                return Err(Error::EOF);
            }
        }
        let ghost p0 = self.pos();
        let ghost s = self.stream().subrange(p0 as int, p0 + n as int);
        let mut acc: u64 = 0;
        let mut j: u32 = 0;
        proof {
            assert(s.take(0) =~= Seq::<bool>::empty());
        }
        while j < n
            invariant
                self.inv(),
                self.stream() == old(self).stream(),
                n <= 64,
                j <= n,
                p0 + n <= self.stream().len(),
                self.pos() == p0 + j,
                s == self.stream().subrange(p0 as int, p0 + n as int),
                acc == bits_val(s.take(j as int)),
            decreases n - j,
        {
            proof {
                lemma_bits_val_bound(s.take(j as int));
                if (j as nat) < 63 {
                    lemma_pow2_strictly_increases(j as nat, 63);
                }
                lemma2_to64_rest();
                lemma_bits_val_take_step(s, j as int);
            }
            let bit = match self.read_bit() {
                Ok(b) => b,
                Err(_) => {
                    // Unreachable: the length check above guarantees that
                    // n bits remain.
                    return Err(Error::EOF);
                },
            };
            acc = 2 * acc + bit.to_u64();
            j = j + 1;
        }
        proof {
            assert(s.take(n as int) =~= s);
            lemma_bits_val_bound(s);
            if (n as nat) < 64 {
                lemma_pow2_strictly_increases(n as nat, 64);
            }
            lemma2_to64_rest();
        }
        Ok(acc)
    }
}

impl Read for BufferedReader {
    closed spec fn inv(&self) -> bool {
        &&& self.pos < 8
        &&& self.index <= self.bytes@.len()
        &&& self.pos > 0 ==> self.index < self.bytes@.len()
    }

    closed spec fn stream(&self) -> Seq<bool> {
        bytes_bits(self.bytes@)
    }

    closed spec fn pos(&self) -> nat {
        (8 * self.index + self.pos) as nat
    }

    fn read_bit(&mut self) -> (r: Result<Bit, Error>) {
        match self.get_byte() {
            Err(e) => {
                assert(self.pos() >= self.stream().len());
                Err(e)
            },
            Ok(byte) => {
                let sh = (7 - self.pos) as u8;
                let bit = if byte & (1u8 << sh) == 0 {
                    Bit::Zero
                } else {
                    Bit::One
                };
                proof {
                    let p = self.pos as int;
                    assert(sh < 8 ==> ((byte & (1u8 << sh)) == 0) == !(((byte >> sh) & 1) == 1))
                        by (bit_vector);
                    assert(byte_bits(byte)[p] == (((byte >> sh) & 1) == 1));
                    assert(self.stream()[self.pos() as int] == byte_bits(byte)[p]);
                    assert(self.bytes.len() == self.bytes@.len());
                }
                self.pos = self.pos + 1;
                if self.pos == 8 {
                    self.pos = 0;
                    self.index = self.index + 1;
                }
                Ok(bit)
            },
        }
    }

    fn read_byte(&mut self) -> (r: Result<u8, Error>) {
        let ghost sub = old(self).stream().subrange(old(self).pos() as int, old(self).pos() + 8nat as int);
        match self.read_n_bits(8) {
            Ok(v) => {
                proof {
                    lemma_bits_val_bound(sub);
                    lemma2_to64();
                }
                Ok(v as u8)
            },
            Err(e) => Err(e),
        }
    }

    fn read_bits(&mut self, num: u32) -> (r: Result<u64, Error>) {
        let n = if num > 64 {
            64
        } else {
            num
        };
        self.read_n_bits(n)
    }

    fn peak_bits(&mut self, num: u32) -> (r: Result<u64, Error>) {
        let index = self.index;
        let pos = self.pos;
        let r = self.read_bits(num);
        proof {
            // The stream is unchanged, so the buffer has its old length and
            // the saved position is still in range.
            assert(self.bytes@.len() == old(self).bytes@.len());
        }
        self.index = index;
        self.pos = pos;
        r
    }
}

} // verus!

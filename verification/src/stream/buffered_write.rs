//! A bit writer over a growable byte buffer.

use vstd::prelude::*;
use vstd::arithmetic::power2::*;
use crate::Bit;
use crate::bits::{
    byte_bits, bytes_bits, bits_of, bits_to_bytes, bits_val, lemma_bits_val_of_bits_exact,
    lemma_byte_bits_is_bits_of, lemma_bytes_bits_push,
};
use crate::stream::Write;

verus! {

/// BufferedWriter
///
/// Appends bits MSB-first to an internal growable byte buffer. `pos` counts
/// the bits used in the last byte; 8 means a fresh byte is needed, which is
/// the state of a new writer and of a writer whose last byte is full.
#[derive(Debug)]
pub struct BufferedWriter {
    buf: Vec<u8>,
    pos: u32,
}

/// All eight bits of a zero byte are zero.
proof fn lemma_zero_byte_bits()
    ensures
        forall|j: int| 0 <= j < 8 ==> !byte_bits(0u8)[j],
{
    assert forall|j: int| 0 <= j < 8 implies !byte_bits(0u8)[j] by {
        let k = (7 - j) as u8;
        assert(k < 8 ==> (0u8 >> k) & 1 == 0) by (bit_vector);
    }
}

/// Changing only bit `p` of the last byte appends one bit to the stream
/// prefix that ends just before it, and keeps the bits after `p` zero.
proof fn lemma_last_byte_bit(prev: Seq<u8>, cur: Seq<u8>, p: int, b: bool)
    requires
        prev.len() > 0,
        0 <= p < 8,
        forall|j: int| p <= j < 8 ==> !byte_bits(prev.last())[j],
        cur.len() == prev.len(),
        cur == prev.update(prev.len() - 1, cur.last()),
        byte_bits(cur.last())[p] == b,
        forall|j: int| 0 <= j < 8 && j != p ==> byte_bits(cur.last())[j] == byte_bits(prev.last())[j],
    ensures
        bytes_bits(cur).take(8 * (prev.len() - 1) + p + 1) == bytes_bits(prev).take(
            8 * (prev.len() - 1) + p,
        ).push(b),
        forall|j: int| p + 1 <= j < 8 ==> !byte_bits(cur.last())[j],
{
    let m = prev.len() - 1;
    let n = 8 * m + p;
    assert forall|k: int| 0 <= k < n + 1 implies bytes_bits(cur)[k] == bytes_bits(prev).take(
        n,
    ).push(b)[k] by {
        vstd::arithmetic::div_mod::lemma_fundamental_div_mod(k, 8);
        let i = k / 8;
        let j = k % 8;
        crate::bits::lemma_bytes_bits_at(cur, i, j);
        crate::bits::lemma_bytes_bits_at(prev, i, j);
        if i == m {
            assert(j <= p);
        } else {
            assert(cur[i] == prev[i]);
        }
    }
    assert(bytes_bits(cur).take(n + 1) =~= bytes_bits(prev).take(n).push(b));
}

/// Setting bit `p` (MSB-first) of a byte leaves the other bits alone.
proof fn lemma_or_bit_bits(b: u8, p: int)
    requires
        0 <= p < 8,
    ensures
        byte_bits(b | (1u8 << ((7 - p) as u8)))[p],
        forall|j: int|
            0 <= j < 8 && j != p ==> byte_bits(b | (1u8 << ((7 - p) as u8)))[j] == byte_bits(b)[j],
{
    let m = (7 - p) as u8;
    assert(m < 8 ==> ((b | (1u8 << m)) >> m) & 1 == 1) by (bit_vector);
    assert forall|j: int| 0 <= j < 8 && j != p implies byte_bits(b | (1u8 << m))[j] == byte_bits(
        b,
    )[j] by {
        let k = (7 - j) as u8;
        assert(k < 8 && m < 8 && k != m ==> (((b | (1u8 << m)) >> k) & 1 == 1) == ((b >> k) & 1
            == 1)) by (bit_vector);
    }
}

impl BufferedWriter {
    /// The number of bits written so far, in terms of the buffer state.
    pub closed spec fn n_bits(&self) -> nat {
        if self.buf@.len() == 0 {
            0nat
        } else {
            (8 * (self.buf@.len() - 1) + self.pos) as nat
        }
    }

    /// Create a new BufferedWriter with an empty buffer.
    pub fn new() -> (r: Self)
        ensures
            r.inv(),
            r.written() == Seq::<bool>::empty(),
    {
        let r = BufferedWriter { buf: Vec::new(), pos: 8 };
        proof {
            assert(r.written() =~= Seq::<bool>::empty());
        }
        r
    }
}

impl Write for BufferedWriter {
    closed spec fn inv(&self) -> bool {
        &&& self.buf@.len() == 0 ==> self.pos == 8
        &&& self.buf@.len() > 0 ==> 1 <= self.pos <= 8
        &&& self.buf@.len() > 0 ==> forall|j: int|
            self.pos <= j < 8 ==> !byte_bits(self.buf@.last())[j]
    }

    closed spec fn written(&self) -> Seq<bool> {
        bytes_bits(self.buf@).take(self.n_bits() as int)
    }

    fn write_bit(&mut self, bit: Bit) {
        let ghost w0 = self.written();
        if self.pos == 8 {
            self.buf.push(0);
            self.pos = 0;
            proof {
                lemma_bytes_bits_push(old(self).buf@, 0u8);
                lemma_zero_byte_bits();
                assert(self.written() =~= w0);
            }
        }
        let ghost mid = *self;
        let i = self.buf.len() - 1;
        match bit {
            Bit::Zero => {},
            Bit::One => {
                let b = self.buf[i];
                let sh = (7 - self.pos) as u8;
                self.buf[i] = b | (1u8 << sh);
                proof {
                    lemma_or_bit_bits(mid.buf@.last(), self.pos as int);
                    assert(self.buf@ =~= mid.buf@.update(mid.buf@.len() - 1, self.buf@.last()));
                }
            },
        }
        proof {
            assert(mid.buf@ =~= mid.buf@.update(mid.buf@.len() - 1, mid.buf@.last()));
            lemma_last_byte_bit(
                mid.buf@,
                self.buf@,
                mid.pos as int,
                bit.spec_bool(),
            );
        }
        self.pos = self.pos + 1;
        proof {
            assert(self.written() == w0.push(bit.spec_bool()));
        }
    }

    fn write_byte(&mut self, byte: u8) {
        let ghost w0 = self.written();
        let mut j: u32 = 0;
        while j < 8
            invariant
                self.inv(),
                j <= 8,
                self.written() == w0 + byte_bits(byte).take(j as int),
            decreases 8 - j,
        {
            let sh = (7 - j) as u8;
            let bit = if (byte >> sh) & 1 == 1 {
                Bit::One
            } else {
                Bit::Zero
            };
            self.write_bit(bit);
            proof {
                assert((w0 + byte_bits(byte).take(j as int)).push(byte_bits(byte)[j as int]) =~= w0
                    + byte_bits(byte).take(j + 1));
            }
            j = j + 1;
        }
        proof {
            assert(byte_bits(byte).take(8) =~= byte_bits(byte));
        }
    }

    fn write_bits(&mut self, bits: u64, num: u32) {
        let ghost w0 = self.written();
        let ghost all = bits_of(bits, num as nat);
        let mut j: u32 = 0;
        while j < num
            invariant
                self.inv(),
                num <= 64,
                j <= num,
                all == bits_of(bits, num as nat),
                self.written() == w0 + all.take(j as int),
            decreases num - j,
        {
            let sh = (num - 1 - j) as u64;
            let bit = if (bits >> sh) & 1 == 1 {
                Bit::One
            } else {
                Bit::Zero
            };
            self.write_bit(bit);
            proof {
                assert((w0 + all.take(j as int)).push(all[j as int]) =~= w0 + all.take(j + 1));
            }
            j = j + 1;
        }
        proof {
            assert(all.take(num as int) =~= all);
        }
    }

    fn close(self) -> (r: Vec<u8>) {
        proof {
            let w = self.written();
            let out = bits_to_bytes(w);
            assert(out.len() == self.buf@.len());
            assert forall|i: int| 0 <= i < self.buf@.len() implies out[i] == self.buf@[i] by {
                let win = Seq::new(8, |j: int| 0 <= 8 * i + j < w.len() && w[8 * i + j]);
                assert forall|j: int| 0 <= j < 8 implies win[j] == byte_bits(self.buf@[i])[j] by {
                    crate::bits::lemma_bytes_bits_at(self.buf@, i, j);
                    if 8 * i + j < w.len() {
                        assert(w[8 * i + j] == bytes_bits(self.buf@)[8 * i + j]);
                    } else {
                        assert(i == self.buf@.len() - 1 && j >= self.pos);
                        assert(self.buf@[i] == self.buf@.last());
                    }
                }
                assert(win =~= byte_bits(self.buf@[i]));
                lemma_byte_bits_is_bits_of(self.buf@[i]);
                lemma2_to64();
                lemma_bits_val_of_bits_exact(self.buf@[i] as u64, 8);
            }
            assert(out =~= self.buf@);
        }
        self.buf
    }
}

} // verus!

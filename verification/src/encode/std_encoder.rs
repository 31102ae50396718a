//! The standard encoder over any bit writer.

use vstd::prelude::*;
use vstd::wrapping::u64_specs;
use crate::{Bit, CodecState, DataPoint};
use crate::bits::{bits_of, lemma_nonzero_window};
use crate::encode::{
    dod_bits, dod_signed, enc_init, enc_state, first_bits, lemma_enc_state_window_ok,
    lemma_payload_push, payload_bits, point_state, stream_bits, window_ok, window_width,
    xor_bits, xor_window, Encode,
};
use crate::stream::Write;

verus! {

/// END_MARKER is a special bit sequence used to indicate the end of the
/// stream: the four control bits `1111` followed by a 32-bit zero payload.
/// A delta-of-delta that needs the 32-bit class is never zero (a zero
/// delta-of-delta is the single bit `0`), so this word cannot appear as a
/// legal code.
pub const END_MARKER: u64 = 0b1111_0000_0000_0000_0000_0000_0000_0000_0000;

/// END_MARKER_LEN is the length, in bits, of END_MARKER.
pub const END_MARKER_LEN: u32 = 36;

/// The four code-class prefixes, as packed values.
proof fn lemma_prefix_bits()
    ensures
        bits_of(0b10u64, 2) == seq![true, false],
        bits_of(0b110u64, 3) == seq![true, true, false],
        bits_of(0b1110u64, 4) == seq![true, true, true, false],
        bits_of(0b1111u64, 4) == seq![true, true, true, true],
{
    assert((0b10u64 >> 1u64) & 1 == 1 && (0b10u64 >> 0u64) & 1 == 0 && (0b110u64 >> 2u64) & 1 == 1
        && (0b110u64 >> 1u64) & 1 == 1 && (0b110u64 >> 0u64) & 1 == 0 && (0b1110u64 >> 3u64) & 1
        == 1 && (0b1110u64 >> 2u64) & 1 == 1 && (0b1110u64 >> 1u64) & 1 == 1 && (0b1110u64
        >> 0u64) & 1 == 0 && (0b1111u64 >> 3u64) & 1 == 1 && (0b1111u64 >> 2u64) & 1 == 1 && (
    0b1111u64 >> 1u64) & 1 == 1 && (0b1111u64 >> 0u64) & 1 == 1) by (bit_vector);
    assert(bits_of(0b10u64, 2) =~= seq![true, false]);
    assert(bits_of(0b110u64, 3) =~= seq![true, true, false]);
    assert(bits_of(0b1110u64, 4) =~= seq![true, true, true, false]);
    assert(bits_of(0b1111u64, 4) =~= seq![true, true, true, true]);
}

/// Reinterpreting the low 32 bits of a wrapped difference as an i32 gives
/// exactly the signed delta-of-delta the code classes are chosen by.
proof fn lemma_dod_signed_cast(diff: u64)
    ensures
        (diff as i32) as int == dod_signed(diff),
{
    assert((diff as i32) as int == if diff % 0x1_0000_0000 < 0x8000_0000 {
        (diff % 0x1_0000_0000) as int
    } else {
        diff % 0x1_0000_0000 - 0x1_0000_0000
    }) by (bit_vector);
}

/// The low `k <= 32` bits of the sign-extended i32 are the low bits of the
/// difference itself.
proof fn lemma_dod_payload_bits(diff: u64, k: nat)
    requires
        k <= 32,
    ensures
        bits_of(((diff as i32) as u64), k) == bits_of(diff, k),
{
    assert forall|i: int| 0 <= i < k implies bits_of(((diff as i32) as u64), k)[i] == bits_of(
        diff,
        k,
    )[i] by {
        let sh = (k - 1 - i) as u64;
        assert(sh < 32 ==> ((((diff as i32) as u64) >> sh) & 1 == (diff >> sh) & 1))
            by (bit_vector);
    }
    assert(bits_of(((diff as i32) as u64), k) =~= bits_of(diff, k));
}

/// StdEncoder
///
/// StdEncoder is used to encode `DataPoint`s into a bit writer. It tracks
/// the header timestamp it was started with and the points it has accepted;
/// its invariant says the writer holds exactly the header and payload bits
/// for those points, with the codec state fields in step.
pub struct StdEncoder<T: Write> {
    time: u64,
    delta: u64,
    value_bits: u64,
    leading_zeroes: u32,
    trailing_zeroes: u32,
    first: bool,
    w: T,
    base: Ghost<u64>,
    points: Ghost<Seq<DataPoint>>,
}

impl<T> StdEncoder<T> where T: Write {
    /// The codec state held in the encoder's fields.
    pub closed spec fn st(&self) -> CodecState {
        CodecState {
            time: self.time,
            delta: self.delta,
            value_bits: self.value_bits,
            leading: self.leading_zeroes,
            trailing: self.trailing_zeroes,
        }
    }

    /// new creates a new StdEncoder whose starting timestamp is `start` and
    /// writes its encoded bytes to `w`, which must be empty.
    pub fn new(start: u64, w: T) -> (r: Self)
        requires
            w.inv(),
            w.written() == Seq::<bool>::empty(),
        ensures
            r.inv(),
            r.base() == start,
            r.points() == Seq::<DataPoint>::empty(),
    {
        let mut e = StdEncoder {
            time: start,
            delta: 0,
            value_bits: 0,
            // 64 is the sentinel: no XOR window is open yet
            leading_zeroes: 64,
            trailing_zeroes: 64,
            first: true,
            w,
            base: Ghost(start),
            points: Ghost(Seq::<DataPoint>::empty()),
        };
        // write timestamp header
        e.w.write_bits(start, 64);
        proof {
            assert(e.w.written() =~= bits_of(start, 64) + payload_bits(
                start,
                Seq::<DataPoint>::empty(),
            ));
        }
        e
    }

    fn write_first(&mut self, time: u64, value_bits: u64)
        requires
            old(self).w.inv(),
        ensures
            final(self).w.inv(),
            final(self).w.written() == old(self).w.written() + first_bits(
                old(self).st(),
                DataPoint { time, value: value_bits },
            ),
            final(self).st() == point_state(
                old(self).st(),
                DataPoint { time, value: value_bits },
                true,
            ),
            final(self).first == old(self).first,
            final(self).base == old(self).base,
            final(self).points == old(self).points,
    {
        let ghost w0 = self.w.written();
        self.delta = time.wrapping_sub(self.time);
        self.time = time;
        self.value_bits = value_bits;

        // one control bit distinguishes a stream with payload from a bare
        // header followed by the end marker, whose first bit is 1
        self.w.write_bit(Bit::Zero);

        // the first delta is stored in 14 bits, enough to span just over
        // four hours; a larger first gap truncates silently
        self.w.write_bits(self.delta, 14);

        // the first value is stored exactly
        self.w.write_bits(self.value_bits, 64);
        proof {
            assert(self.w.written() =~= w0 + first_bits(
                old(self).st(),
                DataPoint { time, value: value_bits },
            ));
        }
    }

    fn write_next_timestamp(&mut self, time: u64)
        requires
            old(self).w.inv(),
        ensures
            final(self).w.inv(),
            final(self).w.written() == old(self).w.written() + dod_bits(
                u64_specs::wrapping_sub(
                    u64_specs::wrapping_sub(time, old(self).st().time),
                    old(self).st().delta,
                ),
            ),
            final(self).st() == (CodecState {
                time,
                delta: u64_specs::wrapping_sub(time, old(self).st().time),
                ..old(self).st()
            }),
            final(self).first == old(self).first,
            final(self).base == old(self).base,
            final(self).points == old(self).points,
    {
        let ghost w0 = self.w.written();
        let delta = time.wrapping_sub(self.time);  // current delta
        let dod_w = delta.wrapping_sub(self.delta);
        let dod = #[verifier::truncate] (dod_w as i32);  // delta of delta
        proof {
            lemma_dod_signed_cast(dod_w);
            lemma_prefix_bits();
        }

        // store the delta of delta using variable length encoding
        if dod == 0 {
            self.w.write_bit(Bit::Zero);
            proof {
                assert(self.w.written() =~= w0 + dod_bits(dod_w));
            }
        } else if -63 <= dod && dod <= 64 {
            self.w.write_bits(0b10, 2);
            self.w.write_bits(#[verifier::truncate] (dod as u64), 7);
            proof {
                lemma_dod_payload_bits(dod_w, 7);
                assert(self.w.written() =~= w0 + dod_bits(dod_w));
            }
        } else if -255 <= dod && dod <= 256 {
            self.w.write_bits(0b110, 3);
            self.w.write_bits(#[verifier::truncate] (dod as u64), 9);
            proof {
                lemma_dod_payload_bits(dod_w, 9);
                assert(self.w.written() =~= w0 + dod_bits(dod_w));
            }
        } else if -2047 <= dod && dod <= 2048 {
            self.w.write_bits(0b1110, 4);
            self.w.write_bits(#[verifier::truncate] (dod as u64), 12);
            proof {
                lemma_dod_payload_bits(dod_w, 12);
                assert(self.w.written() =~= w0 + dod_bits(dod_w));
            }
        } else {
            self.w.write_bits(0b1111, 4);
            self.w.write_bits(#[verifier::truncate] (dod as u64), 32);
            proof {
                lemma_dod_payload_bits(dod_w, 32);
                assert(self.w.written() =~= w0 + dod_bits(dod_w));
            }
        }

        self.delta = delta;
        self.time = time;
    }

    fn write_next_value(&mut self, value_bits: u64)
        requires
            old(self).w.inv(),
            window_ok(old(self).st()),
        ensures
            final(self).w.inv(),
            final(self).w.written() == old(self).w.written() + xor_bits(old(self).st(), value_bits),
            final(self).st() == (CodecState {
                value_bits,
                leading: xor_window(old(self).st(), value_bits).0,
                trailing: xor_window(old(self).st(), value_bits).1,
                ..old(self).st()
            }),
            final(self).first == old(self).first,
            final(self).base == old(self).base,
            final(self).points == old(self).points,
    {
        let ghost w0 = self.w.written();
        let ghost st0 = self.st();
        let xor = value_bits ^ self.value_bits;
        proof {
            let a = value_bits;
            let b = st0.value_bits;
            assert(a ^ b == b ^ a) by (bit_vector);
        }
        self.value_bits = value_bits;

        if xor == 0 {
            // if the xor with the previous value is zero, store one zero bit
            self.w.write_bit(Bit::Zero);
            proof {
                assert(self.w.written() =~= w0 + xor_bits(st0, value_bits));
            }
        } else {
            self.w.write_bit(Bit::One);

            let leading_zeroes = xor.leading_zeros();
            let trailing_zeroes = xor.trailing_zeros();
            proof {
                lemma_nonzero_window(xor);
            }

            if leading_zeroes >= self.leading_zeroes && trailing_zeroes >= self.trailing_zeroes {
                // the current window still covers this xor: store a control
                // bit and the significant digits within the old window
                self.w.write_bit(Bit::Zero);
                self.w.write_bits(
                    xor >> (self.trailing_zeroes as u64),
                    64 - self.leading_zeroes - self.trailing_zeroes,
                );
                proof {
                    assert(window_width(st0.leading, st0.trailing) == (64 - st0.leading
                        - st0.trailing) as nat);
                    assert(self.w.written() =~= w0 + xor_bits(st0, value_bits));
                }
            } else {
                // open a new window: a control bit, 6 bits of leading-zero
                // count, 6 bits of significant-digit count, then the digits.
                // significant_digits is at least 1, so subtracting one lets
                // the full width 64 fit in 6 bits.
                self.w.write_bit(Bit::One);
                self.w.write_bits(leading_zeroes as u64, 6);
                let significant_digits = 64 - leading_zeroes - trailing_zeroes;
                self.w.write_bits((significant_digits - 1) as u64, 6);
                self.w.write_bits(xor >> (trailing_zeroes as u64), significant_digits);

                self.leading_zeroes = leading_zeroes;
                self.trailing_zeroes = trailing_zeroes;
                proof {
                    assert(self.w.written() =~= w0 + xor_bits(st0, value_bits));
                }
            }
        }
    }
}

impl<T> Encode for StdEncoder<T> where T: Write {
    closed spec fn inv(&self) -> bool {
        &&& self.w.inv()
        &&& self.w.written() == bits_of(self.base@, 64) + payload_bits(self.base@, self.points@)
        &&& self.st() == enc_state(self.base@, self.points@)
        &&& self.first == (self.points@.len() == 0)
    }

    closed spec fn base(&self) -> u64 {
        self.base@
    }

    closed spec fn points(&self) -> Seq<DataPoint> {
        self.points@
    }

    fn encode(&mut self, dp: DataPoint) {
        proof {
            lemma_payload_push(self.base@, self.points@, dp);
        }
        if self.first {
            self.write_first(dp.time, dp.value);
            self.first = false;
            self.points = Ghost(self.points@.push(dp));
            proof {
                assert(self.w.written() =~= bits_of(self.base@, 64) + payload_bits(
                    self.base@,
                    self.points@,
                ));
            }
            return ;
        }

        proof {
            lemma_enc_state_window_ok(self.base@, self.points@);
        }
        let ghost st0 = self.st();
        self.write_next_timestamp(dp.time);
        let ghost st_mid = self.st();
        self.write_next_value(dp.value);
        self.points = Ghost(self.points@.push(dp));
        proof {
            // The timestamp step leaves the value fields alone, so the value
            // code is the one taken from the state before the whole step.
            assert(xor_bits(st_mid, dp.value) == xor_bits(st0, dp.value));
            assert(xor_window(st_mid, dp.value) == xor_window(st0, dp.value));
            assert(self.st() == point_state(st0, dp, false));
            assert(self.w.written() =~= bits_of(self.base@, 64) + payload_bits(
                self.base@,
                self.points@,
            ));
        }
    }

    fn close(self) -> (r: Vec<u8>) {
        let ghost b = self.base@;
        let ghost pts = self.points@;
        let mut s = self;
        s.w.write_bits(END_MARKER, 36);
        proof {
            assert(s.w.written() =~= stream_bits(b, pts));
        }
        s.w.close()
    }
}

} // verus!

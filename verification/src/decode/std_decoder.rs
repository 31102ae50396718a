//! The standard decoder over any bit reader.

use vstd::prelude::*;
use vstd::arithmetic::power2::*;
use crate::{Bit, CodecState, DataPoint};
use crate::bits::{lemma_bits_val_bound, lemma_bits_val_single};
use crate::decode::{
    ones_run, spec_first_timestamp, spec_first_value, spec_next, spec_next_timestamp,
    spec_next_value, Decode, DecView, Error,
};
use crate::encode::std_encoder::{END_MARKER, END_MARKER_LEN};
use crate::stream::Read;

verus! {

/// StdDecoder
///
/// StdDecoder is used to decode `DataPoint`s from a bit reader. Its fields
/// mirror the encoder's: current time, delta, value bits and XOR window,
/// plus the two phase flags.
pub struct StdDecoder<T: Read> {
    time: u64,  // current time
    delta: u64,  // current time delta
    value_bits: u64,  // current value as bits
    leading_zeroes: u32,
    trailing_zeroes: u32,
    first: bool,  // will the next DataPoint be the first decoded
    done: bool,
    r: T,
}

impl<T> StdDecoder<T> where T: Read {
    /// new creates a new StdDecoder which will read bits from `r`.
    pub fn new(r: T) -> (d: Self)
        requires
            r.inv(),
        ensures
            d.inv(),
            d.state() == (DecView {
                stream: r.stream(),
                pos: r.pos(),
                st: CodecState { time: 0, delta: 0, value_bits: 0, leading: 0, trailing: 0 },
                first: true,
                done: false,
            }),
    {
        StdDecoder {
            time: 0,
            delta: 0,
            value_bits: 0,
            leading_zeroes: 0,
            trailing_zeroes: 0,
            first: true,
            done: false,
            r,
        }
    }

    fn read_first_timestamp(&mut self) -> (r: Result<u64, Error>)
        requires
            old(self).inv(),
        ensures
            final(self).inv(),
            ({
                let step = spec_first_timestamp(old(self).state());
                r == step.0 && final(self).state() == step.1
            }),
    {
        let time = match self.r.read_bits(64) {
            Ok(t) => t,
            Err(_) => {
                return Err(Error::InvalidInitialTimestamp);
            },
        };
        self.time = time;

        // sanity check that the stream holds more than the header
        let control_bit = match self.r.peak_bits(1) {
            Ok(b) => b,
            Err(e) => {
                return Err(Error::Stream(e));
            },
        };
        proof {
            let s = self.r.stream();
            let p = self.r.pos();
            if p < s.len() {
                lemma_bits_val_single(s, p as int);
            }
        }
        if control_bit == 1 {
            return match self.r.read_bits(END_MARKER_LEN) {
                Ok(marker) => if marker == END_MARKER {
                    Err(Error::EndOfStream)
                } else {
                    Err(Error::InvalidEndOfStream)
                },
                Err(e) => Err(Error::Stream(e)),
            };
        }

        // the stream contains datapoints: throw away the control bit
        match self.r.read_bit() {
            Ok(_) => {},
            Err(e) => {
                return Err(Error::Stream(e));
            },
        };

        match self.r.read_bits(14) {
            Ok(delta) => {
                self.delta = delta;
                self.time = self.time.wrapping_add(delta);
            },
            Err(e) => {
                return Err(Error::Stream(e));
            },
        };

        Ok(self.time)
    }

    #[verifier::loop_isolation(false)]
    fn read_next_timestamp(&mut self) -> (r: Result<u64, Error>)
        requires
            old(self).inv(),
        ensures
            final(self).inv(),
            ({
                let step = spec_next_timestamp(old(self).state());
                r == step.0 && final(self).state() == step.1
            }),
    {
        let ghost s = self.r.stream();
        let ghost p0 = self.r.pos();
        let mut control_bits: u32 = 0;
        let mut stop = false;
        while control_bits < 4 && !stop
            invariant
                self.inv(),
                self.r.stream() == s,
                control_bits <= 4,
                *self == (StdDecoder { r: self.r, ..*old(self) }),
                !stop ==> self.r.pos() == p0 + control_bits,
                !stop ==> ones_run(s, p0, 4) == control_bits + ones_run(
                    s,
                    (p0 + control_bits) as nat,
                    (4 - control_bits) as nat,
                ),
                stop ==> {
                    &&& control_bits < 4
                    &&& self.r.pos() == p0 + control_bits + 1
                    &&& ones_run(s, p0, 4) == control_bits
                    &&& p0 + control_bits < s.len()
                },
            decreases 4 - control_bits + if stop {
                0int
            } else {
                1int
            },
        {
            let ghost q = self.r.pos();
            match self.r.read_bit() {
                Ok(bit) => {
                    if let Bit::One = bit {
                        proof {
                            assert(ones_run(s, q, (4 - control_bits) as nat) == 1 + ones_run(
                                s,
                                (q + 1) as nat,
                                (3 - control_bits) as nat,
                            ));
                        }
                        control_bits = control_bits + 1;
                    } else {
                        proof {
                            assert(ones_run(s, q, (4 - control_bits) as nat) == 0);
                        }
                        stop = true;
                    }
                },
                Err(e) => {
                    proof {
                        assert(ones_run(s, q, (4 - control_bits) as nat) == 0);
                    }
                    return Err(Error::Stream(e));
                },
            }
        }
        let ghost c = ones_run(s, p0, 4);
        proof {
            if !stop {
                assert(ones_run(s, (p0 + control_bits) as nat, (4 - control_bits) as nat) == 0);
            }
            assert(c == control_bits);
        }

        if control_bits == 0 {
            self.time = self.time.wrapping_add(self.delta);
            return Ok(self.time);
        }
        let size: u32 = if control_bits == 1 {
            7
        } else if control_bits == 2 {
            9
        } else if control_bits == 3 {
            12
        } else {
            // four control bits: a 32-bit payload; zero is the end marker
            return match self.r.read_bits(32) {
                Ok(dod) => if dod == 0 {
                    Err(Error::EndOfStream)
                } else {
                    self.delta = self.delta.wrapping_add(dod);
                    self.time = self.time.wrapping_add(self.delta);
                    Ok(self.time)
                },
                Err(e) => Err(Error::Stream(e)),
            };
        };

        let mut dod = match self.r.read_bits(size) {
            Ok(d) => d,
            Err(e) => {
                return Err(Error::Stream(e));
            },
        };

        // sign-extend a payload whose top bit marks a negative number,
        // before the wrapping addition below
        if dod > (1u64 << ((size - 1) as u64)) {
            dod = dod | (u64::MAX << (size as u64));
        }

        self.delta = self.delta.wrapping_add(dod);
        self.time = self.time.wrapping_add(self.delta);

        Ok(self.time)
    }

    fn read_first_value(&mut self) -> (r: Result<u64, Error>)
        requires
            old(self).inv(),
        ensures
            final(self).inv(),
            ({
                let step = spec_first_value(old(self).state());
                r == step.0 && final(self).state() == step.1
            }),
    {
        match self.r.read_bits(64) {
            Ok(bits) => {
                self.value_bits = bits;
                Ok(bits)
            },
            Err(e) => Err(Error::Stream(e)),
        }
    }

    fn read_next_value(&mut self) -> (r: Result<u64, Error>)
        requires
            old(self).inv(),
        ensures
            final(self).inv(),
            ({
                let step = spec_next_value(old(self).state());
                r == step.0 && final(self).state() == step.1
            }),
    {
        let control_bit = match self.r.read_bit() {
            Ok(b) => b,
            Err(e) => {
                return Err(Error::Stream(e));
            },
        };

        if let Bit::Zero = control_bit {
            return Ok(self.value_bits);
        }

        let zeroes_bit = match self.r.read_bit() {
            Ok(b) => b,
            Err(e) => {
                return Err(Error::Stream(e));
            },
        };

        if let Bit::One = zeroes_bit {
            // a new window: 6 bits of leading zeroes, 6 bits holding the
            // significant-bit count minus one
            self.leading_zeroes = match self.r.read_bits(6) {
                Ok(n) => n as u32,
                Err(e) => {
                    return Err(Error::Stream(e));
                },
            };
            let ghost q = self.r.pos();
            let significant_digits = match self.r.read_bits(6) {
                Ok(n) => {
                    proof {
                        lemma_bits_val_bound(
                            self.r.stream().subrange(q as int, q + 6nat as int),
                        );
                        lemma2_to64();
                    }
                    (n + 1) as u32
                },
                Err(e) => {
                    return Err(Error::Stream(e));
                },
            };
            self.trailing_zeroes = 64u32.wrapping_sub(self.leading_zeroes).wrapping_sub(
                significant_digits,
            );
        }

        let size = 64u32.wrapping_sub(self.leading_zeroes).wrapping_sub(self.trailing_zeroes);
        match self.r.read_bits(size) {
            Ok(bits) => {
                self.value_bits = self.value_bits ^ bits.wrapping_shl(self.trailing_zeroes);
                Ok(self.value_bits)
            },
            Err(e) => Err(Error::Stream(e)),
        }
    }
}

impl<T> Decode for StdDecoder<T> where T: Read {
    closed spec fn inv(&self) -> bool {
        self.r.inv()
    }

    closed spec fn state(&self) -> DecView {
        DecView {
            stream: self.r.stream(),
            pos: self.r.pos(),
            st: CodecState {
                time: self.time,
                delta: self.delta,
                value_bits: self.value_bits,
                leading: self.leading_zeroes,
                trailing: self.trailing_zeroes,
            },
            first: self.first,
            done: self.done,
        }
    }

    fn next(&mut self) -> (r: Result<DataPoint, Error>) {
        if self.done {
            return Err(Error::EndOfStream);
        }

        if self.first {
            self.first = false;
            let time = match self.read_first_timestamp() {
                Ok(t) => t,
                Err(e) => {
                    if e == Error::EndOfStream {
                        self.done = true;
                    }
                    return Err(e);
                },
            };
            let value_bits = match self.read_first_value() {
                Ok(v) => v,
                Err(e) => {
                    return Err(e);
                },
            };
            Ok(DataPoint::new(time, value_bits))
        } else {
            let time = match self.read_next_timestamp() {
                Ok(t) => t,
                Err(e) => {
                    if e == Error::EndOfStream {
                        self.done = true;
                    }
                    return Err(e);
                },
            };
            let value_bits = match self.read_next_value() {
                Ok(v) => v,
                Err(e) => {
                    return Err(e);
                },
            };
            Ok(DataPoint::new(time, value_bits))
        }
    }
}

} // verus!

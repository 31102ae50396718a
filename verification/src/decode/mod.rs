//! Decoding: the decode error type, the `Decode` trait, and the
//! specification of how a decoder walks a bit stream.
//!
//! `spec_next` defines, bit for bit, what one `next()` call does to a
//! decoder: which bits it consumes, how the codec state advances, and which
//! point or error comes out. It mirrors the decoder's control flow exactly,
//! including the positions at which a truncated stream fails.

use vstd::prelude::*;
use vstd::wrapping::{u32_specs, u64_specs};
use crate::{CodecState, DataPoint};
use crate::bits::bits_val;
use crate::encode::std_encoder::END_MARKER;
use crate::stream;
use crate::stream::clamp64;

verus! {

/// Error
///
/// Error encapsulates the potential errors that can be encountered when
/// decoding data.
#[derive(Debug, Clone, Copy, PartialEq, Eq, Structural)]
pub enum Error {
    /// An error from the bit layer, propagated unchanged.
    Stream(stream::Error),
    /// The 64-bit header could not be read.
    InvalidInitialTimestamp,
    /// A code beginning with a one bit stood where the end marker was
    /// expected, but was not the end marker: the stream is corrupt.
    InvalidEndOfStream,
    /// The end marker was observed; a terminal condition, not a fault.
    EndOfStream,
}

impl From<stream::Error> for Error {
    fn from(err: stream::Error) -> (r: Error) {
        Error::Stream(err)
    }
}

impl vstd::std_specs::convert::FromSpecImpl<stream::Error> for Error {
    open spec fn obeys_from_spec() -> bool {
        true
    }

    open spec fn from_spec(err: stream::Error) -> Error {
        Error::Stream(err)
    }
}

/// Everything a decoder's behaviour depends on: the underlying bit stream,
/// the read position, the codec state, and the two phase flags.
pub struct DecView {
    pub stream: Seq<bool>,
    pub pos: nat,
    pub st: CodecState,
    pub first: bool,
    pub done: bool,
}

/// The outcome of one `next()` call: the result and the decoder view after.
pub struct DecStep {
    pub res: Result<DataPoint, Error>,
    pub v: DecView,
}

/// The value of the `n` bits at `pos`, right-aligned.
pub open spec fn take_val(s: Seq<bool>, pos: nat, n: nat) -> u64 {
    bits_val(s.subrange(pos as int, (pos + n) as int)) as u64
}

/// How many consecutive one bits stand at `pos`, counting at most `max`
/// and stopping at the end of the stream.
pub open spec fn ones_run(s: Seq<bool>, pos: nat, max: nat) -> nat
    decreases max,
{
    if max == 0 {
        0nat
    } else if pos >= s.len() {
        0nat
    } else if s[pos as int] {
        1 + ones_run(s, pos + 1, (max - 1) as nat)
    } else {
        0nat
    }
}

/// Sign-extend the low `k` bits of `v` when they read as a negative
/// two's-complement number; `k` is between 1 and 32.
pub open spec fn sign_extend(v: u64, k: u32) -> u64 {
    if v > (1u64 << ((k - 1) as u64)) {
        v | (u64::MAX << (k as u64))
    } else {
        v
    }
}

/// What `read_first_timestamp` does: read the 64-bit header, peek for a
/// bare-header end marker, then consume the has-payload bit and the 14-bit
/// first delta.
pub open spec fn spec_first_timestamp(v: DecView) -> (Result<u64, Error>, DecView) {
    let s = v.stream;
    if v.pos + 64 > s.len() {
        (Err(Error::InvalidInitialTimestamp), v)
    } else {
        let time = take_val(s, v.pos, 64);
        let v1 = DecView { pos: v.pos + 64, st: CodecState { time, ..v.st }, ..v };
        if v1.pos + 1 > s.len() {
            (Err(Error::Stream(stream::Error::EOF)), v1)
        } else if s[v1.pos as int] {
            // the stream is either bare or malformed: expect the end marker
            if v1.pos + 36 > s.len() {
                (Err(Error::Stream(stream::Error::EOF)), v1)
            } else if take_val(s, v1.pos, 36) == END_MARKER {
                (Err(Error::EndOfStream), DecView { pos: v1.pos + 36, ..v1 })
            } else {
                (Err(Error::InvalidEndOfStream), DecView { pos: v1.pos + 36, ..v1 })
            }
        } else {
            // throw away the has-payload control bit
            let v2 = DecView { pos: v1.pos + 1, ..v1 };
            if v2.pos + 14 > s.len() {
                (Err(Error::Stream(stream::Error::EOF)), v2)
            } else {
                let delta = take_val(s, v2.pos, 14);
                let time2 = u64_specs::wrapping_add(time, delta);
                (
                    Ok(time2),
                    DecView {
                        pos: v2.pos + 14,
                        st: CodecState { time: time2, delta, ..v1.st },
                        ..v2
                    },
                )
            }
        }
    }
}

/// What `read_next_timestamp` does: count up to four control bits, then
/// read and sign-extend the delta-of-delta payload the class calls for; a
/// 32-bit payload of zero is the end marker.
pub open spec fn spec_next_timestamp(v: DecView) -> (Result<u64, Error>, DecView) {
    let s = v.stream;
    let c = ones_run(s, v.pos, 4);
    if c < 4 && v.pos + c >= s.len() {
        // ran off the end while reading control bits
        (Err(Error::Stream(stream::Error::EOF)), DecView { pos: v.pos + c, ..v })
    } else if c == 0 {
        let time2 = u64_specs::wrapping_add(v.st.time, v.st.delta);
        (Ok(time2), DecView { pos: v.pos + 1, st: CodecState { time: time2, ..v.st }, ..v })
    } else if c == 4 {
        if v.pos + 4 + 32 > s.len() {
            (Err(Error::Stream(stream::Error::EOF)), DecView { pos: v.pos + 4, ..v })
        } else {
            let dod = take_val(s, v.pos + 4, 32);
            let v1 = DecView { pos: v.pos + 4 + 32, ..v };
            if dod == 0 {
                (Err(Error::EndOfStream), v1)
            } else {
                let delta2 = u64_specs::wrapping_add(v.st.delta, dod);
                let time2 = u64_specs::wrapping_add(v.st.time, delta2);
                (
                    Ok(time2),
                    DecView { st: CodecState { time: time2, delta: delta2, ..v.st }, ..v1 },
                )
            }
        }
    } else {
        let k: u32 = if c == 1 {
            7
        } else if c == 2 {
            9
        } else {
            12
        };
        if v.pos + c + 1 + k > s.len() {
            (Err(Error::Stream(stream::Error::EOF)), DecView { pos: v.pos + c + 1, ..v })
        } else {
            let dod = sign_extend(take_val(s, v.pos + c + 1, k as nat), k);
            let delta2 = u64_specs::wrapping_add(v.st.delta, dod);
            let time2 = u64_specs::wrapping_add(v.st.time, delta2);
            (
                Ok(time2),
                DecView {
                    pos: (v.pos + c + 1 + k) as nat,
                    st: CodecState { time: time2, delta: delta2, ..v.st },
                    ..v
                },
            )
        }
    }
}

/// What `read_first_value` does: read the raw 64-bit value.
pub open spec fn spec_first_value(v: DecView) -> (Result<u64, Error>, DecView) {
    let s = v.stream;
    if v.pos + 64 > s.len() {
        (Err(Error::Stream(stream::Error::EOF)), v)
    } else {
        let bits = take_val(s, v.pos, 64);
        (Ok(bits), DecView { pos: v.pos + 64, st: CodecState { value_bits: bits, ..v.st }, ..v })
    }
}

/// What `read_next_value` does: a zero control bit keeps the value; a one
/// reads the window bit, possibly a new window (6 bits of leading zeroes,
/// 6 bits of significant count minus one), and the packed XOR. Window
/// arithmetic wraps on u32 so that malformed streams stay well-defined.
pub open spec fn spec_next_value(v: DecView) -> (Result<u64, Error>, DecView) {
    let s = v.stream;
    if v.pos + 1 > s.len() {
        (Err(Error::Stream(stream::Error::EOF)), v)
    } else if !s[v.pos as int] {
        (Ok(v.st.value_bits), DecView { pos: v.pos + 1, ..v })
    } else {
        let v1 = DecView { pos: v.pos + 1, ..v };
        if v1.pos + 1 > s.len() {
            (Err(Error::Stream(stream::Error::EOF)), v1)
        } else {
            let zeroes_bit = s[v1.pos as int];
            let v2 = DecView { pos: v1.pos + 1, ..v1 };
            spec_next_value_window(if zeroes_bit {
                spec_read_window(v2)
            } else {
                (Ok(0u64), v2)
            })
        }
    }
}

/// The new-window part of `read_next_value`: 6 bits of leading-zero count,
/// then 6 bits holding the significant-bit count minus one.
pub open spec fn spec_read_window(v: DecView) -> (Result<u64, Error>, DecView) {
    let s = v.stream;
    if v.pos + 6 > s.len() {
        (Err(Error::Stream(stream::Error::EOF)), v)
    } else {
        let lz = take_val(s, v.pos, 6) as u32;
        let v1 = DecView { pos: v.pos + 6, st: CodecState { leading: lz, ..v.st }, ..v };
        if v1.pos + 6 > s.len() {
            (Err(Error::Stream(stream::Error::EOF)), v1)
        } else {
            let sig = (take_val(s, v1.pos, 6) + 1) as u32;
            let tz = u32_specs::wrapping_sub(u32_specs::wrapping_sub(64, lz), sig);
            (
                Ok(0u64),
                DecView { pos: v1.pos + 6, st: CodecState { trailing: tz, ..v1.st }, ..v1 },
            )
        }
    }
}

/// The payload part of `read_next_value`: read the packed XOR through the
/// current window and fold it into the value.
pub open spec fn spec_next_value_window(
    step: (Result<u64, Error>, DecView),
) -> (Result<u64, Error>, DecView) {
    let v = step.1;
    let s = v.stream;
    if step.0 is Err {
        step
    } else {
        let size = u32_specs::wrapping_sub(u32_specs::wrapping_sub(64, v.st.leading), v.st.trailing);
        let n = clamp64(size);
        if v.pos + n > s.len() {
            (Err(Error::Stream(stream::Error::EOF)), v)
        } else {
            let payload = take_val(s, v.pos, n);
            let value = v.st.value_bits ^ u64_specs::wrapping_shl(payload, v.st.trailing);
            (
                Ok(value),
                DecView {
                    pos: v.pos + n,
                    st: CodecState { value_bits: value, ..v.st },
                    ..v
                },
            )
        }
    }
}

/// What one `next()` call does: nothing once done; otherwise the first
/// point (header included) or a subsequent point, with the done flag set
/// when the end marker is seen.
pub open spec fn spec_next(v: DecView) -> DecStep {
    if v.done {
        DecStep { res: Err(Error::EndOfStream), v }
    } else if v.first {
        let v1 = DecView { first: false, ..v };
        let ts = spec_first_timestamp(v1);
        if ts.0 is Err {
            let e = ts.0->Err_0;
            DecStep {
                res: Err(e),
                v: DecView { done: e == Error::EndOfStream, ..ts.1 },
            }
        } else {
            let val = spec_first_value(ts.1);
            if val.0 is Err {
                DecStep { res: Err(val.0->Err_0), v: val.1 }
            } else {
                DecStep {
                    res: Ok(DataPoint { time: ts.0->Ok_0, value: val.0->Ok_0 }),
                    v: val.1,
                }
            }
        }
    } else {
        let ts = spec_next_timestamp(v);
        if ts.0 is Err {
            let e = ts.0->Err_0;
            DecStep {
                res: Err(e),
                v: DecView { done: e == Error::EndOfStream, ..ts.1 },
            }
        } else {
            let val = spec_next_value(ts.1);
            if val.0 is Err {
                DecStep { res: Err(val.0->Err_0), v: val.1 }
            } else {
                DecStep {
                    res: Ok(DataPoint { time: ts.0->Ok_0, value: val.0->Ok_0 }),
                    v: val.1,
                }
            }
        }
    }
}

/// The view a fresh decoder starts from on stream `s`.
pub open spec fn dec_init(s: Seq<bool>) -> DecView {
    DecView {
        stream: s,
        pos: 0,
        st: CodecState { time: 0, delta: 0, value_bits: 0, leading: 0, trailing: 0 },
        first: true,
        done: false,
    }
}

/// All the points a decoder yields from view `v`, and the error that ends
/// the walk. The guard on the recursion only rules out a step that did not
/// advance, which no `Ok` step of `spec_next` can produce.
pub open spec fn decode_all(v: DecView) -> (Seq<DataPoint>, Error)
    decreases v.stream.len() + 1 - v.pos,
{
    let step = spec_next(v);
    match step.res {
        Ok(p) => {
            if v.pos < step.v.pos <= v.stream.len() && step.v.stream == v.stream {
                let rest = decode_all(step.v);
                (seq![p] + rest.0, rest.1)
            } else {
                (seq![p], Error::EndOfStream)
            }
        },
        Err(e) => (Seq::<DataPoint>::empty(), e),
    }
}

/// A successful step always moves forward through the stream and cannot
/// happen once the decoder is done, so `decode_all` walks every step the
/// decoder actually takes.
pub proof fn lemma_spec_next_ok_advances(v: DecView)
    requires
        spec_next(v).res is Ok,
    ensures
        v.pos < spec_next(v).v.pos <= v.stream.len(),
        spec_next(v).v.stream == v.stream,
        !v.done,
{
}

/// Decode
///
/// Decode is the trait used to encapsulate decoding `DataPoint`s. Each
/// `next()` call behaves exactly as `spec_next` says of the decoder's view.
pub trait Decode: Sized {
    /// Well-formedness of the decoder.
    spec fn inv(&self) -> bool;

    /// The decoder's view: stream, position, codec state and phase.
    spec fn state(&self) -> DecView;

    /// Produce the next point, or the error the stream calls for.
    fn next(&mut self) -> (r: Result<DataPoint, Error>)
        requires
            old(self).inv(),
        ensures
            final(self).inv(),
            ({
                let step = spec_next(old(self).state());
                r == step.res && final(self).state() == step.v
            }),
    ;
}


/// Drain a decoder: collect every point it yields, and the error that ends
/// the walk. The result equals `decode_all` of the decoder's starting view,
/// so together with the round-trip law this returns exactly the encoded
/// points, then `EndOfStream`, on any stream a closed encoder produced.
#[verifier::loop_isolation(false)]
pub fn collect_points<D: Decode>(d: &mut D) -> (r: (Vec<DataPoint>, Error))
    requires
        old(d).inv(),
    ensures
        final(d).inv(),
        r.0@ == decode_all(old(d).state()).0,
        r.1 == decode_all(old(d).state()).1,
{
    let ghost v0 = d.state();
    let mut pts: Vec<DataPoint> = Vec::new();
    loop
        invariant
            d.inv(),
            d.state().stream == v0.stream,
            decode_all(v0).0 == pts@ + decode_all(d.state()).0,
            decode_all(v0).1 == decode_all(d.state()).1,
        decreases v0.stream.len() + 1 - d.state().pos,
    {
        let ghost vc = d.state();
        match d.next() {
            Ok(p) => {
                proof {
                    lemma_spec_next_ok_advances(vc);
                    let rest = decode_all(d.state());
                    assert(decode_all(vc).0 == seq![p] + rest.0);
                    assert(pts@ + (seq![p] + rest.0) =~= pts@.push(p) + rest.0);
                }
                pts.push(p);
            },
            Err(e) => {
                proof {
                    assert(pts@ + Seq::<DataPoint>::empty() =~= pts@);
                }
                return (pts, e);
            },
        }
    }
}

} // verus!

pub mod std_decoder;

//! Encoding: the `Encode` trait and the specification of the bit stream an
//! encoder produces.
//!
//! The spec functions here define, point by point, exactly which bits a
//! Gorilla encoder emits: the 64-bit header, the first point's control bit,
//! 14-bit delta and raw 64-bit value, and for every further point a
//! variable-length delta-of-delta code followed by an XOR-window value code.

use vstd::prelude::*;
use vstd::std_specs::bits::{u64_leading_zeros, u64_trailing_zeros};
use vstd::wrapping::u64_specs;
use crate::{CodecState, DataPoint};
use crate::bits::{bits_of, bits_to_bytes};
use self::std_encoder::END_MARKER;

verus! {

/// The state both sides start from: the header timestamp, zero delta and
/// value, and no XOR window (sentinel 64).
pub open spec fn enc_init(base: u64) -> CodecState {
    CodecState { time: base, delta: 0, value_bits: 0, leading: 64, trailing: 64 }
}

/// The low 32 bits of a wrapped delta-of-delta, read as a two's-complement
/// 32-bit integer; this is the quantity whose range picks the code class.
pub open spec fn dod_signed(diff: u64) -> int {
    if diff % 0x1_0000_0000 < 0x8000_0000 {
        (diff % 0x1_0000_0000) as int
    } else {
        diff % 0x1_0000_0000 - 0x1_0000_0000
    }
}

/// The variable-length code for one delta-of-delta `diff` (already wrapped
/// to u64): a unary prefix picking the class, then the low bits of `diff`
/// as a two's-complement payload. Inclusive ranges exactly as the format
/// fixes them; overlaps resolve to the shortest code.
pub open spec fn dod_bits(diff: u64) -> Seq<bool> {
    let sd = dod_signed(diff);
    if sd == 0 {
        seq![false]
    } else if -63 <= sd <= 64 {
        seq![true, false] + bits_of(diff, 7)
    } else if -255 <= sd <= 256 {
        seq![true, true, false] + bits_of(diff, 9)
    } else if -2047 <= sd <= 2048 {
        seq![true, true, true, false] + bits_of(diff, 12)
    } else {
        seq![true, true, true, true] + bits_of(diff, 32)
    }
}

/// Width of the payload carried by a live XOR window.
pub open spec fn window_width(leading: u32, trailing: u32) -> nat {
    if leading + trailing <= 64 {
        (64 - leading - trailing) as nat
    } else {
        0nat
    }
}

/// The value code for one point: `0` when the XOR with the previous value
/// is zero; otherwise `1`, then either `0` and the XOR packed into the
/// current window, or `1`, the new window (6 bits of leading-zero count,
/// 6 bits of significant-bit count minus one) and the XOR packed into it.
pub open spec fn xor_bits(st: CodecState, value: u64) -> Seq<bool> {
    let x = st.value_bits ^ value;
    if x == 0 {
        seq![false]
    } else {
        let lz = u64_leading_zeros(x);
        let tz = u64_trailing_zeros(x) as int;
        if lz >= st.leading && tz >= st.trailing {
            seq![true, false] + bits_of(
                x >> (st.trailing as u64),
                window_width(st.leading, st.trailing),
            )
        } else {
            seq![true, true] + bits_of(lz as u64, 6) + bits_of((63 - lz - tz) as u64, 6)
                + bits_of(x >> (tz as u64), (64 - lz - tz) as nat)
        }
    }
}

/// The XOR window after encoding `value` from state `st`: kept on a zero
/// XOR or a reused window, replaced when a new window is opened.
pub open spec fn xor_window(st: CodecState, value: u64) -> (u32, u32) {
    let x = st.value_bits ^ value;
    if x == 0 {
        (st.leading, st.trailing)
    } else {
        let lz = u64_leading_zeros(x);
        let tz = u64_trailing_zeros(x) as int;
        if lz >= st.leading && tz >= st.trailing {
            (st.leading, st.trailing)
        } else {
            (lz as u32, tz as u32)
        }
    }
}

/// The bits of the first payload point: the has-payload control bit `0`,
/// the first delta in 14 bits, and the raw 64-bit value.
pub open spec fn first_bits(st: CodecState, p: DataPoint) -> Seq<bool> {
    seq![false] + bits_of(u64_specs::wrapping_sub(p.time, st.time), 14) + bits_of(p.value, 64)
}

/// The bits of every later point: delta-of-delta code, then value code.
pub open spec fn step_bits(st: CodecState, p: DataPoint) -> Seq<bool> {
    let delta = u64_specs::wrapping_sub(p.time, st.time);
    dod_bits(u64_specs::wrapping_sub(delta, st.delta)) + xor_bits(st, p.value)
}

/// The bits one point contributes to the stream.
pub open spec fn point_bits(st: CodecState, p: DataPoint, first: bool) -> Seq<bool> {
    if first {
        first_bits(st, p)
    } else {
        step_bits(st, p)
    }
}

/// The codec state after one point.
pub open spec fn point_state(st: CodecState, p: DataPoint, first: bool) -> CodecState {
    let delta = u64_specs::wrapping_sub(p.time, st.time);
    if first {
        CodecState { time: p.time, delta, value_bits: p.value, ..st }
    } else {
        let w = xor_window(st, p.value);
        CodecState { time: p.time, delta, value_bits: p.value, leading: w.0, trailing: w.1 }
    }
}

/// The codec state after encoding all of `pts` from header time `base`.
pub open spec fn enc_state(base: u64, pts: Seq<DataPoint>) -> CodecState
    decreases pts.len(),
{
    if pts.len() == 0 {
        enc_init(base)
    } else {
        point_state(enc_state(base, pts.drop_last()), pts.last(), pts.len() == 1)
    }
}

/// The payload bits for `pts`: everything between header and end marker.
pub open spec fn payload_bits(base: u64, pts: Seq<DataPoint>) -> Seq<bool>
    decreases pts.len(),
{
    if pts.len() == 0 {
        Seq::<bool>::empty()
    } else {
        payload_bits(base, pts.drop_last()) + point_bits(
            enc_state(base, pts.drop_last()),
            pts.last(),
            pts.len() == 1,
        )
    }
}

/// The 36 bits of the end marker.
pub open spec fn marker_bits() -> Seq<bool> {
    bits_of(END_MARKER, 36)
}

/// The whole bit stream before padding: header, payload, end marker.
pub open spec fn stream_bits(base: u64, pts: Seq<DataPoint>) -> Seq<bool> {
    bits_of(base, 64) + payload_bits(base, pts) + marker_bits()
}

/// The closed byte stream for `pts`: the bit stream, zero-padded into bytes.
pub open spec fn stream_bytes(base: u64, pts: Seq<DataPoint>) -> Seq<u8> {
    bits_to_bytes(stream_bits(base, pts))
}

/// The XOR window of a reachable encoder state: either the sentinel (no
/// window yet), or a live window with at least one significant bit.
pub open spec fn window_ok(st: CodecState) -> bool {
    ||| (st.leading == 64 && st.trailing == 64)
    ||| st.leading + st.trailing <= 63
}

/// Every state the encoder reaches has a well-formed XOR window.
pub proof fn lemma_enc_state_window_ok(base: u64, pts: Seq<DataPoint>)
    ensures
        window_ok(enc_state(base, pts)),
    decreases pts.len(),
{
    if pts.len() > 0 {
        lemma_enc_state_window_ok(base, pts.drop_last());
        let st = enc_state(base, pts.drop_last());
        let p = pts.last();
        if pts.len() > 1 {
            let x = st.value_bits ^ p.value;
            if x != 0 {
                crate::bits::lemma_nonzero_window(x);
            }
        }
    }
}

/// Appending a point extends the payload by that point's bits and advances
/// the encoder state by one step.
pub proof fn lemma_payload_push(base: u64, pts: Seq<DataPoint>, p: DataPoint)
    ensures
        payload_bits(base, pts.push(p)) == payload_bits(base, pts) + point_bits(
            enc_state(base, pts),
            p,
            pts.len() == 0,
        ),
        enc_state(base, pts.push(p)) == point_state(enc_state(base, pts), p, pts.len() == 0),
{
    assert(pts.push(p).drop_last() =~= pts);
    assert(pts.push(p).last() == p);
}

/// Encode
///
/// Encode is the trait used to encode a stream of `DataPoint`s. An encoder
/// carries the header timestamp it was started with and the sequence of
/// points it has accepted; closing it yields exactly the byte stream that
/// `stream_bytes` specifies for them.
pub trait Encode: Sized {
    /// Well-formedness of the encoder.
    spec fn inv(&self) -> bool;

    /// The header timestamp the encoder was constructed with.
    spec fn base(&self) -> u64;

    /// The points accepted so far, in order.
    spec fn points(&self) -> Seq<DataPoint>;

    /// Consume one point. Never fails.
    fn encode(&mut self, dp: DataPoint)
        requires
            old(self).inv(),
        ensures
            final(self).inv(),
            final(self).base() == old(self).base(),
            final(self).points() == old(self).points().push(dp),
    ;

    /// Emit the end marker, consume the encoder and return the bytes.
    fn close(self) -> (r: Vec<u8>)
        requires
            self.inv(),
        ensures
            r@ == stream_bytes(self.base(), self.points()),
    ;
}

} // verus!

pub mod std_encoder;

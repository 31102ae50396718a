//! The laws of the codec, stated over the same spec functions the `Encode`
//! and `Decode` contracts use: `stream_bytes` fixes the bytes `close`
//! returns, and `spec_next` fixes what each `next` call returns, so the
//! theorems here tie the two executable sides together. The centrepiece is
//! `theorem_round_trip`: a decoder walking the byte stream a closed encoder
//! produced yields exactly the points that were encoded, then the end of
//! the stream.

use vstd::prelude::*;
use vstd::arithmetic::power2::*;
use vstd::bits::{lemma_u64_pow2_no_overflow, lemma_u64_shl_is_mul};
use vstd::std_specs::bits::{u64_leading_zeros, u64_trailing_zeros};
use vstd::wrapping::u64_specs;
use crate::{CodecState, DataPoint};
use crate::bits::{
    bits_of, bits_val, bytes_bits, lemma_bits_to_bytes_roundtrip, lemma_bits_val_of_bits,
    lemma_bits_val_of_bits_exact,
};
use crate::decode::{
    dec_init, decode_all, ones_run, sign_extend, spec_next, spec_next_timestamp, spec_next_value,
    take_val, DecView, Error,
};
use crate::encode::{
    dod_bits, dod_signed, enc_state, lemma_enc_state_window_ok, payload_bits, point_bits,
    stream_bits, stream_bytes, window_ok, window_width, xor_bits, xor_window,
};
use crate::encode::std_encoder::END_MARKER;

verus! {

/// The delta-of-deltas that survive the trip through their code class: small
/// ones in the exact inclusive ranges of the short classes, and positive
/// ones below the reach of the 32-bit class. A difference whose low 32 bits
/// lose information cannot be carried by any class.
pub open spec fn dod_ok(diff: u64) -> bool {
    ||| diff < 0xFFFF_F801
    ||| diff >= 0xFFFF_FFFF_FFFF_F801
}

/// The timestamp delta arriving at point `i`.
pub open spec fn delta_at(base: u64, pts: Seq<DataPoint>, i: int) -> u64 {
    if i == 0 {
        u64_specs::wrapping_sub(pts[0].time, base)
    } else {
        u64_specs::wrapping_sub(pts[i].time, pts[i - 1].time)
    }
}

/// The inputs on which the codec is lossless: the first delta fits the
/// 14-bit field, and every delta-of-delta fits its code class.
pub open spec fn round_trippable(base: u64, pts: Seq<DataPoint>) -> bool {
    &&& pts.len() > 0 ==> delta_at(base, pts, 0) < 0x4000
    &&& forall|i: int|
        1 <= i < pts.len() ==> dod_ok(
            #[trigger] u64_specs::wrapping_sub(delta_at(base, pts, i), delta_at(base, pts, i - 1)),
        )
}

/// How a decoder state shadows an encoder state: the scalar fields agree,
/// and once the encoder's XOR window is live the window fields agree too.
/// Before that the decoder still holds its zero-initialized window, which
/// nothing reads: the sentinel blocks every reuse.
pub open spec fn shadows(dst: CodecState, est: CodecState) -> bool {
    &&& dst.time == est.time
    &&& dst.delta == est.delta
    &&& dst.value_bits == est.value_bits
    &&& est.leading < 64 ==> dst.leading == est.leading && dst.trailing == est.trailing
}

/// Adding a wrapped difference back returns the minuend.
proof fn lemma_wrap_add_sub(a: u64, b: u64)
    ensures
        u64_specs::wrapping_add(b, u64_specs::wrapping_sub(a, b)) == a,
{
}

/// The 36 end-marker bits: four ones, then thirty-two zeroes.
proof fn lemma_marker_bits()
    ensures
        bits_of(END_MARKER, 36).len() == 36,
        forall|i: int| 0 <= i < 4 ==> bits_of(END_MARKER, 36)[i],
        forall|i: int| 4 <= i < 36 ==> !bits_of(END_MARKER, 36)[i],
        bits_val(bits_of(END_MARKER, 36)) == END_MARKER,
{
    assert forall|i: int| 0 <= i < 4 implies bits_of(END_MARKER, 36)[i] by {
        let sh = (35 - i) as u64;
        assert(32 <= sh < 36 ==> (0xF_0000_0000u64 >> sh) & 1 == 1) by (bit_vector);
    }
    assert forall|i: int| 4 <= i < 36 implies !bits_of(END_MARKER, 36)[i] by {
        let sh = (35 - i) as u64;
        assert(sh < 32 ==> (0xF_0000_0000u64 >> sh) & 1 == 0) by (bit_vector);
    }
    lemma_bits_val_of_bits(END_MARKER, 36);
    lemma2_to64_rest();
    assert(pow2(36) == 0x10_0000_0000);
    assert(END_MARKER as nat % 0x10_0000_0000 == END_MARKER as nat);
}

/// A one-bit shift is the matching power of two.
proof fn lemma_pow2_shl(k: u32)
    requires
        k < 64,
    ensures
        (1u64 << (k as u64)) as nat == pow2(k as nat),
        1u64 << (k as u64) >= 1,
{
    lemma_u64_pow2_no_overflow(k as nat);
    lemma_u64_shl_is_mul(1u64, k as u64);
}

/// Reading a field that holds the low `n` bits of `x` returns `x mod 2^n`.
proof fn lemma_take_val_of(s: Seq<bool>, pos: nat, x: u64, n: nat)
    requires
        n <= 64,
        pos + n <= s.len(),
        s.subrange(pos as int, (pos + n) as int) == bits_of(x, n),
    ensures
        take_val(s, pos, n) as nat == x as nat % pow2(n),
        x < pow2(n) ==> take_val(s, pos, n) == x,
{
    lemma_bits_val_of_bits(x, n);
    lemma_pow2_pos(n);
    vstd::arithmetic::div_mod::lemma_mod_bound(x as int, pow2(n) as int);
    if n < 64 {
        lemma_pow2_strictly_increases(n, 64);
    }
    lemma2_to64_rest();
    if x < pow2(n) {
        vstd::arithmetic::div_mod::lemma_small_mod(x as nat, pow2(n));
    }
}

/// One delta-of-delta code decodes back to the delta it was made from.
proof fn lemma_ts_step(v: DecView, t_new: u64)
    requires
        ({
            let delta2 = u64_specs::wrapping_sub(t_new, v.st.time);
            let diff = u64_specs::wrapping_sub(delta2, v.st.delta);
            let chunk = dod_bits(diff);
            &&& dod_ok(diff)
            &&& v.pos + chunk.len() <= v.stream.len()
            &&& v.stream.subrange(v.pos as int, (v.pos + chunk.len()) as int) == chunk
        }),
    ensures
        ({
            let delta2 = u64_specs::wrapping_sub(t_new, v.st.time);
            let diff = u64_specs::wrapping_sub(delta2, v.st.delta);
            let chunk = dod_bits(diff);
            let r = spec_next_timestamp(v);
            &&& r.0 == Ok::<u64, Error>(t_new)
            &&& r.1 == (DecView {
                pos: (v.pos + chunk.len()) as nat,
                st: CodecState { time: t_new, delta: delta2, ..v.st },
                ..v
            })
        }),
{
    let s = v.stream;
    let p = v.pos;
    let delta2 = u64_specs::wrapping_sub(t_new, v.st.time);
    let diff = u64_specs::wrapping_sub(delta2, v.st.delta);
    let chunk = dod_bits(diff);
    let sd = dod_signed(diff);
    lemma_wrap_add_sub(t_new, v.st.time);
    lemma_wrap_add_sub(delta2, v.st.delta);
    assert(forall|i: int| 0 <= i < chunk.len() ==> s[p + i] == #[trigger] chunk[i]) by {
        assert(forall|i: int|
            0 <= i < chunk.len() ==> #[trigger] chunk[i] == s.subrange(
                p as int,
                (p + chunk.len()) as int,
            )[i]);
    }
    if sd == 0 {
        // the single zero bit; dod_ok forces the difference itself to zero
        assert(diff % 0x1_0000_0000 == 0 && dod_ok(diff) ==> diff == 0) by (bit_vector);
        assert(chunk == seq![false]);
        assert(!chunk[0] && s[(p + 0) as int] == chunk[0]);
        assert(!s[p as int]);
        assert(ones_run(s, p, 4) == 0);
        assert(delta2 == v.st.delta);
    } else {
        let payload_k: u32 = if -63 <= sd <= 64 {
            7
        } else if -255 <= sd <= 256 {
            9
        } else if -2047 <= sd <= 2048 {
            12
        } else {
            32
        };
        let c: nat = if payload_k == 7 {
            1
        } else if payload_k == 9 {
            2
        } else if payload_k == 12 {
            3
        } else {
            4
        };
        let prefix: Seq<bool> = if payload_k == 7 {
            seq![true, false]
        } else if payload_k == 9 {
            seq![true, true, false]
        } else if payload_k == 12 {
            seq![true, true, true, false]
        } else {
            seq![true, true, true, true]
        };
        assert(chunk == prefix + bits_of(diff, payload_k as nat));
        assert(chunk.len() == prefix.len() + payload_k);
        // the control-bit run is the class index
        assert(chunk[0] && s[(p + 0) as int] == chunk[0]);
        assert(s[p as int]);
        if c == 1 {
            assert(!chunk[1] && s[(p + 1) as int] == chunk[1]);
            assert(!s[(p + 1) as int]);
            assert(ones_run(s, (p + 1) as nat, 3) == 0);
        } else if c == 2 {
            assert(chunk[1] && s[(p + 1) as int] == chunk[1]);
            assert(!chunk[2] && s[(p + 2) as int] == chunk[2]);
            assert(s[(p + 1) as int] && !s[(p + 2) as int]);
            assert(ones_run(s, (p + 2) as nat, 2) == 0);
            assert(ones_run(s, (p + 1) as nat, 3) == 1);
        } else if c == 3 {
            assert(chunk[1] && s[(p + 1) as int] == chunk[1]);
            assert(chunk[2] && s[(p + 2) as int] == chunk[2]);
            assert(!chunk[3] && s[(p + 3) as int] == chunk[3]);
            assert(s[(p + 1) as int] && s[(p + 2) as int] && !s[(p + 3) as int]);
            assert(ones_run(s, (p + 3) as nat, 1) == 0);
            assert(ones_run(s, (p + 2) as nat, 2) == 1);
            assert(ones_run(s, (p + 1) as nat, 3) == 2);
        } else {
            assert(chunk[1] && s[(p + 1) as int] == chunk[1]);
            assert(chunk[2] && s[(p + 2) as int] == chunk[2]);
            assert(chunk[3] && s[(p + 3) as int] == chunk[3]);
            assert(s[(p + 1) as int] && s[(p + 2) as int] && s[(p + 3) as int]);
            assert(ones_run(s, (p + 4) as nat, 0) == 0);
            assert(ones_run(s, (p + 3) as nat, 1) == 1);
            assert(ones_run(s, (p + 2) as nat, 2) == 2);
            assert(ones_run(s, (p + 1) as nat, 3) == 3);
        }
        assert(ones_run(s, p, 4) == c);
        // the payload bits sit right after the prefix
        let q = (p + prefix.len()) as nat;
        assert forall|i: int| 0 <= i < payload_k implies s.subrange(
            q as int,
            (q + payload_k) as int,
        )[i] == bits_of(diff, payload_k as nat)[i] by {
            assert(chunk[prefix.len() + i] == bits_of(diff, payload_k as nat)[i]);
            assert(s[p + (prefix.len() + i)] == chunk[prefix.len() + i]);
            assert(s.subrange(q as int, (q + payload_k) as int)[i] == s[q + i]);
            assert(q + i == p + (prefix.len() + i));
        }
        assert(s.subrange(q as int, (q + payload_k) as int) =~= bits_of(
            diff,
            payload_k as nat,
        ));
        lemma_take_val_of(s, q, diff, payload_k as nat);
        lemma_pow2_shl(payload_k);
        let pv = take_val(s, q, payload_k as nat);
        assert(pv == diff % (1u64 << (payload_k as u64))) by {
            assert(pv as nat == diff as nat % pow2(payload_k as nat));
        }
        if payload_k == 32 {
            // moderate positive jumps: the low 32 bits are the whole value
            assert(dod_ok(diff) && !(-2047 <= dod_signed(diff) <= 2048) ==> diff < 0x1_0000_0000
                && diff != 0) by (bit_vector);
            assert(pv == diff && pv != 0) by (bit_vector)
                requires
                    pv == diff % (1u64 << 32u64),
                    diff < 0x1_0000_0000,
                    diff != 0,
            ;
        } else {
            // short classes: sign extension recovers the wrapped difference
            assert((1u64 << 6u64) == 64 && (1u64 << 8u64) == 256 && (1u64 << 11u64) == 2048)
                by (bit_vector);
            assert(sign_extend(pv, payload_k) == diff) by (bit_vector)
                requires
                    payload_k == 7 || payload_k == 9 || payload_k == 12,
                    pv == diff % (1u64 << (payload_k as u64)),
                    dod_ok(diff),
                    dod_signed(diff) != 0,
                    -((1u64 << ((payload_k - 1) as u64)) as int) < dod_signed(diff),
                    dod_signed(diff) <= (1u64 << ((payload_k - 1) as u64)) as int,
            ;
        }
    }
}

/// One value code decodes back to the value it was made from, and the
/// decoder's window keeps shadowing the encoder's.
proof fn lemma_value_step(v: DecView, est: CodecState, value: u64)
    requires
        shadows(v.st, est),
        window_ok(est),
        ({
            let chunk = xor_bits(est, value);
            &&& v.pos + chunk.len() <= v.stream.len()
            &&& v.stream.subrange(v.pos as int, (v.pos + chunk.len()) as int) == chunk
        }),
    ensures
        ({
            let chunk = xor_bits(est, value);
            let w = xor_window(est, value);
            let r = spec_next_value(v);
            &&& r.0 == Ok::<u64, Error>(value)
            &&& r.1.stream == v.stream
            &&& r.1.pos == v.pos + chunk.len()
            &&& r.1.first == v.first
            &&& r.1.done == v.done
            &&& r.1.st.time == v.st.time
            &&& r.1.st.delta == v.st.delta
            &&& shadows(
                r.1.st,
                CodecState { value_bits: value, leading: w.0, trailing: w.1, ..est },
            )
        }),
{
    let s = v.stream;
    let p = v.pos;
    let eb = est.value_bits;
    let x = eb ^ value;
    let chunk = xor_bits(est, value);
    assert(forall|i: int| 0 <= i < chunk.len() ==> s[p + i] == #[trigger] chunk[i]) by {
        assert(forall|i: int|
            0 <= i < chunk.len() ==> #[trigger] chunk[i] == s.subrange(
                p as int,
                (p + chunk.len()) as int,
            )[i]);
    }
    if x == 0 {
        assert(eb == value) by (bit_vector)
            requires
                eb ^ value == 0,
        ;
        assert(chunk == seq![false]);
        assert(!chunk[0] && s[(p + 0) as int] == chunk[0]);
        assert(!s[p as int]);
    } else {
        crate::bits::lemma_nonzero_window(x);
        vstd::std_specs::bits::axiom_u64_leading_zeros(x);
        vstd::std_specs::bits::axiom_u64_trailing_zeros(x);
        let lz = u64_leading_zeros(x);
        let tz = u64_trailing_zeros(x) as int;
        let lzu = lz as u64;
        let tzu = u64_trailing_zeros(x) as u64;
        let hi = (64 - lzu) as u64;
        let lo = (64 - tzu) as u64;
        assert(x >> vstd::prelude::sub(64, lzu) == 0);
        assert(vstd::prelude::sub(64, lzu) == hi);
        assert(x << vstd::prelude::sub(64, tzu) == 0);
        assert(vstd::prelude::sub(64, tzu) == lo);
        assert(chunk[0] && s[(p + 0) as int] == chunk[0]);
        assert(s[p as int]);
        if lz >= est.leading && tz >= est.trailing {
            // the encoder reused the live window
            let lu = est.leading;
            let tu = est.trailing;
            assert(lu + tu <= 63);
            assert(v.st.leading == lu && v.st.trailing == tu);
            let wu: u32 = (64 - lu - tu) as u32;
            assert(window_width(lu, tu) == wu as nat);
            let body = bits_of(x >> (tu as u64), wu as nat);
            assert(chunk == seq![true, false] + body);
            assert(chunk.len() == 2 + wu);
            assert(!chunk[1] && s[(p + 1) as int] == chunk[1]);
            assert(!s[(p + 1) as int]);
            // the packed field holds the shifted XOR exactly
            let q = (p + 2) as nat;
            assert forall|i: int| 0 <= i < wu implies s.subrange(
                q as int,
                (q + wu) as int,
            )[i] == body[i] by {
                assert(chunk[2 + i] == body[i]);
                assert(s[p + (2 + i)] == chunk[2 + i]);
                assert(s.subrange(q as int, (q + wu) as int)[i] == s[q + i]);
                assert(q + i == p + (2 + i));
            }
            assert(s.subrange(q as int, (q + wu) as int) =~= body);
            assert(((x >> (tu as u64)) as nat) < pow2(wu as nat)) by {
                if wu < 64 {
                    assert((x >> (tu as u64)) < (1u64 << (wu as u64))) by (bit_vector)
                        requires
                            x >> hi == 0,
                            hi == 64 - lzu,
                            lzu <= 63,
                            lu as u64 <= lzu,
                            tu <= 63,
                            lu + tu <= 63,
                            wu == 64 - lu - tu,
                            wu < 64,
                    ;
                    lemma_pow2_shl(wu);
                } else {
                    lemma2_to64_rest();
                }
            }
            lemma_take_val_of(s, q, x >> (tu as u64), wu as nat);
            let payload = take_val(s, q, wu as nat);
            assert(payload == x >> (tu as u64));
            assert(u64_specs::wrapping_shl(payload, tu) == ((x >> (tu as u64)) << ((tu % 64) as u32)));
            assert(eb ^ ((x >> (tu as u64)) << ((tu % 64) as u32) as u64) == value)
                by (bit_vector)
                requires
                    x == eb ^ value,
                    x << lo == 0,
                    lo == 64 - tzu,
                    tzu <= 63,
                    tu as u64 <= tzu,
                    tu <= 63,
            ;
        } else {
            // the encoder opened a new window
            let sig: u32 = (64 - lz - tz) as u32;
            assert(1 <= sig <= 64);
            let body = bits_of(x >> (tz as u64), (64 - lz - tz) as nat);
            assert(chunk == seq![true, true] + bits_of(lz as u64, 6) + bits_of(
                (63 - lz - tz) as u64,
                6,
            ) + body);
            assert(chunk.len() == 14 + (sig as nat));
            assert(chunk[1] && s[(p + 1) as int] == chunk[1]);
            assert(s[(p + 1) as int]);
            // the 6-bit leading-zero count
            let q1 = (p + 2) as nat;
            assert forall|i: int|
                #![trigger s.subrange(q1 as int, (q1 + 6) as int)[i]]
                0 <= i < 6 implies s.subrange(q1 as int, (q1 + 6) as int)[i]
                == bits_of(lz as u64, 6)[i] by {
                assert(chunk[2 + i] == bits_of(lz as u64, 6)[i]);
                assert(s[p + (2 + i)] == chunk[2 + i]);
                assert(s.subrange(q1 as int, (q1 + 6) as int)[i] == s[q1 + i]);
                assert(q1 + i == p + (2 + i));
            }
            assert(s.subrange(q1 as int, (q1 + 6) as int) =~= bits_of(lz as u64, 6));
            lemma2_to64();
            lemma_take_val_of(s, q1, lz as u64, 6);
            assert(take_val(s, q1, 6) == lz as u64);
            // the 6-bit significant-count-minus-one
            let q2 = (p + 8) as nat;
            assert forall|i: int|
                #![trigger s.subrange(q2 as int, (q2 + 6) as int)[i]]
                0 <= i < 6 implies s.subrange(q2 as int, (q2 + 6) as int)[i]
                == bits_of((63 - lz - tz) as u64, 6)[i] by {
                assert(chunk[8 + i] == bits_of((63 - lz - tz) as u64, 6)[i]);
                assert(s[p + (8 + i)] == chunk[8 + i]);
                assert(s.subrange(q2 as int, (q2 + 6) as int)[i] == s[q2 + i]);
                assert(q2 + i == p + (8 + i));
            }
            assert(s.subrange(q2 as int, (q2 + 6) as int) =~= bits_of((63 - lz - tz) as u64, 6));
            lemma_take_val_of(s, q2, (63 - lz - tz) as u64, 6);
            assert(take_val(s, q2, 6) == (63 - lz - tz) as u64);
            // the packed field holds the shifted XOR exactly
            let q3 = (p + 14) as nat;
            assert forall|i: int| 0 <= i < sig implies s.subrange(
                q3 as int,
                (q3 + sig) as int,
            )[i] == body[i] by {
                assert(chunk[14 + i] == body[i]);
                assert(s[p + (14 + i)] == chunk[14 + i]);
                assert(s.subrange(q3 as int, (q3 + sig) as int)[i] == s[q3 + i]);
                assert(q3 + i == p + (14 + i));
            }
            assert(s.subrange(q3 as int, (q3 + sig) as int) =~= body);
            assert(((x >> tzu) as nat) < pow2(sig as nat)) by {
                if sig < 64 {
                    assert((x >> tzu) < (1u64 << (sig as u64))) by (bit_vector)
                        requires
                            x >> hi == 0,
                            hi == 64 - lzu,
                            lzu <= 63,
                            tzu <= 63,
                            lzu + tzu <= 63,
                            sig as u64 == 64 - lzu - tzu,
                            sig < 64,
                    ;
                    lemma_pow2_shl(sig);
                } else {
                    lemma2_to64_rest();
                }
            }
            lemma_take_val_of(s, q3, x >> (tz as u64), sig as nat);
            let payload = take_val(s, q3, sig as nat);
            assert(payload == x >> (tz as u64));
            let tzr: u32 = tz as u32;
            assert(u64_specs::wrapping_shl(payload, tzr) == ((x >> (tz as u64)) << ((tzr
                % 64) as u32)));
            assert(eb ^ ((x >> tzu) << ((tzr % 64) as u32) as u64) == value)
                by (bit_vector)
                requires
                    x == eb ^ value,
                    x << lo == 0,
                    lo == 64 - tzu,
                    tzu <= 63,
                    tzr as u64 == tzu,
            ;
        }
    }
}

/// The parts of a three-way concatenation, as subranges.
proof fn lemma_concat3_parts(a: Seq<bool>, b: Seq<bool>, c: Seq<bool>)
    ensures
        (a + b + c).len() == a.len() + b.len() + c.len(),
        (a + b + c).subrange(0, a.len() as int) == a,
        (a + b + c).subrange(a.len() as int, (a.len() + b.len()) as int) == b,
        (a + b + c).subrange((a.len() + b.len()) as int, (a.len() + b.len() + c.len()) as int)
            == c,
{
    assert((a + b + c).subrange(0, a.len() as int) =~= a);
    assert((a + b + c).subrange(a.len() as int, (a.len() + b.len()) as int) =~= b);
    assert((a + b + c).subrange(
        (a.len() + b.len()) as int,
        (a.len() + b.len() + c.len()) as int,
    ) =~= c);
}

/// A shorter prefix of the point sequence encodes a prefix of the payload.
proof fn lemma_payload_take(base: u64, pts: Seq<DataPoint>, j: int)
    requires
        0 <= j <= pts.len(),
    ensures
        payload_bits(base, pts.take(j)).len() <= payload_bits(base, pts).len(),
        payload_bits(base, pts).take(payload_bits(base, pts.take(j)).len() as int)
            == payload_bits(base, pts.take(j)),
    decreases pts.len() - j,
{
    if j == pts.len() {
        assert(pts.take(j) =~= pts);
        assert(payload_bits(base, pts).take(payload_bits(base, pts).len() as int) =~= payload_bits(
            base,
            pts,
        ));
    } else {
        lemma_payload_take(base, pts, j + 1);
        assert(pts.take(j + 1).drop_last() =~= pts.take(j));
        assert(pts.take(j + 1).last() == pts[j]);
        let a = payload_bits(base, pts.take(j));
        let b = payload_bits(base, pts.take(j + 1));
        let full = payload_bits(base, pts);
        assert(b == a + point_bits(enc_state(base, pts.take(j)), pts[j], j == 0));
        assert(full.take(a.len() as int) =~= b.take(a.len() as int));
        assert(b.take(a.len() as int) =~= a);
    }
}

/// The timestamp fields of the encoder state after a prefix of the points.
proof fn lemma_enc_state_fields(base: u64, pts: Seq<DataPoint>, k: int)
    requires
        1 <= k <= pts.len(),
    ensures
        enc_state(base, pts.take(k)).time == pts[k - 1].time,
        enc_state(base, pts.take(k)).delta == delta_at(base, pts, k - 1),
        enc_state(base, pts.take(k)).value_bits == pts[k - 1].value,
    decreases k,
{
    assert(pts.take(k).drop_last() =~= pts.take(k - 1));
    assert(pts.take(k).last() == pts[k - 1]);
    assert(enc_state(base, pts.take(k)) == crate::encode::point_state(
        enc_state(base, pts.take(k - 1)),
        pts[k - 1],
        k == 1,
    ));
    if k > 1 {
        lemma_enc_state_fields(base, pts, k - 1);
        assert(enc_state(base, pts.take(k - 1)).time == pts[k - 2].time);
    } else {
        assert(pts.take(0) =~= Seq::<DataPoint>::empty());
        assert(enc_state(base, pts.take(0)) == crate::encode::enc_init(base));
    }
}

/// Where point `k`'s bits stand in a stream that starts with the encoded
/// block: right after the header and the payload of the earlier points.
proof fn lemma_stream_chunk(base: u64, pts: Seq<DataPoint>, k: int, s: Seq<bool>)
    requires
        0 <= k < pts.len(),
        stream_bits(base, pts).len() <= s.len(),
        s.take(stream_bits(base, pts).len() as int) == stream_bits(base, pts),
    ensures
        ({
            let off = 64 + payload_bits(base, pts.take(k)).len();
            let chunk = point_bits(enc_state(base, pts.take(k)), pts[k], k == 0);
            &&& off + chunk.len() <= 64 + payload_bits(base, pts).len()
            &&& s.subrange(off as int, (off + chunk.len()) as int) == chunk
        }),
{
    let sb = stream_bits(base, pts);
    let pf = payload_bits(base, pts);
    let a = payload_bits(base, pts.take(k));
    let chunk = point_bits(enc_state(base, pts.take(k)), pts[k], k == 0);
    let off = 64 + a.len();
    lemma_payload_take(base, pts, k);
    lemma_payload_take(base, pts, k + 1);
    assert(pts.take(k + 1).drop_last() =~= pts.take(k));
    assert(pts.take(k + 1).last() == pts[k]);
    assert(payload_bits(base, pts.take(k + 1)) == a + chunk);
    lemma_concat3_parts(bits_of(base, 64), pf, crate::encode::marker_bits());
    assert forall|i: int| 0 <= i < chunk.len() implies s.subrange(
        off as int,
        (off + chunk.len()) as int,
    )[i] == chunk[i] by {
        assert(pf.take((a.len() + chunk.len()) as int)[a.len() + i] == (a + chunk)[a.len() + i]);
        assert(pf[a.len() + i] == chunk[i]);
        assert(sb[64 + (a.len() + i)] == pf[a.len() + i]);
        assert(s.take(sb.len() as int)[64 + (a.len() + i)] == sb[64 + (a.len() + i)]);
        assert(s[off + i] == chunk[i]);
    }
    assert(s.subrange(off as int, (off + chunk.len()) as int) =~= chunk);
}

/// Where the end marker stands: right after the whole payload.
proof fn lemma_stream_marker(base: u64, pts: Seq<DataPoint>, s: Seq<bool>)
    requires
        stream_bits(base, pts).len() <= s.len(),
        s.take(stream_bits(base, pts).len() as int) == stream_bits(base, pts),
    ensures
        ({
            let off = 64 + payload_bits(base, pts).len();
            &&& off + 36 == stream_bits(base, pts).len()
            &&& s.subrange(off as int, (off + 36) as int) == bits_of(END_MARKER, 36)
        }),
{
    let sb = stream_bits(base, pts);
    let pf = payload_bits(base, pts);
    let off = 64 + pf.len();
    lemma_marker_bits();
    lemma_concat3_parts(bits_of(base, 64), pf, crate::encode::marker_bits());
    assert forall|i: int| 0 <= i < 36 implies s.subrange(off as int, (off + 36) as int)[i]
        == bits_of(END_MARKER, 36)[i] by {
        assert(sb[off + i] == crate::encode::marker_bits()[i]);
        assert(s.take(sb.len() as int)[off + i] == sb[off + i]);
    }
    assert(s.subrange(off as int, (off + 36) as int) =~= bits_of(END_MARKER, 36));
}

/// Where the header stands: the first 64 bits.
proof fn lemma_stream_header(base: u64, pts: Seq<DataPoint>, s: Seq<bool>)
    requires
        stream_bits(base, pts).len() <= s.len(),
        s.take(stream_bits(base, pts).len() as int) == stream_bits(base, pts),
    ensures
        s.subrange(0, 64) == bits_of(base, 64),
{
    let sb = stream_bits(base, pts);
    lemma_concat3_parts(bits_of(base, 64), payload_bits(base, pts), crate::encode::marker_bits());
    assert forall|i: int| 0 <= i < 64 implies s.subrange(0, 64)[i] == bits_of(base, 64)[i] by {
        assert(sb[i] == bits_of(base, 64)[i]);
        assert(s.take(sb.len() as int)[i] == sb[i]);
    }
    assert(s.subrange(0, 64) =~= bits_of(base, 64));
}

/// The marker's tail is a 32-bit zero payload.
proof fn lemma_marker_tail(s: Seq<bool>, off: nat)
    requires
        off + 36 <= s.len(),
        s.subrange(off as int, (off + 36) as int) == bits_of(END_MARKER, 36),
    ensures
        s[off as int] && s[(off + 1) as int] && s[(off + 2) as int] && s[(off + 3) as int],
        take_val(s, off, 36) == END_MARKER,
        take_val(s, (off + 4) as nat, 32) == 0,
{
    lemma_marker_bits();
    assert(forall|i: int|
        0 <= i < 36 ==> s[off + i] == #[trigger] bits_of(END_MARKER, 36)[i]) by {
        assert(forall|i: int|
            0 <= i < 36 ==> #[trigger] bits_of(END_MARKER, 36)[i] == s.subrange(
                off as int,
                (off + 36) as int,
            )[i]);
    }
    assert(bits_of(END_MARKER, 36)[0] && bits_of(END_MARKER, 36)[1] && bits_of(END_MARKER, 36)[2]
        && bits_of(END_MARKER, 36)[3]);
    lemma2_to64_rest();
    lemma_take_val_of(s, off, END_MARKER, 36);
    assert forall|i: int| 0 <= i < 32 implies s.subrange(
        (off + 4) as int,
        (off + 4 + 32) as int,
    )[i] == bits_of(0u64, 32)[i] by {
        assert(!bits_of(END_MARKER, 36)[4 + i] && s[off + (4 + i)] == bits_of(END_MARKER, 36)[4
            + i]);
        let sh = (31 - i) as u64;
        assert(sh < 32 ==> (0u64 >> sh) & 1 == 0) by (bit_vector);
    }
    assert(s.subrange((off + 4) as int, (off + 4 + 32) as int) =~= bits_of(0u64, 32));
    lemma2_to64();
    lemma_take_val_of(s, (off + 4) as nat, 0u64, 32);
}

/// The header plus the first point's code decode back to the first point.
proof fn lemma_first_step(v: DecView, base: u64, p0: DataPoint)
    requires
        v.pos == 0,
        u64_specs::wrapping_sub(p0.time, base) < 0x4000,
        143 <= v.stream.len(),
        v.stream.subrange(0, 64) == bits_of(base, 64),
        v.stream.subrange(64, 143) == crate::encode::first_bits(crate::encode::enc_init(base), p0),
    ensures
        ({
            let ts = crate::decode::spec_first_timestamp(v);
            let val = crate::decode::spec_first_value(ts.1);
            &&& ts.0 == Ok::<u64, Error>(p0.time)
            &&& val.0 == Ok::<u64, Error>(p0.value)
            &&& val.1 == (DecView {
                pos: 143nat,
                st: CodecState {
                    time: p0.time,
                    delta: u64_specs::wrapping_sub(p0.time, base),
                    value_bits: p0.value,
                    ..v.st
                },
                ..v
            })
        }),
{
    let s = v.stream;
    let d1 = u64_specs::wrapping_sub(p0.time, base);
    let fb = crate::encode::first_bits(crate::encode::enc_init(base), p0);
    assert(fb == seq![false] + bits_of(d1, 14) + bits_of(p0.value, 64));
    assert(fb.len() == 79);
    assert(forall|i: int| 0 <= i < 79 ==> s[64 + i] == #[trigger] fb[i]) by {
        assert(forall|i: int| 0 <= i < 79 ==> #[trigger] fb[i] == s.subrange(64, 143)[i]);
    }
    // the 64-bit header
    lemma2_to64_rest();
    lemma_take_val_of(s, 0, base, 64);
    assert(take_val(s, 0, 64) == base);
    // the has-payload control bit is zero
    assert(!fb[0] && s[64int + 0] == fb[0]);
    assert(!s[64int]);
    // the 14-bit first delta
    assert forall|i: int|
        #![trigger s.subrange(65, 79)[i]]
        0 <= i < 14 implies s.subrange(65, 79)[i] == bits_of(d1, 14)[i] by {
        assert(fb[1 + i] == bits_of(d1, 14)[i]);
        assert(s[64 + (1 + i)] == fb[1 + i]);
        assert(s.subrange(65, 79)[i] == s[65 + i]);
    }
    assert(s.subrange(65, 79) =~= bits_of(d1, 14));
    lemma2_to64();
    assert(pow2(14) == 0x4000);
    lemma_take_val_of(s, 65, d1, 14);
    assert(take_val(s, 65, 14) == d1);
    lemma_wrap_add_sub(p0.time, base);
    // the raw 64-bit first value
    assert forall|i: int|
        #![trigger s.subrange(79, 143)[i]]
        0 <= i < 64 implies s.subrange(79, 143)[i] == bits_of(p0.value, 64)[i] by {
        assert(fb[15 + i] == bits_of(p0.value, 64)[i]);
        assert(s[64 + (15 + i)] == fb[15 + i]);
        assert(s.subrange(79, 143)[i] == s[79 + i]);
    }
    assert(s.subrange(79, 143) =~= bits_of(p0.value, 64));
    lemma_take_val_of(s, 79, p0.value, 64);
}

/// From the state just before point `k`, the decoder yields exactly the
/// remaining points, then the end of the stream.
#[verifier::rlimit(60)]
proof fn lemma_decode_from(base: u64, pts: Seq<DataPoint>, k: int, v: DecView)
    requires
        round_trippable(base, pts),
        0 <= k <= pts.len(),
        stream_bits(base, pts).len() <= v.stream.len(),
        v.stream.take(stream_bits(base, pts).len() as int) == stream_bits(base, pts),
        v.pos == if k == 0 {
            0nat
        } else {
            (64 + payload_bits(base, pts.take(k)).len()) as nat
        },
        v.first == (k == 0),
        v.done == false,
        k > 0 ==> shadows(v.st, enc_state(base, pts.take(k))),
    ensures
        decode_all(v) == (pts.skip(k), Error::EndOfStream),
    decreases pts.len() - k,
{
    let s = v.stream;
    let sb = stream_bits(base, pts);
    let pf = payload_bits(base, pts);
    if k == pts.len() {
        // only the end marker is left
        lemma_payload_take(base, pts, k);
        assert(pts.take(k) =~= pts);
        lemma_stream_marker(base, pts, s);
        let off: nat = (64 + pf.len()) as nat;
        lemma_marker_tail(s, off);
        if k == 0 {
            // a bare header: the first read finds the marker at bit 64
            lemma_stream_header(base, pts, s);
            lemma2_to64_rest();
            lemma_take_val_of(s, 0, base, 64);
            let v1 = DecView { first: false, ..v };
            let ts = crate::decode::spec_first_timestamp(v1);
            assert(s[64int]);
            assert(ts.0 == Err::<u64, Error>(Error::EndOfStream));
            assert(spec_next(v).res == Err::<DataPoint, Error>(Error::EndOfStream));
        } else {
            assert(v.pos == off);
            let ts = spec_next_timestamp(v);
            assert(ones_run(s, (off + 4) as nat, 0) == 0);
            assert(ones_run(s, (off + 3) as nat, 1) == 1);
            assert(ones_run(s, (off + 2) as nat, 2) == 2);
            assert(ones_run(s, (off + 1) as nat, 3) == 3);
            assert(ones_run(s, off, 4) == 4);
            assert(ts.0 == Err::<u64, Error>(Error::EndOfStream));
            assert(spec_next(v).res == Err::<DataPoint, Error>(Error::EndOfStream));
        }
        assert(decode_all(v) == (Seq::<DataPoint>::empty(), Error::EndOfStream));
        assert(pts.skip(k) =~= Seq::<DataPoint>::empty());
    } else {
        let est = enc_state(base, pts.take(k));
        let p = pts[k];
        let chunk = point_bits(est, p, k == 0);
        let off: nat = if k == 0 {
            0nat
        } else {
            (64 + payload_bits(base, pts.take(k)).len()) as nat
        };
        lemma_stream_chunk(base, pts, k, s);
        lemma_enc_state_window_ok(base, pts.take(k));
        lemma_payload_take(base, pts, k);
        lemma_payload_take(base, pts, k + 1);
        assert(pts.take(k + 1).drop_last() =~= pts.take(k));
        assert(pts.take(k + 1).last() == pts[k]);
        assert(payload_bits(base, pts.take(k + 1)) == payload_bits(base, pts.take(k)) + chunk);
        let step = spec_next(v);
        let pos2: nat = (64 + payload_bits(base, pts.take(k + 1)).len()) as nat;
        if k == 0 {
            // the first point, behind the header and the has-payload bit
            assert(pts.take(0) =~= Seq::<DataPoint>::empty());
            assert(est == crate::encode::enc_init(base));
            assert(chunk == crate::encode::first_bits(est, p));
            lemma_stream_header(base, pts, s);
            assert(delta_at(base, pts, 0) < 0x4000);
            assert(s.subrange(64, 143) =~= chunk) by {
                assert(s.subrange(64, (64 + chunk.len()) as int) == chunk);
                assert(chunk.len() == 79);
            }
            let v1 = DecView { first: false, ..v };
            lemma_first_step(v1, base, p);
            let ts = crate::decode::spec_first_timestamp(v1);
            let val = crate::decode::spec_first_value(ts.1);
            assert(step.res == Ok::<DataPoint, Error>(DataPoint { time: p.time, value: p.value }));
            assert(p == (DataPoint { time: p.time, value: p.value }));
            assert(step.v == val.1);
            assert(payload_bits(base, pts.take(1)) == Seq::<bool>::empty() + chunk);
            assert(payload_bits(base, pts.take(1)) =~= chunk);
            assert(step.v.pos == pos2);
            assert(shadows(step.v.st, enc_state(base, pts.take(1)))) by {
                assert(enc_state(base, pts.take(1)) == crate::encode::point_state(est, p, true));
            }
        } else {
            // a subsequent point: delta-of-delta code, then value code
            lemma_enc_state_fields(base, pts, k);
            assert(est.time == pts[k - 1].time && est.delta == delta_at(base, pts, k - 1));
            let delta2 = u64_specs::wrapping_sub(p.time, v.st.time);
            let diff = u64_specs::wrapping_sub(delta2, v.st.delta);
            assert(v.st.time == est.time && v.st.delta == est.delta);
            assert(delta2 == delta_at(base, pts, k));
            assert(dod_ok(diff));
            let tsc = dod_bits(diff);
            let vcc = xor_bits(est, p.value);
            assert(chunk == tsc + vcc);
            assert(s.subrange(off as int, (off + tsc.len()) as int) =~= tsc) by {
                assert(forall|i: int|
                    0 <= i < chunk.len() ==> s[off + i] == #[trigger] chunk[i]) by {
                    assert(forall|i: int|
                        0 <= i < chunk.len() ==> #[trigger] chunk[i] == s.subrange(
                            off as int,
                            (off + chunk.len()) as int,
                        )[i]);
                }
                assert(forall|i: int|
                    0 <= i < tsc.len() ==> #[trigger] s.subrange(
                        off as int,
                        (off + tsc.len()) as int,
                    )[i] == s[off + i]);
                assert(forall|i: int| 0 <= i < tsc.len() ==> #[trigger] tsc[i] == chunk[i]);
            }
            lemma_ts_step(v, p.time);
            let ts = spec_next_timestamp(v);
            let vmid = ts.1;
            assert(vmid.pos == off + tsc.len());
            assert(s.subrange(vmid.pos as int, (vmid.pos + vcc.len()) as int) =~= vcc) by {
                assert(forall|i: int|
                    0 <= i < chunk.len() ==> s[off + i] == #[trigger] chunk[i]) by {
                    assert(forall|i: int|
                        0 <= i < chunk.len() ==> #[trigger] chunk[i] == s.subrange(
                            off as int,
                            (off + chunk.len()) as int,
                        )[i]);
                }
                assert(forall|i: int|
                    0 <= i < vcc.len() ==> #[trigger] s.subrange(
                        vmid.pos as int,
                        (vmid.pos + vcc.len()) as int,
                    )[i] == s[off + (tsc.len() + i)]);
                assert(forall|i: int|
                    0 <= i < vcc.len() ==> #[trigger] vcc[i] == chunk[tsc.len() + i]);
            }
            assert(shadows(vmid.st, CodecState { time: p.time, delta: delta2, ..est }));
            lemma_value_step(vmid, CodecState { time: p.time, delta: delta2, ..est }, p.value);
            assert(xor_bits(CodecState { time: p.time, delta: delta2, ..est }, p.value) == vcc);
            assert(xor_window(CodecState { time: p.time, delta: delta2, ..est }, p.value)
                == xor_window(est, p.value));
            let val = crate::decode::spec_next_value(vmid);
            assert(step.res == Ok::<DataPoint, Error>(DataPoint { time: p.time, value: p.value }));
            assert(p == (DataPoint { time: p.time, value: p.value }));
            assert(step.v == val.1);
            assert(step.v.pos == off + tsc.len() + vcc.len());
            assert(step.v.pos == pos2);
            assert(shadows(step.v.st, enc_state(base, pts.take(k + 1)))) by {
                assert(enc_state(base, pts.take(k + 1)) == crate::encode::point_state(
                    est,
                    p,
                    false,
                ));
            }
        }
        // recurse over the remaining points
        assert(pos2 <= sb.len());
        assert(v.pos < step.v.pos);
        lemma_decode_from(base, pts, k + 1, step.v);
        assert(decode_all(step.v) == (pts.skip(k + 1), Error::EndOfStream));
        assert(decode_all(v) == (seq![p] + pts.skip(k + 1), Error::EndOfStream));
        assert(seq![p] + pts.skip(k + 1) =~= pts.skip(k));
    }
}

/// Round-trip: decoding the byte stream a closed encoder produced for a
/// sequence of points yields exactly those points, then `EndOfStream`. The
/// sequence must be one the code classes can carry: the first delta fits
/// the 14-bit field and every delta-of-delta fits its class.
pub proof fn theorem_round_trip(base: u64, pts: Seq<DataPoint>)
    requires
        round_trippable(base, pts),
    ensures
        decode_all(dec_init(bytes_bits(stream_bytes(base, pts)))) == (pts, Error::EndOfStream),
{
    let sb = stream_bits(base, pts);
    lemma_bits_to_bytes_roundtrip(sb);
    let s = bytes_bits(stream_bytes(base, pts));
    assert(s.take(sb.len() as int) == sb);
    assert(sb.len() <= s.len());
    lemma_decode_from(base, pts, 0, dec_init(s));
    assert(pts.skip(0) =~= pts);
}

/// Terminal idempotence: once a decoder has reported the end of the stream,
/// every further call reports it again and changes nothing, so the reader
/// is never touched again.
pub proof fn theorem_terminal_idempotent(v: DecView)
    requires
        v.done,
    ensures
        spec_next(v).res == Err::<DataPoint, Error>(Error::EndOfStream),
        spec_next(v).v == v,
{
}

/// Corruption detection: a readable header followed by a one bit that does
/// not open the end marker is rejected as an invalid end of stream.
pub proof fn theorem_corrupt_marker(v: DecView)
    requires
        !v.done,
        v.first,
        v.pos + 100 <= v.stream.len(),
        v.stream[(v.pos + 64) as int],
        take_val(v.stream, (v.pos + 64) as nat, 36) != END_MARKER,
    ensures
        spec_next(v).res == Err::<DataPoint, Error>(Error::InvalidEndOfStream),
        spec_next(v).v.pos == v.pos + 100,
        !spec_next(v).v.done,
{
}

/// The width of each delta-of-delta code: one bit for zero, then 9, 12, 16
/// or 36 bits as the signed value grows through the inclusive class ranges.
pub proof fn theorem_dod_code_width(diff: u64)
    ensures
        ({
            let sd = dod_signed(diff);
            dod_bits(diff).len() == if sd == 0 {
                1int
            } else if -63 <= sd <= 64 {
                9int
            } else if -255 <= sd <= 256 {
                12int
            } else if -2047 <= sd <= 2048 {
                16int
            } else {
                36int
            }
        }),
{
}

/// One write operation of the bit layer: a bit, a byte, or a packed field.
pub enum BitOp {
    Bit(bool),
    Byte(u8),
    Bits(u64, u32),
}

/// The bits one write operation appends, as the `Write` contracts state.
pub open spec fn op_bits(op: BitOp) -> Seq<bool> {
    match op {
        BitOp::Bit(b) => seq![b],
        BitOp::Byte(x) => crate::bits::byte_bits(x),
        BitOp::Bits(x, n) => bits_of(x, n as nat),
    }
}

/// The whole stream a sequence of write operations produces.
pub open spec fn ops_bits(ops: Seq<BitOp>) -> Seq<bool>
    decreases ops.len(),
{
    if ops.len() == 0 {
        Seq::<bool>::empty()
    } else {
        ops_bits(ops.drop_last()) + op_bits(ops.last())
    }
}

/// Every width a write operation may carry is at most 64 bits.
pub open spec fn ops_wf(ops: Seq<BitOp>) -> bool {
    forall|j: int|
        0 <= j < ops.len() ==> match #[trigger] ops[j] {
            BitOp::Bits(_, n) => n <= 64,
            _ => true,
        }
}

/// A shorter prefix of the operations writes a prefix of the stream.
proof fn lemma_ops_take(ops: Seq<BitOp>, j: int)
    requires
        0 <= j <= ops.len(),
    ensures
        ops_bits(ops.take(j)).len() <= ops_bits(ops).len(),
        ops_bits(ops).take(ops_bits(ops.take(j)).len() as int) == ops_bits(ops.take(j)),
    decreases ops.len() - j,
{
    if j == ops.len() {
        assert(ops.take(j) =~= ops);
        assert(ops_bits(ops).take(ops_bits(ops).len() as int) =~= ops_bits(ops));
    } else {
        lemma_ops_take(ops, j + 1);
        assert(ops.take(j + 1).drop_last() =~= ops.take(j));
        assert(ops.take(j + 1).last() == ops[j]);
        let a = ops_bits(ops.take(j));
        let b = ops_bits(ops.take(j + 1));
        assert(b == a + op_bits(ops[j]));
        assert(ops_bits(ops).take(a.len() as int) =~= b.take(a.len() as int));
        assert(b.take(a.len() as int) =~= a);
    }
}

/// Bit-layer round-trip: replaying any interleaving of writes as matching
/// reads returns the written values. Each operation's bits stand at the
/// position the earlier operations wrote up to; a bit reads back as itself,
/// a byte as its value, and a packed field as its value modulo the field's
/// range. Reading past the final position fails with EOF, by the `Read`
/// contract, since the stream holds exactly `ops_bits(ops).len()` bits.
pub proof fn theorem_bit_layer_round_trip(ops: Seq<BitOp>, i: int)
    requires
        ops_wf(ops),
        0 <= i < ops.len(),
    ensures
        ({
            let s = ops_bits(ops);
            let pos = ops_bits(ops.take(i)).len();
            &&& pos + op_bits(ops[i]).len() <= s.len()
            &&& match ops[i] {
                BitOp::Bit(b) => s[pos as int] == b,
                BitOp::Byte(x) => take_val(s, pos, 8) == x,
                BitOp::Bits(x, n) => take_val(s, pos, n as nat) as nat == x as nat % pow2(n as nat),
            }
        }),
{
    let s = ops_bits(ops);
    let pos = ops_bits(ops.take(i)).len();
    let part = op_bits(ops[i]);
    lemma_ops_take(ops, i);
    lemma_ops_take(ops, i + 1);
    assert(ops.take(i + 1).drop_last() =~= ops.take(i));
    assert(ops.take(i + 1).last() == ops[i]);
    assert(ops_bits(ops.take(i + 1)) == ops_bits(ops.take(i)) + part);
    assert forall|j: int| 0 <= j < part.len() implies s.subrange(
        pos as int,
        (pos + part.len()) as int,
    )[j] == part[j] by {
        assert(s.take((pos + part.len()) as int)[pos + j] == (ops_bits(ops.take(i)) + part)[pos
            + j]);
        assert(s.subrange(pos as int, (pos + part.len()) as int)[j] == s[pos + j]);
    }
    assert(s.subrange(pos as int, (pos + part.len()) as int) =~= part);
    match ops[i] {
        BitOp::Bit(b) => {
            crate::bits::lemma_bits_val_single(s, pos as int);
        },
        BitOp::Byte(x) => {
            crate::bits::lemma_byte_bits_is_bits_of(x);
            lemma2_to64();
            lemma_take_val_of(s, pos, x as u64, 8);
        },
        BitOp::Bits(x, n) => {
            lemma_take_val_of(s, pos, x, n as nat);
        },
    }
}

} // verus!

//! Tests for the encoder: the literal byte streams of the reference traces
//! and the boundary behaviour of the delta-of-delta code classes.

use tsz::stream::{BufferedReader, BufferedWriter};
use tsz::{DataPoint, Decode, Encode, StdDecoder, StdEncoder};

#[test]
fn create_new_encoder() {
    let w = BufferedWriter::new();
    let start_time = 1482268055; // 2016-12-20T21:07:35+00:00
    let e = StdEncoder::new(start_time, w);

    let bytes = e.close();
    let expected_bytes: [u8; 13] = [0, 0, 0, 0, 88, 89, 157, 151, 240, 0, 0, 0, 0];

    assert_eq!(bytes[..], expected_bytes[..]);
}

#[test]
fn encode_datapoint() {
    let w = BufferedWriter::new();
    let start_time = 1482268055; // 2016-12-20T21:07:35+00:00
    let mut e = StdEncoder::new(start_time, w);

    let d1 = DataPoint::new(1482268055 + 10, (1.24f64).to_bits());

    e.encode(d1);

    let bytes = e.close();
    let expected_bytes: [u8; 23] = [
        0, 0, 0, 0, 88, 89, 157, 151, 0, 20, 127, 231, 174, 20, 122, 225, 71, 175, 224, 0, 0, 0,
        0,
    ];

    assert_eq!(bytes[..], expected_bytes[..]);
}

#[test]
fn encode_multiple_datapoints() {
    let w = BufferedWriter::new();
    let start_time = 1482268055; // 2016-12-20T21:07:35+00:00
    let mut e = StdEncoder::new(start_time, w);

    let d1 = DataPoint::new(1482268055 + 10, (1.24f64).to_bits());

    e.encode(d1);

    let d2 = DataPoint::new(1482268055 + 20, (1.98f64).to_bits());

    let d3 = DataPoint::new(1482268055 + 32, (2.37f64).to_bits());
    let d4 = DataPoint::new(1482268055 + 44, (-7.41f64).to_bits());
    let d5 = DataPoint::new(1482268055 + 52, (103.50f64).to_bits());

    e.encode(d2);
    e.encode(d3);
    e.encode(d4);
    e.encode(d5);

    let bytes = e.close();
    let expected_bytes: [u8; 61] = [
        0, 0, 0, 0, 88, 89, 157, 151, 0, 20, 127, 231, 174, 20, 122, 225, 71, 174, 204, 207, 30,
        71, 145, 228, 121, 30, 96, 88, 61, 255, 253, 91, 214, 245, 189, 111, 91, 3, 232, 1, 245,
        97, 88, 86, 21, 133, 55, 202, 1, 17, 15, 92, 40, 245, 194, 151, 128, 0, 0, 0, 0,
    ];

    assert_eq!(bytes[..], expected_bytes[..]);
}

/// Encode three points whose second step has the given delta-of-delta, then
/// decode them back and also return the stream's byte length.
fn dod_trip(dod: i64) -> usize {
    let base = 1_000_000u64;
    let delta1 = 5000u64;
    let t1 = base + delta1;
    let t2 = t1 + delta1; // the first subsequent step has a zero dod
    let t3 = (t2 + delta1).wrapping_add_signed(dod);
    let value = (42.5f64).to_bits();

    let w = BufferedWriter::new();
    let mut e = StdEncoder::new(base, w);
    e.encode(DataPoint::new(t1, value));
    e.encode(DataPoint::new(t2, value));
    e.encode(DataPoint::new(t3, value));
    let bytes = e.close();
    let n = bytes.len();

    let mut d = StdDecoder::new(BufferedReader::new(bytes));
    assert_eq!(d.next().unwrap(), DataPoint::new(t1, value));
    assert_eq!(d.next().unwrap(), DataPoint::new(t2, value));
    assert_eq!(d.next().unwrap(), DataPoint::new(t3, value));
    assert_eq!(d.next().err().unwrap(), tsz::decode::Error::EndOfStream);
    n
}

/// Bits of a three-point stream whose last step carries the dod code of the
/// given width: header 64, first point 79, zero-dod step 1+1, final step
/// width + 1, marker 36; rounded up to bytes.
fn expected_len(dod_code_bits: usize) -> usize {
    (64 + 79 + 2 + dod_code_bits + 1 + 36 + 7) / 8
}

#[test]
fn dod_boundaries_round_trip_and_width() {
    // the zero dod takes a single bit
    assert_eq!(dod_trip(0), expected_len(1));
    // the 7-bit class covers [-63, 64] inclusive
    assert_eq!(dod_trip(-63), expected_len(9));
    assert_eq!(dod_trip(64), expected_len(9));
    // one past either end falls into the 9-bit class, which covers [-255, 256]
    assert_eq!(dod_trip(-64), expected_len(12));
    assert_eq!(dod_trip(65), expected_len(12));
    assert_eq!(dod_trip(-255), expected_len(12));
    assert_eq!(dod_trip(256), expected_len(12));
    // one past either end falls into the 12-bit class, which covers [-2047, 2048]
    assert_eq!(dod_trip(-256), expected_len(16));
    assert_eq!(dod_trip(257), expected_len(16));
    assert_eq!(dod_trip(-2047), expected_len(16));
    assert_eq!(dod_trip(2048), expected_len(16));
    // beyond that the 32-bit class carries positive jumps
    assert_eq!(dod_trip(2049), expected_len(36));
}

#[test]
fn datapoint_getters() {
    let dp = DataPoint::new(77, 1234);
    assert_eq!(dp.get_time(), 77);
    assert_eq!(dp.get_value(), 1234);
}

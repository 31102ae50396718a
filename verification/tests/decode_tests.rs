//! Tests for the decoder: the literal byte streams of the reference traces,
//! the error variants, and the terminal behaviour.

use tsz::decode::Error;
use tsz::stream::BufferedReader;
use tsz::{DataPoint, Decode, StdDecoder};

#[test]
fn create_new_decoder() {
    let bytes = vec![0, 0, 0, 0, 88, 89, 157, 151, 240, 0, 0, 0, 0];
    let r = BufferedReader::new(bytes);
    let mut decoder = StdDecoder::new(r);

    assert_eq!(decoder.next().err().unwrap(), Error::EndOfStream);
}

#[test]
fn decode_datapoint() {
    let bytes = vec![
        0, 0, 0, 0, 88, 89, 157, 151, 0, 20, 127, 231, 174, 20, 122, 225, 71, 175, 224, 0, 0, 0,
        0,
    ];
    let r = BufferedReader::new(bytes);
    let mut decoder = StdDecoder::new(r);

    let expected_datapoint = DataPoint::new(1482268055 + 10, (1.24f64).to_bits());

    assert_eq!(decoder.next().unwrap(), expected_datapoint);
    assert_eq!(decoder.next().err().unwrap(), Error::EndOfStream);
}

#[test]
fn decode_multiple_datapoints() {
    let bytes = vec![
        0, 0, 0, 0, 88, 89, 157, 151, 0, 20, 127, 231, 174, 20, 122, 225, 71, 174, 204, 207, 30,
        71, 145, 228, 121, 30, 96, 88, 61, 255, 253, 91, 214, 245, 189, 111, 91, 3, 232, 1, 245,
        97, 88, 86, 21, 133, 55, 202, 1, 17, 15, 92, 40, 245, 194, 151, 128, 0, 0, 0, 0,
    ];
    let r = BufferedReader::new(bytes);
    let mut decoder = StdDecoder::new(r);

    let first_expected_datapoint = DataPoint::new(1482268055 + 10, (1.24f64).to_bits());
    let second_expected_datapoint = DataPoint::new(1482268055 + 20, (1.98f64).to_bits());
    let third_expected_datapoint = DataPoint::new(1482268055 + 32, (2.37f64).to_bits());
    let fourth_expected_datapoint = DataPoint::new(1482268055 + 44, (-7.41f64).to_bits());
    let fifth_expected_datapoint = DataPoint::new(1482268055 + 52, (103.50f64).to_bits());

    assert_eq!(decoder.next().unwrap(), first_expected_datapoint);
    assert_eq!(decoder.next().unwrap(), second_expected_datapoint);
    assert_eq!(decoder.next().unwrap(), third_expected_datapoint);
    assert_eq!(decoder.next().unwrap(), fourth_expected_datapoint);
    assert_eq!(decoder.next().unwrap(), fifth_expected_datapoint);
    assert_eq!(decoder.next().err().unwrap(), Error::EndOfStream);
}

#[test]
fn end_of_stream_is_terminal() {
    let bytes = vec![0, 0, 0, 0, 88, 89, 157, 151, 240, 0, 0, 0, 0];
    let mut decoder = StdDecoder::new(BufferedReader::new(bytes));

    assert_eq!(decoder.next().err().unwrap(), Error::EndOfStream);
    // further calls keep reporting the end without touching the reader
    assert_eq!(decoder.next().err().unwrap(), Error::EndOfStream);
    assert_eq!(decoder.next().err().unwrap(), Error::EndOfStream);
    assert_eq!(decoder.next().err().unwrap(), Error::EndOfStream);
}

#[test]
fn corrupt_end_marker_is_rejected() {
    // a valid header, a leading one bit, but a 36-bit word that is not the
    // end marker (its last bit is set)
    let bytes = vec![0, 0, 0, 0, 88, 89, 157, 151, 0b1111_0000, 0, 0, 0, 0b0001_0000];
    let mut decoder = StdDecoder::new(BufferedReader::new(bytes));

    assert_eq!(decoder.next().err().unwrap(), Error::InvalidEndOfStream);
}

#[test]
fn truncated_header_is_rejected() {
    // fewer than 64 bits cannot hold the initial timestamp
    let bytes = vec![1, 2, 3];
    let mut decoder = StdDecoder::new(BufferedReader::new(bytes));

    assert_eq!(decoder.next().err().unwrap(), Error::InvalidInitialTimestamp);
}

#[test]
fn bare_header_without_marker_hits_eof() {
    // exactly the 64-bit header and nothing after it
    let bytes = vec![0, 0, 0, 0, 88, 89, 157, 151];
    let mut decoder = StdDecoder::new(BufferedReader::new(bytes));

    assert_eq!(
        decoder.next().err().unwrap(),
        Error::Stream(tsz::stream::Error::EOF)
    );
}

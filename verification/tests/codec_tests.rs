//! End-to-end tests: the realistic reference trace, datapoint semantics, and
//! NaN preservation through a full round trip.

use tsz::decode::Error;
use tsz::stream::{BufferedReader, BufferedWriter};
use tsz::{DataPoint, Decode, Encode, StdDecoder, StdEncoder};

const DATA: &'static str = "1482892270,1.76
1482892280,7.78
1482892288,7.95
1482892292,5.53
1482892310,4.41
1482892323,5.30
1482892334,5.30
1482892341,2.92
1482892350,0.73
1482892360,-1.33
1482892370,-1.78
1482892390,-12.45
1482892401,-34.76
1482892490,78.9
1482892500,335.67
1482892800,12908.12
";

#[test]
fn integration_test() {
    let w = BufferedWriter::new();
    let mut encoder = StdEncoder::new(1482892260, w);

    let mut original_datapoints = Vec::new();

    for line in DATA.lines() {
        let substrings: Vec<&str> = line.split(",").collect();
        let t = substrings[0].parse::<u64>().unwrap();
        let v = substrings[1].parse::<f64>().unwrap();
        let dp = DataPoint::new(t, v.to_bits());
        original_datapoints.push(dp);
    }

    for dp in &original_datapoints {
        encoder.encode(*dp);
    }

    let bytes = encoder.close();
    let r = BufferedReader::new(bytes);
    let mut decoder = StdDecoder::new(r);

    let mut new_datapoints = Vec::new();

    let mut done = false;
    loop {
        if done {
            break;
        }

        match decoder.next() {
            Ok(dp) => new_datapoints.push(dp),
            Err(err) => {
                if err == Error::EndOfStream {
                    done = true;
                } else {
                    panic!("Received an error from decoder: {:?}", err);
                }
            }
        };
    }

    assert_eq!(original_datapoints, new_datapoints);
}

#[test]
fn data_point_ordering_test() {
    let dp_1 = DataPoint::new(20, (2.0f64).to_bits());
    let dp_2 = DataPoint::new(10, (3.0f64).to_bits());
    let dp_3 = DataPoint::new(10, (3.0f64).to_bits());

    // The ordering of data points is based on time, so dp_2 will be less than dp_1.
    assert!(dp_2 < dp_1);

    // Data points are equal if their time and values are equal.
    assert!(dp_2 == dp_3 && dp_1 != dp_2);

    // Data points with NaN values are equal if their times are equal.
    let dp_4 = DataPoint::new(10, f64::NAN.to_bits());
    let dp_5 = DataPoint::new(10, f64::NAN.to_bits());
    assert!(dp_4 == dp_5);
}

#[test]
fn nan_bits_survive_the_round_trip() {
    let nan_bits = f64::NAN.to_bits();
    // a second NaN pattern, with a different mantissa
    let odd_nan_bits = nan_bits | 1;
    assert!(f64::from_bits(odd_nan_bits).is_nan());

    let w = BufferedWriter::new();
    let mut encoder = StdEncoder::new(100, w);
    encoder.encode(DataPoint::new(110, nan_bits));
    encoder.encode(DataPoint::new(120, odd_nan_bits));
    let bytes = encoder.close();

    let mut decoder = StdDecoder::new(BufferedReader::new(bytes));
    let p1 = decoder.next().unwrap();
    let p2 = decoder.next().unwrap();
    assert_eq!(decoder.next().err().unwrap(), Error::EndOfStream);

    // the exact bit patterns come back, not merely some NaN
    assert_eq!(p1.get_value(), nan_bits);
    assert_eq!(p2.get_value(), odd_nan_bits);
    assert!(f64::from_bits(p1.get_value()).is_nan());
    assert!(p1.value_is_nan() && p2.value_is_nan());
}

#[test]
fn wide_timestamp_jump_round_trips() {
    // a positive delta-of-delta beyond the 12-bit class uses the 32-bit class
    let w = BufferedWriter::new();
    let mut encoder = StdEncoder::new(0, w);
    encoder.encode(DataPoint::new(10, (1.0f64).to_bits()));
    encoder.encode(DataPoint::new(1_000_000, (2.0f64).to_bits()));
    encoder.encode(DataPoint::new(2_000_000, (4.0f64).to_bits()));
    let bytes = encoder.close();

    let mut decoder = StdDecoder::new(BufferedReader::new(bytes));
    assert_eq!(decoder.next().unwrap(), DataPoint::new(10, (1.0f64).to_bits()));
    assert_eq!(
        decoder.next().unwrap(),
        DataPoint::new(1_000_000, (2.0f64).to_bits())
    );
    assert_eq!(
        decoder.next().unwrap(),
        DataPoint::new(2_000_000, (4.0f64).to_bits())
    );
    assert_eq!(decoder.next().err().unwrap(), Error::EndOfStream);
}

#[test]
fn repeated_values_round_trip() {
    // equal consecutive values exercise the single-bit value code
    let bits = (3.25f64).to_bits();
    let w = BufferedWriter::new();
    let mut encoder = StdEncoder::new(500, w);
    for i in 1..6u64 {
        encoder.encode(DataPoint::new(500 + 10 * i, bits));
    }
    let bytes = encoder.close();

    let mut decoder = StdDecoder::new(BufferedReader::new(bytes));
    for i in 1..6u64 {
        assert_eq!(decoder.next().unwrap(), DataPoint::new(500 + 10 * i, bits));
    }
    assert_eq!(decoder.next().err().unwrap(), Error::EndOfStream);
}

#[test]
fn collect_points_drains_the_decoder() {
    let w = BufferedWriter::new();
    let mut encoder = StdEncoder::new(1482268055, w);
    let p1 = DataPoint::new(1482268055 + 10, (1.24f64).to_bits());
    let p2 = DataPoint::new(1482268055 + 20, (1.98f64).to_bits());
    encoder.encode(p1);
    encoder.encode(p2);
    let bytes = encoder.close();

    let mut decoder = StdDecoder::new(BufferedReader::new(bytes));
    let (points, err) = tsz::decode::collect_points(&mut decoder);
    assert_eq!(points, vec![p1, p2]);
    assert_eq!(err, Error::EndOfStream);
}

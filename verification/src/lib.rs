//! Lossless compression for time series of `(timestamp, value-bits)` pairs,
//! after the Gorilla algorithm: timestamps are stored as variable-length
//! delta-of-delta codes, values as XOR windows, both packed MSB-first into a
//! bit stream.
//!
//! An encoder is started from a header timestamp over an empty bit writer,
//! fed `DataPoint`s in non-decreasing time order, and closed, which appends
//! the end marker and hands back the bytes. A decoder wraps a bit reader
//! over those bytes and yields the points back one `next()` at a time until
//! it reports `EndOfStream`. Both sides carry full functional contracts:
//! `stream_bytes` in [`encode`] pins down every byte an encoder produces,
//! `spec_next` in [`decode`] pins down every step a decoder takes, and
//! [`laws`] proves the two inverse to each other.

use vstd::prelude::*;

pub mod bits;
pub mod stream;

pub mod encode;
pub use self::encode::std_encoder::StdEncoder;
pub use self::encode::Encode;

pub mod decode;
pub use self::decode::std_decoder::StdDecoder;
pub use self::decode::Decode;

pub mod laws;

verus! {

/// A single bit of the compressed stream, `Zero` or `One`.
#[derive(Debug, Clone, Copy, PartialEq, Eq, Structural)]
pub enum Bit {
    Zero,
    One,
}

impl Bit {
    /// The bit as a boolean: `One` is `true`.
    pub open spec fn spec_bool(self) -> bool {
        self is One
    }

    /// Convert a bit to u64, so `Zero` becomes 0 and `One` becomes 1.
    pub fn to_u64(&self) -> (r: u64)
        ensures
            r == if self.spec_bool() { 1u64 } else { 0u64 },
    {
        match self {
            Bit::Zero => 0,
            Bit::One => 1,
        }
    }
}

/// The five state variables that encoder and decoder advance in lockstep,
/// used by the specifications of both: the last timestamp, the last
/// timestamp delta, the bit pattern of the last value, and the XOR window
/// (leading and trailing zero counts; 64 is the sentinel for "no window").
pub struct CodecState {
    pub time: u64,
    pub delta: u64,
    pub value_bits: u64,
    pub leading: u32,
    pub trailing: u32,
}

/// Whether a 64-bit pattern is an IEEE-754 binary64 NaN: exponent all ones
/// and a non-zero mantissa.
pub open spec fn is_nan_bits(b: u64) -> bool {
    (b >> 52) & 0x7ff == 0x7ff && b & 0x000f_ffff_ffff_ffff != 0
}

/// DataPoint
///
/// A single datapoint: a time and a value. The value is carried as the bit
/// pattern of an IEEE-754 binary64 number; the codec never interprets it
/// numerically. Two datapoints are equal when their times agree and their
/// values agree bitwise, except that any NaN pattern counts as equal to any
/// other NaN pattern (NaN is a single "missing" sentinel). Ordering is by
/// time only.
#[derive(Debug, Clone, Copy)]
pub struct DataPoint {
    pub time: u64,
    pub value: u64,
}

impl DataPoint {
    /// Create a new DataPoint from a time and a value bit pattern.
    pub fn new(time: u64, value: u64) -> (r: Self)
        ensures
            r == (DataPoint { time, value }),
    {
        DataPoint { time, value }
    }

    /// Get the time for this DataPoint.
    pub fn get_time(&self) -> (r: u64)
        ensures
            r == self.time,
    {
        self.time
    }

    /// Get the value bit pattern for this DataPoint.
    pub fn get_value(&self) -> (r: u64)
        ensures
            r == self.value,
    {
        self.value
    }

    /// Whether this DataPoint's value is a NaN pattern.
    pub fn value_is_nan(&self) -> (r: bool)
        ensures
            r == is_nan_bits(self.value),
    {
        (self.value >> 52u64) & 0x7ff == 0x7ff && self.value & 0x000f_ffff_ffff_ffff != 0
    }

    /// What `==` computes on datapoints: equal times, and bitwise-equal
    /// values, except that all NaN patterns are identified.
    pub open spec fn same(self, other: Self) -> bool {
        self.time == other.time && if is_nan_bits(self.value) {
            is_nan_bits(other.value)
        } else {
            self.value == other.value
        }
    }
}

impl PartialEq for DataPoint {
    fn eq(&self, other: &DataPoint) -> (r: bool) {
        if self.time == other.time {
            if self.value_is_nan() {
                other.value_is_nan()
            } else {
                self.value == other.value
            }
        } else {
            false
        }
    }
}

impl vstd::std_specs::cmp::PartialEqSpecImpl for DataPoint {
    open spec fn obeys_eq_spec() -> bool {
        true
    }

    open spec fn eq_spec(&self, other: &DataPoint) -> bool {
        self.same(*other)
    }
}

impl Eq for DataPoint {

}

impl PartialOrd for DataPoint {
    fn partial_cmp(&self, other: &Self) -> (r: Option<core::cmp::Ordering>) {
        if self.time < other.time {
            Some(core::cmp::Ordering::Less)
        } else if self.time == other.time {
            Some(core::cmp::Ordering::Equal)
        } else {
            Some(core::cmp::Ordering::Greater)
        }
    }
}

impl vstd::std_specs::cmp::PartialOrdSpecImpl for DataPoint {
    open spec fn obeys_partial_cmp_spec() -> bool {
        true
    }

    open spec fn partial_cmp_spec(&self, other: &DataPoint) -> Option<core::cmp::Ordering> {
        if self.time < other.time {
            Some(core::cmp::Ordering::Less)
        } else if self.time == other.time {
            Some(core::cmp::Ordering::Equal)
        } else {
            Some(core::cmp::Ordering::Greater)
        }
    }
}

} // verus!

//! Tests for the bit layer: readers, writers, and their round trip.

use tsz::stream::{BufferedReader, BufferedWriter, Error, Read, Write};
use tsz::Bit;

#[test]
fn read_bit() {
    let bytes = vec![0b01101100, 0b11101001];
    let mut b = BufferedReader::new(bytes);

    assert_eq!(b.read_bit().unwrap(), Bit::Zero);
    assert_eq!(b.read_bit().unwrap(), Bit::One);
    assert_eq!(b.read_bit().unwrap(), Bit::One);
    assert_eq!(b.read_bit().unwrap(), Bit::Zero);
    assert_eq!(b.read_bit().unwrap(), Bit::One);
    assert_eq!(b.read_bit().unwrap(), Bit::One);
    assert_eq!(b.read_bit().unwrap(), Bit::Zero);
    assert_eq!(b.read_bit().unwrap(), Bit::Zero);

    assert_eq!(b.read_bit().unwrap(), Bit::One);
    assert_eq!(b.read_bit().unwrap(), Bit::One);
    assert_eq!(b.read_bit().unwrap(), Bit::One);
    assert_eq!(b.read_bit().unwrap(), Bit::Zero);
    assert_eq!(b.read_bit().unwrap(), Bit::One);
    assert_eq!(b.read_bit().unwrap(), Bit::Zero);
    assert_eq!(b.read_bit().unwrap(), Bit::Zero);
    assert_eq!(b.read_bit().unwrap(), Bit::One);

    assert_eq!(b.read_bit().err().unwrap(), Error::EOF);
}

#[test]
fn read_byte() {
    let bytes = vec![100, 25, 0, 240, 240];
    let mut b = BufferedReader::new(bytes);

    assert_eq!(b.read_byte().unwrap(), 100);
    assert_eq!(b.read_byte().unwrap(), 25);
    assert_eq!(b.read_byte().unwrap(), 0);

    // read some individual bits so we can test `read_byte` when the
    // position in the byte we are currently reading is non-zero
    assert_eq!(b.read_bit().unwrap(), Bit::One);
    assert_eq!(b.read_bit().unwrap(), Bit::One);
    assert_eq!(b.read_bit().unwrap(), Bit::One);
    assert_eq!(b.read_bit().unwrap(), Bit::One);

    assert_eq!(b.read_byte().unwrap(), 15);

    assert_eq!(b.read_byte().err().unwrap(), Error::EOF);
}

#[test]
fn read_bits() {
    let bytes = vec![0b01010111, 0b00011101, 0b11110101, 0b00010100];
    let mut b = BufferedReader::new(bytes);

    assert_eq!(b.read_bits(3).unwrap(), 0b010);
    assert_eq!(b.read_bits(1).unwrap(), 0b1);
    assert_eq!(b.read_bits(20).unwrap(), 0b01110001110111110101);
    assert_eq!(b.read_bits(8).unwrap(), 0b00010100);
    assert_eq!(b.read_bits(4).err().unwrap(), Error::EOF);
}

#[test]
fn read_mixed() {
    let bytes = vec![0b01101101, 0b01101101];
    let mut b = BufferedReader::new(bytes);

    assert_eq!(b.read_bit().unwrap(), Bit::Zero);
    assert_eq!(b.read_bits(3).unwrap(), 0b110);
    assert_eq!(b.read_byte().unwrap(), 0b11010110);
    assert_eq!(b.read_bits(2).unwrap(), 0b11);
    assert_eq!(b.read_bit().unwrap(), Bit::Zero);
    assert_eq!(b.read_bits(1).unwrap(), 0b1);
    assert_eq!(b.read_bit().err().unwrap(), Error::EOF);
}

#[test]
fn peak_bits() {
    let bytes = vec![0b01010111, 0b00011101, 0b11110101, 0b00010100];
    let mut b = BufferedReader::new(bytes);

    assert_eq!(b.peak_bits(1).unwrap(), 0b0);
    assert_eq!(b.peak_bits(4).unwrap(), 0b0101);
    assert_eq!(b.peak_bits(8).unwrap(), 0b01010111);
    assert_eq!(b.peak_bits(20).unwrap(), 0b01010111000111011111);

    // read some individual bits so we can test `peak_bits` when the
    // position in the byte we are currently reading is non-zero
    assert_eq!(b.read_bits(12).unwrap(), 0b010101110001);

    assert_eq!(b.peak_bits(1).unwrap(), 0b1);
    assert_eq!(b.peak_bits(4).unwrap(), 0b1101);
    assert_eq!(b.peak_bits(8).unwrap(), 0b11011111);
    assert_eq!(b.peak_bits(20).unwrap(), 0b11011111010100010100);

    assert_eq!(b.peak_bits(22).err().unwrap(), Error::EOF);
}

#[test]
fn write_bits_to_bytes() {
    let mut w = BufferedWriter::new();
    w.write_bit(Bit::One);
    w.write_bit(Bit::Zero);
    w.write_bit(Bit::One);
    w.write_bit(Bit::One);
    w.write_byte(0b1100_0011);
    w.write_bits(0b1_0110, 5);
    let bytes = w.close();
    // 1011 1100 0011 1011 0(000): packed MSB-first, zero-padded
    assert_eq!(bytes, vec![0b1011_1100, 0b0011_1011, 0b0000_0000]);
}

#[test]
fn write_then_read_interleaved() {
    let mut w = BufferedWriter::new();
    w.write_bit(Bit::One);
    w.write_bits(0b110, 3);
    w.write_byte(214);
    w.write_bits(0x0123_4567_89AB_CDEF, 64);
    w.write_bit(Bit::Zero);
    w.write_bits(0x7FFF, 15);
    // 1 + 3 + 8 + 64 + 1 + 15 = 92 bits, so 12 bytes with 4 padding bits
    let bytes = w.close();
    assert_eq!(bytes.len(), 12);

    let mut r = BufferedReader::new(bytes);
    assert_eq!(r.read_bit().unwrap(), Bit::One);
    assert_eq!(r.read_bits(3).unwrap(), 0b110);
    assert_eq!(r.read_byte().unwrap(), 214);
    assert_eq!(r.read_bits(64).unwrap(), 0x0123_4567_89AB_CDEF);
    assert_eq!(r.read_bit().unwrap(), Bit::Zero);
    assert_eq!(r.read_bits(15).unwrap(), 0x7FFF);
    // only the four zero padding bits remain
    assert_eq!(r.read_bits(4).unwrap(), 0);
    assert_eq!(r.read_bit().err().unwrap(), Error::EOF);
}

#[test]
fn write_bits_truncates_to_field() {
    let mut w = BufferedWriter::new();
    // only the low 8 bits of the value fit the 8-bit field
    w.write_bits(0xABCD, 8);
    let bytes = w.close();
    assert_eq!(bytes, vec![0xCD]);
}

#[test]
fn bit_to_u64() {
    assert_eq!(Bit::Zero.to_u64(), 0);
    assert_eq!(Bit::One.to_u64(), 1);
}

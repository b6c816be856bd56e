use bitstream_io::{BigEndian, BitWrite, BitWriter};
use rustgzip::bits::BitSink;
use rustgzip::block::fixed_codes;
use rustgzip::symbol::{dist_repr, length_repr};

#[test]
fn test_bitstream_test_to_written() {
    let mut buf = Vec::new();
    let mut writer_be = BitWriter::endian(&mut buf, BigEndian);
    let mut writer_le = BitSink::new();

    writer_be.write(18, 0b0011_0011_1100_1100_10u32).unwrap();
    writer_le.write_bits(18, 0b0011_0011_1100_1100_10);
    let unwritten_be = writer_be.into_unwritten();
    let (buf2, unwritten_le) = writer_le.into_trailing();

    assert_eq!(buf, vec![0b0011_0011, 0b1100_1100]);
    assert_eq!(buf2, vec![0b00_1100_10, 0b11_0011_11]);
    assert_eq!(unwritten_be, (2_u32, 0b10_u8));
    assert_eq!(unwritten_le, (2_u32, 0b00_u8));
}

#[test]
fn huffman_test_to_written() {
    let mut writer = BitSink::new();
    writer.write_bits(3, 0b100);
    assert_eq!(writer.into_trailing(), (Vec::new(), (3_u32, 0b100_u8)));
}

#[test]
fn test_to_unwritten() {
    let mut writer = BitSink::new();
    writer.write_bits(3, 0b100);
    writer.write_bit(false);
    writer.write_bit(false);
    writer.write_bit(true);
    assert_eq!(writer.into_trailing(), (Vec::new(), (6_u32, 0b100100_u8)));
}

#[test]
fn test_fixed_huffman() {
    println!("{:?}", length_repr(7));
    println!("{:?}", dist_repr(14));

    let (lit, dist) = fixed_codes();
    let mut writer = BitSink::new();
    let (code, bits, extra) = length_repr(7);
    lit.encode_char(&mut writer, code);
    writer.write_bits(bits as u32, extra as u32);

    let (code, bits, extra) = dist_repr(14);
    dist.encode_char(&mut writer, code as u16);
    writer.write_bits(bits as u32, extra as u32);

    let (buf, a) = writer.into_trailing();
    println!("{:?} {:?}", buf, a);
    // length 7: code 261 = 0000101 (7 bits, MSB first); distance 14: code 7 = 00111
    // then 2 extra bits of value 1, LSB first.
    assert_eq!(buf, vec![0b0101_0000]);
    assert_eq!(a, (6, 0b01_1110));
}

#[test]
fn write_code_is_msb_first() {
    let mut w = BitSink::new();
    w.write_code(4, 0b0001);
    w.write_code(4, 0b1000);
    assert_eq!(w.finish(), vec![0b0001_1000]);
}

#[test]
fn byte_align_pads_with_zeros() {
    let mut w = BitSink::new();
    w.write_bits(3, 0b111);
    w.byte_align();
    w.write_bits(8, 0xAB);
    assert_eq!(w.finish(), vec![0b0000_0111, 0xAB]);
}

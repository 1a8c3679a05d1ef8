use rtools::bitmanipulation::{BitReader, BitWriter};

#[test]
fn can_read_from_one_byte() {
    let s: [u8; 1] = [0b10101101];
    let mut reader = BitReader::new(s.to_vec());

    let mut buf: Vec<u8> = vec![0; 8];
    let expected = [0x01, 0x00, 0x01, 0x01, 0x00, 0x01, 0x00, 0x01];

    let bits_read = reader.read(&mut buf);
    assert_eq!(bits_read, 8);
    assert!(buf.iter().eq(expected.iter()));
}

#[test]
fn can_read_from_more_bytes() {
    let s: [u8; 2] = [0b10101101, 0b10101010];
    let mut reader = BitReader::new(s.to_vec());

    let mut buf: Vec<u8> = vec![0; 16];
    let expected: [u8; 16] = [1, 0, 1, 1, 0, 1, 0, 1, 0, 1, 0, 1, 0, 1, 0, 1];

    let bits_read = reader.read(&mut buf);
    assert_eq!(bits_read, 16);
    assert!(buf.iter().eq(expected.iter()));
}

#[test]
fn read_empty() {
    let s: [u8; 0] = [];
    let mut buf: Vec<u8> = vec![0];
    let mut reader = BitReader::new(s.to_vec());
    assert_eq!(reader.read(&mut buf), 0);
}

#[test]
fn read_stops_at_the_end_and_keeps_the_rest() {
    let mut reader = BitReader::new(vec![0b0000_0011]);
    let mut buf: Vec<u8> = vec![7; 10];
    assert_eq!(reader.read(&mut buf), 8);
    assert_eq!(buf, vec![1, 1, 0, 0, 0, 0, 0, 0, 7, 7]);
    assert_eq!(reader.read(&mut buf), 0);
}

#[test]
fn write_empty() {
    let mut writer = BitWriter::new();
    writer.flush();
    let output = writer.into_bytes();

    assert_eq!(0, output.len());
}

#[test]
fn write_some_bits() {
    let mut writer = BitWriter::new();
    writer.write(&[0x01]);
    writer.write(&[0x00]);
    writer.write(&[0x01]);
    writer.flush();
    let output = writer.into_bytes();

    assert_eq!(1, output.len());
    assert_eq!([0x05], output[0..1]);
}

#[test]
fn write_more_than_one_bit_at_a_time() {
    let mut writer = BitWriter::new();
    writer.write(&[0x01, 0x01, 0x01]);
    writer.flush();
    let output = writer.into_bytes();

    assert_eq!(1, output.len());
    assert_eq!([0x07], output[0..1]);
}

#[test]
fn write_more_than_one_byte() {
    let mut writer = BitWriter::new();
    let written = writer.write(&[
        0x01, 0x01, 0x01, 0x00, 0x00, 0x01, 0x00, 0x01, //first  byte
        0x00, 0x00, 0x00, 0x01, // second byte
    ]);
    writer.flush();
    assert_eq!(12, written);
    let output = writer.into_bytes();

    assert_eq!(2, output.len());
    assert_eq!([0xA7, 0x08], output[0..2]);
}

#[test]
fn write_keeps_only_the_lowest_bit() {
    let mut writer = BitWriter::new();
    writer.write(&[0x03, 0x02, 0xFF]);
    writer.flush();
    assert_eq!(writer.into_bytes(), vec![0x05]);
}

#[test]
fn write_exactly_one_byte() {
    let mut writer = BitWriter::new();
    writer.write(&[1, 0, 0, 0, 0, 0, 0, 1]);
    writer.flush();
    assert_eq!(writer.into_bytes(), vec![0x81]);
}

#[test]
fn write_and_read() {
    let input = [
        0x01, 0x01, 0x01, 0x00, 0x00, 0x01, 0x00, 0x01, //first  byte
        0x00, 0x00, 0x00, 0x01, // second byte
    ];
    let mut writer = BitWriter::new();
    writer.write(&input);
    writer.flush();
    let buffer = writer.into_bytes();

    let mut reader = BitReader::new(buffer);

    let mut output: Vec<u8> = vec![0; 12];
    reader.read(&mut output);

    assert_eq!(output, input);
}

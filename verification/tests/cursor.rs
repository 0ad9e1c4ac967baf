//! The byte cursors: sequential reads and appending writes.

use dhns::reader::Reader;
use dhns::writer::Writer;

#[test]
fn test_new() {
    let buf = vec![];
    let rdr = Reader::new(&buf);

    assert_eq!(0, rdr.pos);
    assert_eq!(0, rdr.buf.len())
}

#[test]
fn test_read_u16() {
    let buf = vec![0xDEu8, 0xAD, 0xBE, 0xEF];
    let mut rdr = Reader::new(&buf);

    assert_eq!(0xDEAD, rdr.read_u16());
    assert_eq!(0xBEEF, rdr.read_u16());
}

#[test]
fn test_read_u8() {
    let buf = vec![0xDEu8, 0xAD];
    let mut rdr = Reader::new(&buf);

    assert_eq!(0xDE, rdr.read_u8());
    assert_eq!(0xAD, rdr.read_u8());
}

#[test]
fn test_write_u8() {
    let mut writer = Writer::new();

    writer.write_u8(42);
    assert_eq!(42, writer.buf[0])
}

#[test]
fn test_read_u32() {
    let buf = vec![0x01u8, 0x02, 0x03, 0x04];
    let mut rdr = Reader::new(&buf);

    assert_eq!(0x01020304, rdr.read_u32());
    assert_eq!(0, rdr.reminder());
}

#[test]
fn test_read_vec_and_str() {
    let buf = vec![b'h', b'i', 0xFF];
    let mut rdr = Reader::new(&buf);
    assert_eq!(vec![b'h', b'i'], rdr.read_vec(2));

    let mut rdr = Reader::new(&buf);
    assert_eq!(Some(String::from("hi")), rdr.read_str(2));

    let mut rdr = Reader::new(&buf);
    assert_eq!(None, rdr.read_str(3));
}

#[test]
fn test_seek_returns_old_position() {
    let buf = vec![1u8, 2, 3, 4];
    let mut rdr = Reader::new(&buf);
    rdr.read_u8();
    let old = rdr.seek(3);
    assert_eq!(1, old);
    assert_eq!(4, rdr.read_u8());
}

#[test]
fn test_write_u16_u32_big_endian() {
    let mut writer = Writer::new();
    writer.write_u16(0xDEAD);
    writer.write_u32(0x01020304);
    assert_eq!(vec![0xDEu8, 0xAD, 0x01, 0x02, 0x03, 0x04], writer.buf);
}

#[test]
fn test_write_vec_appends() {
    let mut writer = Writer::new();
    writer.write_u8(1);
    writer.write_vec(&vec![2u8, 3]);
    assert_eq!(vec![1u8, 2, 3], writer.buf);
}

#[test]
fn test_read_str_multibyte() {
    let buf = vec![0xC3u8, 0xA9];
    let mut rdr = Reader::new(&buf);
    assert_eq!(Some(String::from("\u{e9}")), rdr.read_str(2));

    let mut rdr = Reader::new(&buf);
    assert_eq!(None, rdr.read_str(1));
}

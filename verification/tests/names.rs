//! Domain names: textual form, wire form, and compression pointers.

use dhns::error::DecodeError;
use dhns::qname::QName;
use dhns::reader::Reader;
use dhns::writer::Writer;

#[test]
fn from_str_splits_on_dots() {
    let name = QName::from_str("example.com");
    assert_eq!(&vec![String::from("example"), String::from("com")], name.labels());
}

#[test]
fn fqdn_joins_with_dots() {
    let name = QName::new(vec![String::from("a"), String::from("bc"), String::from("de")]);
    assert_eq!("a.bc.de", name.fqdn());
}

#[test]
fn name_round_trip() {
    let name = QName::from_str("www.example.com");
    let mut writer = Writer::new();
    name.write(&mut writer);
    assert_eq!(
        vec![3u8, b'w', b'w', b'w', 7, b'e', b'x', b'a', b'm', b'p', b'l', b'e', 3, b'c', b'o', b'm', 0],
        writer.buf
    );

    let mut rdr = Reader::new(&writer.buf);
    let back = QName::read(&mut rdr).unwrap();
    assert_eq!(name, back);
    assert_eq!(0, rdr.reminder());
}

#[test]
fn pointer_to_offset_twelve() {
    // A name at offset 12, and later the two bytes 0xC0 0x0C where a
    // name is expected: a pointer to offset 12.
    let mut buf = vec![0u8; 12];
    buf.extend_from_slice(&[3, b'a', b'b', b'c', 0]);
    buf.extend_from_slice(&[0xC0, 0x0C]);

    let mut rdr = Reader::new(&buf);
    rdr.seek(17);
    let name = QName::read(&mut rdr).unwrap();
    assert_eq!("abc", name.fqdn());
    // The cursor stands right after the pointer's two bytes, not at
    // the position reached inside the pointed-to region.
    assert_eq!(19, rdr.pos);
}

#[test]
fn pointer_chain_resolves_transparently() {
    let mut buf = vec![2u8, b'h', b'i', 0];
    buf.extend_from_slice(&[0xC0, 0x00]);  // offset 4: pointer to 0
    buf.extend_from_slice(&[1, b'x', 0xC0, 0x04]);  // offset 6: label then pointer to 4

    let mut rdr = Reader::new(&buf);
    rdr.seek(6);
    let name = QName::read(&mut rdr).unwrap();
    assert_eq!("x.hi", name.fqdn());
    // Restored to just after the first pointer followed.
    assert_eq!(10, rdr.pos);
}

#[test]
fn pointer_loop_is_rejected() {
    // A pointer that aims at itself would loop forever; the decoder
    // reports it instead.
    let buf = vec![0xC0u8, 0x00];
    let mut rdr = Reader::new(&buf);
    assert_eq!(Err(DecodeError::Incomplete), QName::read(&mut rdr));
}

#[test]
fn truncated_name_is_rejected() {
    let buf = vec![3u8, b'a', b'b'];
    let mut rdr = Reader::new(&buf);
    assert_eq!(Err(DecodeError::Incomplete), QName::read(&mut rdr));
}

#[test]
fn non_ascii_label_decodes() {
    // A label of valid UTF-8 bytes beyond the seven-bit range decodes
    // to its text and encodes back to the same bytes.
    let buf = vec![2u8, 0xC3, 0xA9, 0];
    let mut rdr = Reader::new(&buf);
    let name = QName::read(&mut rdr).unwrap();
    assert_eq!("\u{e9}", name.fqdn());
    assert_eq!(4, rdr.pos);

    let mut writer = Writer::new();
    name.write(&mut writer);
    assert_eq!(buf, writer.buf);
}

#[test]
fn invalid_label_bytes_rejected() {
    // 0xC3 opens a two-byte UTF-8 sequence but 0x28 cannot continue
    // it, so the label is not text.
    let buf = vec![2u8, 0xC3, 0x28, 0];
    let mut rdr = Reader::new(&buf);
    assert_eq!(Err(DecodeError::Incomplete), QName::read(&mut rdr));
}

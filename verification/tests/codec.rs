//! Header bit-packing, record payload shapes, and whole-message
//! round trips.

use dhns::error::DecodeError;
use dhns::header::Header;
use dhns::message::Message;
use dhns::qclass::QClass;
use dhns::qname::QName;
use dhns::qtype::QType;
use dhns::question::Question;
use dhns::reader::Reader;
use dhns::record::Record;
use dhns::writer::Writer;

fn sample_header() -> Header {
    Header {
        id: 0x1234,
        qr: 1,
        opcode: 11,
        aa: 1,
        tc: 0,
        rd: 1,
        ra: 1,
        z: 5,
        rcode: 9,
    }
}

#[test]
fn header_bits_round_trip() {
    let h = sample_header();
    let mut writer = Writer::new();
    h.write(&mut writer);
    assert_eq!(4, writer.buf.len());

    let mut rdr = Reader::new(&writer.buf);
    let back = Header::read(&mut rdr).unwrap();
    assert_eq!(h, back);
}

#[test]
fn header_out_of_range_fields_are_truncated() {
    let mut h = sample_header();
    h.opcode = 0xFF;
    h.z = 0xFF;
    h.qr = 3;
    let mut writer = Writer::new();
    h.write(&mut writer);

    let mut rdr = Reader::new(&writer.buf);
    let back = Header::read(&mut rdr).unwrap();
    assert_eq!(0xF, back.opcode);
    assert_eq!(7, back.z);
    assert_eq!(1, back.qr);
    assert_eq!(h.id, back.id);
}

#[test]
fn header_truncated_buffer_fails() {
    let buf = vec![0u8, 1, 2];
    let mut rdr = Reader::new(&buf);
    assert_eq!(Err(DecodeError::Incomplete), Header::read(&mut rdr));
}

#[test]
fn fresh_header_has_zero_flags() {
    let h = Header::new();
    assert_eq!((0, 0, 0, 0, 0), (h.qr, h.opcode, h.aa, h.tc, h.rd));
    assert_eq!((0, 0, 0), (h.ra, h.z, h.rcode));
}

#[test]
fn qtype_codes_round_trip() {
    assert!(matches!(QType::from_num(1), QType::A));
    assert!(matches!(QType::from_num(15), QType::MX));
    assert!(matches!(QType::from_num(41), QType::OPTION));
    assert!(matches!(QType::from_num(999), QType::UNKNOWN(999)));
    assert_eq!(16, QType::TXT.to_num());
    assert_eq!(999, QType::UNKNOWN(999).to_num());
    assert!(matches!(QType::from_str("CNAME"), Some(QType::CNAME)));
    assert!(matches!(QType::from_str("BOGUS"), None));
}

#[test]
fn qclass_codes_round_trip() {
    assert!(matches!(QClass::from_num(1), QClass::INTERNET));
    assert!(matches!(QClass::from_num(254), QClass::UNKNOWN(254)));
    assert_eq!(1, QClass::INTERNET.to_num());
    assert_eq!(254, QClass::UNKNOWN(254).to_num());
}

#[test]
fn question_for_example_com() {
    let mut msg = Message::new();
    msg.ask(Question::new(QName::from_str("example.com"), QType::A, None));

    let mut buf: Vec<u8> = vec![];
    msg.write(&mut buf);

    let back = Message::read(&buf).unwrap();
    let qs = back.questions();
    assert_eq!(1, qs.len());
    assert_eq!(&vec![String::from("example"), String::from("com")], qs[0].qname.labels());
    assert!(matches!(qs[0].qtype, QType::A));
    assert!(matches!(qs[0].class, QClass::INTERNET));
}

#[test]
fn truncated_message_fails() {
    let mut msg = Message::new();
    msg.ask(Question::new(QName::from_str("example.com"), QType::A, None));
    let mut buf: Vec<u8> = vec![];
    msg.write(&mut buf);

    buf.pop();
    assert_eq!(Err(DecodeError::Incomplete), Message::read(&buf));
}

#[test]
fn trailing_bytes_fail() {
    let mut msg = Message::new();
    msg.ask(Question::new(QName::from_str("example.com"), QType::A, None));
    let mut buf: Vec<u8> = vec![];
    msg.write(&mut buf);

    buf.push(0);
    assert_eq!(Err(DecodeError::TrailingBytes), Message::read(&buf));
}

fn record_round_trip(rec: Record) -> Record {
    let mut writer = Writer::new();
    rec.write(&mut writer);
    let mut rdr = Reader::new(&writer.buf);
    let back = Record::read(&mut rdr).unwrap();
    assert_eq!(0, rdr.reminder());
    back
}

#[test]
fn a_record_round_trip() {
    let rec = Record::A {
        qname: QName::from_str("example.com"),
        class: QClass::INTERNET,
        ttl: 3600,
        addr: [192, 0, 2, 7],
    };
    let back = record_round_trip(rec);
    assert_eq!(
        Record::A {
            qname: QName::from_str("example.com"),
            class: QClass::INTERNET,
            ttl: 3600,
            addr: [192, 0, 2, 7],
        },
        back
    );
}

#[test]
fn soa_record_round_trip() {
    let rec = Record::SOA {
        qname: QName::from_str("example.com"),
        class: QClass::INTERNET,
        ttl: 60,
        mname: QName::from_str("ns.example.com"),
        rname: QName::from_str("admin.example.com"),
        serial: 2024010101,
        refresh: 7200,
        retry: 600,
        expire: 1209600,
        minimum: 300,
    };
    let back = record_round_trip(rec);
    assert!(matches!(&back, Record::SOA { serial: 2024010101, minimum: 300, .. }));
}

#[test]
fn mx_record_round_trip() {
    let rec = Record::MX {
        qname: QName::from_str("example.com"),
        class: QClass::INTERNET,
        ttl: 600,
        preference: 10,
        exchange: QName::from_str("mail.example.com"),
    };
    let back = record_round_trip(rec);
    match &back {
        Record::MX { preference, exchange, .. } => {
            assert_eq!(10, *preference);
            assert_eq!("mail.example.com", exchange.fqdn());
        },
        other => panic!("expected a mail-exchange record, got {:?}", other),
    }
}

#[test]
fn txt_record_round_trip() {
    let rec = Record::TXT {
        qname: QName::from_str("example.com"),
        class: QClass::INTERNET,
        ttl: 60,
        data: String::from("hello world"),
    };
    let back = record_round_trip(rec);
    match &back {
        Record::TXT { data, .. } => assert_eq!("hello world", data),
        other => panic!("expected a text record, got {:?}", other),
    }
}

#[test]
fn option_record_round_trip() {
    let rec = Record::Option { payload_size: 4096, rcode: 0, rdata: vec![1, 2, 3] };
    let back = record_round_trip(rec);
    assert_eq!(Record::Option { payload_size: 4096, rcode: 0, rdata: vec![1, 2, 3] }, back);
}

#[test]
fn unknown_type_code_is_preserved() {
    // Type code 0x1234 is no known type: decoding keeps the code and
    // the raw payload, and re-encoding reproduces the code exactly.
    let mut writer = Writer::new();
    QName::from_str("x").write(&mut writer);
    writer.write_u16(0x1234);
    writer.write_u16(1);
    writer.write_u32(99);
    writer.write_u16(2);
    writer.write_vec(&vec![9, 9]);

    let mut rdr = Reader::new(&writer.buf);
    let rec = Record::read(&mut rdr).unwrap();
    match &rec {
        Record::UNKNOWN { qtype, rdata, .. } => {
            assert!(matches!(qtype, QType::UNKNOWN(0x1234)));
            assert_eq!(&vec![9u8, 9], rdata);
        },
        other => panic!("expected an opaque record, got {:?}", other),
    }

    let mut writer2 = Writer::new();
    rec.write(&mut writer2);
    assert_eq!(writer.buf, writer2.buf);
}

#[test]
fn unknown_class_code_is_preserved() {
    let rec = Record::A {
        qname: QName::from_str("x"),
        class: QClass::UNKNOWN(0x7E57),
        ttl: 1,
        addr: [1, 2, 3, 4],
    };
    let back = record_round_trip(rec);
    match &back {
        Record::A { class, .. } => assert!(matches!(class, QClass::UNKNOWN(0x7E57))),
        other => panic!("expected an address record, got {:?}", other),
    }
}

#[test]
fn record_truncated_payload_fails() {
    let mut writer = Writer::new();
    QName::from_str("x").write(&mut writer);
    writer.write_u16(1);
    writer.write_u16(1);
    writer.write_u32(0);
    writer.write_u16(4);
    writer.write_u8(10);  // only one of the four address bytes

    let mut rdr = Reader::new(&writer.buf);
    assert_eq!(Err(DecodeError::Incomplete), Record::read(&mut rdr));
}

#[test]
fn empty_buffer_fails() {
    let buf: Vec<u8> = vec![];
    assert_eq!(Err(DecodeError::Incomplete), Message::read(&buf));
}

#[test]
fn message_with_answer_record_round_trips() {
    let mut writer = Writer::new();
    sample_header().write(&mut writer);
    writer.write_u16(0);  // questions
    writer.write_u16(1);  // answers
    writer.write_u16(0);  // authority
    writer.write_u16(1);  // additional
    Record::A {
        qname: QName::from_str("example.com"),
        class: QClass::INTERNET,
        ttl: 300,
        addr: [10, 0, 0, 1],
    }
    .write(&mut writer);
    Record::Option { payload_size: 1232, rcode: 0, rdata: vec![] }.write(&mut writer);

    let msg = Message::read(&writer.buf).unwrap();
    assert_eq!(0, msg.questions().len());

    let mut again: Vec<u8> = vec![];
    msg.write(&mut again);
    assert_eq!(writer.buf, again);
}

#[test]
fn declared_count_without_records_fails() {
    let mut writer = Writer::new();
    sample_header().write(&mut writer);
    writer.write_u16(0);
    writer.write_u16(2);  // two answers declared, none present
    writer.write_u16(0);
    writer.write_u16(0);

    assert_eq!(Err(DecodeError::Incomplete), Message::read(&writer.buf));
}

#[test]
fn txt_record_with_accented_text() {
    let rec = Record::TXT {
        qname: QName::from_str("example.com"),
        class: QClass::INTERNET,
        ttl: 60,
        data: String::from("caf\u{e9}"),
    };
    let back = record_round_trip(rec);
    match &back {
        Record::TXT { data, .. } => assert_eq!("caf\u{e9}", data),
        other => panic!("expected a text record, got {:?}", other),
    }
}

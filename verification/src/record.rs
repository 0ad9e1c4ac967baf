//! Resource records: a closed set of variants sharing a common
//! name/class/ttl prefix, a pseudo-record for protocol-extension
//! negotiation, and an opaque fallback that preserves records of
//! unrecognized type.

use vstd::prelude::*;
use vstd::utf8::decode_utf8;
use vstd::utf8::encode_utf8;
use vstd::utf8::encode_utf8_decode_utf8;
use vstd::utf8::encode_utf8_valid_utf8;
use vstd::utf8::valid_utf8;

use crate::error::DecodeError;
use crate::qclass::QClass;
use crate::qclass::qclass_num;
use crate::qclass::qclass_of;
use crate::qclass::wf_qclass;
use crate::qname::QName;
use crate::qtype::QType;
use crate::qtype::qtype_num;
use crate::qtype::qtype_of;
use crate::reader::Reader;
use crate::wire;
use crate::writer::Writer;

verus! {

/// The mathematical value of a resource record.
pub ghost enum RecordV {
    Unknown {
        name: Seq<Seq<char>>,
        qtype: QType,
        class: QClass,
        ttl: u32,
        rdata: Seq<u8>,
    },
    A { name: Seq<Seq<char>>, class: QClass, ttl: u32, addr: Seq<u8> },
    Ns { name: Seq<Seq<char>>, class: QClass, ttl: u32, nsdname: Seq<Seq<char>> },
    Soa {
        name: Seq<Seq<char>>,
        class: QClass,
        ttl: u32,
        mname: Seq<Seq<char>>,
        rname: Seq<Seq<char>>,
        serial: u32,
        refresh: u32,
        retry: u32,
        expire: u32,
        minimum: u32,
    },
    Cname { name: Seq<Seq<char>>, class: QClass, ttl: u32, cname: Seq<Seq<char>> },
    Ptr { name: Seq<Seq<char>>, class: QClass, ttl: u32, ptrdname: Seq<Seq<char>> },
    Mx {
        name: Seq<Seq<char>>,
        class: QClass,
        ttl: u32,
        preference: u16,
        exchange: Seq<Seq<char>>,
    },
    Txt { name: Seq<Seq<char>>, class: QClass, ttl: u32, data: Seq<char> },
    Opt { payload_size: u16, rcode: u32, rdata: Seq<u8> },
}

/// The common wire prefix of every true record: name, 16-bit type
/// code, 16-bit class code, 32-bit ttl, 16-bit declared payload
/// length.
pub open spec fn record_head_wire(
    name: Seq<Seq<char>>,
    tnum: u16,
    cnum: u16,
    ttl: u32,
    rdlen: u16,
) -> Seq<u8> {
    wire::name_wire(name) + wire::u16_bytes(tnum) + wire::u16_bytes(cnum) + wire::u32_bytes(ttl)
        + wire::u16_bytes(rdlen)
}

/// A record on the wire: the common prefix, then the type-specific
/// payload.  The extension-negotiation pseudo-record instead writes an
/// empty name, its fixed type code, the payload size in the class
/// position and the extended code in the ttl position.
pub open spec fn record_wire(r: RecordV) -> Seq<u8> {
    match r {
        RecordV::Unknown { name, qtype, class, ttl, rdata } => record_head_wire(
            name,
            qtype_num(qtype),
            qclass_num(class),
            ttl,
            rdata.len() as u16,
        ) + rdata,
        RecordV::A { name, class, ttl, addr } => record_head_wire(
            name,
            1,
            qclass_num(class),
            ttl,
            4,
        ) + addr,
        RecordV::Ns { name, class, ttl, nsdname } => record_head_wire(
            name,
            2,
            qclass_num(class),
            ttl,
            wire::name_wire(nsdname).len() as u16,
        ) + wire::name_wire(nsdname),
        RecordV::Soa { name, class, ttl, mname, rname, serial, refresh, retry, expire, minimum }
            => record_head_wire(
            name,
            6,
            qclass_num(class),
            ttl,
            (wire::name_wire(mname).len() + wire::name_wire(rname).len() + 20) as u16,
        ) + wire::name_wire(mname) + wire::name_wire(rname) + wire::u32_bytes(serial)
            + wire::u32_bytes(refresh) + wire::u32_bytes(retry) + wire::u32_bytes(expire)
            + wire::u32_bytes(minimum),
        RecordV::Cname { name, class, ttl, cname } => record_head_wire(
            name,
            5,
            qclass_num(class),
            ttl,
            wire::name_wire(cname).len() as u16,
        ) + wire::name_wire(cname),
        RecordV::Ptr { name, class, ttl, ptrdname } => record_head_wire(
            name,
            12,
            qclass_num(class),
            ttl,
            wire::name_wire(ptrdname).len() as u16,
        ) + wire::name_wire(ptrdname),
        RecordV::Mx { name, class, ttl, preference, exchange } => record_head_wire(
            name,
            15,
            qclass_num(class),
            ttl,
            (2 + wire::name_wire(exchange).len()) as u16,
        ) + wire::u16_bytes(preference) + wire::name_wire(exchange),
        RecordV::Txt { name, class, ttl, data } => record_head_wire(
            name,
            16,
            qclass_num(class),
            ttl,
            (1 + encode_utf8(data).len()) as u16,
        ) + seq![encode_utf8(data).len() as u8] + encode_utf8(data),
        RecordV::Opt { payload_size, rcode, rdata } => seq![0u8] + wire::u16_bytes(41)
            + wire::u16_bytes(payload_size) + wire::u32_bytes(rcode) + wire::u16_bytes(
            rdata.len() as u16,
        ) + rdata,
    }
}

/// A record whose encoding decodes back to itself: names fit for the
/// wire, enumerations that do not hide a well-known code in their
/// unknown fallback, payloads that fit their declared length fields.
pub open spec fn wf_record(r: RecordV) -> bool {
    match r {
        RecordV::Unknown { name, qtype, class, ttl, rdata } => wire::wf_name(name) && wf_qclass(
            class,
        ) && (qtype matches QType::UNKNOWN(_)) && qtype_of(qtype_num(qtype)) == qtype
            && rdata.len() <= 65535,
        RecordV::A { name, class, ttl, addr } => wire::wf_name(name) && wf_qclass(class)
            && addr.len() == 4,
        RecordV::Ns { name, class, ttl, nsdname } => wire::wf_name(name) && wf_qclass(class)
            && wire::wf_name(nsdname),
        RecordV::Soa { name, class, ttl, mname, rname, serial, refresh, retry, expire, minimum }
            => wire::wf_name(name) && wf_qclass(class) && wire::wf_name(mname) && wire::wf_name(
            rname,
        ),
        RecordV::Cname { name, class, ttl, cname } => wire::wf_name(name) && wf_qclass(class)
            && wire::wf_name(cname),
        RecordV::Ptr { name, class, ttl, ptrdname } => wire::wf_name(name) && wf_qclass(class)
            && wire::wf_name(ptrdname),
        RecordV::Mx { name, class, ttl, preference, exchange } => wire::wf_name(name)
            && wf_qclass(class) && wire::wf_name(exchange),
        RecordV::Txt { name, class, ttl, data } => wire::wf_name(name) && wf_qclass(class)
            && encode_utf8(data).len() <= 255,
        RecordV::Opt { payload_size, rcode, rdata } => rdata.len() <= 65535,
    }
}

/// What a record decodes to at `pos`.
///
/// Decoding always reads the common prefix, then dispatches on the
/// type code.  An unrecognized type never fails: its payload is kept
/// as an opaque blob of exactly the declared length.  Only exhaustion
/// of the buffer fails.
pub open spec fn parse_record(buf: Seq<u8>, pos: int) -> Option<(RecordV, int)> {
    match wire::parse_name(buf, pos) {
        Option::None => None,
        Option::Some((name, p)) => {
            if p + 10 <= buf.len() {
                let tnum = wire::u16_of(buf[p], buf[p + 1]);
                let cnum = wire::u16_of(buf[p + 2], buf[p + 3]);
                let ttl = wire::u32_of(buf[p + 4], buf[p + 5], buf[p + 6], buf[p + 7]);
                let rdlen = wire::u16_of(buf[p + 8], buf[p + 9]);
                let q = p + 10;
                match qtype_of(tnum) {
                    QType::A => {
                        if q + 4 <= buf.len() {
                            Some(
                                (
                                    RecordV::A {
                                        name,
                                        class: qclass_of(cnum),
                                        ttl,
                                        addr: buf.subrange(q, q + 4),
                                    },
                                    q + 4,
                                ),
                            )
                        } else {
                            None
                        }
                    },
                    QType::NS => {
                        match wire::parse_name(buf, q) {
                            Option::None => None,
                            Option::Some((n2, p2)) => Some(
                                (RecordV::Ns { name, class: qclass_of(cnum), ttl, nsdname: n2 }, p2),
                            ),
                        }
                    },
                    QType::SOA => {
                        match wire::parse_name(buf, q) {
                            Option::None => None,
                            Option::Some((mn, p2)) => {
                                match wire::parse_name(buf, p2) {
                                    Option::None => None,
                                    Option::Some((rn, p3)) => {
                                        if p3 + 20 <= buf.len() {
                                            Some(
                                                (
                                                    RecordV::Soa {
                                                        name,
                                                        class: qclass_of(cnum),
                                                        ttl,
                                                        mname: mn,
                                                        rname: rn,
                                                        serial: wire::u32_of(
                                                            buf[p3],
                                                            buf[p3 + 1],
                                                            buf[p3 + 2],
                                                            buf[p3 + 3],
                                                        ),
                                                        refresh: wire::u32_of(
                                                            buf[p3 + 4],
                                                            buf[p3 + 5],
                                                            buf[p3 + 6],
                                                            buf[p3 + 7],
                                                        ),
                                                        retry: wire::u32_of(
                                                            buf[p3 + 8],
                                                            buf[p3 + 9],
                                                            buf[p3 + 10],
                                                            buf[p3 + 11],
                                                        ),
                                                        expire: wire::u32_of(
                                                            buf[p3 + 12],
                                                            buf[p3 + 13],
                                                            buf[p3 + 14],
                                                            buf[p3 + 15],
                                                        ),
                                                        minimum: wire::u32_of(
                                                            buf[p3 + 16],
                                                            buf[p3 + 17],
                                                            buf[p3 + 18],
                                                            buf[p3 + 19],
                                                        ),
                                                    },
                                                    p3 + 20,
                                                ),
                                            )
                                        } else {
                                            None
                                        }
                                    },
                                }
                            },
                        }
                    },
                    QType::CNAME => {
                        match wire::parse_name(buf, q) {
                            Option::None => None,
                            Option::Some((n2, p2)) => Some(
                                (RecordV::Cname { name, class: qclass_of(cnum), ttl, cname: n2 }, p2),
                            ),
                        }
                    },
                    QType::PTR => {
                        match wire::parse_name(buf, q) {
                            Option::None => None,
                            Option::Some((n2, p2)) => Some(
                                (
                                    RecordV::Ptr {
                                        name,
                                        class: qclass_of(cnum),
                                        ttl,
                                        ptrdname: n2,
                                    },
                                    p2,
                                ),
                            ),
                        }
                    },
                    QType::MX => {
                        if q + 2 <= buf.len() {
                            match wire::parse_name(buf, q + 2) {
                                Option::None => None,
                                Option::Some((n2, p2)) => Some(
                                    (
                                        RecordV::Mx {
                                            name,
                                            class: qclass_of(cnum),
                                            ttl,
                                            preference: wire::u16_of(buf[q], buf[q + 1]),
                                            exchange: n2,
                                        },
                                        p2,
                                    ),
                                ),
                            }
                        } else {
                            None
                        }
                    },
                    QType::TXT => {
                        if q + 1 <= buf.len() {
                            let dl = buf[q];
                            if q + 1 + dl <= buf.len() {
                                let db = buf.subrange(q + 1, q + 1 + dl);
                                if valid_utf8(db) {
                                    Some(
                                        (
                                            RecordV::Txt {
                                                name,
                                                class: qclass_of(cnum),
                                                ttl,
                                                data: decode_utf8(db),
                                            },
                                            q + 1 + dl,
                                        ),
                                    )
                                } else {
                                    None
                                }
                            } else {
                                None
                            }
                        } else {
                            None
                        }
                    },
                    QType::OPTION => {
                        if q + rdlen <= buf.len() {
                            Some(
                                (
                                    RecordV::Opt {
                                        payload_size: cnum,
                                        rcode: ttl,
                                        rdata: buf.subrange(q, q + rdlen),
                                    },
                                    q + rdlen,
                                ),
                            )
                        } else {
                            None
                        }
                    },
                    QType::UNKNOWN(_) => {
                        if q + rdlen <= buf.len() {
                            Some(
                                (
                                    RecordV::Unknown {
                                        name,
                                        qtype: qtype_of(tnum),
                                        class: qclass_of(cnum),
                                        ttl,
                                        rdata: buf.subrange(q, q + rdlen),
                                    },
                                    q + rdlen,
                                ),
                            )
                        } else {
                            None
                        }
                    },
                }
            } else {
                None
            }
        },
    }
}

/// A record that decodes within the front of a buffer decodes the
/// same however the buffer continues: its reads all land inside the
/// front.
#[verifier::rlimit(100)]
#[verifier::spinoff_prover]
pub proof fn lemma_parse_record_extend(short: Seq<u8>, buf: Seq<u8>, pos: int)
    requires
        wire::prefix_of(short, buf),
        parse_record(short, pos) is Some,
    ensures
        parse_record(buf, pos) == parse_record(short, pos),
{
    wire::lemma_parse_name_extend(short, buf, pos);
    wire::lemma_parse_name_at_bounds(short, pos, short.len());
    let p = wire::parse_name(short, pos)->Some_0.1;
    assert(p + 10 <= short.len());
    wire::lemma_index_match(buf, 0, short, p);
    wire::lemma_index_match(buf, 0, short, p + 1);
    wire::lemma_index_match(buf, 0, short, p + 2);
    wire::lemma_index_match(buf, 0, short, p + 3);
    wire::lemma_index_match(buf, 0, short, p + 4);
    wire::lemma_index_match(buf, 0, short, p + 5);
    wire::lemma_index_match(buf, 0, short, p + 6);
    wire::lemma_index_match(buf, 0, short, p + 7);
    wire::lemma_index_match(buf, 0, short, p + 8);
    wire::lemma_index_match(buf, 0, short, p + 9);
    let tnum = wire::u16_of(short[p], short[p + 1]);
    let rdlen = wire::u16_of(short[p + 8], short[p + 9]);
    let q = p + 10;
    match qtype_of(tnum) {
        QType::A => {
            assert(q + 4 <= short.len());
            wire::lemma_slice_match(buf, 0, short, q, q + 4);
        },
        QType::NS => {
            assert(wire::parse_name(short, q) is Some);
            wire::lemma_parse_name_extend(short, buf, q);
        },
        QType::SOA => {
            assert(wire::parse_name(short, q) is Some);
            wire::lemma_parse_name_extend(short, buf, q);
            wire::lemma_parse_name_at_bounds(short, q, short.len());
            let p2 = wire::parse_name(short, q)->Some_0.1;
            assert(wire::parse_name(short, p2) is Some);
            wire::lemma_parse_name_extend(short, buf, p2);
            wire::lemma_parse_name_at_bounds(short, p2, short.len());
            let p3 = wire::parse_name(short, p2)->Some_0.1;
            assert(p3 + 20 <= short.len());
            wire::lemma_index_match(buf, 0, short, p3);
            wire::lemma_index_match(buf, 0, short, p3 + 1);
            wire::lemma_index_match(buf, 0, short, p3 + 2);
            wire::lemma_index_match(buf, 0, short, p3 + 3);
            wire::lemma_index_match(buf, 0, short, p3 + 4);
            wire::lemma_index_match(buf, 0, short, p3 + 5);
            wire::lemma_index_match(buf, 0, short, p3 + 6);
            wire::lemma_index_match(buf, 0, short, p3 + 7);
            wire::lemma_index_match(buf, 0, short, p3 + 8);
            wire::lemma_index_match(buf, 0, short, p3 + 9);
            wire::lemma_index_match(buf, 0, short, p3 + 10);
            wire::lemma_index_match(buf, 0, short, p3 + 11);
            wire::lemma_index_match(buf, 0, short, p3 + 12);
            wire::lemma_index_match(buf, 0, short, p3 + 13);
            wire::lemma_index_match(buf, 0, short, p3 + 14);
            wire::lemma_index_match(buf, 0, short, p3 + 15);
            wire::lemma_index_match(buf, 0, short, p3 + 16);
            wire::lemma_index_match(buf, 0, short, p3 + 17);
            wire::lemma_index_match(buf, 0, short, p3 + 18);
            wire::lemma_index_match(buf, 0, short, p3 + 19);
        },
        QType::CNAME => {
            assert(wire::parse_name(short, q) is Some);
            wire::lemma_parse_name_extend(short, buf, q);
        },
        QType::PTR => {
            assert(wire::parse_name(short, q) is Some);
            wire::lemma_parse_name_extend(short, buf, q);
        },
        QType::MX => {
            assert(q + 2 <= short.len());
            wire::lemma_index_match(buf, 0, short, q);
            wire::lemma_index_match(buf, 0, short, q + 1);
            assert(wire::parse_name(short, q + 2) is Some);
            wire::lemma_parse_name_extend(short, buf, q + 2);
        },
        QType::TXT => {
            assert(q + 1 <= short.len());
            wire::lemma_index_match(buf, 0, short, q);
            let dl = short[q];
            assert(q + 1 + dl <= short.len());
            wire::lemma_slice_match(buf, 0, short, q + 1, q + 1 + dl);
        },
        QType::OPTION => {
            assert(q + rdlen <= short.len());
            wire::lemma_slice_match(buf, 0, short, q, q + rdlen);
        },
        QType::UNKNOWN(_) => {
            assert(q + rdlen <= short.len());
            wire::lemma_slice_match(buf, 0, short, q, q + rdlen);
        },
    }
}

/// Unknown type preservation: the record that decoding keeps for an
/// unrecognized type code re-encodes with exactly that code in the
/// type position, not a default.
pub proof fn lemma_unknown_code_reencoded(
    name: Seq<Seq<char>>,
    num: u16,
    class: QClass,
    ttl: u32,
    rdata: Seq<u8>,
)
    requires
        qtype_of(num) matches QType::UNKNOWN(_),
    ensures
        record_wire(RecordV::Unknown { name, qtype: qtype_of(num), class, ttl, rdata })
            == record_head_wire(name, num, qclass_num(class), ttl, rdata.len() as u16) + rdata,
{
}

/// The common prefix of a record decodes to its fields, whatever else
/// the buffer holds around it.
proof fn lemma_head_parses(
    buf: Seq<u8>,
    pos: int,
    name: Seq<Seq<char>>,
    tnum: u16,
    cnum: u16,
    ttl: u32,
    rdlen: u16,
)
    requires
        wire::wf_name(name),
        0 <= pos,
        pos + record_head_wire(name, tnum, cnum, ttl, rdlen).len() <= buf.len(),
        buf.subrange(pos, pos + record_head_wire(name, tnum, cnum, ttl, rdlen).len())
            == record_head_wire(name, tnum, cnum, ttl, rdlen),
    ensures
        wire::parse_name(buf, pos) == Some((name, pos + wire::name_wire(name).len())),
        ({
            let p = pos + wire::name_wire(name).len() as int;
            &&& p + 10 == pos + record_head_wire(name, tnum, cnum, ttl, rdlen).len()
            &&& wire::u16_of(buf[p], buf[p + 1]) == tnum
            &&& wire::u16_of(buf[p + 2], buf[p + 3]) == cnum
            &&& wire::u32_of(buf[p + 4], buf[p + 5], buf[p + 6], buf[p + 7]) == ttl
            &&& wire::u16_of(buf[p + 8], buf[p + 9]) == rdlen
        }),
{
    let w = record_head_wire(name, tnum, cnum, ttl, rdlen);
    let nw = wire::name_wire(name);
    let nl = nw.len() as int;
    assert(w.subrange(0, nl) =~= nw);
    wire::lemma_slice_match(buf, pos, w, 0, nl);
    assert(buf.subrange(pos, pos + nl) == nw);
    wire::lemma_name_wire_parses(buf, pos, name, buf.len() as nat);
    let p = pos + nl;
    wire::lemma_index_match(buf, pos, w, nl + 0);
    wire::lemma_index_match(buf, pos, w, nl + 1);
    wire::lemma_index_match(buf, pos, w, nl + 2);
    wire::lemma_index_match(buf, pos, w, nl + 3);
    wire::lemma_index_match(buf, pos, w, nl + 4);
    wire::lemma_index_match(buf, pos, w, nl + 5);
    wire::lemma_index_match(buf, pos, w, nl + 6);
    wire::lemma_index_match(buf, pos, w, nl + 7);
    wire::lemma_index_match(buf, pos, w, nl + 8);
    wire::lemma_index_match(buf, pos, w, nl + 9);
    assert(w[nl + 0] == wire::u16_bytes(tnum)[0]);
    assert(w[nl + 1] == wire::u16_bytes(tnum)[1]);
    assert(w[nl + 2] == wire::u16_bytes(cnum)[0]);
    assert(w[nl + 3] == wire::u16_bytes(cnum)[1]);
    assert(w[nl + 4] == wire::u32_bytes(ttl)[0]);
    assert(w[nl + 5] == wire::u32_bytes(ttl)[1]);
    assert(w[nl + 6] == wire::u32_bytes(ttl)[2]);
    assert(w[nl + 7] == wire::u32_bytes(ttl)[3]);
    assert(w[nl + 8] == wire::u16_bytes(rdlen)[0]);
    assert(w[nl + 9] == wire::u16_bytes(rdlen)[1]);
    wire::lemma_u16_roundtrip(tnum);
    wire::lemma_u16_roundtrip(cnum);
    wire::lemma_u32_roundtrip(ttl);
    wire::lemma_u16_roundtrip(rdlen);
}

#[verifier::rlimit(60)]
#[verifier::spinoff_prover]
proof fn lemma_rw_unknown(
    buf: Seq<u8>,
    pos: int,
    name: Seq<Seq<char>>,
    qtype: QType,
    class: QClass,
    ttl: u32,
    rdata: Seq<u8>,
)
    requires
        wf_record(RecordV::Unknown { name, qtype, class, ttl, rdata }),
        0 <= pos,
        pos + record_wire(RecordV::Unknown { name, qtype, class, ttl, rdata }).len() <= buf.len(),
        buf.subrange(pos, pos + record_wire(RecordV::Unknown { name, qtype, class, ttl, rdata }).len()) == record_wire(RecordV::Unknown { name, qtype, class, ttl, rdata }),
    ensures
        parse_record(buf, pos) == Some((RecordV::Unknown { name, qtype, class, ttl, rdata }, pos + record_wire(RecordV::Unknown { name, qtype, class, ttl, rdata }).len())),
{
    let r = RecordV::Unknown { name, qtype, class, ttl, rdata };
    let w = record_wire(r);
    let n = w.len() as int;
    let tnum = qtype_num(qtype);
    let cnum = qclass_num(class);
    let rdlen = rdata.len() as u16;
    let head = record_head_wire(name, tnum, cnum, ttl, rdlen);
    let hl = head.len() as int;
    assert(w.subrange(0, hl) =~= head);
    wire::lemma_slice_match(buf, pos, w, 0, hl);
    lemma_head_parses(buf, pos, name, tnum, cnum, ttl, rdlen);
    let q = pos + hl;
    assert(w.subrange(hl, n) =~= rdata);
    wire::lemma_slice_match(buf, pos, w, hl, n);
    assert(buf.subrange(q, q + rdata.len()) == rdata);
}

#[verifier::rlimit(60)]
#[verifier::spinoff_prover]
proof fn lemma_rw_a(
    buf: Seq<u8>,
    pos: int,
    name: Seq<Seq<char>>,
    class: QClass,
    ttl: u32,
    addr: Seq<u8>,
)
    requires
        wf_record(RecordV::A { name, class, ttl, addr }),
        0 <= pos,
        pos + record_wire(RecordV::A { name, class, ttl, addr }).len() <= buf.len(),
        buf.subrange(pos, pos + record_wire(RecordV::A { name, class, ttl, addr }).len()) == record_wire(RecordV::A { name, class, ttl, addr }),
    ensures
        parse_record(buf, pos) == Some((RecordV::A { name, class, ttl, addr }, pos + record_wire(RecordV::A { name, class, ttl, addr }).len())),
{
    let r = RecordV::A { name, class, ttl, addr };
    let w = record_wire(r);
    let n = w.len() as int;
    let cnum = qclass_num(class);
    let head = record_head_wire(name, 1, cnum, ttl, 4);
    let hl = head.len() as int;
    assert(w.subrange(0, hl) =~= head);
    wire::lemma_slice_match(buf, pos, w, 0, hl);
    lemma_head_parses(buf, pos, name, 1, cnum, ttl, 4);
    let q = pos + hl;
    assert(w.subrange(hl, n) =~= addr);
    wire::lemma_slice_match(buf, pos, w, hl, n);
    assert(buf.subrange(q, q + 4) == addr);
}

#[verifier::rlimit(60)]
#[verifier::spinoff_prover]
proof fn lemma_rw_ns(
    buf: Seq<u8>,
    pos: int,
    name: Seq<Seq<char>>,
    class: QClass,
    ttl: u32,
    nsdname: Seq<Seq<char>>,
)
    requires
        wf_record(RecordV::Ns { name, class, ttl, nsdname }),
        0 <= pos,
        pos + record_wire(RecordV::Ns { name, class, ttl, nsdname }).len() <= buf.len(),
        buf.subrange(pos, pos + record_wire(RecordV::Ns { name, class, ttl, nsdname }).len()) == record_wire(RecordV::Ns { name, class, ttl, nsdname }),
    ensures
        parse_record(buf, pos) == Some((RecordV::Ns { name, class, ttl, nsdname }, pos + record_wire(RecordV::Ns { name, class, ttl, nsdname }).len())),
{
    let r = RecordV::Ns { name, class, ttl, nsdname };
    let w = record_wire(r);
    let n = w.len() as int;
    let cnum = qclass_num(class);
    let tail = wire::name_wire(nsdname);
    let head = record_head_wire(name, 2, cnum, ttl, tail.len() as u16);
    let hl = head.len() as int;
    assert(w.subrange(0, hl) =~= head);
    wire::lemma_slice_match(buf, pos, w, 0, hl);
    lemma_head_parses(buf, pos, name, 2, cnum, ttl, tail.len() as u16);
    let q = pos + hl;
    assert(w.subrange(hl, n) =~= tail);
    wire::lemma_slice_match(buf, pos, w, hl, n);
    wire::lemma_name_wire_parses(buf, q, nsdname, buf.len() as nat);
}

#[verifier::rlimit(60)]
#[verifier::spinoff_prover]
proof fn lemma_rw_soa(
    buf: Seq<u8>,
    pos: int,
    name: Seq<Seq<char>>,
    class: QClass,
    ttl: u32,
    mname: Seq<Seq<char>>,
    rname: Seq<Seq<char>>,
    serial: u32,
    refresh: u32,
    retry: u32,
    expire: u32,
    minimum: u32,
)
    requires
        wf_record(RecordV::Soa { name, class, ttl, mname, rname, serial, refresh, retry, expire, minimum }),
        0 <= pos,
        pos + record_wire(RecordV::Soa { name, class, ttl, mname, rname, serial, refresh, retry, expire, minimum }).len() <= buf.len(),
        buf.subrange(pos, pos + record_wire(RecordV::Soa { name, class, ttl, mname, rname, serial, refresh, retry, expire, minimum }).len()) == record_wire(RecordV::Soa { name, class, ttl, mname, rname, serial, refresh, retry, expire, minimum }),
    ensures
        parse_record(buf, pos) == Some((RecordV::Soa { name, class, ttl, mname, rname, serial, refresh, retry, expire, minimum }, pos + record_wire(RecordV::Soa { name, class, ttl, mname, rname, serial, refresh, retry, expire, minimum }).len())),
{
    let r = RecordV::Soa { name, class, ttl, mname, rname, serial, refresh, retry, expire, minimum };
    let w = record_wire(r);
    let n = w.len() as int;
    let cnum = qclass_num(class);
    let mw = wire::name_wire(mname);
    let rw = wire::name_wire(rname);
    let ml = mw.len() as int;
    let rl = rw.len() as int;
    let rdlen = (mw.len() + rw.len() + 20) as u16;
    let head = record_head_wire(name, 6, cnum, ttl, rdlen);
    let hl = head.len() as int;
    assert(w.subrange(0, hl) =~= head);
    wire::lemma_slice_match(buf, pos, w, 0, hl);
    lemma_head_parses(buf, pos, name, 6, cnum, ttl, rdlen);
    let q = pos + hl;
    assert(w.subrange(hl, hl + ml) =~= mw);
    wire::lemma_slice_match(buf, pos, w, hl, hl + ml);
    wire::lemma_name_wire_parses(buf, q, mname, buf.len() as nat);
    assert(w.subrange(hl + ml, hl + ml + rl) =~= rw);
    wire::lemma_slice_match(buf, pos, w, hl + ml, hl + ml + rl);
    wire::lemma_name_wire_parses(buf, q + ml, rname, buf.len() as nat);
    let p3 = q + ml + rl;
    let b = hl + ml + rl;
    wire::lemma_index_match(buf, pos, w, b + 0);
    wire::lemma_index_match(buf, pos, w, b + 1);
    wire::lemma_index_match(buf, pos, w, b + 2);
    wire::lemma_index_match(buf, pos, w, b + 3);
    wire::lemma_index_match(buf, pos, w, b + 4);
    wire::lemma_index_match(buf, pos, w, b + 5);
    wire::lemma_index_match(buf, pos, w, b + 6);
    wire::lemma_index_match(buf, pos, w, b + 7);
    wire::lemma_index_match(buf, pos, w, b + 8);
    wire::lemma_index_match(buf, pos, w, b + 9);
    wire::lemma_index_match(buf, pos, w, b + 10);
    wire::lemma_index_match(buf, pos, w, b + 11);
    wire::lemma_index_match(buf, pos, w, b + 12);
    wire::lemma_index_match(buf, pos, w, b + 13);
    wire::lemma_index_match(buf, pos, w, b + 14);
    wire::lemma_index_match(buf, pos, w, b + 15);
    wire::lemma_index_match(buf, pos, w, b + 16);
    wire::lemma_index_match(buf, pos, w, b + 17);
    wire::lemma_index_match(buf, pos, w, b + 18);
    wire::lemma_index_match(buf, pos, w, b + 19);
    assert(w[b + 0] == wire::u32_bytes(serial)[0]);
    assert(w[b + 1] == wire::u32_bytes(serial)[1]);
    assert(w[b + 2] == wire::u32_bytes(serial)[2]);
    assert(w[b + 3] == wire::u32_bytes(serial)[3]);
    assert(w[b + 4] == wire::u32_bytes(refresh)[0]);
    assert(w[b + 5] == wire::u32_bytes(refresh)[1]);
    assert(w[b + 6] == wire::u32_bytes(refresh)[2]);
    assert(w[b + 7] == wire::u32_bytes(refresh)[3]);
    assert(w[b + 8] == wire::u32_bytes(retry)[0]);
    assert(w[b + 9] == wire::u32_bytes(retry)[1]);
    assert(w[b + 10] == wire::u32_bytes(retry)[2]);
    assert(w[b + 11] == wire::u32_bytes(retry)[3]);
    assert(w[b + 12] == wire::u32_bytes(expire)[0]);
    assert(w[b + 13] == wire::u32_bytes(expire)[1]);
    assert(w[b + 14] == wire::u32_bytes(expire)[2]);
    assert(w[b + 15] == wire::u32_bytes(expire)[3]);
    assert(w[b + 16] == wire::u32_bytes(minimum)[0]);
    assert(w[b + 17] == wire::u32_bytes(minimum)[1]);
    assert(w[b + 18] == wire::u32_bytes(minimum)[2]);
    assert(w[b + 19] == wire::u32_bytes(minimum)[3]);
    wire::lemma_u32_roundtrip(serial);
    wire::lemma_u32_roundtrip(refresh);
    wire::lemma_u32_roundtrip(retry);
    wire::lemma_u32_roundtrip(expire);
    wire::lemma_u32_roundtrip(minimum);
}

#[verifier::rlimit(60)]
#[verifier::spinoff_prover]
proof fn lemma_rw_cname(
    buf: Seq<u8>,
    pos: int,
    name: Seq<Seq<char>>,
    class: QClass,
    ttl: u32,
    cname: Seq<Seq<char>>,
)
    requires
        wf_record(RecordV::Cname { name, class, ttl, cname }),
        0 <= pos,
        pos + record_wire(RecordV::Cname { name, class, ttl, cname }).len() <= buf.len(),
        buf.subrange(pos, pos + record_wire(RecordV::Cname { name, class, ttl, cname }).len()) == record_wire(RecordV::Cname { name, class, ttl, cname }),
    ensures
        parse_record(buf, pos) == Some((RecordV::Cname { name, class, ttl, cname }, pos + record_wire(RecordV::Cname { name, class, ttl, cname }).len())),
{
    let r = RecordV::Cname { name, class, ttl, cname };
    let w = record_wire(r);
    let n = w.len() as int;
    let cnum = qclass_num(class);
    let tail = wire::name_wire(cname);
    let head = record_head_wire(name, 5, cnum, ttl, tail.len() as u16);
    let hl = head.len() as int;
    assert(w.subrange(0, hl) =~= head);
    wire::lemma_slice_match(buf, pos, w, 0, hl);
    lemma_head_parses(buf, pos, name, 5, cnum, ttl, tail.len() as u16);
    let q = pos + hl;
    assert(w.subrange(hl, n) =~= tail);
    wire::lemma_slice_match(buf, pos, w, hl, n);
    wire::lemma_name_wire_parses(buf, q, cname, buf.len() as nat);
}

#[verifier::rlimit(60)]
#[verifier::spinoff_prover]
proof fn lemma_rw_ptr(
    buf: Seq<u8>,
    pos: int,
    name: Seq<Seq<char>>,
    class: QClass,
    ttl: u32,
    ptrdname: Seq<Seq<char>>,
)
    requires
        wf_record(RecordV::Ptr { name, class, ttl, ptrdname }),
        0 <= pos,
        pos + record_wire(RecordV::Ptr { name, class, ttl, ptrdname }).len() <= buf.len(),
        buf.subrange(pos, pos + record_wire(RecordV::Ptr { name, class, ttl, ptrdname }).len()) == record_wire(RecordV::Ptr { name, class, ttl, ptrdname }),
    ensures
        parse_record(buf, pos) == Some((RecordV::Ptr { name, class, ttl, ptrdname }, pos + record_wire(RecordV::Ptr { name, class, ttl, ptrdname }).len())),
{
    let r = RecordV::Ptr { name, class, ttl, ptrdname };
    let w = record_wire(r);
    let n = w.len() as int;
    let cnum = qclass_num(class);
    let tail = wire::name_wire(ptrdname);
    let head = record_head_wire(name, 12, cnum, ttl, tail.len() as u16);
    let hl = head.len() as int;
    assert(w.subrange(0, hl) =~= head);
    wire::lemma_slice_match(buf, pos, w, 0, hl);
    lemma_head_parses(buf, pos, name, 12, cnum, ttl, tail.len() as u16);
    let q = pos + hl;
    assert(w.subrange(hl, n) =~= tail);
    wire::lemma_slice_match(buf, pos, w, hl, n);
    wire::lemma_name_wire_parses(buf, q, ptrdname, buf.len() as nat);
}

#[verifier::rlimit(60)]
#[verifier::spinoff_prover]
proof fn lemma_rw_mx(
    buf: Seq<u8>,
    pos: int,
    name: Seq<Seq<char>>,
    class: QClass,
    ttl: u32,
    preference: u16,
    exchange: Seq<Seq<char>>,
)
    requires
        wf_record(RecordV::Mx { name, class, ttl, preference, exchange }),
        0 <= pos,
        pos + record_wire(RecordV::Mx { name, class, ttl, preference, exchange }).len() <= buf.len(),
        buf.subrange(pos, pos + record_wire(RecordV::Mx { name, class, ttl, preference, exchange }).len()) == record_wire(RecordV::Mx { name, class, ttl, preference, exchange }),
    ensures
        parse_record(buf, pos) == Some((RecordV::Mx { name, class, ttl, preference, exchange }, pos + record_wire(RecordV::Mx { name, class, ttl, preference, exchange }).len())),
{
    let r = RecordV::Mx { name, class, ttl, preference, exchange };
    let w = record_wire(r);
    let n = w.len() as int;
    let cnum = qclass_num(class);
    let ew = wire::name_wire(exchange);
    let rdlen = (2 + ew.len()) as u16;
    let head = record_head_wire(name, 15, cnum, ttl, rdlen);
    let hl = head.len() as int;
    assert(w.subrange(0, hl) =~= head);
    wire::lemma_slice_match(buf, pos, w, 0, hl);
    lemma_head_parses(buf, pos, name, 15, cnum, ttl, rdlen);
    let q = pos + hl;
    wire::lemma_index_match(buf, pos, w, hl + 0);
    wire::lemma_index_match(buf, pos, w, hl + 1);
    assert(w[hl + 0] == wire::u16_bytes(preference)[0]);
    assert(w[hl + 1] == wire::u16_bytes(preference)[1]);
    wire::lemma_u16_roundtrip(preference);
    assert(w.subrange(hl + 2, n) =~= ew);
    wire::lemma_slice_match(buf, pos, w, hl + 2, n);
    wire::lemma_name_wire_parses(buf, q + 2, exchange, buf.len() as nat);
}

#[verifier::rlimit(60)]
#[verifier::spinoff_prover]
proof fn lemma_rw_txt(
    buf: Seq<u8>,
    pos: int,
    name: Seq<Seq<char>>,
    class: QClass,
    ttl: u32,
    data: Seq<char>,
)
    requires
        wf_record(RecordV::Txt { name, class, ttl, data }),
        0 <= pos,
        pos + record_wire(RecordV::Txt { name, class, ttl, data }).len() <= buf.len(),
        buf.subrange(pos, pos + record_wire(RecordV::Txt { name, class, ttl, data }).len()) == record_wire(RecordV::Txt { name, class, ttl, data }),
    ensures
        parse_record(buf, pos) == Some((RecordV::Txt { name, class, ttl, data }, pos + record_wire(RecordV::Txt { name, class, ttl, data }).len())),
{
    let r = RecordV::Txt { name, class, ttl, data };
    let w = record_wire(r);
    let n = w.len() as int;
    let cnum = qclass_num(class);
    let db = encode_utf8(data);
    let dl = db.len() as int;
    let rdlen = (1 + db.len()) as u16;
    let head = record_head_wire(name, 16, cnum, ttl, rdlen);
    let hl = head.len() as int;
    encode_utf8_valid_utf8(data);
    encode_utf8_decode_utf8(data);
    assert(w.subrange(0, hl) =~= head);
    wire::lemma_slice_match(buf, pos, w, 0, hl);
    lemma_head_parses(buf, pos, name, 16, cnum, ttl, rdlen);
    let q = pos + hl;
    wire::lemma_index_match(buf, pos, w, hl + 0);
    assert(w[hl + 0] == db.len() as u8);
    assert(buf[q] == dl);
    assert(w.subrange(hl + 1, n) =~= db);
    wire::lemma_slice_match(buf, pos, w, hl + 1, n);
    assert(buf.subrange(q + 1, q + 1 + dl) == db);
}

#[verifier::rlimit(60)]
#[verifier::spinoff_prover]
proof fn lemma_rw_opt(
    buf: Seq<u8>,
    pos: int,
    payload_size: u16,
    rcode: u32,
    rdata: Seq<u8>,
)
    requires
        wf_record(RecordV::Opt { payload_size, rcode, rdata }),
        0 <= pos,
        pos + record_wire(RecordV::Opt { payload_size, rcode, rdata }).len() <= buf.len(),
        buf.subrange(pos, pos + record_wire(RecordV::Opt { payload_size, rcode, rdata }).len()) == record_wire(RecordV::Opt { payload_size, rcode, rdata }),
    ensures
        parse_record(buf, pos) == Some((RecordV::Opt { payload_size, rcode, rdata }, pos + record_wire(RecordV::Opt { payload_size, rcode, rdata }).len())),
{
    let r = RecordV::Opt { payload_size, rcode, rdata };
    let w = record_wire(r);
    let n = w.len() as int;
    let rdlen = rdata.len() as u16;
    wire::lemma_index_match(buf, pos, w, 0);
    assert(w[0] == 0u8);
    assert(wire::parse_name(buf, pos) == Some((Seq::<Seq<char>>::empty(), pos + 1)));
    let p = pos + 1;
    wire::lemma_index_match(buf, pos, w, 1);
    wire::lemma_index_match(buf, pos, w, 2);
    wire::lemma_index_match(buf, pos, w, 3);
    wire::lemma_index_match(buf, pos, w, 4);
    wire::lemma_index_match(buf, pos, w, 5);
    wire::lemma_index_match(buf, pos, w, 6);
    wire::lemma_index_match(buf, pos, w, 7);
    wire::lemma_index_match(buf, pos, w, 8);
    wire::lemma_index_match(buf, pos, w, 9);
    wire::lemma_index_match(buf, pos, w, 10);
    assert(w[1] == wire::u16_bytes(41)[0]);
    assert(w[2] == wire::u16_bytes(41)[1]);
    assert(w[3] == wire::u16_bytes(payload_size)[0]);
    assert(w[4] == wire::u16_bytes(payload_size)[1]);
    assert(w[5] == wire::u32_bytes(rcode)[0]);
    assert(w[6] == wire::u32_bytes(rcode)[1]);
    assert(w[7] == wire::u32_bytes(rcode)[2]);
    assert(w[8] == wire::u32_bytes(rcode)[3]);
    assert(w[9] == wire::u16_bytes(rdlen)[0]);
    assert(w[10] == wire::u16_bytes(rdlen)[1]);
    wire::lemma_u16_roundtrip(41);
    wire::lemma_u16_roundtrip(payload_size);
    wire::lemma_u32_roundtrip(rcode);
    wire::lemma_u16_roundtrip(rdlen);
    let q = p + 10;
    assert(w.subrange(11, n) =~= rdata);
    wire::lemma_slice_match(buf, pos, w, 11, n);
    assert(buf.subrange(q, q + rdata.len()) == rdata);
}

/// A record's bytes decode to the record itself, whatever else the
/// buffer holds around them.
pub proof fn lemma_record_wire_parses(buf: Seq<u8>, pos: int, r: RecordV)
    requires
        wf_record(r),
        0 <= pos,
        pos + record_wire(r).len() <= buf.len(),
        buf.subrange(pos, pos + record_wire(r).len()) == record_wire(r),
    ensures
        parse_record(buf, pos) == Some((r, pos + record_wire(r).len())),
{
    match r {
        RecordV::Unknown { name, qtype, class, ttl, rdata } => lemma_rw_unknown(
            buf, pos, name, qtype, class, ttl, rdata,
        ),
        RecordV::A { name, class, ttl, addr } => lemma_rw_a(buf, pos, name, class, ttl, addr),
        RecordV::Ns { name, class, ttl, nsdname } => lemma_rw_ns(
            buf, pos, name, class, ttl, nsdname,
        ),
        RecordV::Soa { name, class, ttl, mname, rname, serial, refresh, retry, expire, minimum
        } => lemma_rw_soa(
            buf, pos, name, class, ttl, mname, rname, serial, refresh, retry, expire, minimum,
        ),
        RecordV::Cname { name, class, ttl, cname } => lemma_rw_cname(
            buf, pos, name, class, ttl, cname,
        ),
        RecordV::Ptr { name, class, ttl, ptrdname } => lemma_rw_ptr(
            buf, pos, name, class, ttl, ptrdname,
        ),
        RecordV::Mx { name, class, ttl, preference, exchange } => lemma_rw_mx(
            buf, pos, name, class, ttl, preference, exchange,
        ),
        RecordV::Txt { name, class, ttl, data } => lemma_rw_txt(buf, pos, name, class, ttl, data),
        RecordV::Opt { payload_size, rcode, rdata } => lemma_rw_opt(
            buf, pos, payload_size, rcode, rdata,
        ),
    }
}

/// A resource record.
#[derive(Debug, PartialEq)]
pub enum Record {
    UNKNOWN { qname: QName, qtype: QType, class: QClass, ttl: u32, rdata: Vec<u8> },
    A { qname: QName, class: QClass, ttl: u32, addr: [u8; 4] },
    NS { qname: QName, class: QClass, ttl: u32, nsdname: QName },
    SOA {
        qname: QName,
        class: QClass,
        ttl: u32,
        mname: QName,
        rname: QName,
        serial: u32,
        refresh: u32,
        retry: u32,
        expire: u32,
        minimum: u32,
    },
    CNAME { qname: QName, class: QClass, ttl: u32, cname: QName },
    PTR { qname: QName, class: QClass, ttl: u32, ptrdname: QName },
    MX { qname: QName, class: QClass, ttl: u32, preference: u16, exchange: QName },
    TXT { qname: QName, class: QClass, ttl: u32, data: String },
    Option { payload_size: u16, rcode: u32, rdata: Vec<u8> },
}

impl View for Record {
    type V = RecordV;

    open spec fn view(&self) -> RecordV {
        match self {
            Record::UNKNOWN { qname, qtype, class, ttl, rdata } => RecordV::Unknown {
                name: qname@,
                qtype: *qtype,
                class: *class,
                ttl: *ttl,
                rdata: rdata@,
            },
            Record::A { qname, class, ttl, addr } => RecordV::A {
                name: qname@,
                class: *class,
                ttl: *ttl,
                addr: addr@,
            },
            Record::NS { qname, class, ttl, nsdname } => RecordV::Ns {
                name: qname@,
                class: *class,
                ttl: *ttl,
                nsdname: nsdname@,
            },
            Record::SOA { qname, class, ttl, mname, rname, serial, refresh, retry, expire, minimum
            } => RecordV::Soa {
                name: qname@,
                class: *class,
                ttl: *ttl,
                mname: mname@,
                rname: rname@,
                serial: *serial,
                refresh: *refresh,
                retry: *retry,
                expire: *expire,
                minimum: *minimum,
            },
            Record::CNAME { qname, class, ttl, cname } => RecordV::Cname {
                name: qname@,
                class: *class,
                ttl: *ttl,
                cname: cname@,
            },
            Record::PTR { qname, class, ttl, ptrdname } => RecordV::Ptr {
                name: qname@,
                class: *class,
                ttl: *ttl,
                ptrdname: ptrdname@,
            },
            Record::MX { qname, class, ttl, preference, exchange } => RecordV::Mx {
                name: qname@,
                class: *class,
                ttl: *ttl,
                preference: *preference,
                exchange: exchange@,
            },
            Record::TXT { qname, class, ttl, data } => RecordV::Txt {
                name: qname@,
                class: *class,
                ttl: *ttl,
                data: data@,
            },
            Record::Option { payload_size, rcode, rdata } => RecordV::Opt {
                payload_size: *payload_size,
                rcode: *rcode,
                rdata: rdata@,
            },
        }
    }
}

impl DeepView for Record {
    type V = RecordV;

    open spec fn deep_view(&self) -> RecordV {
        self@
    }
}

impl Record {
    /// Append this record's wire form.
    #[verifier::rlimit(60)]
    #[verifier::spinoff_prover]
    pub fn write(&self, writer: &mut Writer)
        ensures
            final(writer).buf@ == old(writer).buf@ + record_wire(self@),
    {
        match self {
            Record::UNKNOWN { qname, qtype, class, ttl, rdata } => {
                qname.write(writer);
                writer.write_u16(qtype.to_num());
                writer.write_u16(class.to_num());
                writer.write_u32(*ttl);
                writer.write_u16(rdata.len() as u16);
                writer.write_vec(rdata);
                assert(writer.buf@ =~= old(writer).buf@ + record_wire(self@));
            },
            Record::A { qname, class, ttl, addr } => {
                qname.write(writer);
                writer.write_u16(QType::A.to_num());
                writer.write_u16(class.to_num());
                writer.write_u32(*ttl);
                writer.write_u16(4);
                writer.write_u8(addr[0]);
                writer.write_u8(addr[1]);
                writer.write_u8(addr[2]);
                writer.write_u8(addr[3]);
                proof {
                    assert(addr@ =~= seq![addr@[0], addr@[1], addr@[2], addr@[3]]);
                }
                assert(writer.buf@ =~= old(writer).buf@ + record_wire(self@));
            },
            Record::NS { qname, class, ttl, nsdname } => {
                qname.write(writer);
                writer.write_u16(QType::NS.to_num());
                writer.write_u16(class.to_num());
                writer.write_u32(*ttl);
                let mut tmp = Writer::new();
                nsdname.write(&mut tmp);
                writer.write_u16(tmp.buf.len() as u16);
                writer.write_vec(&tmp.buf);
                assert(writer.buf@ =~= old(writer).buf@ + record_wire(self@));
            },
            Record::SOA { qname, class, ttl, mname, rname, serial, refresh, retry, expire, minimum
            } => {
                qname.write(writer);
                writer.write_u16(QType::SOA.to_num());
                writer.write_u16(class.to_num());
                writer.write_u32(*ttl);
                let mut tmp = Writer::new();
                mname.write(&mut tmp);
                rname.write(&mut tmp);
                tmp.write_u32(*serial);
                tmp.write_u32(*refresh);
                tmp.write_u32(*retry);
                tmp.write_u32(*expire);
                tmp.write_u32(*minimum);
                writer.write_u16(tmp.buf.len() as u16);
                writer.write_vec(&tmp.buf);
                assert(writer.buf@ =~= old(writer).buf@ + record_wire(self@));
            },
            Record::CNAME { qname, class, ttl, cname } => {
                qname.write(writer);
                writer.write_u16(QType::CNAME.to_num());
                writer.write_u16(class.to_num());
                writer.write_u32(*ttl);
                let mut tmp = Writer::new();
                cname.write(&mut tmp);
                writer.write_u16(tmp.buf.len() as u16);
                writer.write_vec(&tmp.buf);
                assert(writer.buf@ =~= old(writer).buf@ + record_wire(self@));
            },
            Record::PTR { qname, class, ttl, ptrdname } => {
                qname.write(writer);
                writer.write_u16(QType::PTR.to_num());
                writer.write_u16(class.to_num());
                writer.write_u32(*ttl);
                let mut tmp = Writer::new();
                ptrdname.write(&mut tmp);
                writer.write_u16(tmp.buf.len() as u16);
                writer.write_vec(&tmp.buf);
                assert(writer.buf@ =~= old(writer).buf@ + record_wire(self@));
            },
            Record::MX { qname, class, ttl, preference, exchange } => {
                qname.write(writer);
                writer.write_u16(QType::MX.to_num());
                writer.write_u16(class.to_num());
                writer.write_u32(*ttl);
                let mut tmp = Writer::new();
                tmp.write_u16(*preference);
                exchange.write(&mut tmp);
                writer.write_u16(tmp.buf.len() as u16);
                writer.write_vec(&tmp.buf);
                assert(writer.buf@ =~= old(writer).buf@ + record_wire(self@));
            },
            Record::TXT { qname, class, ttl, data } => {
                qname.write(writer);
                writer.write_u16(QType::TXT.to_num());
                writer.write_u16(class.to_num());
                writer.write_u32(*ttl);
                let db = data.as_str().as_bytes_vec();
                let mut tmp = Writer::new();
                tmp.write_u8(db.len() as u8);
                tmp.write_vec(&db);
                writer.write_u16(tmp.buf.len() as u16);
                writer.write_vec(&tmp.buf);
                assert(writer.buf@ =~= old(writer).buf@ + record_wire(self@));
            },
            Record::Option { payload_size, rcode, rdata } => {
                writer.write_u8(0);
                writer.write_u16(QType::OPTION.to_num());
                writer.write_u16(*payload_size);
                writer.write_u32(*rcode);
                writer.write_u16(rdata.len() as u16);
                writer.write_vec(rdata);
                assert(writer.buf@ =~= old(writer).buf@ + record_wire(self@));
            },
        }
    }

    /// Decode a record at the cursor.  The common prefix is read,
    /// then the type code picks the payload shape; an unrecognized
    /// type is preserved as an opaque blob, never rejected.
    #[verifier::rlimit(60)]
    #[verifier::spinoff_prover]
    pub fn read(reader: &mut Reader) -> (r: Result<Record, DecodeError>)
        ensures
            final(reader).buf == old(reader).buf,
            match r {
                Ok(rec) => {
                    &&& parse_record(old(reader).buf@, old(reader).pos as int) == Some(
                        (rec@, final(reader).pos as int),
                    )
                    &&& final(reader).pos <= old(reader).buf@.len()
                },
                Err(e) => {
                    &&& parse_record(old(reader).buf@, old(reader).pos as int) is None
                    &&& e == DecodeError::Incomplete
                },
            },
    {
        let qname = match QName::read(reader) {
            Ok(n) => n,
            Err(e) => {
                return Err(e);
            },
        };
        if reader.reminder() < 10 {
            return Err(DecodeError::Incomplete);
        }
        let tn = reader.read_u16();
        let cn = reader.read_u16();
        let ttl = reader.read_u32();
        let rdata_len = reader.read_u16() as usize;
        let qtype = QType::from_num(tn);
        let class = QClass::from_num(cn);

        match qtype {
            QType::A => {
                if reader.reminder() < 4 {
                    return Err(DecodeError::Incomplete);
                }
                let ghost q = reader.pos as int;
                let a0 = reader.read_u8();
                let a1 = reader.read_u8();
                let a2 = reader.read_u8();
                let a3 = reader.read_u8();
                let addr = [a0, a1, a2, a3];
                proof {
                    assert(addr@ =~= old(reader).buf@.subrange(q, q + 4));
                }
                Ok(Record::A { qname, class, ttl, addr })
            },
            QType::NS => {
                let nsdname = match QName::read(reader) {
                    Ok(n) => n,
                    Err(e) => {
                        return Err(e);
                    },
                };
                Ok(Record::NS { qname, class, ttl, nsdname })
            },
            QType::SOA => {
                let mname = match QName::read(reader) {
                    Ok(n) => n,
                    Err(e) => {
                        return Err(e);
                    },
                };
                let rname = match QName::read(reader) {
                    Ok(n) => n,
                    Err(e) => {
                        return Err(e);
                    },
                };
                if reader.reminder() < 20 {
                    return Err(DecodeError::Incomplete);
                }
                let serial = reader.read_u32();
                let refresh = reader.read_u32();
                let retry = reader.read_u32();
                let expire = reader.read_u32();
                let minimum = reader.read_u32();
                Ok(
                    Record::SOA {
                        qname,
                        class,
                        ttl,
                        mname,
                        rname,
                        serial,
                        refresh,
                        retry,
                        expire,
                        minimum,
                    },
                )
            },
            QType::CNAME => {
                let cname = match QName::read(reader) {
                    Ok(n) => n,
                    Err(e) => {
                        return Err(e);
                    },
                };
                Ok(Record::CNAME { qname, class, ttl, cname })
            },
            QType::PTR => {
                let ptrdname = match QName::read(reader) {
                    Ok(n) => n,
                    Err(e) => {
                        return Err(e);
                    },
                };
                Ok(Record::PTR { qname, class, ttl, ptrdname })
            },
            QType::MX => {
                if reader.reminder() < 2 {
                    return Err(DecodeError::Incomplete);
                }
                let preference = reader.read_u16();
                let exchange = match QName::read(reader) {
                    Ok(n) => n,
                    Err(e) => {
                        return Err(e);
                    },
                };
                Ok(Record::MX { qname, class, ttl, preference, exchange })
            },
            QType::TXT => {
                if reader.reminder() < 1 {
                    return Err(DecodeError::Incomplete);
                }
                let data_len = reader.read_u8();
                if reader.reminder() < data_len as usize {
                    return Err(DecodeError::Incomplete);
                }
                let data = match reader.read_str(data_len as usize) {
                    Option::Some(s) => s,
                    Option::None => {
                        return Err(DecodeError::Incomplete);
                    },
                };
                Ok(Record::TXT { qname, class, ttl, data })
            },
            QType::OPTION => {
                if reader.reminder() < rdata_len {
                    return Err(DecodeError::Incomplete);
                }
                let rdata = reader.read_vec(rdata_len);
                Ok(Record::Option { payload_size: class.to_num(), rcode: ttl, rdata })
            },
            QType::UNKNOWN(_) => {
                if reader.reminder() < rdata_len {
                    return Err(DecodeError::Incomplete);
                }
                let rdata = reader.read_vec(rdata_len);
                Ok(Record::UNKNOWN { qname, qtype, class, ttl, rdata })
            },
        }
    }
}


} // verus!

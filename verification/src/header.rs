//! The fixed four-byte message head: a 16-bit identifier and ten
//! bit-level flag fields packed into two bytes.

use vstd::prelude::*;

use crate::error::DecodeError;
use crate::reader::Reader;
use crate::wire;
use crate::writer::Writer;

verus! {

/// The message header.  Each field is a plain integer; encoding
/// truncates every field to its declared bit width.
#[derive(Clone, Copy, Debug, PartialEq, Eq, Structural)]
pub struct Header {
    /// Packet identifier, randomly assigned to outgoing queries and
    /// echoed by responses.  The codec does not validate it.
    pub id: u16,
    /// Query/response flag (1 bit).
    pub qr: u8,
    /// Operation code (4 bits).
    pub opcode: u8,
    /// Authoritative-answer flag (1 bit).
    pub aa: u8,
    /// Truncated-message flag (1 bit).
    pub tc: u8,
    /// Recursion-desired flag (1 bit).
    pub rd: u8,
    /// Recursion-available flag (1 bit).
    pub ra: u8,
    /// Reserved field (3 bits).
    pub z: u8,
    /// Response code (4 bits).
    pub rcode: u8,
}

/// Relies on `rand::random`: some value of the type; nothing is
/// promised of which one.
pub assume_specification<T>[ rand::random::<T> ]() -> (r: T)
    where
        rand::distributions::Standard: rand::distributions::Distribution<T>,
;

/// Every flag field sits within its declared bit width.
pub open spec fn wf_header(h: Header) -> bool {
    h.qr <= 1 && h.opcode <= 15 && h.aa <= 1 && h.tc <= 1 && h.rd <= 1 && h.ra <= 1 && h.z <= 7
        && h.rcode <= 15
}

/// `h` with every flag field truncated to its bit width.
pub open spec fn masked(h: Header) -> Header {
    Header {
        id: h.id,
        qr: h.qr & 1,
        opcode: h.opcode & 0xf,
        aa: h.aa & 1,
        tc: h.tc & 1,
        rd: h.rd & 1,
        ra: h.ra & 1,
        z: h.z & 7,
        rcode: h.rcode & 0xf,
    }
}

/// The byte holding qr (bit 7), opcode (bits 6-3), aa (bit 2),
/// tc (bit 1) and rd (bit 0).
pub open spec fn flags_byte1(h: Header) -> u8 {
    ((h.qr & 1) << 7) | ((h.opcode & 0xf) << 3) | ((h.aa & 1) << 2) | ((h.tc & 1) << 1) | (h.rd
        & 1)
}

/// The byte holding ra (bit 7), z (bits 6-4) and rcode (bits 3-0).
pub open spec fn flags_byte2(h: Header) -> u8 {
    ((h.ra & 1) << 7) | ((h.z & 7) << 4) | (h.rcode & 0xf)
}

/// The four bytes of a header on the wire.
pub open spec fn header_wire(h: Header) -> Seq<u8> {
    wire::u16_bytes(h.id) + seq![flags_byte1(h), flags_byte2(h)]
}

/// What a header decodes to at `pos`: the identifier, then the exact
/// inverse masking and shifting of the two flag bytes.
pub open spec fn parse_header(buf: Seq<u8>, pos: int) -> Option<(Header, int)> {
    if 0 <= pos && pos + 4 <= buf.len() {
        let b1 = buf[pos + 2];
        let b2 = buf[pos + 3];
        Some(
            (
                Header {
                    id: wire::u16_of(buf[pos], buf[pos + 1]),
                    qr: (b1 & (0x1u8 << 7)) >> 7,
                    opcode: (b1 & (0xfu8 << 3)) >> 3,
                    aa: (b1 & (0x1u8 << 2)) >> 2,
                    tc: (b1 & (0x1u8 << 1)) >> 1,
                    rd: b1 & 0x1,
                    ra: (b2 & (0x1u8 << 7)) >> 7,
                    z: (b2 & (0x7u8 << 4)) >> 4,
                    rcode: b2 & 0xf,
                },
                pos + 4,
            ),
        )
    } else {
        None
    }
}

/// A header's bytes decode to the header with every field truncated
/// to its bit width, whatever else the buffer holds around them.
pub proof fn lemma_header_wire_parses(buf: Seq<u8>, pos: int, h: Header)
    requires
        0 <= pos,
        pos + 4 <= buf.len(),
        buf.subrange(pos, pos + 4) == header_wire(h),
    ensures
        parse_header(buf, pos) == Some((masked(h), pos + 4)),
{
    assert(buf.subrange(pos, pos + 4)[0] == buf[pos]);
    assert(buf.subrange(pos, pos + 4)[1] == buf[pos + 1]);
    assert(buf.subrange(pos, pos + 4)[2] == buf[pos + 2]);
    assert(buf.subrange(pos, pos + 4)[3] == buf[pos + 3]);
    assert(buf[pos] == (h.id >> 8) as u8);
    assert(buf[pos + 1] == (h.id & 0xff) as u8);
    assert(buf[pos + 2] == flags_byte1(h));
    assert(buf[pos + 3] == flags_byte2(h));
    wire::lemma_u16_roundtrip(h.id);
    let b1 = flags_byte1(h);
    let b2 = flags_byte2(h);
    let qr = h.qr;
    let opcode = h.opcode;
    let aa = h.aa;
    let tc = h.tc;
    let rd = h.rd;
    let ra = h.ra;
    let z = h.z;
    let rcode = h.rcode;
    assert((((((qr & 1) << 7) | ((opcode & 0xf) << 3) | ((aa & 1) << 2) | ((tc & 1) << 1) | (rd
        & 1)) as u8 & (0x1u8 << 7)) >> 7) == (qr & 1)) by (bit_vector);
    assert((((((qr & 1) << 7) | ((opcode & 0xf) << 3) | ((aa & 1) << 2) | ((tc & 1) << 1) | (rd
        & 1)) as u8 & (0xfu8 << 3)) >> 3) == (opcode & 0xf)) by (bit_vector);
    assert((((((qr & 1) << 7) | ((opcode & 0xf) << 3) | ((aa & 1) << 2) | ((tc & 1) << 1) | (rd
        & 1)) as u8 & (0x1u8 << 2)) >> 2) == (aa & 1)) by (bit_vector);
    assert((((((qr & 1) << 7) | ((opcode & 0xf) << 3) | ((aa & 1) << 2) | ((tc & 1) << 1) | (rd
        & 1)) as u8 & (0x1u8 << 1)) >> 1) == (tc & 1)) by (bit_vector);
    assert(((((qr & 1) << 7) | ((opcode & 0xf) << 3) | ((aa & 1) << 2) | ((tc & 1) << 1) | (rd
        & 1)) as u8 & 0x1) == (rd & 1)) by (bit_vector);
    assert((((((ra & 1) << 7) | ((z & 7) << 4) | (rcode & 0xf)) as u8 & (0x1u8 << 7)) >> 7) == (ra
        & 1)) by (bit_vector);
    assert((((((ra & 1) << 7) | ((z & 7) << 4) | (rcode & 0xf)) as u8 & (0x7u8 << 4)) >> 4) == (z
        & 7)) by (bit_vector);
    assert((((((ra & 1) << 7) | ((z & 7) << 4) | (rcode & 0xf)) as u8) & 0xf) == (rcode & 0xf))
        by (bit_vector);
}

/// Truncation changes nothing where every field already sits within
/// its bit width.
pub proof fn lemma_masked_identity(h: Header)
    requires
        wf_header(h),
    ensures
        masked(h) == h,
{
    let qr = h.qr;
    let opcode = h.opcode;
    let z = h.z;
    let rcode = h.rcode;
    assert(qr <= 1 ==> qr & 1 == qr) by (bit_vector);
    assert(opcode <= 15 ==> opcode & 0xf == opcode) by (bit_vector);
    assert(z <= 7 ==> z & 7 == z) by (bit_vector);
    assert(rcode <= 15 ==> rcode & 0xf == rcode) by (bit_vector);
    let aa = h.aa;
    let tc = h.tc;
    let rd = h.rd;
    let ra = h.ra;
    assert(aa <= 1 ==> aa & 1 == aa) by (bit_vector);
    assert(tc <= 1 ==> tc & 1 == tc) by (bit_vector);
    assert(rd <= 1 ==> rd & 1 == rd) by (bit_vector);
    assert(ra <= 1 ==> ra & 1 == ra) by (bit_vector);
}

/// Header bit-packing round-trip: decoding an encoded header
/// reproduces each of the ten fields exactly when it sits within its
/// declared bit width, and truncates it to that width otherwise.
pub proof fn lemma_header_roundtrip(h: Header)
    ensures
        parse_header(header_wire(h), 0) == Some((masked(h), 4int)),
        wf_header(h) ==> masked(h) == h,
{
    assert(header_wire(h).subrange(0, 4) =~= header_wire(h));
    lemma_header_wire_parses(header_wire(h), 0, h);
    if wf_header(h) {
        lemma_masked_identity(h);
    }
}

impl Header {
    /// A fresh header for an outgoing query: all flag fields zero and
    /// a new random identifier.
    pub fn new() -> (r: Header)
        ensures
            r.qr == 0 && r.opcode == 0 && r.aa == 0 && r.tc == 0 && r.rd == 0 && r.ra == 0 && r.z
                == 0 && r.rcode == 0,
            wf_header(r),
    {
        Header {
            id: rand::random(),
            qr: 0u8,
            opcode: 0u8,
            aa: 0u8,
            tc: 0u8,
            rd: 0u8,
            ra: 0u8,
            z: 0u8,
            rcode: 0u8,
        }
    }

    /// Append this header's four bytes.
    pub fn write(&self, writer: &mut Writer)
        ensures
            final(writer).buf@ == old(writer).buf@ + header_wire(*self),
    {
        writer.write_u16(self.id);
        writer.write_u8(
            ((self.qr & 1) << 7) | ((self.opcode & 0xf) << 3) | ((self.aa & 1) << 2) | ((self.tc
                & 1) << 1) | (self.rd & 1),
        );
        writer.write_u8(((self.ra & 1) << 7) | ((self.z & 7) << 4) | (self.rcode & 0xf));
        assert(writer.buf@ =~= old(writer).buf@ + header_wire(*self));
    }

    /// Decode a header at the cursor.
    pub fn read(reader: &mut Reader) -> (r: Result<Header, DecodeError>)
        ensures
            final(reader).buf == old(reader).buf,
            match r {
                Ok(h) => {
                    &&& parse_header(old(reader).buf@, old(reader).pos as int) == Some(
                        (h, final(reader).pos as int),
                    )
                    &&& final(reader).pos <= old(reader).buf@.len()
                },
                Err(e) => {
                    &&& parse_header(old(reader).buf@, old(reader).pos as int) is None
                    &&& e == DecodeError::Incomplete
                },
            },
    {
        let buflen = reader.buf.len();
        if reader.pos > buflen || buflen - reader.pos < 4 {
            return Err(DecodeError::Incomplete);
        }
        let id = reader.read_u16();

        let byte = reader.read_u8();
        let qr = (byte & (0x1 << 7)) >> 7;
        let opcode = (byte & (0xf << 3)) >> 3;
        let aa = (byte & (0x1 << 2)) >> 2;
        let tc = (byte & (0x1 << 1)) >> 1;
        let rd = byte & 0x1;

        let byte = reader.read_u8();
        let ra = (byte & (0x1 << 7)) >> 7;
        let z = (byte & (0x7 << 4)) >> 4;
        let rcode = byte & 0xf;

        Ok(Header { id, qr, opcode, aa, tc, rd, ra, z, rcode })
    }
}

} // verus!

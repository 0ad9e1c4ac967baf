//! One query tuple: name, type and class.

use vstd::prelude::*;

use crate::error::DecodeError;
use crate::qclass::QClass;
use crate::qclass::qclass_num;
use crate::qclass::qclass_of;
use crate::qclass::wf_qclass;
use crate::qname::QName;
use crate::qtype::QType;
use crate::qtype::qtype_num;
use crate::qtype::qtype_of;
use crate::qtype::wf_qtype;
use crate::reader::Reader;
use crate::wire;
use crate::writer::Writer;

verus! {

/// The mathematical value of a question.
pub ghost struct QuestionV {
    pub name: Seq<Seq<char>>,
    pub qtype: QType,
    pub class: QClass,
}

/// A question whose encoding decodes back to itself: the name is fit
/// for the wire and neither enumeration hides a well-known code in
/// its unknown fallback.
pub open spec fn wf_question(q: QuestionV) -> bool {
    wire::wf_name(q.name) && wf_qtype(q.qtype) && wf_qclass(q.class)
}

/// A question on the wire: name, 16-bit type code, 16-bit class code.
pub open spec fn question_wire(q: QuestionV) -> Seq<u8> {
    wire::name_wire(q.name) + wire::u16_bytes(qtype_num(q.qtype)) + wire::u16_bytes(
        qclass_num(q.class),
    )
}

/// What a question decodes to at `pos`.
pub open spec fn parse_question(buf: Seq<u8>, pos: int) -> Option<(QuestionV, int)> {
    match wire::parse_name(buf, pos) {
        Option::None => None,
        Option::Some((ls, p)) => {
            if p + 4 <= buf.len() {
                Some(
                    (
                        QuestionV {
                            name: ls,
                            qtype: qtype_of(wire::u16_of(buf[p], buf[p + 1])),
                            class: qclass_of(wire::u16_of(buf[p + 2], buf[p + 3])),
                        },
                        p + 4,
                    ),
                )
            } else {
                None
            }
        },
    }
}

/// A question's bytes decode to the question itself, whatever else
/// the buffer holds around them.
pub proof fn lemma_question_wire_parses(buf: Seq<u8>, pos: int, q: QuestionV)
    requires
        wf_question(q),
        0 <= pos,
        pos + question_wire(q).len() <= buf.len(),
        buf.subrange(pos, pos + question_wire(q).len()) == question_wire(q),
    ensures
        parse_question(buf, pos) == Some((q, pos + question_wire(q).len())),
{
    let w = question_wire(q);
    let n = w.len() as int;
    let nw = wire::name_wire(q.name);
    let nl = nw.len() as int;
    assert forall|i: int| 0 <= i < n implies buf[pos + i] == w[i] by {
        assert(buf.subrange(pos, pos + n)[i] == buf[pos + i]);
    }
    assert(buf.subrange(pos, pos + nl) =~= nw);
    wire::lemma_name_wire_parses(buf, pos, q.name, buf.len() as nat);
    let p = pos + nl;
    let tn = qtype_num(q.qtype);
    let cn = qclass_num(q.class);
    assert(buf[p] == w[nl + 0]);
    assert(buf[p + 1] == w[nl + 1]);
    assert(buf[p + 2] == w[nl + 2]);
    assert(buf[p + 3] == w[nl + 3]);
    assert(w[nl + 0] == wire::u16_bytes(tn)[0]);
    assert(w[nl + 1] == wire::u16_bytes(tn)[1]);
    assert(w[nl + 2] == wire::u16_bytes(cn)[0]);
    assert(w[nl + 3] == wire::u16_bytes(cn)[1]);
    wire::lemma_u16_roundtrip(tn);
    wire::lemma_u16_roundtrip(cn);
}

/// A question that decodes within the front of a buffer decodes the
/// same however the buffer continues.
pub proof fn lemma_parse_question_extend(short: Seq<u8>, buf: Seq<u8>, pos: int)
    requires
        wire::prefix_of(short, buf),
        parse_question(short, pos) is Some,
    ensures
        parse_question(buf, pos) == parse_question(short, pos),
{
    wire::lemma_parse_name_extend(short, buf, pos);
    let p = wire::parse_name(short, pos)->Some_0.1;
    wire::lemma_parse_name_at_bounds(short, pos, short.len());
    assert(p + 4 <= short.len());
    wire::lemma_index_match(buf, 0, short, p);
    wire::lemma_index_match(buf, 0, short, p + 1);
    wire::lemma_index_match(buf, 0, short, p + 2);
    wire::lemma_index_match(buf, 0, short, p + 3);
}

/// A query tuple.
#[derive(Debug, PartialEq)]
pub struct Question {
    pub qname: QName,
    pub qtype: QType,
    pub class: QClass,
}

impl View for Question {
    type V = QuestionV;

    open spec fn view(&self) -> QuestionV {
        QuestionV { name: self.qname@, qtype: self.qtype, class: self.class }
    }
}

impl DeepView for Question {
    type V = QuestionV;

    open spec fn deep_view(&self) -> QuestionV {
        self@
    }
}

impl Question {
    /// A question for `qname` and `qtype`; the class defaults to the
    /// standard Internet class when unspecified.
    pub fn new(qname: QName, qtype: QType, class: Option<QClass>) -> (r: Question)
        ensures
            r@.name == qname@,
            r@.qtype == qtype,
            r@.class == match class {
                Some(c) => c,
                None => QClass::INTERNET,
            },
    {
        Question {
            qname,
            qtype,
            class: match class {
                Some(class) => class,
                None => QClass::INTERNET,
            },
        }
    }

    /// Append this question's wire form.
    pub fn write(&self, writer: &mut Writer)
        ensures
            final(writer).buf@ == old(writer).buf@ + question_wire(self@),
    {
        self.qname.write(writer);
        writer.write_u16(self.qtype.to_num());
        writer.write_u16(self.class.to_num());
        assert(writer.buf@ =~= old(writer).buf@ + question_wire(self@));
    }

    /// Decode a question at the cursor.
    pub fn read(reader: &mut Reader) -> (r: Result<Question, DecodeError>)
        ensures
            final(reader).buf == old(reader).buf,
            match r {
                Ok(q) => {
                    &&& parse_question(old(reader).buf@, old(reader).pos as int) == Some(
                        (q@, final(reader).pos as int),
                    )
                    &&& final(reader).pos <= old(reader).buf@.len()
                },
                Err(e) => {
                    &&& parse_question(old(reader).buf@, old(reader).pos as int) is None
                    &&& e == DecodeError::Incomplete
                },
            },
    {
        let qname = match QName::read(reader) {
            Ok(n) => n,
            Err(e) => {
                return Err(e);
            },
        };
        if reader.reminder() < 4 {
            return Err(DecodeError::Incomplete);
        }
        let tn = reader.read_u16();
        let cn = reader.read_u16();
        Ok(Question { qname, qtype: QType::from_num(tn), class: QClass::from_num(cn) })
    }
}

} // verus!

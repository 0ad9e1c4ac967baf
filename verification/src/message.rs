//! Top-level message framing: header, four count-prefixed sections,
//! and the check that decoding consumed exactly the input.

use vstd::prelude::*;

use crate::error::DecodeError;
use crate::header::Header;
use crate::header::header_wire;
use crate::header::parse_header;
use crate::header::wf_header;
use crate::question::Question;
use crate::question::QuestionV;
use crate::question::parse_question;
use crate::question::question_wire;
use crate::question::wf_question;
use crate::question::lemma_question_wire_parses;
use crate::question::lemma_parse_question_extend;
use crate::reader::Reader;
use crate::record::Record;
use crate::record::RecordV;
use crate::record::parse_record;
use crate::record::record_wire;
use crate::record::wf_record;
use crate::record::lemma_record_wire_parses;
use crate::record::lemma_parse_record_extend;
use crate::wire;
use crate::writer::Writer;

verus! {

/// The mathematical value of a message.
pub ghost struct MessageV {
    pub header: Header,
    pub questions: Seq<QuestionV>,
    pub answers: Seq<RecordV>,
    pub authority: Seq<RecordV>,
    pub additional: Seq<RecordV>,
}

/// The questions of a section, one after the other.
pub open spec fn questions_wire(qs: Seq<QuestionV>) -> Seq<u8>
    decreases qs.len(),
{
    if qs.len() == 0 {
        Seq::empty()
    } else {
        questions_wire(qs.drop_last()) + question_wire(qs.last())
    }
}

/// The records of a section, one after the other.
pub open spec fn records_wire(rs: Seq<RecordV>) -> Seq<u8>
    decreases rs.len(),
{
    if rs.len() == 0 {
        Seq::empty()
    } else {
        records_wire(rs.drop_last()) + record_wire(rs.last())
    }
}

/// A section's bytes also decompose at the front.
proof fn lemma_questions_wire_cons(qs: Seq<QuestionV>)
    requires
        qs.len() > 0,
    ensures
        questions_wire(qs) == question_wire(qs[0]) + questions_wire(qs.drop_first()),
    decreases qs.len(),
{
    if qs.len() == 1 {
        assert(qs.drop_last() =~= Seq::<QuestionV>::empty());
        assert(qs.drop_first() =~= Seq::<QuestionV>::empty());
        assert(questions_wire(qs) =~= question_wire(qs[0]) + questions_wire(qs.drop_first()));
    } else {
        lemma_questions_wire_cons(qs.drop_last());
        assert(qs.drop_last()[0] == qs[0]);
        assert(qs.drop_last().drop_first() =~= qs.drop_first().drop_last());
        assert(qs.drop_first().last() == qs.last());
        assert(questions_wire(qs) =~= question_wire(qs[0]) + questions_wire(qs.drop_first()));
    }
}

/// A section's bytes also decompose at the front.
proof fn lemma_records_wire_cons(rs: Seq<RecordV>)
    requires
        rs.len() > 0,
    ensures
        records_wire(rs) == record_wire(rs[0]) + records_wire(rs.drop_first()),
    decreases rs.len(),
{
    if rs.len() == 1 {
        assert(rs.drop_last() =~= Seq::<RecordV>::empty());
        assert(rs.drop_first() =~= Seq::<RecordV>::empty());
        assert(records_wire(rs) =~= record_wire(rs[0]) + records_wire(rs.drop_first()));
    } else {
        lemma_records_wire_cons(rs.drop_last());
        assert(rs.drop_last()[0] == rs[0]);
        assert(rs.drop_last().drop_first() =~= rs.drop_first().drop_last());
        assert(rs.drop_first().last() == rs.last());
        assert(records_wire(rs) =~= record_wire(rs[0]) + records_wire(rs.drop_first()));
    }
}

/// What `n` questions decode to, one after the other.
pub open spec fn parse_questions(buf: Seq<u8>, pos: int, n: nat) -> Option<(Seq<QuestionV>, int)>
    decreases n,
{
    if n == 0 {
        Some((Seq::empty(), pos))
    } else {
        match parse_question(buf, pos) {
            Option::None => None,
            Option::Some((q, p)) => {
                match parse_questions(buf, p, (n - 1) as nat) {
                    Option::None => None,
                    Option::Some((qs, end)) => Some((seq![q] + qs, end)),
                }
            },
        }
    }
}

/// What `n` records decode to, one after the other.
pub open spec fn parse_records(buf: Seq<u8>, pos: int, n: nat) -> Option<(Seq<RecordV>, int)>
    decreases n,
{
    if n == 0 {
        Some((Seq::empty(), pos))
    } else {
        match parse_record(buf, pos) {
            Option::None => None,
            Option::Some((r, p)) => {
                match parse_records(buf, p, (n - 1) as nat) {
                    Option::None => None,
                    Option::Some((rs, end)) => Some((seq![r] + rs, end)),
                }
            },
        }
    }
}

/// One more question at the end of a decoded run extends it.
proof fn lemma_parse_questions_snoc(buf: Seq<u8>, pos: int, n: nat)
    requires
        parse_questions(buf, pos, n) is Some,
        parse_question(buf, parse_questions(buf, pos, n)->Some_0.1) is Some,
    ensures
        parse_questions(buf, pos, n + 1) == Some(
            (
                parse_questions(buf, pos, n)->Some_0.0.push(
                    parse_question(buf, parse_questions(buf, pos, n)->Some_0.1)->Some_0.0,
                ),
                parse_question(buf, parse_questions(buf, pos, n)->Some_0.1)->Some_0.1,
            ),
        ),
    decreases n,
{
    let (qs, p) = parse_questions(buf, pos, n)->Some_0;
    let (q, p2) = parse_question(buf, p)->Some_0;
    if n == 0 {
        assert(parse_questions(buf, p2, 0) == Some((Seq::<QuestionV>::empty(), p2)));
        assert(seq![q] + Seq::<QuestionV>::empty() =~= Seq::<QuestionV>::empty().push(q));
        assert(parse_questions(buf, pos, n + 1) == Some((qs.push(q), p2)));
    } else {
        let (q0, p0) = parse_question(buf, pos)->Some_0;
        let inner = parse_questions(buf, p0, (n - 1) as nat);
        assert(inner is Some);
        let qs1 = inner->Some_0.0;
        assert(qs == seq![q0] + qs1);
        assert(inner->Some_0.1 == p);
        lemma_parse_questions_snoc(buf, p0, (n - 1) as nat);
        assert(((n - 1) as nat) + 1 == n);
        assert(parse_questions(buf, p0, n) == Some((qs1.push(q), p2)));
        assert(seq![q0] + qs1.push(q) =~= qs.push(q));
        assert(parse_questions(buf, pos, n + 1) == Some((qs.push(q), p2)));
    }
}

/// One more record at the end of a decoded run extends it.
proof fn lemma_parse_records_snoc(buf: Seq<u8>, pos: int, n: nat)
    requires
        parse_records(buf, pos, n) is Some,
        parse_record(buf, parse_records(buf, pos, n)->Some_0.1) is Some,
    ensures
        parse_records(buf, pos, n + 1) == Some(
            (
                parse_records(buf, pos, n)->Some_0.0.push(
                    parse_record(buf, parse_records(buf, pos, n)->Some_0.1)->Some_0.0,
                ),
                parse_record(buf, parse_records(buf, pos, n)->Some_0.1)->Some_0.1,
            ),
        ),
    decreases n,
{
    let (rs, p) = parse_records(buf, pos, n)->Some_0;
    let (r, p2) = parse_record(buf, p)->Some_0;
    if n == 0 {
        assert(parse_records(buf, p2, 0) == Some((Seq::<RecordV>::empty(), p2)));
        assert(seq![r] + Seq::<RecordV>::empty() =~= Seq::<RecordV>::empty().push(r));
        assert(parse_records(buf, pos, n + 1) == Some((rs.push(r), p2)));
    } else {
        let (r0, p0) = parse_record(buf, pos)->Some_0;
        let inner = parse_records(buf, p0, (n - 1) as nat);
        assert(inner is Some);
        let rs1 = inner->Some_0.0;
        assert(rs == seq![r0] + rs1);
        assert(inner->Some_0.1 == p);
        lemma_parse_records_snoc(buf, p0, (n - 1) as nat);
        assert(((n - 1) as nat) + 1 == n);
        assert(parse_records(buf, p0, n) == Some((rs1.push(r), p2)));
        assert(seq![r0] + rs1.push(r) =~= rs.push(r));
        assert(parse_records(buf, pos, n + 1) == Some((rs.push(r), p2)));
    }
}

/// A run that stalls where one more question was declared fails as a
/// whole.
proof fn lemma_parse_questions_fail(buf: Seq<u8>, pos: int, k: nat, n: nat)
    requires
        k < n,
        parse_questions(buf, pos, k) is Some,
        parse_question(buf, parse_questions(buf, pos, k)->Some_0.1) is None,
    ensures
        parse_questions(buf, pos, n) is None,
    decreases k,
{
    if k == 0 {
    } else {
        let (q0, p0) = parse_question(buf, pos)->Some_0;
        lemma_parse_questions_fail(buf, p0, (k - 1) as nat, (n - 1) as nat);
    }
}

/// A run that stalls where one more record was declared fails as a
/// whole.
proof fn lemma_parse_records_fail(buf: Seq<u8>, pos: int, k: nat, n: nat)
    requires
        k < n,
        parse_records(buf, pos, k) is Some,
        parse_record(buf, parse_records(buf, pos, k)->Some_0.1) is None,
    ensures
        parse_records(buf, pos, n) is None,
    decreases k,
{
    if k == 0 {
    } else {
        let (r0, p0) = parse_record(buf, pos)->Some_0;
        lemma_parse_records_fail(buf, p0, (k - 1) as nat, (n - 1) as nat);
    }
}

/// A whole section of questions decodes to itself, whatever else the
/// buffer holds around it.
proof fn lemma_questions_wire_parses(buf: Seq<u8>, pos: int, qs: Seq<QuestionV>)
    requires
        forall|i: int| 0 <= i < qs.len() ==> wf_question(#[trigger] qs[i]),
        0 <= pos,
        pos + questions_wire(qs).len() <= buf.len(),
        buf.subrange(pos, pos + questions_wire(qs).len()) == questions_wire(qs),
    ensures
        parse_questions(buf, pos, qs.len()) == Some((qs, pos + questions_wire(qs).len())),
    decreases qs.len(),
{
    if qs.len() == 0 {
        assert(qs =~= Seq::<QuestionV>::empty());
    } else {
        lemma_questions_wire_cons(qs);
        let w = questions_wire(qs);
        let w0 = question_wire(qs[0]);
        let l0 = w0.len() as int;
        let n = w.len() as int;
        assert(w.subrange(0, l0) =~= w0);
        wire::lemma_slice_match(buf, pos, w, 0, l0);
        lemma_question_wire_parses(buf, pos, qs[0]);
        assert(w.subrange(l0, n) =~= questions_wire(qs.drop_first()));
        wire::lemma_slice_match(buf, pos, w, l0, n);
        lemma_questions_wire_parses(buf, pos + l0, qs.drop_first());
        assert(seq![qs[0]] + qs.drop_first() =~= qs);
    }
}

/// A whole section of records decodes to itself, whatever else the
/// buffer holds around it.
proof fn lemma_records_wire_parses(buf: Seq<u8>, pos: int, rs: Seq<RecordV>)
    requires
        forall|i: int| 0 <= i < rs.len() ==> wf_record(#[trigger] rs[i]),
        0 <= pos,
        pos + records_wire(rs).len() <= buf.len(),
        buf.subrange(pos, pos + records_wire(rs).len()) == records_wire(rs),
    ensures
        parse_records(buf, pos, rs.len()) == Some((rs, pos + records_wire(rs).len())),
    decreases rs.len(),
{
    if rs.len() == 0 {
        assert(rs =~= Seq::<RecordV>::empty());
    } else {
        lemma_records_wire_cons(rs);
        let w = records_wire(rs);
        let w0 = record_wire(rs[0]);
        let l0 = w0.len() as int;
        let n = w.len() as int;
        assert(w.subrange(0, l0) =~= w0);
        wire::lemma_slice_match(buf, pos, w, 0, l0);
        lemma_record_wire_parses(buf, pos, rs[0]);
        assert(w.subrange(l0, n) =~= records_wire(rs.drop_first()));
        wire::lemma_slice_match(buf, pos, w, l0, n);
        lemma_records_wire_parses(buf, pos + l0, rs.drop_first());
        assert(seq![rs[0]] + rs.drop_first() =~= rs);
    }
}

/// A run of questions that decodes within the front of a buffer
/// decodes the same however the buffer continues.
proof fn lemma_parse_questions_extend(short: Seq<u8>, buf: Seq<u8>, pos: int, n: nat)
    requires
        wire::prefix_of(short, buf),
        parse_questions(short, pos, n) is Some,
    ensures
        parse_questions(buf, pos, n) == parse_questions(short, pos, n),
    decreases n,
{
    if n == 0 {
    } else {
        assert(parse_question(short, pos) is Some);
        lemma_parse_question_extend(short, buf, pos);
        let p = parse_question(short, pos)->Some_0.1;
        lemma_parse_questions_extend(short, buf, p, (n - 1) as nat);
    }
}

/// A run of records that decodes within the front of a buffer decodes
/// the same however the buffer continues.
proof fn lemma_parse_records_extend(short: Seq<u8>, buf: Seq<u8>, pos: int, n: nat)
    requires
        wire::prefix_of(short, buf),
        parse_records(short, pos, n) is Some,
    ensures
        parse_records(buf, pos, n) == parse_records(short, pos, n),
    decreases n,
{
    if n == 0 {
    } else {
        assert(parse_record(short, pos) is Some);
        lemma_parse_record_extend(short, buf, pos);
        let p = parse_record(short, pos)->Some_0.1;
        lemma_parse_records_extend(short, buf, p, (n - 1) as nat);
    }
}

/// A message body that decodes within the front of a buffer decodes
/// the same however the buffer continues.
proof fn lemma_parse_message_body_extend(short: Seq<u8>, buf: Seq<u8>)
    requires
        wire::prefix_of(short, buf),
        parse_message_body(short) is Some,
    ensures
        parse_message_body(buf) == parse_message_body(short),
{
    assert(parse_header(short, 0) is Some);
    assert(12 <= short.len());
    wire::lemma_index_match(buf, 0, short, 0);
    wire::lemma_index_match(buf, 0, short, 1);
    wire::lemma_index_match(buf, 0, short, 2);
    wire::lemma_index_match(buf, 0, short, 3);
    wire::lemma_index_match(buf, 0, short, 4);
    wire::lemma_index_match(buf, 0, short, 5);
    wire::lemma_index_match(buf, 0, short, 6);
    wire::lemma_index_match(buf, 0, short, 7);
    wire::lemma_index_match(buf, 0, short, 8);
    wire::lemma_index_match(buf, 0, short, 9);
    wire::lemma_index_match(buf, 0, short, 10);
    wire::lemma_index_match(buf, 0, short, 11);
    assert(parse_header(buf, 0) == parse_header(short, 0));
    let qd = wire::u16_of(short[4], short[5]);
    let an = wire::u16_of(short[6], short[7]);
    let ns = wire::u16_of(short[8], short[9]);
    let ar = wire::u16_of(short[10], short[11]);
    assert(parse_questions(short, 12, qd as nat) is Some);
    lemma_parse_questions_extend(short, buf, 12, qd as nat);
    let p1 = parse_questions(short, 12, qd as nat)->Some_0.1;
    assert(parse_records(short, p1, an as nat) is Some);
    lemma_parse_records_extend(short, buf, p1, an as nat);
    let p2 = parse_records(short, p1, an as nat)->Some_0.1;
    assert(parse_records(short, p2, ns as nat) is Some);
    lemma_parse_records_extend(short, buf, p2, ns as nat);
    let p3 = parse_records(short, p2, ns as nat)->Some_0.1;
    assert(parse_records(short, p3, ar as nat) is Some);
    lemma_parse_records_extend(short, buf, p3, ar as nat);
}

/// A message whose encoding decodes back to itself: the header's
/// fields sit within their bit widths, each section's length fits its
/// 16-bit count, and every question and record is itself fit for the
/// wire.
pub open spec fn wf_message(m: MessageV) -> bool {
    &&& wf_header(m.header)
    &&& m.questions.len() <= 65535
    &&& m.answers.len() <= 65535
    &&& m.authority.len() <= 65535
    &&& m.additional.len() <= 65535
    &&& forall|i: int| 0 <= i < m.questions.len() ==> wf_question(#[trigger] m.questions[i])
    &&& forall|i: int| 0 <= i < m.answers.len() ==> wf_record(#[trigger] m.answers[i])
    &&& forall|i: int| 0 <= i < m.authority.len() ==> wf_record(#[trigger] m.authority[i])
    &&& forall|i: int| 0 <= i < m.additional.len() ==> wf_record(#[trigger] m.additional[i])
}

/// A message on the wire: header, the four section counts, then each
/// section's entries in order.
pub open spec fn message_wire(m: MessageV) -> Seq<u8> {
    header_wire(m.header) + wire::u16_bytes(m.questions.len() as u16) + wire::u16_bytes(
        m.answers.len() as u16,
    ) + wire::u16_bytes(m.authority.len() as u16) + wire::u16_bytes(m.additional.len() as u16)
        + questions_wire(m.questions) + records_wire(m.answers) + records_wire(m.authority)
        + records_wire(m.additional)
}

/// What a whole message decodes to, and where decoding stops.
pub open spec fn parse_message_body(buf: Seq<u8>) -> Option<(MessageV, int)> {
    match parse_header(buf, 0) {
        Option::None => None,
        Option::Some((h, p0)) => {
            if p0 + 8 <= buf.len() {
                let qd = wire::u16_of(buf[p0], buf[p0 + 1]);
                let an = wire::u16_of(buf[p0 + 2], buf[p0 + 3]);
                let ns = wire::u16_of(buf[p0 + 4], buf[p0 + 5]);
                let ar = wire::u16_of(buf[p0 + 6], buf[p0 + 7]);
                match parse_questions(buf, p0 + 8, qd as nat) {
                    Option::None => None,
                    Option::Some((qs, p1)) => {
                        match parse_records(buf, p1, an as nat) {
                            Option::None => None,
                            Option::Some((ans, p2)) => {
                                match parse_records(buf, p2, ns as nat) {
                                    Option::None => None,
                                    Option::Some((auth, p3)) => {
                                        match parse_records(buf, p3, ar as nat) {
                                            Option::None => None,
                                            Option::Some((add, p4)) => Some(
                                                (
                                                    MessageV {
                                                        header: h,
                                                        questions: qs,
                                                        answers: ans,
                                                        authority: auth,
                                                        additional: add,
                                                    },
                                                    p4,
                                                ),
                                            ),
                                        }
                                    },
                                }
                            },
                        }
                    },
                }
            } else {
                None
            }
        },
    }
}

/// What a buffer decodes to as one complete message: decoding must
/// stop with the cursor exactly at the end, neither short nor past.
pub open spec fn parse_message(buf: Seq<u8>) -> Option<MessageV> {
    match parse_message_body(buf) {
        Option::None => None,
        Option::Some((m, end)) => {
            if end == buf.len() {
                Some(m)
            } else {
                None
            }
        },
    }
}

/// A message's bytes at the start of a buffer decode to the message
/// itself, whatever follows them.
#[verifier::rlimit(100)]
#[verifier::spinoff_prover]
pub proof fn lemma_message_wire_parses(buf: Seq<u8>, m: MessageV)
    requires
        wf_message(m),
        message_wire(m).len() <= buf.len(),
        buf.subrange(0, message_wire(m).len() as int) == message_wire(m),
    ensures
        parse_message_body(buf) == Some((m, message_wire(m).len() as int)),
{
    let hw = header_wire(m.header);
    let qd = m.questions.len() as u16;
    let an = m.answers.len() as u16;
    let ns = m.authority.len() as u16;
    let ar = m.additional.len() as u16;
    let c1 = wire::u16_bytes(qd);
    let c2 = wire::u16_bytes(an);
    let c3 = wire::u16_bytes(ns);
    let c4 = wire::u16_bytes(ar);
    let qsw = questions_wire(m.questions);
    let answ = records_wire(m.answers);
    let authw = records_wire(m.authority);
    let addw = records_wire(m.additional);
    let w1 = hw + c1;
    let w2 = w1 + c2;
    let w3 = w2 + c3;
    let w4 = w3 + c4;
    let w5 = w4 + qsw;
    let w6 = w5 + answ;
    let w7 = w6 + authw;
    assert(message_wire(m) == w7 + addw);
    wire::lemma_concat_parts(w7, addw, buf, 0);
    wire::lemma_concat_parts(w6, authw, buf, 0);
    wire::lemma_concat_parts(w5, answ, buf, 0);
    wire::lemma_concat_parts(w4, qsw, buf, 0);
    wire::lemma_concat_parts(w3, c4, buf, 0);
    wire::lemma_concat_parts(w2, c3, buf, 0);
    wire::lemma_concat_parts(w1, c2, buf, 0);
    wire::lemma_concat_parts(hw, c1, buf, 0);
    crate::header::lemma_header_wire_parses(buf, 0, m.header);
    crate::header::lemma_masked_identity(m.header);
    assert(parse_header(buf, 0) == Some((m.header, 4int)));
    wire::lemma_index_match(buf, 4, c1, 0);
    wire::lemma_index_match(buf, 4, c1, 1);
    wire::lemma_index_match(buf, 6, c2, 0);
    wire::lemma_index_match(buf, 6, c2, 1);
    wire::lemma_index_match(buf, 8, c3, 0);
    wire::lemma_index_match(buf, 8, c3, 1);
    wire::lemma_index_match(buf, 10, c4, 0);
    wire::lemma_index_match(buf, 10, c4, 1);
    wire::lemma_u16_roundtrip(qd);
    wire::lemma_u16_roundtrip(an);
    wire::lemma_u16_roundtrip(ns);
    wire::lemma_u16_roundtrip(ar);
    let p1 = 12int;
    let p2 = p1 + qsw.len() as int;
    let p3 = p2 + answ.len() as int;
    let p4 = p3 + authw.len() as int;
    let p5 = p4 + addw.len() as int;
    lemma_questions_wire_parses(buf, p1, m.questions);
    lemma_records_wire_parses(buf, p2, m.answers);
    lemma_records_wire_parses(buf, p3, m.authority);
    lemma_records_wire_parses(buf, p4, m.additional);
    assert(p5 == message_wire(m).len());
    assert(parse_message_body(buf) == Some((m, p5)));
}

/// Message round-trip: every well-formed message, encoded and then
/// decoded, comes back exactly.  Encoding writes every name in full,
/// so no compressed names occur on this path.
pub proof fn lemma_message_roundtrip(m: MessageV)
    requires
        wf_message(m),
    ensures
        parse_message(message_wire(m)) == Some(m),
{
    let w = message_wire(m);
    assert(w.subrange(0, w.len() as int) =~= w);
    lemma_message_wire_parses(w, m);
}

/// Trailing rejection: a complete message encoding followed by any
/// extra bytes decodes its sections and is then rejected, not
/// silently truncated.
pub proof fn lemma_trailing_rejected(m: MessageV, extra: Seq<u8>)
    requires
        wf_message(m),
        extra.len() > 0,
    ensures
        parse_message_body(message_wire(m) + extra) == Some(
            (m, message_wire(m).len() as int),
        ),
        parse_message(message_wire(m) + extra) is None,
{
    let buf = message_wire(m) + extra;
    assert(buf.subrange(0, message_wire(m).len() as int) =~= message_wire(m));
    lemma_message_wire_parses(buf, m);
}

/// Truncation rejection: no strict prefix of a complete message
/// encoding decodes as a message.  Decoding a buffer cut anywhere
/// before the end of the declared sections fails.
pub proof fn lemma_prefix_rejected(m: MessageV, k: int)
    requires
        wf_message(m),
        0 <= k < message_wire(m).len(),
    ensures
        parse_message(message_wire(m).take(k)) is None,
{
    let w = message_wire(m);
    let part = w.take(k);
    if parse_message(part) is Some {
        assert(parse_message_body(part) is Some);
        assert(parse_message_body(part)->Some_0.1 == k);
        assert(part =~= w.subrange(0, k));
        assert(wire::prefix_of(part, w));
        lemma_parse_message_body_extend(part, w);
        assert(w.subrange(0, w.len() as int) =~= w);
        lemma_message_wire_parses(w, m);
        assert(false);
    }
}

/// The facts that the fixed twelve-byte front of `buf` decodes to
/// `h` and the four section counts.
spec fn counts_at(buf: Seq<u8>, h: Header, qd: u16, an: u16, ns: u16, ar: u16) -> bool {
    &&& parse_header(buf, 0) == Some((h, 4int))
    &&& 12 <= buf.len()
    &&& qd == wire::u16_of(buf[4], buf[5])
    &&& an == wire::u16_of(buf[6], buf[7])
    &&& ns == wire::u16_of(buf[8], buf[9])
    &&& ar == wire::u16_of(buf[10], buf[11])
}

/// A whole message: header and four ordered sections.
#[derive(Debug, PartialEq)]
pub struct Message {
    header: Header,
    questions: Vec<Question>,
    answers: Vec<Record>,
    authority: Vec<Record>,
    additional: Vec<Record>,
}

impl View for Message {
    type V = MessageV;

    closed spec fn view(&self) -> MessageV {
        MessageV {
            header: self.header,
            questions: self.questions.deep_view(),
            answers: self.answers.deep_view(),
            authority: self.authority.deep_view(),
            additional: self.additional.deep_view(),
        }
    }
}

impl Message {
    /// The questions of this message, in order.
    pub fn questions(&self) -> (r: &Vec<Question>)
        ensures
            r.deep_view() == self@.questions,
    {
        &self.questions
    }

    /// A fresh query message: a new header with all flag fields zero
    /// and a random identifier, and four empty sections.
    pub fn new() -> (r: Message)
        ensures
            r@.header.qr == 0 && r@.header.opcode == 0 && r@.header.aa == 0 && r@.header.tc == 0
                && r@.header.rd == 0 && r@.header.ra == 0 && r@.header.z == 0 && r@.header.rcode
                == 0,
            wf_header(r@.header),
            r@.questions == Seq::<QuestionV>::empty(),
            r@.answers == Seq::<RecordV>::empty(),
            r@.authority == Seq::<RecordV>::empty(),
            r@.additional == Seq::<RecordV>::empty(),
    {
        let m = Message {
            header: Header::new(),
            questions: vec![],
            answers: vec![],
            authority: vec![],
            additional: vec![],
        };
        proof {
            assert(m@.questions =~= Seq::<QuestionV>::empty());
            assert(m@.answers =~= Seq::<RecordV>::empty());
            assert(m@.authority =~= Seq::<RecordV>::empty());
            assert(m@.additional =~= Seq::<RecordV>::empty());
        }
        m
    }

    /// Pose one more question.
    pub fn ask(&mut self, question: Question)
        ensures
            final(self)@.questions == old(self)@.questions.push(question@),
            final(self)@.header == old(self)@.header,
            final(self)@.answers == old(self)@.answers,
            final(self)@.authority == old(self)@.authority,
            final(self)@.additional == old(self)@.additional,
    {
        self.questions.push(question);
        proof {
            assert(self.questions.deep_view() =~= old(self).questions.deep_view().push(
                question@,
            ));
        }
    }

    /// Append this message's wire form to `buf`: header, the four
    /// section counts, then each section's entries in order.
    pub fn write(&self, buf: &mut Vec<u8>)
        ensures
            final(buf)@ == old(buf)@ + message_wire(self@),
    {
        let mut writer = Writer::new();

        self.header.write(&mut writer);

        writer.write_u16(self.questions.len() as u16);
        writer.write_u16(self.answers.len() as u16);
        writer.write_u16(self.authority.len() as u16);
        writer.write_u16(self.additional.len() as u16);

        let ghost front = writer.buf@;
        let ghost qdv = self.questions.deep_view();
        let mut idx: usize = 0;
        while idx < self.questions.len()
            invariant
                idx <= self.questions@.len(),
                qdv == self.questions.deep_view(),
                front == header_wire(self.header) + wire::u16_bytes(
                    self.questions@.len() as u16,
                ) + wire::u16_bytes(self.answers@.len() as u16) + wire::u16_bytes(
                    self.authority@.len() as u16,
                ) + wire::u16_bytes(self.additional@.len() as u16),
                writer.buf@ == front + questions_wire(qdv.take(idx as int)),
            decreases self.questions@.len() - idx,
        {
            self.questions[idx].write(&mut writer);
            idx = idx + 1;
            proof {
                assert(qdv.take(idx as int).drop_last() =~= qdv.take(idx - 1));
                assert(qdv.take(idx as int).last() == self.questions@[idx - 1]@);
                assert(writer.buf@ =~= front + questions_wire(qdv.take(idx as int)));
            }
        }
        proof {
            assert(qdv.take(self.questions@.len() as int) =~= qdv);
        }

        let ghost ansv = self.answers.deep_view();
        let ghost front2 = writer.buf@;
        let mut idx: usize = 0;
        while idx < self.answers.len()
            invariant
                idx <= self.answers@.len(),
                ansv == self.answers.deep_view(),
                writer.buf@ == front2 + records_wire(ansv.take(idx as int)),
            decreases self.answers@.len() - idx,
        {
            self.answers[idx].write(&mut writer);
            idx = idx + 1;
            proof {
                assert(ansv.take(idx as int).drop_last() =~= ansv.take(idx - 1));
                assert(ansv.take(idx as int).last() == self.answers@[idx - 1]@);
                assert(writer.buf@ =~= front2 + records_wire(ansv.take(idx as int)));
            }
        }
        proof {
            assert(ansv.take(self.answers@.len() as int) =~= ansv);
        }

        let ghost authv = self.authority.deep_view();
        let ghost front3 = writer.buf@;
        let mut idx: usize = 0;
        while idx < self.authority.len()
            invariant
                idx <= self.authority@.len(),
                authv == self.authority.deep_view(),
                writer.buf@ == front3 + records_wire(authv.take(idx as int)),
            decreases self.authority@.len() - idx,
        {
            self.authority[idx].write(&mut writer);
            idx = idx + 1;
            proof {
                assert(authv.take(idx as int).drop_last() =~= authv.take(idx - 1));
                assert(authv.take(idx as int).last() == self.authority@[idx - 1]@);
                assert(writer.buf@ =~= front3 + records_wire(authv.take(idx as int)));
            }
        }
        proof {
            assert(authv.take(self.authority@.len() as int) =~= authv);
        }

        let ghost addv = self.additional.deep_view();
        let ghost front4 = writer.buf@;
        let mut idx: usize = 0;
        while idx < self.additional.len()
            invariant
                idx <= self.additional@.len(),
                addv == self.additional.deep_view(),
                writer.buf@ == front4 + records_wire(addv.take(idx as int)),
            decreases self.additional@.len() - idx,
        {
            self.additional[idx].write(&mut writer);
            idx = idx + 1;
            proof {
                assert(addv.take(idx as int).drop_last() =~= addv.take(idx - 1));
                assert(addv.take(idx as int).last() == self.additional@[idx - 1]@);
                assert(writer.buf@ =~= front4 + records_wire(addv.take(idx as int)));
            }
        }
        proof {
            assert(addv.take(self.additional@.len() as int) =~= addv);
            assert(writer.buf@ =~= message_wire(self@));
        }

        buf.append(&mut writer.buf);
    }

    /// Decode one complete message from `buffer`.
    ///
    /// Succeeds exactly when the bytes form a whole message and
    /// nothing more: a buffer that runs out early is rejected as
    /// incomplete, and one with unread bytes after all declared
    /// sections is rejected rather than silently truncated.
    #[verifier::rlimit(100)]
    #[verifier::spinoff_prover]
    pub fn read(buffer: &Vec<u8>) -> (r: Result<Message, DecodeError>)
        ensures
            match r {
                Ok(m) => parse_message(buffer@) == Some(m@),
                Err(e) => {
                    &&& parse_message(buffer@) is None
                    &&& (e == DecodeError::Incomplete <==> parse_message_body(buffer@) is None)
                    &&& (e == DecodeError::TrailingBytes <==> (parse_message_body(buffer@) is Some
                        && parse_message_body(buffer@)->Some_0.1 < buffer@.len()))
                },
            },
    {
        let ghost bufv = buffer@;
        let mut reader = Reader::new(buffer);

        let header = match Header::read(&mut reader) {
            Ok(h) => h,
            Err(e) => {
                return Err(e);
            },
        };
        if reader.reminder() < 8 {
            return Err(DecodeError::Incomplete);
        }
        let qdcount = reader.read_u16();
        let ancount = reader.read_u16();
        let nscount = reader.read_u16();
        let arcount = reader.read_u16();
        proof {
            assert(counts_at(bufv, header, qdcount, ancount, nscount, arcount));
        }

        let ghost p1 = reader.pos as int;
        let mut questions: Vec<Question> = Vec::new();
        let mut done: u16 = 0;
        while done < qdcount
            invariant
                done <= qdcount,
                bufv == buffer@,
                reader.buf@ == bufv,
                reader.pos <= bufv.len(),
                counts_at(bufv, header, qdcount, ancount, nscount, arcount),
                p1 == 12,
                parse_questions(bufv, p1, done as nat) == Some(
                    (questions.deep_view(), reader.pos as int),
                ),
            decreases qdcount - done,
        {
            let ghost prefix = parse_questions(bufv, p1, done as nat);
            let q = match Question::read(&mut reader) {
                Ok(q) => q,
                Err(e) => {
                    proof {
                        lemma_parse_questions_fail(bufv, p1, done as nat, qdcount as nat);
                        assert(parse_message_body(bufv) is None);
                    }
                    return Err(e);
                },
            };
            proof {
                lemma_parse_questions_snoc(bufv, p1, done as nat);
            }
            questions.push(q);
            done = done + 1;
            proof {
                assert(questions.deep_view() =~= prefix->Some_0.0.push(q@));
            }
        }

        let ghost p2 = reader.pos as int;
        let mut answers: Vec<Record> = Vec::new();
        let mut done: u16 = 0;
        while done < ancount
            invariant
                done <= ancount,
                bufv == buffer@,
                reader.buf@ == bufv,
                reader.pos <= bufv.len(),
                counts_at(bufv, header, qdcount, ancount, nscount, arcount),
                p1 == 12,
                parse_questions(bufv, p1, qdcount as nat) == Some((questions.deep_view(), p2)),
                parse_records(bufv, p2, done as nat) == Some(
                    (answers.deep_view(), reader.pos as int),
                ),
            decreases ancount - done,
        {
            let ghost prefix = parse_records(bufv, p2, done as nat);
            let rec = match Record::read(&mut reader) {
                Ok(rec) => rec,
                Err(e) => {
                    proof {
                        lemma_parse_records_fail(bufv, p2, done as nat, ancount as nat);
                        assert(parse_message_body(bufv) is None);
                    }
                    return Err(e);
                },
            };
            proof {
                lemma_parse_records_snoc(bufv, p2, done as nat);
            }
            answers.push(rec);
            done = done + 1;
            proof {
                assert(answers.deep_view() =~= prefix->Some_0.0.push(rec@));
            }
        }

        let ghost p3 = reader.pos as int;
        let mut authority: Vec<Record> = Vec::new();
        let mut done: u16 = 0;
        while done < nscount
            invariant
                done <= nscount,
                bufv == buffer@,
                reader.buf@ == bufv,
                reader.pos <= bufv.len(),
                counts_at(bufv, header, qdcount, ancount, nscount, arcount),
                p1 == 12,
                parse_questions(bufv, p1, qdcount as nat) == Some((questions.deep_view(), p2)),
                parse_records(bufv, p2, ancount as nat) == Some((answers.deep_view(), p3)),
                parse_records(bufv, p3, done as nat) == Some(
                    (authority.deep_view(), reader.pos as int),
                ),
            decreases nscount - done,
        {
            let ghost prefix = parse_records(bufv, p3, done as nat);
            let rec = match Record::read(&mut reader) {
                Ok(rec) => rec,
                Err(e) => {
                    proof {
                        lemma_parse_records_fail(bufv, p3, done as nat, nscount as nat);
                        assert(parse_message_body(bufv) is None);
                    }
                    return Err(e);
                },
            };
            proof {
                lemma_parse_records_snoc(bufv, p3, done as nat);
            }
            authority.push(rec);
            done = done + 1;
            proof {
                assert(authority.deep_view() =~= prefix->Some_0.0.push(rec@));
            }
        }

        let ghost p4 = reader.pos as int;
        let mut additional: Vec<Record> = Vec::new();
        let mut done: u16 = 0;
        while done < arcount
            invariant
                done <= arcount,
                bufv == buffer@,
                reader.buf@ == bufv,
                reader.pos <= bufv.len(),
                counts_at(bufv, header, qdcount, ancount, nscount, arcount),
                p1 == 12,
                parse_questions(bufv, p1, qdcount as nat) == Some((questions.deep_view(), p2)),
                parse_records(bufv, p2, ancount as nat) == Some((answers.deep_view(), p3)),
                parse_records(bufv, p3, nscount as nat) == Some((authority.deep_view(), p4)),
                parse_records(bufv, p4, done as nat) == Some(
                    (additional.deep_view(), reader.pos as int),
                ),
            decreases arcount - done,
        {
            let ghost prefix = parse_records(bufv, p4, done as nat);
            let rec = match Record::read(&mut reader) {
                Ok(rec) => rec,
                Err(e) => {
                    proof {
                        lemma_parse_records_fail(bufv, p4, done as nat, arcount as nat);
                        assert(parse_message_body(bufv) is None);
                    }
                    return Err(e);
                },
            };
            proof {
                lemma_parse_records_snoc(bufv, p4, done as nat);
            }
            additional.push(rec);
            done = done + 1;
            proof {
                assert(additional.deep_view() =~= prefix->Some_0.0.push(rec@));
            }
        }

        let msg = Message { header, questions, answers, authority, additional };
        proof {
            assert(parse_message_body(bufv) == Some((msg@, reader.pos as int)));
        }
        if reader.reminder() > 0 {
            return Err(DecodeError::TrailingBytes);
        }

        Ok(msg)
    }
}


} // verus!

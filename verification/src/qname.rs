//! Domain names: ordered label sequences, their textual form, and
//! their decoding with compression-pointer resolution.

use vstd::prelude::*;

use vstd::utf8::decode_utf8;

use crate::error::DecodeError;
use crate::reader::Reader;
use crate::wire;
use crate::writer::Writer;

verus! {

/// A domain name: an ordered sequence of labels.  The canonical
/// textual form joins the labels with `.`.
#[derive(Debug, PartialEq)]
pub struct QName {
    labels: Vec<String>,
}

impl View for QName {
    type V = Seq<Seq<char>>;

    closed spec fn view(&self) -> Seq<Seq<char>> {
        self.labels.deep_view()
    }
}

/// The characters of `ls` joined with `.` between labels.
pub open spec fn join_dots(ls: Seq<Seq<char>>) -> Seq<char>
    decreases ls.len(),
{
    if ls.len() == 0 {
        Seq::empty()
    } else if ls.len() == 1 {
        ls[0]
    } else {
        join_dots(ls.drop_last()) + seq!['.'] + ls.last()
    }
}

/// The segments of `s` between `.` characters, with no escaping: the
/// empty text splits to one empty segment, and consecutive dots give
/// empty segments.
pub open spec fn split_dots(s: Seq<char>) -> Seq<Seq<char>>
    decreases s.len(),
{
    if s.len() == 0 {
        seq![Seq::<char>::empty()]
    } else if s[0] == '.' {
        seq![Seq::<char>::empty()] + split_dots(s.drop_first())
    } else {
        let r = split_dots(s.drop_first());
        seq![seq![s[0]] + r[0]] + r.drop_first()
    }
}

/// Splitting yields at least one segment.
proof fn lemma_split_dots_nonempty(s: Seq<char>)
    ensures
        split_dots(s).len() >= 1,
    decreases s.len(),
{
    if s.len() == 0 {
    } else {
        lemma_split_dots_nonempty(s.drop_first());
    }
}

/// Text without dots splits to exactly itself.
proof fn lemma_split_dots_whole(s: Seq<char>)
    requires
        forall|i: int| 0 <= i < s.len() ==> s[i] != '.',
    ensures
        split_dots(s) == seq![s],
    decreases s.len(),
{
    if s.len() == 0 {
        assert(s =~= Seq::<char>::empty());
        assert(split_dots(s) =~= seq![s]);
    } else {
        lemma_split_dots_whole(s.drop_first());
        let r = split_dots(s.drop_first());
        assert(r[0] == s.drop_first());
        assert(seq![s[0]] + r[0] =~= s);
        assert(r.drop_first() =~= Seq::<Seq<char>>::empty());
        assert(split_dots(s) =~= seq![s]);
    }
}

/// A dot after a dotless prefix cuts the text there.
proof fn lemma_split_dots_step(a: Seq<char>, b: Seq<char>)
    requires
        forall|i: int| 0 <= i < a.len() ==> a[i] != '.',
    ensures
        split_dots(a + seq!['.'] + b) == seq![a] + split_dots(b),
    decreases a.len(),
{
    let s = a + seq!['.'] + b;
    if a.len() == 0 {
        assert(a =~= Seq::<char>::empty());
        assert(s[0] == '.');
        assert(s.drop_first() =~= b);
        assert(split_dots(s) =~= seq![a] + split_dots(b));
    } else {
        assert(s[0] == a[0]);
        assert(a[0] != '.');
        assert(s.drop_first() =~= a.drop_first() + seq!['.'] + b);
        lemma_split_dots_step(a.drop_first(), b);
        let r = split_dots(s.drop_first());
        assert(r == seq![a.drop_first()] + split_dots(b));
        lemma_split_dots_nonempty(b);
        assert(r[0] == a.drop_first());
        assert(seq![s[0]] + r[0] =~= a);
        assert(r.drop_first() =~= split_dots(b));
        assert(split_dots(s) =~= seq![a] + split_dots(b));
    }
}

/// Append the wire form of the labels from `idx` on, with the
/// terminating zero byte.
fn write_labels(writer: &mut Writer, labels: &Vec<String>, idx: usize)
    requires
        idx <= labels@.len(),
    ensures
        final(writer).buf@ == old(writer).buf@ + wire::name_wire(
            labels.deep_view().skip(idx as int),
        ),
    decreases labels@.len() - idx,
{
    let ghost ls = labels.deep_view();
    if idx == labels.len() {
        writer.write_u8(0);
        proof {
            assert(ls.skip(idx as int) =~= Seq::<Seq<char>>::empty());
            assert(writer.buf@ =~= old(writer).buf@ + wire::name_wire(ls.skip(idx as int)));
        }
    } else {
        let bytes = labels[idx].as_str().as_bytes_vec();
        proof {
            assert(ls[idx as int] == labels@[idx as int]@);
            assert(bytes@ == vstd::utf8::encode_utf8(ls[idx as int]));
        }
        writer.write_u8(bytes.len() as u8);
        writer.write_vec(&bytes);
        write_labels(writer, labels, idx + 1);
        proof {
            let rest = ls.skip(idx as int);
            assert(rest[0] == ls[idx as int]);
            assert(rest.drop_first() =~= ls.skip(idx + 1));
            assert(wire::name_wire(rest) == wire::label_wire(ls[idx as int]) + wire::name_wire(
                ls.skip(idx + 1),
            ));
            assert(writer.buf@ =~= old(writer).buf@ + wire::name_wire(rest));
        }
    }
}

impl QName {
    /// A name made of the given labels.
    pub fn new(labels: Vec<String>) -> (r: QName)
        ensures
            r@ == labels.deep_view(),
    {
        QName { labels }
    }

    /// The labels of this name, in order.
    pub fn labels(&self) -> (r: &Vec<String>)
        ensures
            r.deep_view() == self@,
    {
        &self.labels
    }

    /// The fully qualified textual form: the labels joined with `.`.
    pub fn fqdn(&self) -> (r: String)
        ensures
            r@ == join_dots(self@),
    {
        let mut out = String::new();
        let mut idx: usize = 0;
        proof {
            reveal_strlit(".");
        }
        while idx < self.labels.len()
            invariant
                idx <= self.labels@.len(),
                "."@ == seq!['.'],
                out@ == join_dots(self@.take(idx as int)),
            decreases self.labels@.len() - idx,
        {
            if idx > 0 {
                out.append(".");
            }
            out.append(self.labels[idx].as_str());
            idx = idx + 1;
            proof {
                let taken = self@.take(idx as int);
                assert(taken.drop_last() =~= self@.take(idx - 1));
                assert(taken.last() == self@[idx - 1]);
                if idx > 1 {
                    assert(out@ == join_dots(taken));
                }
            }
        }
        proof {
            assert(self@.take(self.labels@.len() as int) =~= self@);
        }
        out
    }

    /// The name spelled by `string`, split on `.` with no escaping.
    pub fn from_str(string: &str) -> (r: QName)
        ensures
            r@ == split_dots(string@),
    {
        let strlen = string.unicode_len();
        let mut labels: Vec<String> = Vec::new();
        let mut start: usize = 0;
        let mut idx: usize = 0;
        proof {
            assert(string@.subrange(0, strlen as int) =~= string@);
            assert(labels.deep_view() + split_dots(string@) =~= split_dots(string@));
        }
        while idx < strlen
            invariant
                start <= idx <= strlen,
                strlen == string@.len(),
                forall|i: int| start <= i < idx ==> string@[i] != '.',
                split_dots(string@) == labels.deep_view() + split_dots(
                    string@.subrange(start as int, strlen as int),
                ),
            decreases strlen - idx,
        {
            let c = string.get_char(idx);
            if c == '.' {
                let lab = String::from_str(string.substring_char(start, idx));
                proof {
                    let tail = string@.subrange(start as int, strlen as int);
                    let a = string@.subrange(start as int, idx as int);
                    let b = string@.subrange(idx + 1, strlen as int);
                    assert(tail =~= a + seq!['.'] + b);
                    lemma_split_dots_step(a, b);
                    assert((labels.deep_view() + seq![a]) + split_dots(b) =~= labels.deep_view()
                        + (seq![a] + split_dots(b)));
                }
                labels.push(lab);
                proof {
                    assert(labels.deep_view() =~= labels.deep_view().drop_last() + seq![
                        string@.subrange(start as int, idx as int),
                    ]);
                }
                start = idx + 1;
            }
            idx = idx + 1;
        }
        let lab = String::from_str(string.substring_char(start, strlen));
        proof {
            let tail = string@.subrange(start as int, strlen as int);
            lemma_split_dots_whole(tail);
        }
        labels.push(lab);
        proof {
            assert(labels.deep_view() =~= labels.deep_view().drop_last() + seq![
                string@.subrange(start as int, strlen as int),
            ]);
            assert(labels.deep_view() =~= split_dots(string@));
        }
        QName { labels }
    }

    /// Append this name's wire form: each label as a length byte and
    /// its bytes, then a terminating zero byte.  No compression is
    /// performed; every outgoing name is written in full.
    pub fn write(&self, writer: &mut Writer)
        ensures
            final(writer).buf@ == old(writer).buf@ + wire::name_wire(self@),
    {
        write_labels(writer, &self.labels, 0);
        proof {
            assert(self@.skip(0) =~= self@);
        }
    }

    /// Decode a name at the cursor, following compression pointers.
    ///
    /// After a successful decode the cursor stands right after the
    /// name's bytes in the enclosing structure: after the terminating
    /// zero byte, or, if any pointer was followed, after the first
    /// pointer's two bytes.
    pub fn read(reader: &mut Reader) -> (r: Result<QName, DecodeError>)
        ensures
            final(reader).buf == old(reader).buf,
            match r {
                Ok(q) => {
                    &&& wire::parse_name(old(reader).buf@, old(reader).pos as int) == Some(
                        (q@, final(reader).pos as int),
                    )
                    &&& final(reader).pos <= old(reader).buf@.len()
                },
                Err(e) => {
                    &&& wire::parse_name(old(reader).buf@, old(reader).pos as int) is None
                    &&& e == DecodeError::Incomplete
                },
            },
    {
        let ghost buf0 = reader.buf@;
        let ghost pos0 = reader.pos as int;
        let buflen = reader.buf.len();
        if reader.pos > buflen {
            return Err(DecodeError::Incomplete);
        }
        let mut labels: Vec<String> = Vec::new();
        let mut hops: usize = buflen;
        let mut retpos: usize = 0;
        loop
            invariant
                reader.buf == old(reader).buf,
                buf0 == old(reader).buf@,
                pos0 == old(reader).pos,
                buflen == buf0.len(),
                reader.pos <= buflen,
                hops <= buflen,
                retpos == 0 || 2 <= retpos <= buflen,
                ({
                    let cont = wire::parse_name_at(buf0, reader.pos as int, hops as nat);
                    let full = wire::parse_name(buf0, pos0);
                    match cont {
                        Option::None => full is None,
                        Option::Some((ls, end)) => full == Some(
                            (
                                labels.deep_view() + ls,
                                if retpos > 0 {
                                    retpos as int
                                } else {
                                    end
                                },
                            ),
                        ),
                    }
                }),
            decreases hops, buflen - reader.pos,
        {
            if reader.reminder() < 1 {
                return Err(DecodeError::Incomplete);
            }
            let ghost prev = reader.pos as int;
            let len = reader.read_u8();
            if len == 0 {
                proof {
                    let cont = wire::parse_name_at(buf0, prev, hops as nat);
                    assert(cont == Some((Seq::<Seq<char>>::empty(), prev + 1)));
                    assert(labels.deep_view() + Seq::<Seq<char>>::empty() =~= labels.deep_view());
                }
                if retpos > 0 {
                    reader.seek(retpos);
                }
                return Ok(QName { labels });
            }
            if len >= 192 {
                if reader.reminder() < 1 {
                    return Err(DecodeError::Incomplete);
                }
                let b2 = reader.read_u8();
                if hops == 0 {
                    return Err(DecodeError::Incomplete);
                }
                let off = (len as usize - 192) * 256 + b2 as usize;
                if off >= buflen {
                    proof {
                        assert(wire::parse_name_at(buf0, off as int, (hops - 1) as nat)
                            is None);
                        assert(wire::parse_name_at(buf0, prev, hops as nat) is None);
                    }
                    return Err(DecodeError::Incomplete);
                }
                let oldpos = reader.seek(off);
                if retpos == 0 {
                    retpos = oldpos;
                }
                hops = hops - 1;
            } else {
                if reader.reminder() < len as usize {
                    return Err(DecodeError::Incomplete);
                }
                let ghost lab = buf0.subrange(prev + 1, prev + 1 + len);
                match reader.read_str(len as usize) {
                    Option::None => {
                        return Err(DecodeError::Incomplete);
                    },
                    Option::Some(s) => {
                        proof {
                            let cont = wire::parse_name_at(buf0, prev, hops as nat);
                            let inner = wire::parse_name_at(
                                buf0,
                                prev + 1 + len,
                                hops as nat,
                            );
                            if inner is Some {
                                let ls = inner->Some_0.0;
                                assert(cont == Some(
                                    (seq![decode_utf8(lab)] + ls, inner->Some_0.1),
                                ));
                                assert((labels.deep_view() + seq![s@]) + ls =~= labels.deep_view()
                                    + (seq![s@] + ls));
                            }
                        }
                        labels.push(s);
                        proof {
                            assert(labels.deep_view() =~= labels.deep_view().drop_last() + seq![
                                decode_utf8(lab),
                            ]);
                        }
                    },
                }
            }
        }
    }
}

} // verus!

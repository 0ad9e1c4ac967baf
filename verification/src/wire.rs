//! The byte-level model of the wire format.
//!
//! Everything on the wire is big-endian.  The spec functions here say,
//! for each protocol structure, which byte sequence encodes it
//! (`..._wire`) and what a byte sequence at a given position decodes to
//! (`parse_...`).  The executable codec is specified against these
//! functions, and round-trip lemmas beside each structure relate the
//! two directions.

use vstd::prelude::*;
use vstd::utf8::decode_utf8;
use vstd::utf8::encode_utf8;
use vstd::utf8::encode_utf8_decode_utf8;
use vstd::utf8::encode_utf8_valid_utf8;
use vstd::utf8::valid_utf8;

verus! {

/// The big-endian 16-bit value held by two bytes.
pub open spec fn u16_of(b0: u8, b1: u8) -> u16 {
    ((b0 as u16) << 8) | (b1 as u16)
}

/// The big-endian 32-bit value held by four bytes.
pub open spec fn u32_of(b0: u8, b1: u8, b2: u8, b3: u8) -> u32 {
    ((b0 as u32) << 24) | ((b1 as u32) << 16) | ((b2 as u32) << 8) | (b3 as u32)
}

/// The two bytes that encode a 16-bit value, most significant first.
pub open spec fn u16_bytes(v: u16) -> Seq<u8> {
    seq![(v >> 8) as u8, (v & 0xff) as u8]
}

/// The four bytes that encode a 32-bit value, most significant first.
pub open spec fn u32_bytes(v: u32) -> Seq<u8> {
    seq![(v >> 24) as u8, ((v >> 16) & 0xff) as u8, ((v >> 8) & 0xff) as u8, (v & 0xff) as u8]
}

/// A label fit for the wire: its encoding is nonempty and at most 63
/// bytes, so that its length byte can never be zero or mistaken for a
/// compression pointer.
pub open spec fn wf_label(l: Seq<char>) -> bool {
    1 <= encode_utf8(l).len() <= 63
}

/// Every label of the name is fit for the wire.
pub open spec fn wf_name(ls: Seq<Seq<char>>) -> bool {
    forall|i: int| 0 <= i < ls.len() ==> wf_label(#[trigger] ls[i])
}

/// One label on the wire: a length byte, then the label's bytes.
pub open spec fn label_wire(l: Seq<char>) -> Seq<u8> {
    seq![encode_utf8(l).len() as u8] + encode_utf8(l)
}

/// A whole name on the wire: each label in order, then a zero byte.
/// Encoding never emits compression pointers; every outgoing name is
/// written in full.
pub open spec fn name_wire(ls: Seq<Seq<char>>) -> Seq<u8>
    decreases ls.len(),
{
    if ls.len() == 0 {
        seq![0u8]
    } else {
        label_wire(ls[0]) + name_wire(ls.drop_first())
    }
}

/// What a name decodes to, reading at `pos` with at most `hops`
/// compression pointers left to follow.
///
/// A zero length byte ends the name.  A byte with its top two bits set
/// combines with the next byte into a 14-bit absolute offset, and
/// reading continues there; the position reported for the whole name
/// is the one right after the first pointer's two bytes.  Any other
/// byte is a literal label length.  `None` means the bytes do not form
/// a name: the buffer runs out, a label's bytes are not valid UTF-8
/// text, or the pointer budget is spent (a pointer chain
/// longer than the buffer itself must revisit an offset, so a loop is
/// reported rather than followed forever).
pub open spec fn parse_name_at(buf: Seq<u8>, pos: int, hops: nat) -> Option<
    (Seq<Seq<char>>, int),
>
    decreases hops, buf.len() - pos,
{
    if pos < 0 || pos + 1 > buf.len() {
        None
    } else {
        let len = buf[pos];
        if len == 0 {
            Some((Seq::empty(), pos + 1))
        } else if len >= 192 {
            if pos + 2 > buf.len() {
                None
            } else if hops == 0 {
                None
            } else {
                let off = (len - 192) * 256 + buf[pos + 1];
                match parse_name_at(buf, off as int, (hops - 1) as nat) {
                    Option::None => None,
                    Option::Some((ls, _)) => Some((ls, pos + 2)),
                }
            }
        } else {
            if pos + 1 + len > buf.len() {
                None
            } else {
                let lab = buf.subrange(pos + 1, pos + 1 + len);
                if !valid_utf8(lab) {
                    None
                } else {
                    match parse_name_at(buf, pos + 1 + len, hops) {
                        Option::None => None,
                        Option::Some((ls, end)) => Some((seq![decode_utf8(lab)] + ls, end)),
                    }
                }
            }
        }
    }
}

/// What a name decodes to at `pos`, with the pointer budget the
/// decoder actually grants: one hop per byte of the buffer.
pub open spec fn parse_name(buf: Seq<u8>, pos: int) -> Option<(Seq<Seq<char>>, int)> {
    parse_name_at(buf, pos, buf.len())
}

/// A byte of a matched window, seen from the whole buffer.
pub proof fn lemma_index_match(buf: Seq<u8>, pos: int, w: Seq<u8>, i: int)
    requires
        0 <= pos,
        pos + w.len() <= buf.len(),
        buf.subrange(pos, pos + w.len()) == w,
        0 <= i < w.len(),
    ensures
        buf[pos + i] == w[i],
{
    assert(buf.subrange(pos, pos + w.len())[i] == buf[pos + i]);
}

/// A slice of a matched window, seen from the whole buffer.
pub proof fn lemma_slice_match(buf: Seq<u8>, pos: int, w: Seq<u8>, a: int, b: int)
    requires
        0 <= pos,
        pos + w.len() <= buf.len(),
        buf.subrange(pos, pos + w.len()) == w,
        0 <= a <= b <= w.len(),
    ensures
        buf.subrange(pos + a, pos + b) == w.subrange(a, b),
{
    assert forall|i: int| 0 <= i < b - a implies buf.subrange(pos + a, pos + b)[i] == w.subrange(
        a,
        b,
    )[i] by {
        assert(buf.subrange(pos, pos + w.len())[a + i] == buf[pos + a + i]);
        assert(buf.subrange(pos + a, pos + b)[i] == buf[pos + a + i]);
    }
    assert(buf.subrange(pos + a, pos + b) =~= w.subrange(a, b));
}

/// A window that matches a concatenation splits into two matched
/// windows.
pub proof fn lemma_concat_parts(a: Seq<u8>, b: Seq<u8>, buf: Seq<u8>, off: int)
    requires
        0 <= off,
        off + (a + b).len() <= buf.len(),
        buf.subrange(off, off + (a + b).len()) == a + b,
    ensures
        buf.subrange(off, off + a.len()) == a,
        buf.subrange(off + a.len(), off + (a + b).len()) == b,
{
    assert((a + b).subrange(0, a.len() as int) =~= a);
    assert((a + b).subrange(a.len() as int, (a + b).len() as int) =~= b);
    lemma_slice_match(buf, off, a + b, 0, a.len() as int);
    lemma_slice_match(buf, off, a + b, a.len() as int, (a + b).len() as int);
}

/// A successfully decoded name ends inside the buffer, past its
/// first byte.
pub proof fn lemma_parse_name_at_bounds(buf: Seq<u8>, pos: int, hops: nat)
    requires
        parse_name_at(buf, pos, hops) is Some,
    ensures
        0 <= pos,
        pos + 1 <= parse_name_at(buf, pos, hops)->Some_0.1 <= buf.len(),
    decreases hops, buf.len() - pos,
{
    let len = buf[pos];
    if len == 0 {
    } else if len >= 192 {
    } else {
        lemma_parse_name_at_bounds(buf, pos + 1 + len, hops);
    }
}

/// `short` is the front of `buf`.
pub open spec fn prefix_of(short: Seq<u8>, buf: Seq<u8>) -> bool {
    short.len() <= buf.len() && short == buf.subrange(0, short.len() as int)
}

/// A pointer budget that was enough stays enough: granting more hops
/// changes nothing about a name that already decodes.
pub proof fn lemma_parse_name_at_mono(buf: Seq<u8>, pos: int, h1: nat, h2: nat)
    requires
        h1 <= h2,
        parse_name_at(buf, pos, h1) is Some,
    ensures
        parse_name_at(buf, pos, h2) == parse_name_at(buf, pos, h1),
    decreases h1, buf.len() - pos,
{
    let len = buf[pos];
    if len == 0 {
    } else if len >= 192 {
        let off = ((len - 192) * 256 + buf[pos + 1]) as int;
        lemma_parse_name_at_mono(buf, off, (h1 - 1) as nat, (h2 - 1) as nat);
    } else {
        lemma_parse_name_at_mono(buf, pos + 1 + len, h1, h2);
    }
}

/// A name that decodes within the front of a buffer decodes the same
/// however the buffer continues: its reads all land inside the front.
proof fn lemma_parse_name_at_extend(short: Seq<u8>, buf: Seq<u8>, pos: int, hops: nat)
    requires
        prefix_of(short, buf),
        parse_name_at(short, pos, hops) is Some,
    ensures
        parse_name_at(buf, pos, hops) == parse_name_at(short, pos, hops),
    decreases hops, short.len() - pos,
{
    lemma_index_match(buf, 0, short, pos);
    let len = short[pos];
    if len == 0 {
    } else if len >= 192 {
        lemma_index_match(buf, 0, short, pos + 1);
        let off = ((len - 192) * 256 + short[pos + 1]) as int;
        lemma_parse_name_at_extend(short, buf, off, (hops - 1) as nat);
    } else {
        lemma_slice_match(buf, 0, short, pos + 1, pos + 1 + len);
        assert(short.subrange(pos + 1, pos + 1 + len) == buf.subrange(pos + 1, pos + 1 + len));
        lemma_parse_name_at_extend(short, buf, pos + 1 + len, hops);
    }
}

/// The same, at the pointer budget each buffer grants its decoder.
pub proof fn lemma_parse_name_extend(short: Seq<u8>, buf: Seq<u8>, pos: int)
    requires
        prefix_of(short, buf),
        parse_name(short, pos) is Some,
    ensures
        parse_name(buf, pos) == parse_name(short, pos),
{
    lemma_parse_name_at_extend(short, buf, pos, short.len());
    lemma_parse_name_at_mono(buf, pos, short.len(), buf.len());
}

/// Compression pointer resolution: where a name is expected, a pointer
/// to offset `target` yields exactly the labels of the name at
/// `target`, and the name ends right after the pointer's two bytes,
/// not at the position reached inside the pointed-to region.
pub proof fn lemma_pointer_resolution(buf: Seq<u8>, pos: int, target: int, hops: nat)
    requires
        0 <= pos,
        pos + 2 <= buf.len(),
        buf[pos] >= 192,
        target == (buf[pos] - 192) * 256 + buf[pos + 1],
        hops + 1 <= buf.len(),
        parse_name_at(buf, target, hops) is Some,
    ensures
        parse_name(buf, pos) == Some((parse_name_at(buf, target, hops)->Some_0.0, pos + 2)),
{
    lemma_parse_name_at_mono(buf, target, hops, (buf.len() - 1) as nat);
}

/// A name written in full decodes to itself, whatever the pointer
/// budget and whatever else the buffer holds around it.
pub proof fn lemma_name_wire_parses(buf: Seq<u8>, pos: int, ls: Seq<Seq<char>>, hops: nat)
    requires
        wf_name(ls),
        0 <= pos,
        pos + name_wire(ls).len() <= buf.len(),
        buf.subrange(pos, pos + name_wire(ls).len()) == name_wire(ls),
    ensures
        parse_name_at(buf, pos, hops) == Some((ls, pos + name_wire(ls).len())),
    decreases ls.len(),
{
    let n = name_wire(ls).len() as int;
    assert forall|i: int| 0 <= i < n implies buf[pos + i] == name_wire(ls)[i] by {
        assert(buf.subrange(pos, pos + n)[i] == buf[pos + i]);
    }
    if ls.len() == 0 {
        assert(buf[pos] == name_wire(ls)[0]) by {
            assert(buf.subrange(pos, pos + n)[0] == buf[pos + 0]);
        }
        assert(buf[pos] == 0);
        assert(ls =~= Seq::<Seq<char>>::empty());
    } else {
        let l = ls[0];
        assert(wf_label(l));
        let lb = encode_utf8(l);
        let len = lb.len() as int;
        assert(name_wire(ls) == label_wire(l) + name_wire(ls.drop_first()));
        assert(buf[pos] == name_wire(ls)[0]);
        assert(name_wire(ls)[0] == len as u8);
        assert(1 <= len <= 63);
        assert(buf[pos] == len);
        assert forall|i: int| 0 <= i < len implies buf[pos + 1 + i] == lb[i] by {
            assert(name_wire(ls)[1 + i] == label_wire(l)[1 + i]);
            assert(label_wire(l)[1 + i] == lb[i]);
        }
        let lab = buf.subrange(pos + 1, pos + 1 + len);
        assert(lab =~= lb);
        encode_utf8_valid_utf8(l);
        encode_utf8_decode_utf8(l);
        assert(valid_utf8(lab));
        assert(decode_utf8(lab) == l);
        let rest = ls.drop_first();
        let rn = name_wire(rest).len() as int;
        assert(n == 1 + len + rn);
        assert forall|i: int| 0 <= i < rn implies buf[pos + 1 + len + i] == name_wire(rest)[i] by {
            assert(name_wire(ls)[1 + len + i] == name_wire(rest)[i]);
        }
        assert(buf.subrange(pos + 1 + len, pos + 1 + len + rn) =~= name_wire(rest));
        lemma_name_wire_parses(buf, pos + 1 + len, rest, hops);
        assert(seq![decode_utf8(lab)] + rest =~= ls);
    }
}

/// Reading two bytes back gives the value they were written from.
pub proof fn lemma_u16_roundtrip(v: u16)
    ensures
        u16_of((v >> 8) as u8, (v & 0xff) as u8) == v,
{
    assert(((((v >> 8) as u8) as u16) << 8) | (((v & 0xff) as u8) as u16) == v) by (bit_vector);
}

/// Reading four bytes back gives the value they were written from.
pub proof fn lemma_u32_roundtrip(v: u32)
    ensures
        u32_of(
            (v >> 24) as u8,
            ((v >> 16) & 0xff) as u8,
            ((v >> 8) & 0xff) as u8,
            (v & 0xff) as u8,
        ) == v,
{
    assert(((((v >> 24) as u8) as u32) << 24) | ((((v >> 16) & 0xff) as u8) as u32) << 16 | ((((v
        >> 8) & 0xff) as u8) as u32) << 8 | (((v & 0xff) as u8) as u32) == v) by (bit_vector);
}

} // verus!

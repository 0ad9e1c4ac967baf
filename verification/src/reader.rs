//! Sequential, position-tracked reads over a byte buffer.
//!
//! Every decoder composes on this cursor.  A read advances the
//! position by the consumed width; callers must not request more than
//! `reminder()` bytes, and the contracts enforce that.

use vstd::prelude::*;
use vstd::utf8::decode_utf8;
use vstd::utf8::valid_utf8;

use crate::wire;

verus! {

/// A read cursor over a borrowed byte buffer.
pub struct Reader<'a> {
    pub pos: usize,
    pub buf: &'a Vec<u8>,
}

/// Relies on `String::from_utf8`: it succeeds exactly when the bytes
/// are valid UTF-8, and then yields the characters they encode.
#[verifier::external_body]
fn string_from_utf8(bytes: Vec<u8>) -> (r: Option<String>)
    ensures
        r is Some <==> valid_utf8(bytes@),
        r is Some ==> r->0@ == decode_utf8(bytes@),
{
    String::from_utf8(bytes).ok()
}

impl<'a> Reader<'a> {
    /// A cursor at the start of `buf`.
    pub fn new(buf: &'a Vec<u8>) -> (r: Reader<'a>)
        ensures
            r.pos == 0,
            r.buf@ == buf@,
    {
        Reader { pos: 0, buf }
    }

    /// Jump to `pos` and hand back the previous position, so a caller
    /// that follows a compression pointer can restore the cursor.
    pub fn seek(&mut self, pos: usize) -> (old_pos: usize)
        ensures
            final(self).pos == pos,
            final(self).buf == old(self).buf,
            old_pos == old(self).pos,
    {
        let old_pos = self.pos;
        self.pos = pos;
        old_pos
    }

    /// Read one byte.
    pub fn read_u8(&mut self) -> (r: u8)
        requires
            old(self).pos + 1 <= old(self).buf@.len(),
        ensures
            final(self).buf == old(self).buf,
            final(self).pos == old(self).pos + 1,
            r == old(self).buf@[old(self).pos as int],
    {
        let n = self.buf.len();
        let b = self.buf[self.pos];
        self.pos = self.pos + 1;
        b
    }

    /// Read two bytes as a big-endian 16-bit value.
    pub fn read_u16(&mut self) -> (r: u16)
        requires
            old(self).pos + 2 <= old(self).buf@.len(),
        ensures
            final(self).buf == old(self).buf,
            final(self).pos == old(self).pos + 2,
            r == wire::u16_of(
                old(self).buf@[old(self).pos as int],
                old(self).buf@[old(self).pos + 1],
            ),
    {
        let n = self.buf.len();
        let b0 = self.buf[self.pos];
        let b1 = self.buf[self.pos + 1];
        self.pos = self.pos + 2;
        ((b0 as u16) << 8) | (b1 as u16)
    }

    /// Read four bytes as a big-endian 32-bit value.
    pub fn read_u32(&mut self) -> (r: u32)
        requires
            old(self).pos + 4 <= old(self).buf@.len(),
        ensures
            final(self).buf == old(self).buf,
            final(self).pos == old(self).pos + 4,
            r == wire::u32_of(
                old(self).buf@[old(self).pos as int],
                old(self).buf@[old(self).pos + 1],
                old(self).buf@[old(self).pos + 2],
                old(self).buf@[old(self).pos + 3],
            ),
    {
        let n = self.buf.len();
        let b0 = self.buf[self.pos] as u32;
        let b1 = self.buf[self.pos + 1] as u32;
        let b2 = self.buf[self.pos + 2] as u32;
        let b3 = self.buf[self.pos + 3] as u32;
        self.pos = self.pos + 4;
        (b0 << 24) | (b1 << 16) | (b2 << 8) | b3
    }

    /// Read `len` raw bytes.
    pub fn read_vec(&mut self, len: usize) -> (r: Vec<u8>)
        requires
            old(self).pos + len <= old(self).buf@.len(),
        ensures
            final(self).buf == old(self).buf,
            final(self).pos == old(self).pos + len,
            r@ == old(self).buf@.subrange(old(self).pos as int, old(self).pos + len),
    {
        let n = self.buf.len();
        let mut out: Vec<u8> = Vec::new();
        let mut idx: usize = 0;
        while idx < len
            invariant
                idx <= len,
                self.pos == old(self).pos,
                self.buf == old(self).buf,
                self.pos + len <= self.buf@.len(),
                n == self.buf@.len(),
                out@ == self.buf@.subrange(self.pos as int, self.pos + idx),
            decreases len - idx,
        {
            out.push(self.buf[self.pos + idx]);
            idx = idx + 1;
            assert(out@ =~= self.buf@.subrange(self.pos as int, self.pos + idx));
        }
        self.pos = self.pos + len;
        out
    }

    /// Read `len` bytes as text.  Succeeds exactly when the bytes are
    /// valid UTF-8; the cursor advances either way.
    pub fn read_str(&mut self, len: usize) -> (r: Option<String>)
        requires
            old(self).pos + len <= old(self).buf@.len(),
        ensures
            final(self).buf == old(self).buf,
            final(self).pos == old(self).pos + len,
            r is Some <==> valid_utf8(
                old(self).buf@.subrange(old(self).pos as int, old(self).pos + len),
            ),
            r is Some ==> r->0@ == decode_utf8(
                old(self).buf@.subrange(old(self).pos as int, old(self).pos + len),
            ),
    {
        let bytes = self.read_vec(len);
        string_from_utf8(bytes)
    }

    /// How many bytes are still unread.
    pub fn reminder(&self) -> (r: usize)
        requires
            self.pos <= self.buf@.len(),
        ensures
            r == self.buf@.len() - self.pos,
    {
        self.buf.len() - self.pos
    }
}

} // verus!

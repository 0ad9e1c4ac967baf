//! Appending writes into an owned, growable byte buffer.
//!
//! Multi-byte integers go out most significant byte first (network
//! byte order).  No write can fail.

use vstd::prelude::*;

use crate::wire;

verus! {

/// A write cursor over an owned output buffer.
pub struct Writer {
    pub buf: Vec<u8>,
}

impl Writer {
    /// A writer with an empty output buffer.
    pub fn new() -> (r: Writer)
        ensures
            r.buf@ == Seq::<u8>::empty(),
    {
        Writer { buf: Vec::new() }
    }

    /// Append one byte.
    pub fn write_u8(&mut self, byte: u8)
        ensures
            final(self).buf@ == old(self).buf@ + seq![byte],
    {
        self.buf.push(byte);
    }

    /// Append a 16-bit value, most significant byte first.
    pub fn write_u16(&mut self, val: u16)
        ensures
            final(self).buf@ == old(self).buf@ + wire::u16_bytes(val),
    {
        let b0 = ((val & (0xff << 0)) >> 0) as u8;
        let b1 = ((val & (0xff << 8)) >> 8) as u8;
        proof {
            assert(((val & (0xffu16 << 8)) >> 8) as u8 == (val >> 8) as u8) by (bit_vector);
            assert(((val & (0xffu16 << 0)) >> 0) as u8 == (val & 0xff) as u8) by (bit_vector);
        }
        self.buf.push(b1);
        self.buf.push(b0);
        assert(self.buf@ =~= old(self).buf@ + wire::u16_bytes(val));
    }

    /// Append a 32-bit value, most significant byte first.
    pub fn write_u32(&mut self, val: u32)
        ensures
            final(self).buf@ == old(self).buf@ + wire::u32_bytes(val),
    {
        let b0 = ((val & (0xff << 0)) >> 0) as u8;
        let b1 = ((val & (0xff << 8)) >> 8) as u8;
        let b2 = ((val & (0xff << 16)) >> 16) as u8;
        let b3 = ((val & (0xff << 24)) >> 24) as u8;
        proof {
            assert(((val & (0xffu32 << 24)) >> 24) as u8 == (val >> 24) as u8) by (bit_vector);
            assert(((val & (0xffu32 << 16)) >> 16) as u8 == ((val >> 16) & 0xff) as u8)
                by (bit_vector);
            assert(((val & (0xffu32 << 8)) >> 8) as u8 == ((val >> 8) & 0xff) as u8)
                by (bit_vector);
            assert(((val & (0xffu32 << 0)) >> 0) as u8 == (val & 0xff) as u8) by (bit_vector);
        }
        self.buf.push(b3);
        self.buf.push(b2);
        self.buf.push(b1);
        self.buf.push(b0);
        assert(self.buf@ =~= old(self).buf@ + wire::u32_bytes(val));
    }

    /// Append every byte of `vec`.
    pub fn write_vec(&mut self, vec: &Vec<u8>)
        ensures
            final(self).buf@ == old(self).buf@ + vec@,
    {
        let mut idx: usize = 0;
        while idx < vec.len()
            invariant
                idx <= vec@.len(),
                self.buf@ == old(self).buf@ + vec@.subrange(0, idx as int),
            decreases vec@.len() - idx,
        {
            self.buf.push(vec[idx]);
            idx = idx + 1;
            assert(self.buf@ =~= old(self).buf@ + vec@.subrange(0, idx as int));
        }
        assert(vec@.subrange(0, vec@.len() as int) =~= vec@);
    }
}

} // verus!

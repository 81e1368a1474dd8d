//! Fixed-size integer readers over a byte buffer that may end too early.

use vstd::prelude::*;
use vstd::slice::slice_subrange;
use crate::error::DecodeError;

verus! {

/// The 16-bit value whose low byte is `b0` and whose high byte is `b1`.
pub open spec fn u16_of(b0: u8, b1: u8) -> u16 {
    (b0 as int + b1 as int * 0x100) as u16
}

/// The 32-bit value made of four bytes, `b0` least significant.
pub open spec fn u32_of(b0: u8, b1: u8, b2: u8, b3: u8) -> u32 {
    (b0 as int + b1 as int * 0x100 + b2 as int * 0x1_0000 + b3 as int * 0x100_0000) as u32
}

/// Little-endian 16-bit value at index `at` of `s`.
pub open spec fn spec_le_u16(s: Seq<u8>, at: int) -> u16 {
    u16_of(s[at], s[at + 1])
}

/// Little-endian 32-bit value at index `at` of `s`.
pub open spec fn spec_le_u32(s: Seq<u8>, at: int) -> u32 {
    u32_of(s[at], s[at + 1], s[at + 2], s[at + 3])
}

/// Big-endian 32-bit value at index `at` of `s`.
pub open spec fn spec_be_u32(s: Seq<u8>, at: int) -> u32 {
    u32_of(s[at + 3], s[at + 2], s[at + 1], s[at])
}

/// Reads a little-endian `u16` at `at`.
pub fn le_u16_at(data: &[u8], at: usize) -> (r: u16)
    requires
        at + 2 <= data@.len(),
    ensures
        r == spec_le_u16(data@, at as int),
{
    let b0: u16 = data[at] as u16;
    let b1: u16 = data[at + 1] as u16;
    b0 + b1 * 0x100
}

/// Reads a little-endian `u32` at `at`.
pub fn le_u32_at(data: &[u8], at: usize) -> (r: u32)
    requires
        at + 4 <= data@.len(),
    ensures
        r == spec_le_u32(data@, at as int),
{
    let b0: u32 = data[at] as u32;
    let b1: u32 = data[at + 1] as u32;
    let b2: u32 = data[at + 2] as u32;
    let b3: u32 = data[at + 3] as u32;
    b0 + b1 * 0x100 + b2 * 0x1_0000 + b3 * 0x100_0000
}

/// Reads a big-endian `u32` at `at`.
pub fn be_u32_at(data: &[u8], at: usize) -> (r: u32)
    requires
        at + 4 <= data@.len(),
    ensures
        r == spec_be_u32(data@, at as int),
{
    let b3: u32 = data[at] as u32;
    let b2: u32 = data[at + 1] as u32;
    let b1: u32 = data[at + 2] as u32;
    let b0: u32 = data[at + 3] as u32;
    b0 + b1 * 0x100 + b2 * 0x1_0000 + b3 * 0x100_0000
}

/// A read position inside a byte buffer that may end before the record does.
pub struct Cursor<'a> {
    pub data: &'a [u8],
    pub pos: usize,
}

impl<'a> Cursor<'a> {
    /// The position lies inside the buffer or at its end.
    pub open spec fn wf(&self) -> bool {
        self.pos <= self.data@.len()
    }

    /// The bytes not yet consumed.
    pub open spec fn rest(&self) -> Seq<u8> {
        self.data@.subrange(self.pos as int, self.data@.len() as int)
    }

    /// `self` is `before` moved forward by `n` bytes over the same buffer.
    pub open spec fn advanced_from(&self, before: &Cursor<'a>, n: int) -> bool {
        self.data == before.data && self.pos == before.pos + n
    }

    /// A cursor at the start of `data`.
    pub fn new(data: &'a [u8]) -> (r: Self)
        ensures
            r.wf(),
            r.data == data,
            r.pos == 0,
            r.rest() == data@,
    {
        let r = Cursor { data, pos: 0 };
        assert(r.rest() =~= data@);
        r
    }

    /// Number of bytes consumed so far.
    pub fn position(&self) -> (r: usize)
        ensures
            r == self.pos,
    {
        self.pos
    }

    /// Number of bytes still available.
    pub fn remaining(&self) -> (r: usize)
        requires
            self.wf(),
        ensures
            r == self.rest().len(),
    {
        self.data.len() - self.pos
    }

    /// Moves back (or forward) to `pos`, a position inside the buffer.
    pub fn reset(&mut self, pos: usize)
        requires
            pos <= old(self).data@.len(),
        ensures
            final(self).data == old(self).data,
            final(self).pos == pos,
            final(self).wf(),
    {
        self.pos = pos;
    }

    /// Consumes `n` bytes if that many are available, else reports how many are missing.
    pub fn take(&mut self, n: usize) -> (r: Result<&'a [u8], DecodeError>)
        requires
            old(self).wf(),
        ensures
            final(self).wf(),
            match r {
                Ok(s) => n <= old(self).rest().len() && s@ == old(self).rest().subrange(0, n as int)
                    && final(self).advanced_from(old(self), n as int),
                Err(e) => n > old(self).rest().len() && e == DecodeError::NeedMore(
                    (n - old(self).rest().len()) as usize,
                ) && *final(self) == *old(self),
            },
    {
        let avail = self.data.len() - self.pos;
        if n > avail {
            return Err(DecodeError::NeedMore(n - avail));
        }
        let s = slice_subrange(self.data, self.pos, self.pos + n);
        assert(s@ =~= self.rest().subrange(0, n as int));
        self.pos = self.pos + n;
        Ok(s)
    }

    /// Consumes one byte.
    pub fn read_u8(&mut self) -> (r: Result<u8, DecodeError>)
        requires
            old(self).wf(),
        ensures
            final(self).wf(),
            match r {
                Ok(v) => old(self).rest().len() >= 1 && v == old(self).rest()[0]
                    && final(self).advanced_from(old(self), 1),
                Err(e) => old(self).rest().len() < 1 && e == DecodeError::NeedMore(1)
                    && *final(self) == *old(self),
            },
    {
        let avail = self.data.len() - self.pos;
        if avail < 1 {
            return Err(DecodeError::NeedMore(1));
        }
        let v = self.data[self.pos];
        self.pos = self.pos + 1;
        Ok(v)
    }

    /// Consumes a little-endian `u16`.
    pub fn read_le_u16(&mut self) -> (r: Result<u16, DecodeError>)
        requires
            old(self).wf(),
        ensures
            final(self).wf(),
            match r {
                Ok(v) => old(self).rest().len() >= 2 && v == spec_le_u16(old(self).rest(), 0)
                    && final(self).advanced_from(old(self), 2),
                Err(e) => old(self).rest().len() < 2 && e == DecodeError::NeedMore(
                    (2 - old(self).rest().len()) as usize,
                ) && *final(self) == *old(self),
            },
    {
        let avail = self.data.len() - self.pos;
        if avail < 2 {
            return Err(DecodeError::NeedMore(2 - avail));
        }
        let v = le_u16_at(self.data, self.pos);
        self.pos = self.pos + 2;
        Ok(v)
    }

    /// Consumes a little-endian `u32`.
    pub fn read_le_u32(&mut self) -> (r: Result<u32, DecodeError>)
        requires
            old(self).wf(),
        ensures
            final(self).wf(),
            match r {
                Ok(v) => old(self).rest().len() >= 4 && v == spec_le_u32(old(self).rest(), 0)
                    && final(self).advanced_from(old(self), 4),
                Err(e) => old(self).rest().len() < 4 && e == DecodeError::NeedMore(
                    (4 - old(self).rest().len()) as usize,
                ) && *final(self) == *old(self),
            },
    {
        let avail = self.data.len() - self.pos;
        if avail < 4 {
            return Err(DecodeError::NeedMore(4 - avail));
        }
        let v = le_u32_at(self.data, self.pos);
        self.pos = self.pos + 4;
        Ok(v)
    }

    /// Consumes a big-endian `u32`.
    pub fn read_be_u32(&mut self) -> (r: Result<u32, DecodeError>)
        requires
            old(self).wf(),
        ensures
            final(self).wf(),
            match r {
                Ok(v) => old(self).rest().len() >= 4 && v == spec_be_u32(old(self).rest(), 0)
                    && final(self).advanced_from(old(self), 4),
                Err(e) => old(self).rest().len() < 4 && e == DecodeError::NeedMore(
                    (4 - old(self).rest().len()) as usize,
                ) && *final(self) == *old(self),
            },
    {
        let avail = self.data.len() - self.pos;
        if avail < 4 {
            return Err(DecodeError::NeedMore(4 - avail));
        }
        let v = be_u32_at(self.data, self.pos);
        self.pos = self.pos + 4;
        Ok(v)
    }
}

} // verus!

//! A sequential reader over a byte slice.

use vstd::prelude::*;
use vstd::slice::slice_subrange;
use byteorder::{BigEndian, ByteOrder};
use crate::errors::DecodeError;

verus! {

/// The number that two bytes spell, most significant byte first.
pub open spec fn be_u16(b: Seq<u8>) -> int
    recommends
        b.len() >= 2,
{
    b[0] as int * 0x100 + b[1] as int
}

/// The number that four bytes spell, most significant byte first.
pub open spec fn be_u32(b: Seq<u8>) -> int
    recommends
        b.len() >= 4,
{
    b[0] as int * 0x100_0000 + b[1] as int * 0x1_0000 + b[2] as int * 0x100 + b[3] as int
}

/// `byteorder::BigEndian::read_u16`: the first two bytes of `buf` read as a
/// big-endian number. The call panics on a shorter slice, which `requires`
/// leaves out.
#[verifier::external_body]
fn big_endian_u16(buf: &[u8]) -> (v: u16)
    requires
        buf@.len() >= 2,
    ensures
        v as int == be_u16(buf@),
{
    BigEndian::read_u16(buf)
}

/// `byteorder::BigEndian::read_u32`: the first four bytes of `buf` read as a
/// big-endian number. The call panics on a shorter slice, which `requires`
/// leaves out.
#[verifier::external_body]
fn big_endian_u32(buf: &[u8]) -> (v: u32)
    requires
        buf@.len() >= 4,
    ensures
        v as int == be_u32(buf@),
{
    BigEndian::read_u32(buf)
}

/// A position in a byte slice. Reads advance it; a read that fails leaves it
/// where it was.
#[derive(Clone, Copy)]
pub struct ByteCursor<'a> {
    data: &'a [u8],
    pos: usize,
}

impl<'a> ByteCursor<'a> {
    /// The bytes that the cursor reads from, all of them.
    pub closed spec fn bytes(&self) -> Seq<u8> {
        self.data@
    }

    /// The number of bytes already consumed.
    pub closed spec fn offset(&self) -> int {
        self.pos as int
    }

    /// The position lies within the bytes or at their end.
    #[verifier::type_invariant]
    pub open spec fn in_bounds(&self) -> bool {
        0 <= self.offset() <= self.bytes().len()
    }

    /// A cursor at the start of `data`.
    pub fn new(data: &'a [u8]) -> (c: Self)
        ensures
            c.bytes() == data@,
            c.offset() == 0,
    {
        ByteCursor { data, pos: 0 }
    }

    /// The number of bytes consumed so far.
    pub fn position(&self) -> (p: usize)
        ensures
            p == self.offset(),
            p <= self.bytes().len(),
    {
        proof {
            use_type_invariant(self);
        }
        self.pos
    }

    /// The number of bytes not yet consumed.
    pub fn remaining(&self) -> (n: usize)
        ensures
            n == self.bytes().len() - self.offset(),
    {
        proof {
            use_type_invariant(self);
        }
        self.data.len() - self.pos
    }

    /// The next byte, which stays unconsumed.
    pub fn peek_byte(&self) -> (res: Result<u8, DecodeError>)
        ensures
            self.offset() < self.bytes().len() ==> res == Ok::<u8, DecodeError>(
                self.bytes()[self.offset()],
            ),
            self.offset() >= self.bytes().len() ==> res == Err::<u8, DecodeError>(
                DecodeError::UnexpectedEof,
            ),
    {
        proof {
            use_type_invariant(self);
        }
        if self.pos < self.data.len() {
            Ok(self.data[self.pos])
        } else {
            Err(DecodeError::UnexpectedEof)
        }
    }

    /// Consumes one byte.
    pub fn read_one_byte(&mut self) -> (res: Result<u8, DecodeError>)
        ensures
            final(self).bytes() == old(self).bytes(),
            old(self).offset() < old(self).bytes().len() ==> res == Ok::<u8, DecodeError>(
                old(self).bytes()[old(self).offset()],
            ) && final(self).offset() == old(self).offset() + 1,
            old(self).offset() >= old(self).bytes().len() ==> res == Err::<u8, DecodeError>(
                DecodeError::UnexpectedEof,
            ) && *final(self) == *old(self),
    {
        proof {
            use_type_invariant(&*self);
        }
        if self.pos < self.data.len() {
            let b = self.data[self.pos];
            self.pos = self.pos + 1;
            Ok(b)
        } else {
            Err(DecodeError::UnexpectedEof)
        }
    }

    /// Consumes the next `n` bytes and hands them out.
    pub fn read_exact(&mut self, n: usize) -> (res: Result<&'a [u8], DecodeError>)
        ensures
            final(self).bytes() == old(self).bytes(),
            old(self).offset() + n <= old(self).bytes().len() ==> (res matches Ok(s) && s@
                == old(self).bytes().subrange(old(self).offset(), old(self).offset() + n))
                && final(self).offset() == old(self).offset() + n,
            old(self).offset() + n > old(self).bytes().len() ==> (res matches Err(e) && e
                == DecodeError::UnexpectedEof) && *final(self) == *old(self),
    {
        proof {
            use_type_invariant(&*self);
        }
        if n <= self.data.len() - self.pos {
            let s = slice_subrange(self.data, self.pos, self.pos + n);
            self.pos = self.pos + n;
            Ok(s)
        } else {
            Err(DecodeError::UnexpectedEof)
        }
    }

    /// Consumes two bytes and reads them as a big-endian number.
    pub fn read_u16_be(&mut self) -> (res: Result<u16, DecodeError>)
        ensures
            final(self).bytes() == old(self).bytes(),
            old(self).offset() + 2 <= old(self).bytes().len() ==> (res matches Ok(v) && v as int
                == be_u16(old(self).bytes().subrange(old(self).offset(), old(self).offset() + 2)))
                && final(self).offset() == old(self).offset() + 2,
            old(self).offset() + 2 > old(self).bytes().len() ==> res == Err::<u16, DecodeError>(
                DecodeError::UnexpectedEof,
            ) && *final(self) == *old(self),
    {
        match self.read_exact(2) {
            Ok(s) => Ok(big_endian_u16(s)),
            Err(e) => Err(e),
        }
    }

    /// Consumes four bytes and reads them as a big-endian number.
    pub fn read_u32_be(&mut self) -> (res: Result<u32, DecodeError>)
        ensures
            final(self).bytes() == old(self).bytes(),
            old(self).offset() + 4 <= old(self).bytes().len() ==> (res matches Ok(v) && v as int
                == be_u32(old(self).bytes().subrange(old(self).offset(), old(self).offset() + 4)))
                && final(self).offset() == old(self).offset() + 4,
            old(self).offset() + 4 > old(self).bytes().len() ==> res == Err::<u32, DecodeError>(
                DecodeError::UnexpectedEof,
            ) && *final(self) == *old(self),
    {
        match self.read_exact(4) {
            Ok(s) => Ok(big_endian_u32(s)),
            Err(e) => Err(e),
        }
    }

    /// Moves the position by `delta` bytes, backwards where `delta` is
    /// negative. The position stays between the start and the end of the bytes.
    pub fn seek_relative(&mut self, delta: i64) -> (res: Result<(), DecodeError>)
        ensures
            final(self).bytes() == old(self).bytes(),
            0 <= old(self).offset() + delta <= old(self).bytes().len() ==> res == Ok::<
                (),
                DecodeError,
            >(()) && final(self).offset() == old(self).offset() + delta,
            !(0 <= old(self).offset() + delta <= old(self).bytes().len()) ==> res == Err::<
                (),
                DecodeError,
            >(DecodeError::SeekOutOfRange) && *final(self) == *old(self),
    {
        proof {
            use_type_invariant(&*self);
        }
        if delta >= 0 {
            let forward: u64 = delta as u64;
            if forward <= (self.data.len() - self.pos) as u64 {
                self.pos = self.pos + forward as usize;
                Ok(())
            } else {
                Err(DecodeError::SeekOutOfRange)
            }
        } else {
            let backward: u64 = (-(delta + 1)) as u64 + 1;
            if backward <= self.pos as u64 {
                self.pos = self.pos - backward as usize;
                Ok(())
            } else {
                Err(DecodeError::SeekOutOfRange)
            }
        }
    }
}

} // verus!

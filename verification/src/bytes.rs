//! Fixed-width primitive reads over a position-tracked byte view.
//!
//! A [`Cursor`] pairs a byte slice with a read position. Every primitive
//! read checks that the full requested width is still available and fails
//! with [`Error::InvalidBytes`] otherwise, leaving the cursor untouched so
//! that the caller is free to wait for more bytes. Multi-byte integers are
//! little-endian.

use vstd::prelude::*;
use vstd::bytes::{
    spec_u16_from_le_bytes, spec_u32_from_le_bytes, spec_u64_from_le_bytes, u16_from_le_bytes,
    u32_from_le_bytes, u64_from_le_bytes,
};
use vstd::slice::slice_subrange;
use crate::error::Error;

verus! {

/// A position-tracked read view over a byte slice.
#[derive(Clone, Copy)]
pub struct Cursor<'a> {
    data: &'a [u8],
    pos: usize,
}

impl<'a> Cursor<'a> {
    /// The whole underlying byte sequence, independent of the position.
    pub closed spec fn all_bytes(self) -> Seq<u8> {
        self.data@
    }

    /// The current read position.
    pub closed spec fn offset(self) -> int {
        self.pos as int
    }

    /// The position never runs past the end of the data.
    pub open spec fn wf(self) -> bool {
        0 <= self.offset() <= self.all_bytes().len()
    }

    /// The bytes not yet consumed.
    pub open spec fn remaining(self) -> Seq<u8> {
        self.all_bytes().subrange(self.offset(), self.all_bytes().len() as int)
    }

    pub fn new(data: &'a [u8]) -> (c: Self)
        ensures
            c.all_bytes() == data@,
            c.offset() == 0,
            c.wf(),
    {
        Cursor { data, pos: 0 }
    }

    /// The current read position.
    pub fn position(&self) -> (p: usize)
        ensures
            p == self.offset(),
    {
        self.pos
    }

    /// The underlying byte slice.
    pub fn data(&self) -> (d: &'a [u8])
        ensures
            d@ == self.all_bytes(),
    {
        self.data
    }

    /// How many bytes are left to read.
    pub fn remaining_len(&self) -> (n: usize)
        requires
            self.wf(),
        ensures
            n == self.remaining().len(),
    {
        self.data.len() - self.pos
    }

    /// Moves the position forward by `n` bytes if that many are available;
    /// otherwise reports the shortfall and stays put.
    pub fn advance(&mut self, n: usize) -> (r: Result<(), Error>)
        requires
            old(self).wf(),
        ensures
            final(self).wf(),
            final(self).all_bytes() == old(self).all_bytes(),
            match r {
                Ok(()) => n <= old(self).remaining().len() && final(self).offset() == old(
                    self,
                ).offset() + n,
                Err(e) => e == (Error::InvalidBytes {  }) && n > old(self).remaining().len()
                    && *final(self) == *old(self),
            },
    {
        if n <= self.data.len() - self.pos {
            self.pos = self.pos + n;
            Ok(())
        } else {
            Err(Error::InvalidBytes)
        }
    }

    /// Moves the position to `p`, which must lie inside the data.
    pub fn set_position(&mut self, p: usize)
        requires
            old(self).wf(),
            p <= old(self).all_bytes().len(),
        ensures
            final(self).wf(),
            final(self).all_bytes() == old(self).all_bytes(),
            final(self).offset() == p,
    {
        self.pos = p;
    }
}

/// Reads one byte.
pub fn get_u8(src: &mut Cursor<'_>) -> (r: Result<u8, Error>)
    requires
        old(src).wf(),
    ensures
        final(src).wf(),
        final(src).all_bytes() == old(src).all_bytes(),
        match r {
            Ok(b) => old(src).remaining().len() >= 1 && b == old(src).remaining()[0]
                && final(src).offset() == old(src).offset() + 1,
            Err(e) => e == (Error::InvalidBytes {  }) && old(src).remaining().len() == 0 && *final(src)
                == *old(src),
        },
{
    if src.pos < src.data.len() {
        let b = src.data[src.pos];
        src.pos = src.pos + 1;
        Ok(b)
    } else {
        Err(Error::InvalidBytes)
    }
}

/// Reads one byte as a boolean: any non-zero payload byte reads as true.
pub fn get_bool(src: &mut Cursor<'_>) -> (r: Result<bool, Error>)
    requires
        old(src).wf(),
    ensures
        final(src).wf(),
        final(src).all_bytes() == old(src).all_bytes(),
        match r {
            Ok(t) => old(src).remaining().len() >= 1 && t == (old(src).remaining()[0] != 0)
                && final(src).offset() == old(src).offset() + 1,
            Err(e) => e == (Error::InvalidBytes {  }) && old(src).remaining().len() == 0 && *final(src)
                == *old(src),
        },
{
    match get_u8(src) {
        Ok(b) => Ok(b != 0),
        Err(e) => Err(e),
    }
}

/// Reads a little-endian u16.
pub fn get_u16(src: &mut Cursor<'_>) -> (r: Result<u16, Error>)
    requires
        old(src).wf(),
    ensures
        final(src).wf(),
        final(src).all_bytes() == old(src).all_bytes(),
        match r {
            Ok(n) => old(src).remaining().len() >= 2 && n == spec_u16_from_le_bytes(
                old(src).remaining().take(2),
            ) && final(src).offset() == old(src).offset() + 2,
            Err(e) => e == (Error::InvalidBytes {  }) && old(src).remaining().len() < 2 && *final(src)
                == *old(src),
        },
{
    if src.data.len() - src.pos >= 2 {
        let field = slice_subrange(src.data, src.pos, src.pos + 2);
        let n = u16_from_le_bytes(field);
        proof {
            assert(field@ =~= old(src).remaining().take(2));
        }
        src.pos = src.pos + 2;
        Ok(n)
    } else {
        Err(Error::InvalidBytes)
    }
}

/// Reads a little-endian u32.
pub fn get_u32(src: &mut Cursor<'_>) -> (r: Result<u32, Error>)
    requires
        old(src).wf(),
    ensures
        final(src).wf(),
        final(src).all_bytes() == old(src).all_bytes(),
        match r {
            Ok(n) => old(src).remaining().len() >= 4 && n == spec_u32_from_le_bytes(
                old(src).remaining().take(4),
            ) && final(src).offset() == old(src).offset() + 4,
            Err(e) => e == (Error::InvalidBytes {  }) && old(src).remaining().len() < 4 && *final(src)
                == *old(src),
        },
{
    if src.data.len() - src.pos >= 4 {
        let field = slice_subrange(src.data, src.pos, src.pos + 4);
        let n = u32_from_le_bytes(field);
        proof {
            assert(field@ =~= old(src).remaining().take(4));
        }
        src.pos = src.pos + 4;
        Ok(n)
    } else {
        Err(Error::InvalidBytes)
    }
}

/// Reads a little-endian u64.
pub fn get_u64(src: &mut Cursor<'_>) -> (r: Result<u64, Error>)
    requires
        old(src).wf(),
    ensures
        final(src).wf(),
        final(src).all_bytes() == old(src).all_bytes(),
        match r {
            Ok(n) => old(src).remaining().len() >= 8 && n == spec_u64_from_le_bytes(
                old(src).remaining().take(8),
            ) && final(src).offset() == old(src).offset() + 8,
            Err(e) => e == (Error::InvalidBytes {  }) && old(src).remaining().len() < 8 && *final(src)
                == *old(src),
        },
{
    if src.data.len() - src.pos >= 8 {
        let field = slice_subrange(src.data, src.pos, src.pos + 8);
        let n = u64_from_le_bytes(field);
        proof {
            assert(field@ =~= old(src).remaining().take(8));
        }
        src.pos = src.pos + 8;
        Ok(n)
    } else {
        Err(Error::InvalidBytes)
    }
}

/// Reads a little-endian i64: the eight bytes reinterpreted in two's
/// complement.
pub fn get_i64(src: &mut Cursor<'_>) -> (r: Result<i64, Error>)
    requires
        old(src).wf(),
    ensures
        final(src).wf(),
        final(src).all_bytes() == old(src).all_bytes(),
        match r {
            Ok(n) => old(src).remaining().len() >= 8 && n == spec_u64_from_le_bytes(
                old(src).remaining().take(8),
            ) as i64 && final(src).offset() == old(src).offset() + 8,
            Err(e) => e == (Error::InvalidBytes {  }) && old(src).remaining().len() < 8 && *final(src)
                == *old(src),
        },
{
    match get_u64(src) {
        Ok(n) => Ok(#[verifier::truncate] (n as i64)),
        Err(e) => Err(e),
    }
}

} // verus!

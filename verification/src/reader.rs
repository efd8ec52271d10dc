//! A positioned cursor over a fully buffered byte source.
//!
//! The wire format is seek-driven: section payloads and string tables are
//! addressed by absolute offset. A caller that has a non-seekable transport
//! buffers the whole input first and hands the bytes here.

use vstd::prelude::*;

use crate::endian::{be16, be32};
use crate::error::EcoffError;

verus! {

/// A cursor over a byte slice. `seek` may place the position anywhere,
/// including past the end; bounds are checked by the next read.
pub struct Reader<'a> {
    pub data: &'a [u8],
    pub pos: usize,
}

impl<'a> Reader<'a> {
    /// How many bytes can still be read from the current position.
    pub open spec fn avail(self) -> int {
        if self.pos <= self.data@.len() {
            self.data@.len() - self.pos
        } else {
            0
        }
    }

    /// The bytes of the window of length `n` at the current position.
    pub open spec fn window(self, n: int) -> Seq<u8>
        recommends
            self.avail() >= n,
    {
        self.data@.subrange(self.pos as int, self.pos + n)
    }

    /// A cursor positioned at the start of the input.
    pub fn new(data: &'a [u8]) -> (r: Reader<'a>)
        ensures
            r.data@ == data@,
            r.pos == 0,
    {
        Reader { data, pos: 0 }
    }

    /// Reposition absolutely. Bounds are not validated here; the next read
    /// checks them.
    pub fn seek(&mut self, offset: usize)
        ensures
            final(self).data@ == old(self).data@,
            final(self).pos == offset,
    {
        self.pos = offset;
    }

    /// How many bytes can still be read from the current position.
    pub fn remaining(&self) -> (n: usize)
        ensures
            n == self.avail(),
    {
        if self.pos <= self.data.len() {
            self.data.len() - self.pos
        } else {
            0
        }
    }

    /// Consume two bytes and return their big-endian value, or fail without
    /// moving the position if fewer than two bytes remain.
    pub fn read_u16(&mut self) -> (r: Result<u16, EcoffError>)
        ensures
            final(self).data@ == old(self).data@,
            old(self).pos + 2 <= old(self).data@.len() ==> {
                &&& r matches Ok(v) && v == be16(old(self).window(2))
                &&& final(self).pos == old(self).pos + 2
            },
            old(self).pos + 2 > old(self).data@.len() ==> {
                &&& r == Err::<u16, EcoffError>(EcoffError::TruncatedInput {
                    requested: 2,
                    available: old(self).avail() as usize,
                })
                &&& final(self).pos == old(self).pos
            },
    {
        let a = self.remaining();
        if a < 2 {
            Err(EcoffError::TruncatedInput { requested: 2, available: a })
        } else {
            let b0 = self.data[self.pos];
            let b1 = self.data[self.pos + 1];
            self.pos = self.pos + 2;
            Ok((b0 as u16) * 256 + (b1 as u16))
        }
    }

    /// Consume four bytes and return their big-endian value, or fail without
    /// moving the position if fewer than four bytes remain.
    pub fn read_u32(&mut self) -> (r: Result<u32, EcoffError>)
        ensures
            final(self).data@ == old(self).data@,
            old(self).pos + 4 <= old(self).data@.len() ==> {
                &&& r matches Ok(v) && v == be32(old(self).window(4))
                &&& final(self).pos == old(self).pos + 4
            },
            old(self).pos + 4 > old(self).data@.len() ==> {
                &&& r == Err::<u32, EcoffError>(EcoffError::TruncatedInput {
                    requested: 4,
                    available: old(self).avail() as usize,
                })
                &&& final(self).pos == old(self).pos
            },
    {
        let a = self.remaining();
        if a < 4 {
            Err(EcoffError::TruncatedInput { requested: 4, available: a })
        } else {
            let b0 = self.data[self.pos];
            let b1 = self.data[self.pos + 1];
            let b2 = self.data[self.pos + 2];
            let b3 = self.data[self.pos + 3];
            self.pos = self.pos + 4;
            Ok((b0 as u32) * 16777216 + (b1 as u32) * 65536 + (b2 as u32) * 256 + (b3 as u32))
        }
    }

    /// Consume exactly `n` bytes, or fail without moving the position if
    /// fewer than `n` bytes remain. A zero-length read can always obtain
    /// its requested count, so it succeeds wherever the position stands,
    /// even past the end of the input.
    pub fn read_exact(&mut self, n: usize) -> (r: Result<Vec<u8>, EcoffError>)
        ensures
            final(self).data@ == old(self).data@,
            n == 0 ==> (r matches Ok(v) && v@ == Seq::<u8>::empty() && final(self).pos == old(
                self,
            ).pos),
            n > 0 && old(self).pos + n <= old(self).data@.len() ==> {
                &&& r matches Ok(v) && v@ == old(self).window(n as int)
                &&& final(self).pos == old(self).pos + n
            },
            n > 0 && old(self).pos + n > old(self).data@.len() ==> {
                &&& r == Err::<Vec<u8>, EcoffError>(EcoffError::TruncatedInput {
                    requested: n,
                    available: old(self).avail() as usize,
                })
                &&& final(self).pos == old(self).pos
            },
    {
        if n == 0 {
            return Ok(Vec::new());
        }
        let a = self.remaining();
        if a < n || self.pos > self.data.len() {
            Err(EcoffError::TruncatedInput { requested: n, available: a })
        } else {
            let mut v: Vec<u8> = Vec::new();
            let mut i: usize = 0;
            while i < n
                invariant
                    i <= n,
                    self.data@.len() <= usize::MAX,
                    self.pos + n <= self.data@.len(),
                    v@ == self.data@.subrange(self.pos as int, self.pos + i),
                decreases n - i,
            {
                assert(self.pos + i < self.data@.len());
                v.push(self.data[self.pos + i]);
                i = i + 1;
                proof {
                    assert(v@ =~= self.data@.subrange(self.pos as int, self.pos + i));
                }
            }
            self.pos = self.pos + n;
            Ok(v)
        }
    }
}

} // verus!

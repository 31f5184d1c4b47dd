//! Bounds-checked reads over an adversary-controlled byte slice, together
//! with the spec-level readers that the parser's contracts are phrased in.
//!
//! Every `take_*` spec function reads at an absolute position `p` of a byte
//! sequence and yields the value read together with the position just past
//! it, or `None` when the requested span does not fit.

use vstd::prelude::*;
use vstd::slice::slice_subrange;

verus! {

/// Big-endian value of the two bytes at `p`.
pub open spec fn be16(d: Seq<u8>, p: int) -> int {
    d[p] as int * 256 + d[p + 1] as int
}

/// Big-endian value of the three bytes at `p`.
pub open spec fn be24(d: Seq<u8>, p: int) -> int {
    d[p] as int * 65536 + d[p + 1] as int * 256 + d[p + 2] as int
}

pub open spec fn take_u8(d: Seq<u8>, p: int) -> Option<(u8, int)> {
    if 0 <= p < d.len() {
        Some((d[p], p + 1))
    } else {
        None
    }
}

pub open spec fn take_u16(d: Seq<u8>, p: int) -> Option<(u16, int)> {
    if 0 <= p && p + 2 <= d.len() {
        Some((be16(d, p) as u16, p + 2))
    } else {
        None
    }
}

pub open spec fn take_u24(d: Seq<u8>, p: int) -> Option<(u32, int)> {
    if 0 <= p && p + 3 <= d.len() {
        Some((be24(d, p) as u32, p + 3))
    } else {
        None
    }
}

pub open spec fn take_bytes(d: Seq<u8>, p: int, n: int) -> Option<(Seq<u8>, int)> {
    if 0 <= p && 0 <= n && p + n <= d.len() {
        Some((d.subrange(p, p + n), p + n))
    } else {
        None
    }
}

/// A `u8` length prefix followed by that many bytes.
pub open spec fn take_u8_prefixed(d: Seq<u8>, p: int) -> Option<(Seq<u8>, int)> {
    match take_u8(d, p) {
        Some((n, q)) => take_bytes(d, q, n as int),
        None => None,
    }
}

/// A `u16` length prefix followed by that many bytes.
pub open spec fn take_u16_prefixed(d: Seq<u8>, p: int) -> Option<(Seq<u8>, int)> {
    match take_u16(d, p) {
        Some((n, q)) => take_bytes(d, q, n as int),
        None => None,
    }
}

/// Bounds-checked cursor over a byte slice. Every read either succeeds and
/// advances past what it read, or fails and leaves the cursor where the
/// contract of that read says.
pub struct Cursor<'a> {
    bytes: &'a [u8],
    pos: usize,
}

impl<'a> Cursor<'a> {
    /// The bytes the cursor walks.
    pub closed spec fn data(&self) -> Seq<u8> {
        self.bytes@
    }

    /// The absolute read position.
    pub closed spec fn position(&self) -> int {
        self.pos as int
    }

    /// The position never runs past the end of the bytes.
    pub open spec fn wf(&self) -> bool {
        0 <= self.position() <= self.data().len()
    }

    pub fn new(bytes: &'a [u8]) -> (c: Self)
        ensures
            c.wf(),
            c.data() == bytes@,
            c.position() == 0,
    {
        Cursor { bytes, pos: 0 }
    }

    /// Bytes left to read.
    pub fn remaining(&self) -> (n: usize)
        requires
            self.wf(),
        ensures
            n == self.data().len() - self.position(),
    {
        self.bytes.len() - self.pos
    }

    pub fn read_u8(&mut self) -> (r: Option<u8>)
        requires
            old(self).wf(),
        ensures
            final(self).wf(),
            final(self).data() == old(self).data(),
            match take_u8(old(self).data(), old(self).position()) {
                Some((v, q)) => r == Some(v) && final(self).position() == q,
                None => r is None && final(self).position() == old(self).position(),
            },
    {
        if self.pos < self.bytes.len() {
            let b = self.bytes[self.pos];
            self.pos = self.pos + 1;
            Some(b)
        } else {
            None
        }
    }

    pub fn read_u16(&mut self) -> (r: Option<u16>)
        requires
            old(self).wf(),
        ensures
            final(self).wf(),
            final(self).data() == old(self).data(),
            match take_u16(old(self).data(), old(self).position()) {
                Some((v, q)) => r == Some(v) && final(self).position() == q,
                None => r is None && final(self).position() == old(self).position(),
            },
    {
        if self.bytes.len() - self.pos >= 2 {
            let hi = self.bytes[self.pos];
            let lo = self.bytes[self.pos + 1];
            self.pos = self.pos + 2;
            Some((hi as u16) * 256 + (lo as u16))
        } else {
            None
        }
    }

    /// 24-bit big-endian length, as in the TLS handshake header.
    pub fn read_u24(&mut self) -> (r: Option<u32>)
        requires
            old(self).wf(),
        ensures
            final(self).wf(),
            final(self).data() == old(self).data(),
            match take_u24(old(self).data(), old(self).position()) {
                Some((v, q)) => r == Some(v) && final(self).position() == q,
                None => r is None && final(self).position() == old(self).position(),
            },
    {
        if self.bytes.len() - self.pos >= 3 {
            let a = self.bytes[self.pos];
            let b = self.bytes[self.pos + 1];
            let c = self.bytes[self.pos + 2];
            self.pos = self.pos + 3;
            Some((a as u32) * 65536 + (b as u32) * 256 + (c as u32))
        } else {
            None
        }
    }

    pub fn read_slice(&mut self, n: usize) -> (r: Option<&'a [u8]>)
        requires
            old(self).wf(),
        ensures
            final(self).wf(),
            final(self).data() == old(self).data(),
            match take_bytes(old(self).data(), old(self).position(), n as int) {
                Some((s, q)) => r matches Some(x) && x@ == s && final(self).position() == q,
                None => r is None && final(self).position() == old(self).position(),
            },
    {
        if n <= self.bytes.len() - self.pos {
            let end = self.pos + n;
            let s = slice_subrange(self.bytes, self.pos, end);
            self.pos = end;
            Some(s)
        } else {
            None
        }
    }

    /// A `u8` length prefix, then that many bytes. When only the payload
    /// overruns, the cursor stays just past the length byte.
    pub fn read_u8_prefixed(&mut self) -> (r: Option<&'a [u8]>)
        requires
            old(self).wf(),
        ensures
            final(self).wf(),
            final(self).data() == old(self).data(),
            match take_u8_prefixed(old(self).data(), old(self).position()) {
                Some((s, q)) => r matches Some(x) && x@ == s && final(self).position() == q,
                None => r is None && final(self).position() == (if old(self).position()
                    < old(self).data().len() {
                    old(self).position() + 1
                } else {
                    old(self).position()
                }),
            },
    {
        let n = match self.read_u8() {
            Some(n) => n,
            None => return None,
        };
        self.read_slice(n as usize)
    }

    /// A `u16` length prefix, then that many bytes. When only the payload
    /// overruns, the cursor stays just past the two length bytes.
    pub fn read_u16_prefixed(&mut self) -> (r: Option<&'a [u8]>)
        requires
            old(self).wf(),
        ensures
            final(self).wf(),
            final(self).data() == old(self).data(),
            match take_u16_prefixed(old(self).data(), old(self).position()) {
                Some((s, q)) => r matches Some(x) && x@ == s && final(self).position() == q,
                None => r is None && final(self).position() == (if old(self).position() + 2
                    <= old(self).data().len() {
                    old(self).position() + 2
                } else {
                    old(self).position()
                }),
            },
    {
        let n = match self.read_u16() {
            Some(n) => n,
            None => return None,
        };
        self.read_slice(n as usize)
    }
}

} // verus!

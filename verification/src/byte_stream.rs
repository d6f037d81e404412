//! A seekable cursor over an in-memory byte sequence.
//!
//! Both container parsers consume their input through this type. It
//! mirrors the behaviour of a seekable file handle: the cursor may be
//! placed past the end of the data, and reads past the end deliver
//! nothing rather than failing.

use vstd::prelude::*;

verus! {

/// `x`, clamped from below to zero: how far the cursor still has to go
/// when it may already have passed the mark.
pub open spec fn non_neg(x: int) -> int {
    if x >= 0 {
        x
    } else {
        0
    }
}

/// The unsigned big-endian value of the two bytes at `i`.
pub open spec fn be16(d: Seq<u8>, i: int) -> int {
    0x100 * d[i] + d[i + 1]
}

/// The unsigned big-endian value of the four bytes at `i`.
pub open spec fn be32(d: Seq<u8>, i: int) -> int {
    0x100_0000 * d[i] + 0x1_0000 * d[i + 1] + 0x100 * d[i + 2] + d[i + 3]
}

/// The unsigned big-endian value of the eight bytes at `i`.
pub open spec fn be64(d: Seq<u8>, i: int) -> int {
    0x100_0000_0000_0000 * d[i] + 0x1_0000_0000_0000 * d[i + 1] + 0x100_0000_0000 * d[i + 2]
        + 0x1_0000_0000 * d[i + 3] + 0x100_0000 * d[i + 4] + 0x1_0000 * d[i + 5] + 0x100 * d[i + 6]
        + d[i + 7]
}

/// The unsigned little-endian value of the four bytes at `i`.
pub open spec fn le32(d: Seq<u8>, i: int) -> int {
    d[i] + 0x100 * d[i + 1] + 0x1_0000 * d[i + 2] + 0x100_0000 * d[i + 3]
}

/// The unsigned little-endian value of the eight bytes at `i`.
pub open spec fn le64(d: Seq<u8>, i: int) -> int {
    d[i] + 0x100 * d[i + 1] + 0x1_0000 * d[i + 2] + 0x100_0000 * d[i + 3]
        + 0x1_0000_0000 * d[i + 4] + 0x100_0000_0000 * d[i + 5] + 0x1_0000_0000_0000 * d[i + 6]
        + 0x100_0000_0000_0000 * d[i + 7]
}

pub struct ByteStream {
    data: Vec<u8>,
    pos: u64,
}

impl ByteStream {
    /// The underlying bytes, which never change after construction.
    pub closed spec fn bytes(self) -> Seq<u8> {
        self.data@
    }

    /// The current cursor, counted in bytes; it may lie past the end.
    pub closed spec fn cursor(self) -> u64 {
        self.pos
    }

    /// How many bytes remain between the cursor and the end of the data.
    pub open spec fn remaining(self) -> int {
        if self.cursor() <= self.bytes().len() {
            self.bytes().len() - self.cursor()
        } else {
            0
        }
    }

    /// The data is held in one allocation, so its length is bounded by
    /// the address space.
    pub proof fn lemma_bytes_len(self)
        ensures
            self.bytes().len() <= usize::MAX,
    {
        broadcast use vstd::std_specs::vec::axiom_spec_len;

        assert(vstd::std_specs::vec::spec_vec_len(&self.data) <= usize::MAX);
    }

    pub fn new(data: Vec<u8>) -> (s: ByteStream)
        ensures
            s.bytes() == data@,
            s.cursor() == 0,
    {
        ByteStream { data, pos: 0 }
    }

    pub fn stream_len(&self) -> (n: usize)
        ensures
            n == self.bytes().len(),
    {
        self.data.len()
    }

    pub fn tell(&self) -> (p: u64)
        ensures
            p == self.cursor(),
    {
        self.pos
    }

    /// Place the cursor at an absolute offset, possibly past the end.
    pub fn seek_to(&mut self, to: u64)
        ensures
            final(self).bytes() == old(self).bytes(),
            final(self).cursor() == to,
    {
        self.pos = to;
    }

    /// Read one 4-byte tag, big-endian. `None` means the data ends first,
    /// and then the stream is left unchanged.
    pub fn read_tag(&mut self) -> (r: Option<u32>)
        ensures
            r is Some <==> old(self).remaining() >= 4,
            final(self).bytes() == old(self).bytes(),
            r matches Some(v) ==> v == be32(old(self).bytes(), old(self).cursor() as int)
                && final(self).cursor() == old(self).cursor() + 4,
            r is None ==> *final(self) == *old(self),
    {
        if self.pos >= self.data.len() as u64 {
            return None;
        }
        let i = self.pos as usize;
        if self.data.len() - i < 4 {
            return None;
        }
        let v: u32 = ((self.data[i] as u32) * 0x100_0000) + ((self.data[i + 1] as u32) * 0x1_0000)
            + ((self.data[i + 2] as u32) * 0x100) + (self.data[i + 3] as u32);
        self.pos = self.pos + 4;
        Some(v)
    }

    pub fn read_u16_be(&mut self) -> (r: Option<u16>)
        ensures
            r is Some <==> old(self).remaining() >= 2,
            final(self).bytes() == old(self).bytes(),
            r matches Some(v) ==> v == be16(old(self).bytes(), old(self).cursor() as int)
                && final(self).cursor() == old(self).cursor() + 2,
            r is None ==> *final(self) == *old(self),
    {
        if self.pos >= self.data.len() as u64 {
            return None;
        }
        let i = self.pos as usize;
        if self.data.len() - i < 2 {
            return None;
        }
        let v: u16 = ((self.data[i] as u16) * 0x100) + (self.data[i + 1] as u16);
        self.pos = self.pos + 2;
        Some(v)
    }

    pub fn read_u32_be(&mut self) -> (r: Option<u32>)
        ensures
            r is Some <==> old(self).remaining() >= 4,
            final(self).bytes() == old(self).bytes(),
            r matches Some(v) ==> v == be32(old(self).bytes(), old(self).cursor() as int)
                && final(self).cursor() == old(self).cursor() + 4,
            r is None ==> *final(self) == *old(self),
    {
        self.read_tag()
    }

    pub fn read_u64_be(&mut self) -> (r: Option<u64>)
        ensures
            r is Some <==> old(self).remaining() >= 8,
            final(self).bytes() == old(self).bytes(),
            r matches Some(v) ==> v == be64(old(self).bytes(), old(self).cursor() as int)
                && final(self).cursor() == old(self).cursor() + 8,
            r is None ==> *final(self) == *old(self),
    {
        if self.pos >= self.data.len() as u64 {
            return None;
        }
        let i = self.pos as usize;
        if self.data.len() - i < 8 {
            return None;
        }
        let mut v: u64 = self.data[i] as u64;
        v = v * 0x100 + self.data[i + 1] as u64;
        v = v * 0x100 + self.data[i + 2] as u64;
        v = v * 0x100 + self.data[i + 3] as u64;
        v = v * 0x100 + self.data[i + 4] as u64;
        v = v * 0x100 + self.data[i + 5] as u64;
        v = v * 0x100 + self.data[i + 6] as u64;
        v = v * 0x100 + self.data[i + 7] as u64;
        self.pos = self.pos + 8;
        Some(v)
    }

    pub fn read_u32_le(&mut self) -> (r: Option<u32>)
        ensures
            r is Some <==> old(self).remaining() >= 4,
            final(self).bytes() == old(self).bytes(),
            r matches Some(v) ==> v == le32(old(self).bytes(), old(self).cursor() as int)
                && final(self).cursor() == old(self).cursor() + 4,
            r is None ==> *final(self) == *old(self),
    {
        if self.pos >= self.data.len() as u64 {
            return None;
        }
        let i = self.pos as usize;
        if self.data.len() - i < 4 {
            return None;
        }
        let v: u32 = (self.data[i] as u32) + ((self.data[i + 1] as u32) * 0x100)
            + ((self.data[i + 2] as u32) * 0x1_0000) + ((self.data[i + 3] as u32) * 0x100_0000);
        self.pos = self.pos + 4;
        Some(v)
    }

    pub fn read_u64_le(&mut self) -> (r: Option<u64>)
        ensures
            r is Some <==> old(self).remaining() >= 8,
            final(self).bytes() == old(self).bytes(),
            r matches Some(v) ==> v == le64(old(self).bytes(), old(self).cursor() as int)
                && final(self).cursor() == old(self).cursor() + 8,
            r is None ==> *final(self) == *old(self),
    {
        if self.pos >= self.data.len() as u64 {
            return None;
        }
        let i = self.pos as usize;
        if self.data.len() - i < 8 {
            return None;
        }
        let mut v: u64 = self.data[i + 7] as u64;
        v = v * 0x100 + self.data[i + 6] as u64;
        v = v * 0x100 + self.data[i + 5] as u64;
        v = v * 0x100 + self.data[i + 4] as u64;
        v = v * 0x100 + self.data[i + 3] as u64;
        v = v * 0x100 + self.data[i + 2] as u64;
        v = v * 0x100 + self.data[i + 1] as u64;
        v = v * 0x100 + self.data[i] as u64;
        self.pos = self.pos + 8;
        Some(v)
    }

    /// Fill `buf` from the cursor: up to `buf.len()` bytes, fewer when the
    /// data ends first. Bytes of `buf` past the count read keep their old
    /// values. A result of zero with a non-empty `buf` means end of data.
    pub fn read_fill(&mut self, buf: &mut Vec<u8>) -> (k: usize)
        ensures
            final(self).bytes() == old(self).bytes(),
            k == if old(buf)@.len() <= old(self).remaining() {
                old(buf)@.len() as int
            } else {
                old(self).remaining()
            },
            final(self).cursor() == old(self).cursor() + k,
            final(buf)@.len() == old(buf)@.len(),
            forall|i: int|
                0 <= i < k ==> final(buf)@[i] == old(self).bytes()[old(self).cursor() + i],
            forall|i: int| k <= i < old(buf)@.len() ==> final(buf)@[i] == old(buf)@[i],
    {
        let len = self.data.len();
        if self.pos >= len as u64 {
            return 0;
        }
        let start = self.pos as usize;
        let avail = len - start;
        let k = if buf.len() < avail {
            buf.len()
        } else {
            avail
        };
        let mut i: usize = 0;
        while i < k
            invariant
                i <= k,
                k <= buf@.len(),
                start + k <= self.data@.len(),
                self.data@.len() <= usize::MAX,
                self.data@ == old(self).bytes(),
                self.pos == old(self).cursor(),
                buf@.len() == old(buf)@.len(),
                forall|j: int| 0 <= j < i ==> buf@[j] == self.data@[start + j],
                forall|j: int| i <= j < buf@.len() ==> buf@[j] == old(buf)@[j],
            decreases k - i,
        {
            buf[i] = self.data[start + i];
            i = i + 1;
        }
        self.pos = self.pos + k as u64;
        k
    }

    /// Fill `buf` as `read_fill` does, then clear the bytes of `buf` past
    /// the count read to zero.
    pub fn read_fill_padded(&mut self, buf: &mut Vec<u8>) -> (k: usize)
        ensures
            final(self).bytes() == old(self).bytes(),
            k == if old(buf)@.len() <= old(self).remaining() {
                old(buf)@.len() as int
            } else {
                old(self).remaining()
            },
            final(self).cursor() == old(self).cursor() + k,
            final(buf)@.len() == old(buf)@.len(),
            forall|i: int|
                0 <= i < k ==> final(buf)@[i] == old(self).bytes()[old(self).cursor() + i],
            forall|i: int| k <= i < old(buf)@.len() ==> final(buf)@[i] == 0,
    {
        let k = self.read_fill(buf);
        let mut i: usize = k;
        while i < buf.len()
            invariant
                k <= i <= buf@.len(),
                forall|j: int| k <= j < i ==> buf@[j] == 0,
                buf@.len() == old(buf)@.len(),
                forall|j: int| 0 <= j < k ==> buf@[j] == old(self).bytes()[old(self).cursor() + j],
                k == if old(buf)@.len() <= old(self).remaining() {
                    old(buf)@.len() as int
                } else {
                    old(self).remaining()
                },
            decreases buf@.len() - i,
        {
            buf[i] = 0;
            i = i + 1;
        }
        k
    }
}

} // verus!

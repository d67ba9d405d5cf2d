//! Type-erased views of persistent objects, for foreign callers: a `Gen`
//! is a borrowed byte range, a `ByteArray` an owned one.

use vstd::prelude::*;
use crate::pmem::NONE_OFF;

verus! {

/// A borrowed range of bytes of the pool.
#[derive(Clone, Copy)]
pub struct Gen {
    ptr: u64,
    len: usize,
}

impl Gen {
    /// Offset of the first byte, or the null offset.
    pub closed spec fn start(&self) -> u64 {
        self.ptr
    }

    /// Number of bytes.
    pub closed spec fn size(&self) -> usize {
        self.len
    }

    /// An empty range at the null offset.
    pub fn null() -> (r: Gen)
        ensures
            r.start() == NONE_OFF,
            r.size() == 0,
    {
        Gen { ptr: NONE_OFF, len: 0 }
    }

    /// A range of `len` bytes at `ptr`.
    pub fn from_raw_parts(ptr: u64, len: usize) -> (r: Gen)
        ensures
            r.start() == ptr,
            r.size() == len,
    {
        Gen { ptr, len }
    }

    /// Offset of the first byte.
    pub fn ptr(&self) -> (r: u64)
        ensures
            r == self.start(),
    {
        self.ptr
    }

    /// Number of bytes.
    pub fn len(&self) -> (r: usize)
        ensures
            r == self.size(),
    {
        self.len
    }
}

/// An owned range of bytes of the pool, with the flag byte of its log.
pub struct ByteArray {
    off: u64,
    len: usize,
    logged: u8,
}

impl ByteArray {
    /// Offset of the first byte, or the null offset.
    pub closed spec fn start(&self) -> u64 {
        self.off
    }

    /// Number of bytes.
    pub closed spec fn size(&self) -> usize {
        self.len
    }

    /// The log flag.
    pub closed spec fn flag(&self) -> u8 {
        self.logged
    }

    /// An empty array at the null offset.
    pub fn null() -> (r: ByteArray)
        ensures
            r.start() == NONE_OFF,
            r.size() == 0,
            r.flag() == 0,
    {
        ByteArray { off: NONE_OFF, len: 0, logged: 0 }
    }

    /// Takes over the range of `obj`, with no log taken.
    pub fn from_gen(obj: Gen) -> (r: ByteArray)
        ensures
            r.start() == obj.start(),
            r.size() == obj.size(),
            r.flag() == 0,
    {
        ByteArray { off: obj.ptr, len: obj.len, logged: 0 }
    }

    /// A borrowed view of the same range.
    pub fn get_gen(&self) -> (r: Gen)
        ensures
            r.start() == self.start(),
            r.size() == self.size(),
    {
        Gen { ptr: self.off, len: self.len }
    }

    /// Offset of the first byte.
    pub fn get_ptr(&self) -> (r: u64)
        ensures
            r == self.start(),
    {
        self.off
    }

    /// Offset of the first byte, for writing.
    pub fn get_ptr_mut(&mut self) -> (r: u64)
        ensures
            r == old(self).start(),
            *final(self) == *old(self),
    {
        self.off
    }

    /// Offset of the first byte in the pool.
    pub fn off(&self) -> (r: u64)
        ensures
            r == self.start(),
    {
        self.off
    }

    /// Exchanges the byte ranges of two arrays; the log flags stay.
    pub fn swap(&mut self, other: &mut ByteArray)
        ensures
            final(self).start() == old(other).start(),
            final(self).size() == old(other).size(),
            final(self).flag() == old(self).flag(),
            final(other).start() == old(self).start(),
            final(other).size() == old(self).size(),
            final(other).flag() == old(other).flag(),
    {
        let off = self.off;
        let len = self.len;
        self.off = other.off;
        self.len = other.len;
        other.off = off;
        other.len = len;
    }

    /// Number of bytes.
    pub fn len(&self) -> (r: usize)
        ensures
            r == self.size(),
    {
        self.len
    }
}

} // verus!

//! A byte reader.
use crate::reader::{be_bytes_u64, be_value, lemma_be_value_bound, pow256};
use vstd::prelude::*;

verus! {

/// A reader for reading bytes.
pub struct Reader<'a> {
    /// The underlying data of the reader.
    data: &'a [u8],
    /// The current byte-offset.
    offset: usize,
}

impl<'a> Reader<'a> {
    /// The bytes the reader reads from.
    pub closed spec fn bytes(&self) -> Seq<u8> {
        self.data@
    }

    /// The current byte offset.
    pub closed spec fn pos(&self) -> int {
        self.offset as int
    }

    /// The offset never passes the end of the data.
    pub open spec fn wf(&self) -> bool {
        0 <= self.pos() <= self.bytes().len() <= usize::MAX
    }

    /// The reader over the same data, moved to `pos`.
    pub open spec fn moved_to(&self, other: &Self, pos: int) -> bool {
        other.bytes() == self.bytes() && other.pos() == pos
    }

    /// Whether `len` more bytes are available.
    pub open spec fn has(&self, len: int) -> bool {
        self.pos() + len <= self.bytes().len()
    }

    /// The `len` bytes at the current offset.
    pub open spec fn next_bytes(&self, len: int) -> Seq<u8> {
        self.bytes().subrange(self.pos(), self.pos() + len)
    }

    /// Create a new reader.
    pub fn new(data: &'a [u8]) -> (r: Self)
        ensures
            r.wf(),
            r.bytes() == data@,
            r.pos() == 0,
    {
        assert(data@.len() == data.len());
        Self { data, offset: 0 }
    }

    /// Returns `true` if the reader has reached the end of the data.
    pub fn at_end(&self) -> (r: bool)
        ensures
            r == (self.pos() >= self.bytes().len()),
    {
        self.offset >= self.data.len()
    }

    /// Moves the reader offset to the end of the data.
    pub fn jump_to_end(&mut self)
        requires
            old(self).wf(),
        ensures
            old(self).moved_to(&*final(self), old(self).bytes().len() as int),
            final(self).wf(),
    {
        self.offset = self.data.len();
    }

    /// Returns the remaining data from the current offset to the end.
    pub fn tail(&mut self) -> (r: Option<&'a [u8]>)
        requires
            old(self).wf(),
        ensures
            *final(self) == *old(self),
            r matches Some(t) && t@ == old(self).bytes().subrange(
                old(self).pos(),
                old(self).bytes().len() as int,
            ),
    {
        Some(vstd::slice::slice_subrange(self.data, self.offset, self.data.len()))
    }

    /// Returns the current offset of the reader.
    pub fn offset(&self) -> (r: usize)
        ensures
            r == self.pos(),
    {
        self.offset
    }

    /// Reads the specified number of bytes and advances the offset.
    pub fn read_bytes(&mut self, len: usize) -> (r: Option<&'a [u8]>)
        requires
            old(self).wf(),
        ensures
            final(self).wf(),
            old(self).has(len as int) ==> (r matches Some(b) && b@ == old(self).next_bytes(len as int)
                && old(self).moved_to(&*final(self), old(self).pos() + len)),
            !old(self).has(len as int) ==> r is None && *final(self) == *old(self),
    {
        let v = match self.peek_bytes(len) {
            Some(v) => v,
            None => return None,
        };
        self.offset = self.offset + len;

        Some(v)
    }

    /// Reads a single byte and advances the offset.
    pub fn read_byte(&mut self) -> (r: Option<u8>)
        requires
            old(self).wf(),
        ensures
            final(self).wf(),
            old(self).has(1) ==> r == Some(old(self).bytes()[old(self).pos()]) && old(
                self,
            ).moved_to(&*final(self), old(self).pos() + 1),
            !old(self).has(1) ==> r is None && *final(self) == *old(self),
    {
        let v = match self.peek_byte() {
            Some(v) => v,
            None => return None,
        };
        self.offset = self.offset + 1;

        Some(v)
    }

    /// Skips the specified number of bytes by advancing the offset.
    pub fn skip_bytes(&mut self, len: usize) -> (r: Option<()>)
        requires
            old(self).wf(),
        ensures
            final(self).wf(),
            old(self).has(len as int) ==> r is Some && old(self).moved_to(
                &*final(self),
                old(self).pos() + len,
            ),
            !old(self).has(len as int) ==> r is None && *final(self) == *old(self),
    {
        match self.read_bytes(len) {
            Some(_) => Some(()),
            None => None,
        }
    }

    /// Peeks the specified number of bytes. A range whose end does not fit
    /// in a `usize` is treated like one that runs past the end of the data.
    pub fn peek_bytes(&self, len: usize) -> (r: Option<&'a [u8]>)
        requires
            self.wf(),
        ensures
            self.has(len as int) ==> (r matches Some(b) && b@ == self.next_bytes(len as int)),
            !self.has(len as int) ==> r is None,
    {
        let end = match self.offset.checked_add(len) {
            Some(e) => e,
            None => return None,
        };
        if end <= self.data.len() {
            Some(vstd::slice::slice_subrange(self.data, self.offset, end))
        } else {
            None
        }
    }

    /// Peeks a single byte.
    pub fn peek_byte(&self) -> (r: Option<u8>)
        requires
            self.wf(),
        ensures
            self.has(1) ==> r == Some(self.bytes()[self.pos()]),
            !self.has(1) ==> r is None,
    {
        if self.offset < self.data.len() {
            Some(self.data[self.offset])
        } else {
            None
        }
    }

    /// Read a u16 integer (in big endian order).
    pub fn read_u16(&mut self) -> (r: Option<u16>)
        requires
            old(self).wf(),
        ensures
            final(self).wf(),
            old(self).has(2) ==> (r matches Some(v) && v == be_value(old(self).next_bytes(2))
                && old(self).moved_to(&*final(self), old(self).pos() + 2)),
            !old(self).has(2) ==> r is None && *final(self) == *old(self),
    {
        let bytes = match self.read_bytes(2) {
            Some(b) => b,
            None => return None,
        };
        proof {
            reveal_with_fuel(be_value, 3);
        }
        Some((bytes[0] as u16) * 256 + (bytes[1] as u16))
    }

    /// Read a u32 integer (in big endian order).
    pub fn read_u32(&mut self) -> (r: Option<u32>)
        requires
            old(self).wf(),
        ensures
            final(self).wf(),
            old(self).has(4) ==> (r matches Some(v) && v == be_value(old(self).next_bytes(4))
                && old(self).moved_to(&*final(self), old(self).pos() + 4)),
            !old(self).has(4) ==> r is None && *final(self) == *old(self),
    {
        let bytes = match self.read_bytes(4) {
            Some(b) => b,
            None => return None,
        };
        let v = be_bytes_u64(bytes);
        proof {
            lemma_be_value_bound(bytes@);
            reveal_with_fuel(pow256, 5);
        }
        Some(v as u32)
    }

    /// Read a u64 integer (in big endian order).
    pub fn read_u64(&mut self) -> (r: Option<u64>)
        requires
            old(self).wf(),
        ensures
            final(self).wf(),
            old(self).has(8) ==> (r matches Some(v) && v == be_value(old(self).next_bytes(8))
                && old(self).moved_to(&*final(self), old(self).pos() + 8)),
            !old(self).has(8) ==> r is None && *final(self) == *old(self),
    {
        let bytes = match self.read_bytes(8) {
            Some(b) => b,
            None => return None,
        };
        Some(be_bytes_u64(bytes))
    }
}

} // verus!

//! Byte sources: a cursor over bytes that can be read one at a time.
//! [`Read`] states what every source does; this crate provides
//! [`StrRead`], which reads from text held in memory, and the contracts of
//! this crate rely on no other implementation.
use vstd::prelude::*;
use vstd::string::StringSliceAdditionalSpecFns;

use crate::grammar::byte_at;

verus! {

/// A source of bytes with a cursor.
pub trait Read<'de> {
    /// The bytes of the source.
    spec fn source(&self) -> Seq<u8>;

    /// The cursor, an offset into the source.
    spec fn offset(&self) -> int;

    /// The cursor.
    fn current(&self) -> (r: usize)
        ensures
            r == self.offset(),
    ;

    /// Whether the cursor is at the end of the source.
    fn eof(&self) -> (r: bool)
        ensures
            r == (self.offset() == self.source().len()),
    ;

    /// The byte under the cursor, or `0` at the end.
    fn peek(&self) -> (r: u8)
        ensures
            r == byte_at(self.source(), self.offset()),
    ;

    /// The byte after the one under the cursor, or `0` past the end.
    fn peek2(&self) -> (r: u8)
        ensures
            r == byte_at(self.source(), self.offset() + 1),
    ;

    /// Yields the byte under the cursor and moves past it; at the end,
    /// yields `0` and stays.
    fn next(&mut self) -> (r: u8)
        ensures
            r == byte_at(old(self).source(), old(self).offset()),
            final(self).source() == old(self).source(),
            final(self).offset() == if old(self).offset() < old(self).source().len() {
                old(self).offset() + 1
            } else {
                old(self).offset()
            },
    ;

    /// Makes more bytes available where the source is buffered; the bytes
    /// and the cursor are kept.
    fn refill(&mut self)
        ensures
            final(self).source() == old(self).source(),
            final(self).offset() == old(self).offset(),
    ;
}

/// A byte source over text held in memory.
pub struct StrRead<'de> {
    source: &'de str,
    current: usize,
}

impl<'de> StrRead<'de> {
    pub fn new(source: &'de str) -> (r: StrRead<'de>)
        ensures
            r.source() == source.spec_bytes(),
            r.offset() == 0,
    {
        StrRead { source, current: 0 }
    }
}

impl<'de> Read<'de> for StrRead<'de> {
    closed spec fn source(&self) -> Seq<u8> {
        self.source.spec_bytes()
    }

    closed spec fn offset(&self) -> int {
        if self.current <= self.source.spec_bytes().len() {
            self.current as int
        } else {
            self.source.spec_bytes().len() as int
        }
    }

    fn current(&self) -> (r: usize) {
        let len = self.source.as_bytes().len();
        if self.current <= len {
            self.current
        } else {
            len
        }
    }

    fn eof(&self) -> (r: bool) {
        self.current() == self.source.as_bytes().len()
    }

    fn peek(&self) -> (r: u8) {
        let bytes = self.source.as_bytes();
        if self.current < bytes.len() {
            bytes[self.current]
        } else {
            0
        }
    }

    fn peek2(&self) -> (r: u8) {
        let bytes = self.source.as_bytes();
        if self.current < bytes.len() && self.current + 1 < bytes.len() {
            bytes[self.current + 1]
        } else {
            0
        }
    }

    fn next(&mut self) -> (r: u8) {
        let bytes = self.source.as_bytes();
        if self.current < bytes.len() {
            let c = bytes[self.current];
            self.current = self.current + 1;
            c
        } else {
            0
        }
    }

    fn refill(&mut self) {
    }
}

} // verus!

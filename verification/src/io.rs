//! Outcomes of reads and writes.

use vstd::prelude::*;

use crate::le;

verus! {

/// An error, and the memory that was lent to the operation that failed.
#[derive(Debug)]
pub struct ErrorWith<E, T> {
    pub error: E,
    pub with: T,
}

/// The categories of [Error]s.
#[derive(Clone, Copy, Debug, PartialEq, Eq, Structural)]
pub enum ErrorKind {
    NotFound,
    AlreadyExists,
    InvalidInput,
    InvalidData,
    UnexpectedEof,
    StorageFull,
    Other,
}

/// What went wrong.
#[derive(Debug)]
pub struct Error {
    pub kind: ErrorKind,
    pub message: String,
}

impl Error {
    /// Whether this is an error of the given kind, with the given message.
    pub open spec fn is(self, kind: ErrorKind, message: Seq<char>) -> bool {
        self.kind == kind && self.message@ == message
    }

    pub fn new(kind: ErrorKind, message: String) -> (r: Self)
        ensures
            r.is(kind, message@),
    {
        Self { kind, message }
    }

    pub fn from_text(kind: ErrorKind, message: &str) -> (r: Self)
        ensures
            r.is(kind, message@),
    {
        Self { kind, message: message.to_owned() }
    }
}

/// Bytes to read from, and the position of the next byte.
#[derive(Debug)]
pub struct ByteReader {
    bytes: Vec<u8>,
    pos: u64,
}

/// The state of a [ByteReader].
#[verifier::ext_equal]
pub struct ReaderView {
    pub bytes: Seq<u8>,
    pub pos: int,
}

impl ReaderView {
    /// The bytes that are still to be read.
    pub open spec fn rest(self) -> Seq<u8> {
        if self.pos <= self.bytes.len() {
            self.bytes.skip(self.pos)
        } else {
            Seq::empty()
        }
    }

    /// The state after `n` bytes were read.
    pub open spec fn advanced(self, n: int) -> Self {
        ReaderView { pos: self.pos + n, ..self }
    }

    pub open spec fn at(self, pos: int) -> Self {
        ReaderView { pos, ..self }
    }

    /// The state after all bytes were read.
    pub open spec fn drained(self) -> Self {
        self.advanced(self.rest().len() as int)
    }
}

impl View for ByteReader {
    type V = ReaderView;

    closed spec fn view(&self) -> ReaderView {
        ReaderView { bytes: self.bytes@, pos: self.pos as int }
    }
}

impl ByteReader {
    /// The position is a 64-bit number.
    pub proof fn lemma_pos(self)
        ensures
            0 <= self@.pos <= u64::MAX,
    {
    }

    /// The number of bytes.
    pub fn len(&self) -> (r: usize)
        ensures
            r == self@.bytes.len(),
    {
        self.bytes.len()
    }

    /// Reads `bytes` from the start.
    pub fn new(bytes: Vec<u8>) -> (r: Self)
        ensures
            r@ == (ReaderView { bytes: bytes@, pos: 0 }),
    {
        Self { bytes, pos: 0 }
    }

    pub fn stream_position(&self) -> (r: u64)
        ensures
            r == self@.pos,
    {
        self.pos
    }

    /// Moves to `pos`, which may be beyond the end.
    pub fn seek(&mut self, pos: u64)
        ensures
            final(self)@ == old(self)@.at(pos as int),
    {
        self.pos = pos;
    }

    /// Reads `n` bytes. Where there are fewer, all are read, and lost.
    pub fn read_exact(&mut self, n: usize) -> (r: Result<Vec<u8>, Error>)
        ensures
            if n <= old(self)@.rest().len() {
                &&& r matches Ok(bytes)
                &&& bytes@ == old(self)@.rest().take(n as int)
                &&& final(self)@ == old(self)@.advanced(n as int)
            } else {
                &&& r matches Err(e)
                &&& e.is(ErrorKind::UnexpectedEof, "failed to fill whole buffer"@)
                &&& final(self)@ == old(self)@.drained()
            },
    {
        let len = self.bytes.len();
        let start: usize = if self.pos < len as u64 {
            self.pos as usize
        } else {
            len
        };
        assert(self@.rest().len() == len - start);
        if n > len - start {
            if self.pos < len as u64 {
                self.pos = len as u64;
            }
            return Err(Error::from_text(ErrorKind::UnexpectedEof, "failed to fill whole buffer"));
        }
        let out = le::read_vec(self.bytes.as_slice(), start, start + n);
        assert(out@ =~= self@.rest().take(n as int));
        if n > 0 {
            self.pos = (start + n) as u64;
        }
        Ok(out)
    }
}

} // verus!

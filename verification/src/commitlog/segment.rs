//! Segments: the files that a log consists of.

use bytes::BytesMut;
use core::ops::Range;
use vstd::prelude::*;

use crate::commitlog::buffer;
use crate::io::{ByteReader, Error, ErrorKind, ReaderView};
use crate::le;
use crate::text;

pub mod log;
pub mod metadata;
pub mod offset_index;
pub mod reader;
pub mod writer;

pub use self::metadata::Metadata;
pub use self::offset_index::OffsetIndexWriter;
pub use self::reader::{seek_to_offset, validate_commit_header, Commits, Reader};
pub use self::writer::Writer;

verus! {

/// `(ds)^2` in ASCII.
pub const MAGIC: [u8; 6] = [0x28, 0x64, 0x73, 0x29, 0x5e, 0x32];

pub const DEFAULT_LOG_FORMAT_VERSION: u8 = 1;

pub const DEFAULT_CHECKSUM_ALGORITHM: u8 = CHECKSUM_ALGORITHM_CRC32C;

pub const CHECKSUM_ALGORITHM_CRC32C: u8 = 0;

pub const CHECKSUM_CRC32C_LEN: usize = 4;

/// Lookup table for checksum length, index is [Header::checksum_algorithm].
// Supported algorithms must be numbered consecutively!
pub const CHECKSUM_LEN: [usize; 1] = [CHECKSUM_CRC32C_LEN];

/// The first bytes of a segment.
#[derive(Clone, Copy, Debug, PartialEq, Eq, Structural)]
pub struct Header {
    pub log_format_version: u8,
    pub checksum_algorithm: u8,
}

/// The bytes that a segment starts with.
pub open spec fn magic() -> Seq<u8> {
    seq![0x28u8, 0x64u8, 0x73u8, 0x29u8, 0x5eu8, 0x32u8]
}

fn magic_bytes() -> (r: [u8; 6])
    ensures
        r@ == magic(),
{
    let r = MAGIC;
    assert(r@ =~= magic());
    r
}

impl Header {
    pub const LEN: usize = 10;

    /// The header of the current version of the log format.
    pub open spec fn current() -> Self {
        Header { log_format_version: 1, checksum_algorithm: 0 }
    }

    /// The stored form: the magic bytes, the version, the checksum algorithm,
    /// and two zeros.
    pub open spec fn bytes(self) -> Seq<u8> {
        magic() + seq![self.log_format_version, self.checksum_algorithm, 0u8, 0u8]
    }

    /// The header that `s` starts with, if it starts with the magic bytes.
    pub open spec fn first_in(s: Seq<u8>) -> Option<Self> {
        if s.take(6) == magic() {
            Some(Header { log_format_version: s[6], checksum_algorithm: s[7] })
        } else {
            None
        }
    }

    /// Appends the stored form to `out`.
    pub fn write(&self, out: &mut Vec<u8>) -> (r: Result<(), Error>)
        ensures
            r is Ok,
            final(out)@ == old(out)@ + self.bytes(),
    {
        le::put_slice(out, magic_bytes().as_slice());
        let rest: [u8; 4] = [self.log_format_version, self.checksum_algorithm, 0, 0];
        le::put_slice(out, rest.as_slice());
        assert(out@ =~= old(out)@ + self.bytes());
        Ok(())
    }

    /// Appends the stored form to `buf`.
    pub fn encode(&self, buf: &mut BytesMut)
        requires
            buffer::contents(*old(buf)).len() + Self::LEN <= isize::MAX,
        ensures
            buffer::contents(*final(buf)) == buffer::contents(*old(buf)) + self.bytes(),
    {
        buffer::extend_buffer(buf, magic_bytes().as_slice());
        let rest: [u8; 4] = [self.log_format_version, self.checksum_algorithm, 0, 0];
        buffer::extend_buffer(buf, rest.as_slice());
        assert(buffer::contents(*buf) =~= buffer::contents(*old(buf)) + self.bytes());
    }

    /// The result of reading a header.
    pub open spec fn outcome(s: Seq<u8>, r: Result<Self, Error>) -> bool {
        if s.len() < Self::LEN {
            &&& r matches Err(e)
            &&& e.is(ErrorKind::UnexpectedEof, "failed to fill whole buffer"@)
        } else {
            match Self::first_in(s) {
                Some(header) => r == Ok::<Self, Error>(header),
                None => {
                    &&& r matches Err(e)
                    &&& e.is(ErrorKind::InvalidData, "segment header does not start with magic"@)
                },
            }
        }
    }

    /// The state of a reader after reading a header.
    pub open spec fn after(reader: ReaderView) -> ReaderView {
        if reader.rest().len() < Self::LEN {
            reader.drained()
        } else {
            reader.advanced(10)
        }
    }

    pub fn decode(read: &mut ByteReader) -> (r: Result<Self, Error>)
        ensures
            Self::outcome(old(read)@.rest(), r),
            final(read)@ == Self::after(old(read)@),
    {
        let ghost s = read@.rest();
        let buf = match read.read_exact(Self::LEN) {
            Ok(buf) => buf,
            Err(e) => {
                return Err(e);
            },
        };
        let start = vstd::slice::slice_subrange(buf.as_slice(), 0, 6);
        assert(start@ =~= s.take(6));
        if !le::bytes_eq(start, magic_bytes().as_slice()) {
            return Err(
                Error::from_text(
                    ErrorKind::InvalidData,
                    "segment header does not start with magic",
                ),
            );
        }
        Ok(Self { log_format_version: buf[6], checksum_algorithm: buf[7] })
    }

    /// Why a segment with this header cannot be read.
    pub open spec fn incompatible(self, max_log_format_version: u8, checksum_algorithm: u8) -> Option<
        Seq<char>,
    > {
        if self.log_format_version > max_log_format_version {
            Some(
                "unsupported log format version: "@ + text::decimal(
                    self.log_format_version as nat,
                ),
            )
        } else if self.checksum_algorithm != checksum_algorithm {
            Some(
                "unsupported checksum algorithm: "@ + text::decimal(
                    self.checksum_algorithm as nat,
                ),
            )
        } else {
            None
        }
    }

    pub fn ensure_compatible(&self, max_log_format_version: u8, checksum_algorithm: u8) -> (r:
        Result<(), String>)
        ensures
            match self.incompatible(max_log_format_version, checksum_algorithm) {
                Some(message) => r matches Err(e) && e@ == message,
                None => r is Ok,
            },
    {
        if self.log_format_version > max_log_format_version {
            return Err(
                text::with_number(
                    "unsupported log format version: ",
                    self.log_format_version as u64,
                ),
            );
        }
        if self.checksum_algorithm != checksum_algorithm {
            return Err(
                text::with_number(
                    "unsupported checksum algorithm: ",
                    self.checksum_algorithm as u64,
                ),
            );
        }
        Ok(())
    }
}

impl Default for Header {
    fn default() -> (r: Self)
        ensures
            r == Self::current(),
    {
        Self {
            log_format_version: DEFAULT_LOG_FORMAT_VERSION,
            checksum_algorithm: DEFAULT_CHECKSUM_ALGORITHM,
        }
    }
}

/// Reading what was written of a header gives back the header.
pub proof fn law_header_roundtrip(header: Header, rest: Seq<u8>)
    ensures
        header.bytes().len() == Header::LEN,
        Header::first_in(header.bytes() + rest) == Some(header),
{
    assert((header.bytes() + rest).take(6) =~= magic());
}

/// Metadata about a commit which was successfully written via
/// [Writer::commit].
#[derive(Debug, PartialEq)]
pub struct Committed {
    /// The range of transaction offsets included in the commit.
    pub tx_range: Range<u64>,
    /// The CRC-32C checksum of the commit's serialized form, as written to the
    /// log.
    pub checksum: u32,
}

/// How a [Writer] starts.
pub struct WriterParams {
    pub epoch: u64,
    pub min_tx_offset: u64,
    pub next_tx_offset: u64,
    pub bytes_written: u64,
    pub flush_buffer: u64,
}

impl Default for WriterParams {
    fn default() -> (r: Self)
        ensures
            r == (WriterParams {
                epoch: 0,
                min_tx_offset: 0,
                next_tx_offset: 0,
                bytes_written: 0,
                flush_buffer: 4096,
            }),
    {
        Self {
            epoch: 0,
            min_tx_offset: 0,
            next_tx_offset: 0,
            bytes_written: 0,
            flush_buffer: 4096,
        }
    }
}

/// Pair of transaction offset and payload.
///
/// Created by iterators which "flatten" commits into individual transaction
/// records.
#[derive(Debug, PartialEq)]
pub struct Transaction<T> {
    /// The offset of this transaction relative to the start of the log.
    pub offset: u64,
    /// The transaction payload.
    pub txdata: T,
}

impl<T> From<(u64, T)> for Transaction<T> {
    fn from(pair: (u64, T)) -> (r: Self) {
        let (offset, txdata) = pair;
        Self { offset, txdata }
    }
}

impl<T> vstd::std_specs::convert::FromSpecImpl<(u64, T)> for Transaction<T> {
    open spec fn obeys_from_spec() -> bool {
        true
    }

    open spec fn from_spec(pair: (u64, T)) -> Self {
        Transaction { offset: pair.0, txdata: pair.1 }
    }
}

} // verus!

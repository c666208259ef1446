//! Commits: sequences of transactions that are written as a unit.

use bytes::BytesMut;
use core::ops::Range;
use vstd::prelude::*;

use crate::commitlog::buffer;
use crate::io::{ByteReader, Error, ErrorKind, ReaderView};
use crate::le;

verus! {

/// The CRC-32C checksum that `crc32c::crc32c` computes.
pub uninterp spec fn crc32c_of(data: Seq<u8>) -> u32;

/// `crc32c::crc32c`: the CRC-32C checksum of `data`, which depends on nothing
/// but `data`.
#[verifier::external_body]
fn crc32c(data: &[u8]) -> (r: u32)
    ensures
        r == crc32c_of(data@),
{
    crc32c::crc32c(data)
}

/// The size of the stored checksum.
pub const CHECKSUM_LEN: usize = 4;

/// The first bytes of a stored commit.
#[derive(Clone, Copy, Debug, PartialEq, Eq, Structural)]
pub struct Header {
    pub min_tx_offset: u64,
    pub epoch: u64,
    pub n: u16,
    pub len: u32,
}

/// The size of a header in the given version of the log format. The first
/// version has no epoch.
pub open spec fn header_len(version: u8) -> nat {
    if version == 0 {
        14
    } else {
        22
    }
}

pub open spec fn all_zeros(s: Seq<u8>) -> bool {
    forall|i: int| 0 <= i < s.len() ==> #[trigger] s[i] == 0
}

impl Header {
    /// The size of a stored header.
    pub const LEN: usize = 22;

    /// The stored form of a header.
    pub open spec fn bytes(self) -> Seq<u8> {
        le::le_bytes(self.min_tx_offset as nat, 8) + le::le_bytes(self.epoch as nat, 8)
            + le::le_bytes(self.n as nat, 2) + le::le_bytes(self.len as nat, 4)
    }

    /// What the bytes of a header in the given version stand for.
    pub open spec fn of_bytes(s: Seq<u8>, version: u8) -> Self {
        if version == 0 {
            Header {
                min_tx_offset: le::le_value(s.subrange(0, 8)) as u64,
                epoch: Commit::default_epoch(),
                n: le::le_value(s.subrange(8, 10)) as u16,
                len: le::le_value(s.subrange(10, 14)) as u32,
            }
        } else {
            Header {
                min_tx_offset: le::le_value(s.subrange(0, 8)) as u64,
                epoch: le::le_value(s.subrange(8, 16)) as u64,
                n: le::le_value(s.subrange(16, 18)) as u16,
                len: le::le_value(s.subrange(18, 22)) as u32,
            }
        }
    }

    /// The header that `s` starts with. There is none where `s` is too short,
    /// and where all of its bytes are zero, so that segments can be
    /// preallocated.
    pub open spec fn first_in(s: Seq<u8>, version: u8) -> Option<Self> {
        let n = header_len(version);
        if s.len() < n || all_zeros(s.take(n as int)) {
            None
        } else {
            Some(Self::of_bytes(s.take(n as int), version))
        }
    }

    /// The state of a reader after looking for a header.
    pub open spec fn after(reader: ReaderView, version: u8) -> ReaderView {
        if reader.rest().len() < header_len(version) {
            reader.drained()
        } else {
            reader.advanced(header_len(version) as int)
        }
    }

    /// The bytes of a header stand for the header.
    pub proof fn lemma_of_bytes(self)
        ensures
            self.bytes().len() == 22,
            Self::of_bytes(self.bytes(), 1) == self,
    {
        le::lemma_le_bounds();
        le::lemma_le_bytes_len(self.min_tx_offset as nat, 8);
        le::lemma_le_bytes_len(self.epoch as nat, 8);
        le::lemma_le_bytes_len(self.n as nat, 2);
        le::lemma_le_bytes_len(self.len as nat, 4);
        le::lemma_le_value_of_bytes(self.min_tx_offset as nat, 8);
        le::lemma_le_value_of_bytes(self.epoch as nat, 8);
        le::lemma_le_value_of_bytes(self.n as nat, 2);
        le::lemma_le_value_of_bytes(self.len as nat, 4);
        let s = self.bytes();
        assert(s.subrange(0, 8) =~= le::le_bytes(self.min_tx_offset as nat, 8));
        assert(s.subrange(8, 16) =~= le::le_bytes(self.epoch as nat, 8));
        assert(s.subrange(16, 18) =~= le::le_bytes(self.n as nat, 2));
        assert(s.subrange(18, 22) =~= le::le_bytes(self.len as nat, 4));
    }

    /// Reads a header in the current version of the log format.
    ///
    /// Returns `None` if there are too few bytes, or if the bytes are all zero.
    pub fn decode(reader: &mut ByteReader) -> (r: Option<Self>)
        ensures
            r == Self::first_in(old(reader)@.rest(), 1),
            final(reader)@ == Self::after(old(reader)@, 1),
    {
        match Self::decode_internal(reader, 1) {
            Some((header, _)) => Some(header),
            None => None,
        }
    }

    /// Reads a header, and gives its bytes too.
    fn decode_internal(reader: &mut ByteReader, version: u8) -> (r: Option<(Self, Vec<u8>)>)
        ensures
            match r {
                Some((header, bytes)) => {
                    &&& Self::first_in(old(reader)@.rest(), version) == Some(header)
                    &&& bytes@ == old(reader)@.rest().take(header_len(version) as int)
                },
                None => Self::first_in(old(reader)@.rest(), version) is None,
            },
            final(reader)@ == Self::after(old(reader)@, version),
    {
        let n: usize = if version == 0 {
            Self::LEN - 8
        } else {
            Self::LEN
        };
        let bytes = match reader.read_exact(n) {
            Ok(bytes) => bytes,
            Err(_) => {
                return None;
            },
        };
        let mut zeros = true;
        let mut i: usize = 0;
        while i < n && zeros
            invariant
                i <= n == bytes@.len(),
                zeros ==> forall|j: int| 0 <= j < i ==> #[trigger] bytes@[j] == 0,
                !zeros ==> !all_zeros(bytes@),
            decreases
                n - i,
                if zeros {
                    1int
                } else {
                    0int
                },
        {
            if bytes[i] != 0 {
                assert(bytes@[i as int] != 0);
                zeros = false;
            } else {
                i += 1;
            }
        }
        if zeros {
            return None;
        }
        let s = bytes.as_slice();
        let header = if version == 0 {
            Header {
                min_tx_offset: le::read_u64(s, 0),
                epoch: Commit::DEFAULT_EPOCH,
                n: le::read_u16(s, 8),
                len: le::read_u32(s, 10),
            }
        } else {
            Header {
                min_tx_offset: le::read_u64(s, 0),
                epoch: le::read_u64(s, 8),
                n: le::read_u16(s, 16),
                len: le::read_u32(s, 18),
            }
        };
        Some((header, bytes))
    }
}

/// A commit that is to be written.
#[derive(Debug, Eq, PartialEq)]
pub struct Commit {
    /// The offset of the first transaction.
    pub min_tx_offset: u64,
    /// The epoch within which the commit was created.
    pub epoch: u64,
    /// The number of transactions.
    pub n: u16,
    /// The encoded transactions.
    pub records: Vec<u8>,
}

/// What a commit consists of.
#[verifier::ext_equal]
pub struct CommitView {
    pub min_tx_offset: u64,
    pub epoch: u64,
    pub n: u16,
    pub records: Seq<u8>,
}

impl CommitView {
    pub open spec fn header(self) -> Header {
        Header {
            min_tx_offset: self.min_tx_offset,
            epoch: self.epoch,
            n: self.n,
            len: self.records.len() as u32,
        }
    }

    /// The part of the stored form that the checksum is computed of.
    pub open spec fn body(self) -> Seq<u8> {
        self.header().bytes() + self.records
    }

    pub open spec fn checksum(self) -> u32 {
        crc32c_of(self.body())
    }

    /// The stored form: header, records and checksum.
    pub open spec fn bytes(self) -> Seq<u8> {
        self.body() + le::le_bytes(self.checksum() as nat, 4)
    }

    /// The offset after that of the last transaction.
    pub open spec fn end(self) -> u64 {
        self.min_tx_offset.wrapping_add(self.n as u64)
    }

    pub open spec fn encoded_len(self) -> nat {
        26 + self.records.len()
    }
}

impl View for Commit {
    type V = CommitView;

    open spec fn view(&self) -> CommitView {
        CommitView {
            min_tx_offset: self.min_tx_offset,
            epoch: self.epoch,
            n: self.n,
            records: self.records@,
        }
    }
}

impl Commit {
    pub const DEFAULT_EPOCH: u64 = 0;

    /// The size of a stored commit without records.
    pub const FRAMING_LEN: usize = 26;

    pub const CHECKSUM_ALGORITHM: u8 = 0;

    pub open spec fn default_epoch() -> u64 {
        0
    }

    /// The range of transaction offsets.
    pub fn tx_range(&self) -> (r: Range<u64>)
        ensures
            r.start == self.min_tx_offset,
            r.end == self@.end(),
    {
        Range { start: self.min_tx_offset, end: self.min_tx_offset.wrapping_add(self.n as u64) }
    }

    /// The size of the stored form.
    pub fn encoded_len(&self) -> (r: usize)
        requires
            self.records@.len() <= u32::MAX,
            self@.encoded_len() <= usize::MAX,
        ensures
            r == self@.encoded_len(),
    {
        Self::FRAMING_LEN + self.records.len()
    }

    /// Appends the stored form to `buf`, and returns the checksum.
    pub fn encode(&self, buf: &mut BytesMut) -> (r: u32)
        requires
            self.records@.len() <= u32::MAX,
            buffer::contents(*old(buf)).len() + self@.encoded_len() <= isize::MAX,
        ensures
            buffer::contents(*final(buf)) == buffer::contents(*old(buf)) + self@.bytes(),
            r == self@.checksum(),
    {
        let mut body: Vec<u8> = Vec::new();
        le::put_slice(&mut body, le::u64_to_le(self.min_tx_offset).as_slice());
        le::put_slice(&mut body, le::u64_to_le(self.epoch).as_slice());
        le::put_slice(&mut body, le::u16_to_le(self.n).as_slice());
        le::put_slice(&mut body, le::u32_to_le(self.records.len() as u32).as_slice());
        assert(body@ =~= self@.header().bytes());
        le::put_slice(&mut body, self.records.as_slice());
        let checksum = crc32c(body.as_slice());
        proof {
            self@.lemma_bytes_len();
        }
        buffer::extend_buffer(buf, body.as_slice());
        buffer::extend_buffer(buf, le::u32_to_le(checksum).as_slice());
        assert(buffer::contents(*buf) =~= buffer::contents(*old(buf)) + self@.bytes());
        checksum
    }
}

impl CommitView {
    pub proof fn lemma_bytes_len(self)
        ensures
            self.body().len() == 22 + self.records.len(),
            self.bytes().len() == self.encoded_len(),
    {
        self.header().lemma_of_bytes();
        le::lemma_le_bytes_len(self.checksum() as nat, 4);
    }
}

/// A commit that was read.
#[derive(Debug, Eq, PartialEq)]
pub struct StoredCommit {
    /// The offset of the first transaction.
    pub min_tx_offset: u64,
    /// The epoch within which the commit was created.
    pub epoch: u64,
    /// The number of transactions.
    pub n: u16,
    /// The encoded transactions.
    pub records: Vec<u8>,
    /// The checksum of the commit.
    pub checksum: u32,
}

impl StoredCommit {
    /// The commit without its checksum.
    pub open spec fn commit(self) -> CommitView {
        CommitView {
            min_tx_offset: self.min_tx_offset,
            epoch: self.epoch,
            n: self.n,
            records: self.records@,
        }
    }
}

/// What comes of reading a commit.
pub enum Decoded {
    /// There is no commit: the bytes are at their end, or are zero.
    End,
    /// There are fewer bytes than the header says.
    Truncated,
    /// The checksum is not that of the commit.
    Mismatch,
    /// A commit, and its checksum.
    Commit(CommitView, u32),
}

/// What the commit that `s` starts with is.
pub open spec fn decoded(s: Seq<u8>, version: u8) -> Decoded {
    match Header::first_in(s, version) {
        None => Decoded::End,
        Some(header) => {
            let n = header_len(version) + header.len;
            if s.len() < n + 4 {
                Decoded::Truncated
            } else {
                let checksum = le::le_value(s.subrange(n as int, n + 4)) as u32;
                if crc32c_of(s.take(n as int)) != checksum {
                    Decoded::Mismatch
                } else {
                    Decoded::Commit(
                        CommitView {
                            min_tx_offset: header.min_tx_offset,
                            epoch: header.epoch,
                            n: header.n,
                            records: s.subrange(header_len(version) as int, n as int),
                        },
                        checksum,
                    )
                }
            }
        },
    }
}

/// The state of a reader after reading a commit.
pub open spec fn after_commit(reader: ReaderView, version: u8) -> ReaderView {
    match Header::first_in(reader.rest(), version) {
        None => Header::after(reader, version),
        Some(header) => {
            let n = header_len(version) + header.len + 4;
            if reader.rest().len() < n {
                reader.drained()
            } else {
                reader.advanced(n)
            }
        },
    }
}

impl StoredCommit {
    /// The result of reading a commit.
    pub open spec fn outcome(d: Decoded, r: Result<Option<StoredCommit>, Error>) -> bool {
        match d {
            Decoded::End => r == Ok::<Option<StoredCommit>, Error>(None),
            Decoded::Truncated => {
                &&& r matches Err(e)
                &&& e.is(ErrorKind::UnexpectedEof, "failed to fill whole buffer"@)
            },
            Decoded::Mismatch => {
                &&& r matches Err(e)
                &&& e.is(ErrorKind::InvalidData, "commit checksum mismatch"@)
            },
            Decoded::Commit(commit, checksum) => {
                &&& r matches Ok(Some(stored))
                &&& stored.commit() == commit
                &&& stored.checksum == checksum
            },
        }
    }

    /// Reads a commit in the current version of the log format.
    pub fn decode(reader: &mut ByteReader) -> (r: Result<Option<Self>, Error>)
        ensures
            Self::outcome(decoded(old(reader)@.rest(), 1), r),
            final(reader)@ == after_commit(old(reader)@, 1),
    {
        Self::decode_internal(reader, 1)
    }

    /// Reads a commit.
    ///
    /// Returns `None` if there is none, see [Header::decode].
    pub fn decode_internal(reader: &mut ByteReader, log_format_version: u8) -> (r: Result<
        Option<Self>,
        Error,
    >)
        ensures
            Self::outcome(decoded(old(reader)@.rest(), log_format_version), r),
            final(reader)@ == after_commit(old(reader)@, log_format_version),
    {
        let ghost s = reader@.rest();
        let ghost h = header_len(log_format_version);
        proof {
            reader.lemma_pos();
        }
        let (header, mut body) = match Header::decode_internal(reader, log_format_version) {
            Some(decoded) => decoded,
            None => {
                return Ok(None);
            },
        };
        let ghost n = h + header.len;
        assert(reader@.rest() =~= s.skip(h as int));
        let records = match reader.read_exact(header.len as usize) {
            Ok(records) => records,
            Err(e) => {
                return Err(e);
            },
        };
        assert(records@ =~= s.subrange(h as int, n as int));
        assert(reader@.rest() =~= s.skip(n as int));
        let stored = match reader.read_exact(CHECKSUM_LEN) {
            Ok(stored) => stored,
            Err(e) => {
                return Err(e);
            },
        };
        let checksum = le::read_u32(stored.as_slice(), 0);
        assert(stored@.subrange(0, 4) =~= s.subrange(n as int, n + 4));
        le::put_slice(&mut body, records.as_slice());
        assert(body@ =~= s.take(n as int));
        if crc32c(body.as_slice()) != checksum {
            return Err(Error::from_text(ErrorKind::InvalidData, "commit checksum mismatch"));
        }
        Ok(
            Some(
                StoredCommit {
                    min_tx_offset: header.min_tx_offset,
                    epoch: header.epoch,
                    n: header.n,
                    records,
                    checksum,
                },
            ),
        )
    }

    /// The range of transaction offsets.
    pub fn tx_range(&self) -> (r: Range<u64>)
        ensures
            r.start == self.min_tx_offset,
            r.end == self.commit().end(),
    {
        Range { start: self.min_tx_offset, end: self.min_tx_offset.wrapping_add(self.n as u64) }
    }

    /// The commit without its checksum.
    pub fn into_commit(self) -> (r: Commit)
        ensures
            r@ == self.commit(),
    {
        Commit {
            min_tx_offset: self.min_tx_offset,
            epoch: self.epoch,
            n: self.n,
            records: self.records,
        }
    }
}

/// What is known of a commit in storage.
#[derive(Debug, Eq, PartialEq)]
pub struct Metadata {
    pub tx_range: Range<u64>,
    pub size_in_bytes: u64,
    pub epoch: u64,
    pub checksum: u32,
}

impl Clone for Metadata {
    fn clone(&self) -> (r: Self)
        ensures
            r == *self,
    {
        Metadata {
            tx_range: Range { start: self.tx_range.start, end: self.tx_range.end },
            size_in_bytes: self.size_in_bytes,
            epoch: self.epoch,
            checksum: self.checksum,
        }
    }
}

/// [Metadata] in contracts.
#[verifier::ext_equal]
pub struct MetadataView {
    pub start: u64,
    pub end: u64,
    pub size_in_bytes: nat,
    pub epoch: u64,
    pub checksum: u32,
}

impl View for Metadata {
    type V = MetadataView;

    open spec fn view(&self) -> MetadataView {
        MetadataView {
            start: self.tx_range.start,
            end: self.tx_range.end,
            size_in_bytes: self.size_in_bytes as nat,
            epoch: self.epoch,
            checksum: self.checksum,
        }
    }
}

impl MetadataView {
    pub open spec fn of(commit: CommitView, checksum: u32) -> Self {
        MetadataView {
            start: commit.min_tx_offset,
            end: commit.end(),
            size_in_bytes: commit.encoded_len(),
            epoch: commit.epoch,
            checksum,
        }
    }
}

impl Metadata {
    /// The result of reading the metadata of a commit.
    pub open spec fn outcome(d: Decoded, r: Result<Option<Metadata>, Error>) -> bool {
        match d {
            Decoded::End => r == Ok::<Option<Metadata>, Error>(None),
            Decoded::Truncated => {
                &&& r matches Err(e)
                &&& e.is(ErrorKind::UnexpectedEof, "failed to fill whole buffer"@)
            },
            Decoded::Mismatch => {
                &&& r matches Err(e)
                &&& e.is(ErrorKind::InvalidData, "commit checksum mismatch"@)
            },
            Decoded::Commit(commit, checksum) => {
                &&& r matches Ok(Some(meta))
                &&& meta@ == MetadataView::of(commit, checksum)
            },
        }
    }

    /// Reads the metadata of a single commit.
    ///
    /// The commit is decoded, so that its checksum is verified. Returns `None`
    /// if there is no commit, see [Header::decode].
    pub fn extract(reader: &mut ByteReader) -> (r: Result<Option<Self>, Error>)
        ensures
            Self::outcome(decoded(old(reader)@.rest(), 1), r),
            final(reader)@ == after_commit(old(reader)@, 1),
    {
        match StoredCommit::decode(reader) {
            Ok(Some(commit)) => {
                let len = commit.records.len();
                proof {
                    lemma_decoded(old(reader)@.rest(), 1);
                }
                Ok(
                    Some(
                        Metadata {
                            tx_range: commit.tx_range(),
                            size_in_bytes: Commit::FRAMING_LEN as u64 + len as u64,
                            epoch: commit.epoch,
                            checksum: commit.checksum,
                        },
                    ),
                )
            },
            Ok(None) => Ok(None),
            Err(e) => Err(e),
        }
    }
}

/// A commit in the current version of the log format is as long as its
/// encoding.
pub proof fn lemma_decoded(s: Seq<u8>, version: u8)
    ensures
        decoded(s, version) matches Decoded::Commit(commit, checksum) ==> commit.records.len()
            <= u32::MAX && header_len(version) + commit.records.len() + 4 <= s.len(),
{
}

/// Reading bytes that start with the stored form of a commit gives the commit
/// and its checksum.
pub proof fn law_decode_gives_back_encoded_commit(commit: CommitView, rest: Seq<u8>)
    requires
        commit.n > 0,
        commit.records.len() <= u32::MAX,
    ensures
        decoded(commit.bytes() + rest, 1) == Decoded::Commit(commit, commit.checksum()),
{
    let s = commit.bytes() + rest;
    let header = commit.header();
    commit.lemma_bytes_len();
    header.lemma_of_bytes();
    assert(s.take(22) =~= header.bytes());
    assert(!all_zeros(header.bytes())) by {
        if all_zeros(header.bytes()) {
            lemma_zeros_are_zero(header);
        }
    }
    let n: int = 22 + commit.records.len() as int;
    assert(s.take(n) =~= commit.body());
    assert(s.subrange(n, n + 4) =~= le::le_bytes(commit.checksum() as nat, 4));
    le::lemma_le_bounds();
    le::lemma_le_value_of_bytes(commit.checksum() as nat, 4);
    assert(s.subrange(22, n) =~= commit.records);
}

proof fn lemma_zeros_are_zero(header: Header)
    requires
        all_zeros(header.bytes()),
    ensures
        header.n == 0,
{
    header.lemma_of_bytes();
    let z = Header { min_tx_offset: 0, epoch: 0, n: 0, len: 0 };
    z.lemma_of_bytes();
    lemma_zero_bytes(8);
    lemma_zero_bytes(2);
    lemma_zero_bytes(4);
    assert(z.bytes() =~= header.bytes());
}

proof fn lemma_zero_bytes(n: nat)
    ensures
        le::le_bytes(0, n).len() == n,
        all_zeros(le::le_bytes(0, n)),
    decreases n,
{
    if n > 0 {
        lemma_zero_bytes((n - 1) as nat);
    }
}

} // verus!

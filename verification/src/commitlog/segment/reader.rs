//! Reading from a segment.

use vstd::prelude::*;

use crate::commitlog::commit;
use crate::commitlog::commit::{Commit, CommitView, Decoded, StoredCommit};
use crate::commitlog::index;
use crate::commitlog::index::{Entry, IndexError, TxOffsetIndex};
use crate::commitlog::payload::{Decoder, RecordView};
use crate::commitlog::segment::metadata;
use crate::commitlog::segment::metadata::{Metadata, SegmentMetadata};
use crate::commitlog::segment::{Header, Transaction};
use crate::io::{ByteReader, Error, ErrorKind, ReaderView};

verus! {

/// Reads a segment.
#[derive(Debug)]
pub struct Reader {
    pub header: Header,
    pub min_tx_offset: u64,
    pub inner: ByteReader,
}

impl Reader {
    /// Reads the header of a segment.
    pub fn new(max_log_format_version: u8, min_tx_offset: u64, inner: ByteReader) -> (r: Result<
        Self,
        Error,
    >)
        ensures
            ({
                let s = inner@.rest();
                let header = Header::first_in(s);
                if s.len() < Header::LEN {
                    &&& r matches Err(e)
                    &&& e.is(ErrorKind::UnexpectedEof, "failed to fill whole buffer"@)
                } else if header is None {
                    &&& r matches Err(e)
                    &&& e.is(ErrorKind::InvalidData, "segment header does not start with magic"@)
                } else {
                    match header->0.incompatible(
                        max_log_format_version,
                        Commit::CHECKSUM_ALGORITHM,
                    ) {
                        Some(message) => {
                            &&& r matches Err(e)
                            &&& e.is(ErrorKind::InvalidData, message)
                        },
                        None => {
                            &&& r matches Ok(reader)
                            &&& reader.header == header->0
                            &&& reader.min_tx_offset == min_tx_offset
                            &&& reader.inner@ == inner@.advanced(10)
                        },
                    }
                }
            }),
    {
        let mut inner = inner;
        let header = match Header::decode(&mut inner) {
            Ok(header) => header,
            Err(e) => {
                return Err(e);
            },
        };
        match header.ensure_compatible(max_log_format_version, Commit::CHECKSUM_ALGORITHM) {
            Ok(()) => {},
            Err(message) => {
                return Err(Error::new(ErrorKind::InvalidData, message));
            },
        }
        Ok(Self { header, min_tx_offset, inner })
    }

    /// The commits of the segment.
    pub fn commits(self) -> (r: Commits)
        ensures
            r.header == self.header,
            r.reader@ == self.inner@,
    {
        Commits { header: self.header, reader: self.inner }
    }

    /// Advances to the commit that contains `start_tx_offset`, or to one before
    /// it, see [seek_to_offset].
    pub fn seek_to_offset(&mut self, index_file: &TxOffsetIndex, start_tx_offset: u64) -> (r:
        Result<u64, IndexError>)
        requires
            index_file.wf(),
        ensures
            sought(old(self).inner@, index_file@, start_tx_offset, r, final(self).inner@),
            final(self).header == old(self).header,
            final(self).min_tx_offset == old(self).min_tx_offset,
    {
        seek_to_offset(&mut self.inner, index_file, start_tx_offset)
    }

    /// The transactions of the segment, whose payloads `de` decodes.
    pub fn transactions<D: Decoder>(self, de: &D) -> (r: Result<
        Vec<Transaction<D::Record>>,
        Error,
    >)
        ensures
            match transactions_in(*de, self.inner@.rest(), self.header.log_format_version) {
                Ok(all) => {
                    &&& r matches Ok(transactions)
                    &&& transactions_view(transactions@) == all
                },
                Err(unread) => {
                    &&& r matches Err(e)
                    &&& unread.outcome(*de, self.header.log_format_version, e)
                },
            },
    {
        let version = self.header.log_format_version;
        let ghost s = self.inner@.rest();
        let mut commits = self.commits().with_log_format_version();
        let mut out: Vec<Transaction<D::Record>> = Vec::new();
        assert(transactions_view(out@) =~= Seq::empty());
        proof {
            lemma_prepend_nothing(transactions_in(*de, s, version));
        }
        loop
            invariant
                s == self.inner@.rest(),
                version == self.header.log_format_version,
                transactions_in(*de, s, version) == prepended(
                    transactions_view(out@),
                    transactions_in(*de, commits@.rest(), version),
                ),
                commits.version() == version,
            decreases commits@.rest().len(),
        {
            let ghost rest = commits@.rest();
            let ghost before = transactions_view(out@);
            proof {
                commits.lemma_pos();
                commit::lemma_decoded(rest, version);
            }
            let next = commits.next();
            match next {
                None => {
                    assert(before + Seq::empty() =~= before);
                    return Ok(out);
                },
                Some(Err(e)) => {
                    return Err(e);
                },
                Some(Ok((_, stored))) => {
                    let ghost c = stored.commit();
                    let ghost n = (commit::header_len(version) + c.records.len() + 4) as int;
                    assert(commits@.rest() =~= rest.skip(n));
                    match split(de, version, stored, &mut out) {
                        Ok(()) => {},
                        Err(e) => {
                            return Err(e);
                        },
                    }
                    proof {
                        lemma_prepend_twice(
                            before,
                            transactions_of(*de, version, c)->Ok_0,
                            transactions_in(*de, rest.skip(n), version),
                        );
                    }
                },
            }
        }
    }

    /// The metadata of the segment.
    pub fn metadata(self) -> (r: Result<Metadata, SegmentMetadata>)
        ensures
            metadata::outcome(
                metadata::scan(
                    self.inner@.bytes,
                    metadata::fresh(self.min_tx_offset, self.header),
                ),
                r,
            ),
    {
        Metadata::with_header(self.min_tx_offset, self.header, self.inner, None)
    }
}

/// A transaction and what its payload stands for.
#[verifier::ext_equal]
pub struct TransactionView<V> {
    pub offset: u64,
    pub txdata: V,
}

pub open spec fn transactions_view<R: View>(transactions: Seq<Transaction<R>>) -> Seq<
    TransactionView<R::V>,
> {
    Seq::new(
        transactions.len(),
        |i: int| TransactionView { offset: transactions[i].offset, txdata: transactions[i].txdata@ },
    )
}

/// Why transactions cannot be read.
pub enum Unread {
    /// A commit cannot be read.
    Commit(Decoded),
    /// The payload of the transaction at `tx_offset` cannot be decoded from
    /// `rest`.
    Record { tx_offset: u64, rest: Seq<u8> },
}

impl Unread {
    /// Whether `e` says why.
    pub open spec fn outcome<D: Decoder>(self, de: D, version: u8, e: Error) -> bool {
        match self {
            Unread::Commit(decoded) => StoredCommit::outcome(decoded, Err(e)),
            Unread::Record { tx_offset, rest } => de.refuses(version, tx_offset, rest, e),
        }
    }
}

pub open spec fn prepended<V>(
    first: Seq<TransactionView<V>>,
    rest: Result<Seq<TransactionView<V>>, Unread>,
) -> Result<Seq<TransactionView<V>>, Unread> {
    match rest {
        Ok(rest) => Ok(first + rest),
        Err(unread) => Err(unread),
    }
}

proof fn lemma_prepend_nothing<V>(rest: Result<Seq<TransactionView<V>>, Unread>)
    ensures
        prepended(Seq::empty(), rest) == rest,
{
    if rest is Ok {
        assert(Seq::empty() + rest->Ok_0 =~= rest->Ok_0);
    }
}

proof fn lemma_prepend_twice<V>(
    a: Seq<TransactionView<V>>,
    b: Seq<TransactionView<V>>,
    rest: Result<Seq<TransactionView<V>>, Unread>,
)
    ensures
        prepended(a, prepended(b, rest)) == prepended(a + b, rest),
{
    if rest is Ok {
        assert(a + (b + rest->Ok_0) =~= (a + b) + rest->Ok_0);
    }
}

/// The transactions with the offsets from `offset` up to `end`, whose payloads
/// stand in `s` one after the other.
pub open spec fn payloads_in<D: Decoder>(
    de: D,
    version: u8,
    offset: int,
    end: int,
    s: Seq<u8>,
) -> Result<Seq<TransactionView<RecordView<D>>>, Unread>
    decreases end - offset,
{
    if offset >= end {
        Ok(Seq::empty())
    } else {
        match de.decoded(version, offset as u64, s) {
            None => Err(Unread::Record { tx_offset: offset as u64, rest: s }),
            Some((record, n)) => prepended(
                seq![TransactionView { offset: offset as u64, txdata: record }],
                payloads_in(de, version, offset + 1, end, s.skip(n as int)),
            ),
        }
    }
}

/// The transactions of a commit.
pub open spec fn transactions_of<D: Decoder>(de: D, version: u8, commit: CommitView) -> Result<
    Seq<TransactionView<RecordView<D>>>,
    Unread,
> {
    payloads_in(de, version, commit.min_tx_offset as int, commit.end() as int, commit.records)
}

/// The transactions of the commits that stand in `s`, or why a commit or a
/// transaction cannot be read.
pub open spec fn transactions_in<D: Decoder>(de: D, s: Seq<u8>, version: u8) -> Result<
    Seq<TransactionView<RecordView<D>>>,
    Unread,
>
    decreases s.len(),
{
    match commit::decoded(s, version) {
        Decoded::End => Ok(Seq::empty()),
        Decoded::Commit(c, _) => {
            let n = commit::header_len(version) + c.records.len() + 4;
            match transactions_of(de, version, c) {
                Ok(first) => {
                    proof {
                        commit::lemma_decoded(s, version);
                    }
                    prepended(first, transactions_in(de, s.skip(n as int), version))
                },
                Err(unread) => Err(unread),
            }
        },
        unreadable => Err(Unread::Commit(unreadable)),
    }
}

/// Appends the transactions of a commit to `out`.
fn split<D: Decoder>(
    de: &D,
    version: u8,
    stored: StoredCommit,
    out: &mut Vec<Transaction<D::Record>>,
) -> (r: Result<(), Error>)
    ensures
        match transactions_of(*de, version, stored.commit()) {
            Ok(all) => r is Ok && transactions_view(final(out)@) == transactions_view(old(out)@)
                + all,
            Err(unread) => {
                &&& r matches Err(e)
                &&& unread.outcome(*de, version, e)
            },
        },
{
    let range = stored.tx_range();
    let ghost c = stored.commit();
    let ghost before = transactions_view(out@);
    let ghost all = transactions_of(*de, version, c);
    let end = range.end;
    let mut offset: u64 = range.start;
    let mut records = ByteReader::new(stored.records);
    assert(records@.rest() =~= c.records);
    assert(before + Seq::empty() =~= before);
    let ghost mut read: Seq<TransactionView<RecordView<D>>> = Seq::empty();
    proof {
        lemma_prepend_nothing(all);
    }
    while offset < end
        invariant
            all == prepended(
                read,
                payloads_in(*de, version, offset as int, end as int, records@.rest()),
            ),
            all == transactions_of(*de, version, stored.commit()),
            before == transactions_view(old(out)@),
            transactions_view(out@) == before + read,
        decreases end - offset,
    {
        let ghost rest = records@.rest();
        let ghost taken = out@;
        let txdata = match de.decode_record(version, offset, &mut records) {
            Ok(txdata) => txdata,
            Err(e) => {
                return Err(e);
            },
        };
        proof {
            let next = TransactionView { offset, txdata: txdata@ };
            lemma_prepend_twice(
                read,
                seq![next],
                payloads_in(*de, version, offset + 1, end as int, records@.rest()),
            );
            read = read + seq![next];
        }
        out.push(Transaction { offset, txdata });
        assert(transactions_view(out@) =~= transactions_view(taken).push(
            TransactionView { offset, txdata: txdata@ },
        ));
        assert(transactions_view(out@) =~= before + read);
        offset += 1;
    }
    assert(read + Seq::empty() =~= read);
    Ok(())
}

/// The header of the commit at `byte_offset`.
pub open spec fn header_at(bytes: Seq<u8>, byte_offset: u64) -> Option<commit::Header> {
    commit::Header::first_in((ReaderView { bytes, pos: byte_offset as int }).rest(), 1)
}

/// What seeking does: the index gives the position of a commit, which must
/// start with the key.
pub open spec fn sought(
    before: ReaderView,
    entries: Seq<Entry>,
    start_tx_offset: u64,
    r: Result<u64, IndexError>,
    after: ReaderView,
) -> bool {
    match index::lookup(entries, start_tx_offset) {
        None => r == Err::<u64, IndexError>(IndexError::KeyNotFound) && after == before,
        Some(entry) => match header_at(before.bytes, entry.value) {
            None => {
                &&& r matches Err(IndexError::Io(e))
                &&& e.is(ErrorKind::UnexpectedEof, "unexpected EOF"@)
                &&& after == before
            },
            Some(header) => if header.min_tx_offset == entry.key {
                r == Ok::<u64, IndexError>(entry.value) && after == before.at(entry.value as int)
            } else {
                &&& r matches Err(IndexError::Io(e))
                &&& e.is(ErrorKind::InvalidData, "mismatched key in offset index file"@)
                &&& after == before
            },
        },
    }
}

/// Advances the `segment` reader to the position corresponding to the
/// `start_tx_offset` using the `index_file` for efficient seeking.
///
/// Input:
/// - `segment` - segment reader
/// - `start_tx_offset` - transaction offset to advance to
///
/// Returns the byte position `segment` is at after seeking.
pub fn seek_to_offset(segment: &mut ByteReader, index_file: &TxOffsetIndex, start_tx_offset: u64) -> (r:
    Result<u64, IndexError>)
    requires
        index_file.wf(),
    ensures
        sought(old(segment)@, index_file@, start_tx_offset, r, final(segment)@),
{
    let (index_key, byte_offset) = match index_file.key_lookup(start_tx_offset) {
        Ok(found) => found,
        Err(e) => {
            return Err(e);
        },
    };
    proof {
        index::law_lookup_finds_the_largest_key_below(index_file@, start_tx_offset);
    }
    // If the index_key is 0, it means the index file is empty, return error
    // without seeking
    if index_key == 0 {
        return Err(IndexError::KeyNotFound);
    }
    // Check if the offset index is pointing to the right commit.
    let hdr = match validate_commit_header(segment, byte_offset) {
        Ok(hdr) => hdr,
        Err(e) => {
            return Err(IndexError::Io(e));
        },
    };
    if hdr.min_tx_offset == index_key {
        // Advance the segment if expected commit is found.
        segment.seek(byte_offset);
        Ok(byte_offset)
    } else {
        Err(
            IndexError::Io(
                Error::from_text(
                    ErrorKind::InvalidData,
                    "mismatched key in offset index file",
                ),
            ),
        )
    }
}

/// Try to extract the commit header from the asked position without advancing
/// the reader. Index entries are made durable asynchronously, which makes it
/// important for a reader to verify them.
pub fn validate_commit_header(reader: &mut ByteReader, byte_offset: u64) -> (r: Result<
    commit::Header,
    Error,
>)
    ensures
        final(reader)@ == old(reader)@,
        match header_at(old(reader)@.bytes, byte_offset) {
            Some(header) => r == Ok::<commit::Header, Error>(header),
            None => {
                &&& r matches Err(e)
                &&& e.is(ErrorKind::UnexpectedEof, "unexpected EOF"@)
            },
        },
{
    let pos = reader.stream_position();
    reader.seek(byte_offset);
    let hdr = match commit::Header::decode(reader) {
        Some(hdr) => Ok(hdr),
        None => Err(Error::from_text(ErrorKind::UnexpectedEof, "unexpected EOF")),
    };
    // Restore the original position
    reader.seek(pos);
    hdr
}

/// The commits of a segment, one after the other.
#[derive(Debug)]
pub struct Commits {
    pub header: Header,
    pub reader: ByteReader,
}

/// The result of asking for the next commit.
pub open spec fn next_commit(d: Decoded, r: Option<Result<StoredCommit, Error>>) -> bool {
    match r {
        None => StoredCommit::outcome(d, Ok(None)),
        Some(Ok(stored)) => StoredCommit::outcome(d, Ok(Some(stored))),
        Some(Err(e)) => StoredCommit::outcome(d, Err(e)),
    }
}

impl Commits {
    /// The next commit.
    pub fn next(&mut self) -> (r: Option<Result<StoredCommit, Error>>)
        ensures
            next_commit(
                commit::decoded(old(self).reader@.rest(), old(self).header.log_format_version),
                r,
            ),
            final(self).reader@ == commit::after_commit(
                old(self).reader@,
                old(self).header.log_format_version,
            ),
            final(self).header == old(self).header,
    {
        match StoredCommit::decode_internal(&mut self.reader, self.header.log_format_version) {
            Ok(Some(commit)) => Some(Ok(commit)),
            Ok(None) => None,
            Err(e) => Some(Err(e)),
        }
    }

    /// The commits, each with the version of the log format.
    pub fn with_log_format_version(self) -> (r: CommitsWithVersion)
        ensures
            r@ == self.reader@,
            r.version() == self.header.log_format_version,
    {
        CommitsWithVersion { inner: self }
    }
}

/// The commits of a segment, each with the version of the log format.
#[derive(Debug)]
pub struct CommitsWithVersion {
    inner: Commits,
}

impl View for CommitsWithVersion {
    type V = ReaderView;

    closed spec fn view(&self) -> ReaderView {
        self.inner.reader@
    }
}

impl CommitsWithVersion {
    pub closed spec fn version(self) -> u8 {
        self.inner.header.log_format_version
    }

    /// The position is not negative.
    pub proof fn lemma_pos(self)
        ensures
            0 <= self@.pos,
    {
        self.inner.reader.lemma_pos();
    }

    /// The next commit.
    pub fn next(&mut self) -> (r: Option<Result<(u8, StoredCommit), Error>>)
        ensures
            next_commit(
                commit::decoded(old(self)@.rest(), old(self).version()),
                match r {
                    None => None,
                    Some(Ok((_, stored))) => Some(Ok(stored)),
                    Some(Err(e)) => Some(Err(e)),
                },
            ),
            r matches Some(Ok((version, _))) ==> version == old(self).version(),
            final(self)@ == commit::after_commit(old(self)@, old(self).version()),
            final(self).version() == old(self).version(),
    {
        match self.inner.next() {
            None => None,
            Some(Ok(commit)) => {
                let version = self.inner.header.log_format_version;
                Some(Ok((version, commit)))
            },
            Some(Err(e)) => Some(Err(e)),
        }
    }
}

} // verus!

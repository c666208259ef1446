//! What is known of a segment as a whole.

use core::ops::Range;
use vstd::prelude::*;

use crate::commitlog::commit;
use crate::commitlog::commit::{Decoded, MetadataView};
use crate::commitlog::index;
use crate::commitlog::index::{Entry, TxOffset, TxOffsetIndex};
use crate::commitlog::segment::Header;
use crate::io::{ByteReader, Error, ErrorKind, ReaderView};
use crate::text;

verus! {

/// The metadata of a segment.
#[derive(Debug, Eq, PartialEq)]
pub struct Metadata {
    /// The segment header.
    pub header: Header,
    /// The range of transactions contained in the segment.
    pub tx_range: Range<u64>,
    /// The size of the segment.
    pub size_in_bytes: u64,
    /// The largest epoch found in the segment.
    pub max_epoch: u64,
    /// The latest commit found in the segment.
    ///
    /// The value is the `min_tx_offset` of the commit, i.e.
    /// `max_commit_offset..tx_range.end` is the range of
    /// transactions contained in it.
    pub max_commit_offset: u64,
    pub max_commit: Option<commit::Metadata>,
}

impl Clone for Metadata {
    fn clone(&self) -> (r: Self)
        ensures
            r@ == self@,
    {
        Metadata {
            header: self.header,
            tx_range: Range { start: self.tx_range.start, end: self.tx_range.end },
            size_in_bytes: self.size_in_bytes,
            max_epoch: self.max_epoch,
            max_commit_offset: self.max_commit_offset,
            max_commit: match &self.max_commit {
                Some(commit) => Some(commit.clone()),
                None => None,
            },
        }
    }
}

/// The metadata of a segment could not be read.
#[derive(Debug)]
pub enum SegmentMetadata {
    /// A commit cannot be read. `sofar` is what is known from those before.
    InvalidCommit { sofar: Metadata, source: Error },
    Io(Error),
}

/// [Metadata] in contracts.
#[verifier::ext_equal]
pub struct SegmentView {
    pub header: Header,
    pub start: u64,
    pub end: u64,
    pub size_in_bytes: nat,
    pub max_epoch: u64,
    pub max_commit_offset: u64,
    pub max_commit: Option<MetadataView>,
}

impl View for Metadata {
    type V = SegmentView;

    open spec fn view(&self) -> SegmentView {
        SegmentView {
            header: self.header,
            start: self.tx_range.start,
            end: self.tx_range.end,
            size_in_bytes: self.size_in_bytes as nat,
            max_epoch: self.max_epoch,
            max_commit_offset: self.max_commit_offset,
            max_commit: match self.max_commit {
                Some(commit) => Some(commit@),
                None => None,
            },
        }
    }
}

/// The metadata of a segment without commits.
pub open spec fn fresh(min_tx_offset: u64, header: Header) -> SegmentView {
    SegmentView {
        header,
        start: min_tx_offset,
        end: min_tx_offset,
        size_in_bytes: Header::LEN as nat,
        max_epoch: 0,
        max_commit_offset: min_tx_offset,
        max_commit: None,
    }
}

impl SegmentView {
    /// With one more commit.
    pub open spec fn extended(self, commit: MetadataView) -> Self {
        SegmentView {
            end: commit.end,
            size_in_bytes: self.size_in_bytes + commit.size_in_bytes,
            max_epoch: if commit.epoch > self.max_epoch {
                commit.epoch
            } else {
                self.max_epoch
            },
            max_commit_offset: commit.start,
            max_commit: Some(commit),
            ..self
        }
    }
}

/// What comes of going through the commits of a segment.
pub enum Scan {
    /// There are no more commits.
    Done(SegmentView),
    /// A commit cannot be read.
    Invalid(SegmentView, Decoded),
    /// A commit does not start where the one before ends.
    OutOfOrder { expected: u64, actual: u64 },
}

/// What the commit at `pos` is.
pub open spec fn commit_at(bytes: Seq<u8>, pos: int) -> Decoded {
    commit::decoded((ReaderView { bytes, pos }).rest(), 1)
}

/// Goes through the commits that follow those of `sofar`.
pub open spec fn scan(bytes: Seq<u8>, sofar: SegmentView) -> Scan
    decreases bytes.len() - sofar.size_in_bytes,
{
    match commit_at(bytes, sofar.size_in_bytes as int) {
        Decoded::End => Scan::Done(sofar),
        Decoded::Commit(c, checksum) => {
            let found = MetadataView::of(c, checksum);
            if found.start != sofar.end {
                Scan::OutOfOrder { expected: sofar.end, actual: found.start }
            } else {
                scan(bytes, sofar.extended(found))
            }
        },
        invalid => Scan::Invalid(sofar, invalid),
    }
}

/// The result of going through the commits of a segment.
pub open spec fn outcome(scan: Scan, r: Result<Metadata, SegmentMetadata>) -> bool {
    match scan {
        Scan::Done(sofar) => {
            &&& r matches Ok(meta)
            &&& meta@ == sofar
        },
        Scan::Invalid(sofar, invalid) => {
            &&& r matches Err(SegmentMetadata::InvalidCommit { sofar: meta, source })
            &&& meta@ == sofar
            &&& commit::Metadata::outcome(invalid, Err(source))
        },
        Scan::OutOfOrder { expected, actual } => {
            &&& r matches Err(SegmentMetadata::Io(e))
            &&& e.is(
                ErrorKind::InvalidData,
                "out-of-order offset: expected="@ + text::decimal(expected as nat) + " actual="@
                    + text::decimal(actual as nat),
            )
        },
    }
}

/// The commit that an index entry stands for, if there is one at its position
/// that starts with its key.
pub open spec fn indexed_commit(bytes: Seq<u8>, entry: Entry) -> Option<MetadataView> {
    match commit_at(bytes, entry.value as int) {
        Decoded::Commit(c, checksum) => if c.min_tx_offset == entry.key {
            Some(MetadataView::of(c, checksum))
        } else {
            None
        },
        _ => None,
    }
}

/// The last entry with a key up to `candidate` that stands for a commit.
pub open spec fn last_valid(bytes: Seq<u8>, entries: Seq<Entry>, candidate: TxOffset) -> Option<
    Entry,
>
    decreases candidate,
    when index::ascending(entries)
{
    match index::lookup(entries, candidate) {
        None => None,
        Some(entry) => if indexed_commit(bytes, entry) is Some {
            Some(entry)
        } else if entry.key <= 1 {
            None
        } else {
            proof {
                index::law_lookup_finds_the_largest_key_below(entries, candidate);
            }
            last_valid(bytes, entries, (entry.key - 1) as u64)
        },
    }
}

/// What an index entry tells of a segment, with the commit that it stands for.
pub open spec fn up_to(
    min_tx_offset: u64,
    header: Header,
    entry: Entry,
    commit: MetadataView,
) -> SegmentView {
    SegmentView {
        header,
        start: min_tx_offset,
        end: commit.end,
        size_in_bytes: entry.value as nat + commit.size_in_bytes,
        max_epoch: commit.epoch,
        max_commit_offset: commit.start,
        max_commit: Some(commit),
    }
}

pub open spec fn max(a: u64, b: u64) -> u64 {
    if a < b {
        b
    } else {
        a
    }
}

/// The largest epoch of the commits that stand one after the other from `pos` up
/// to `end`, as far as they can be read. Zero if there are none.
pub open spec fn max_epoch_in(bytes: Seq<u8>, pos: int, end: int) -> u64
    decreases
        if pos < end {
            end - pos
        } else {
            0
        },
{
    if pos >= end {
        0
    } else {
        match commit_at(bytes, pos) {
            Decoded::Commit(c, _) => max(
                c.epoch,
                max_epoch_in(bytes, pos + c.encoded_len(), end),
            ),
            _ => 0,
        }
    }
}

/// The metadata from which going through the commits starts: what the last
/// entry of the index that stands for a commit tells, with the largest epoch up
/// to that commit, or else that of a segment without commits.
pub open spec fn known(
    min_tx_offset: u64,
    header: Header,
    bytes: Seq<u8>,
    index: Option<Seq<Entry>>,
) -> SegmentView {
    match index {
        Some(entries) => match last_valid(bytes, entries, u64::MAX) {
            Some(entry) => {
                let commit = indexed_commit(bytes, entry)->0;
                SegmentView {
                    max_epoch: max(
                        commit.epoch,
                        max_epoch_in(bytes, Header::LEN as int, entry.value as int),
                    ),
                    ..up_to(min_tx_offset, header, entry, commit)
                }
            },
            None => fresh(min_tx_offset, header),
        },
        None => fresh(min_tx_offset, header),
    }
}

pub open spec fn index_view(index: Option<&TxOffsetIndex>) -> Option<Seq<Entry>> {
    match index {
        Some(index) => Some(index@),
        None => None,
    }
}

impl Metadata {
    /// Reads and validates metadata from a segment.
    /// It will look for last commit index offset and then traverse the segment
    ///
    /// Determines `max_tx_offset`, `size_in_bytes`, and `max_epoch` from the
    /// segment.
    pub fn extract(
        min_tx_offset: TxOffset,
        reader: ByteReader,
        offset_index: Option<&TxOffsetIndex>,
    ) -> (r: Result<Self, SegmentMetadata>)
        requires
            offset_index matches Some(index) ==> index.wf(),
        ensures
            if reader@.rest().len() < Header::LEN || Header::first_in(reader@.rest()) is None {
                &&& r matches Err(SegmentMetadata::Io(e))
                &&& Header::outcome(reader@.rest(), Err(e))
            } else {
                let header = Header::first_in(reader@.rest())->0;
                outcome(
                    scan(
                        reader@.bytes,
                        known(min_tx_offset, header, reader@.bytes, index_view(offset_index)),
                    ),
                    r,
                )
            },
    {
        let mut reader = reader;
        let header = match Header::decode(&mut reader) {
            Ok(header) => header,
            Err(e) => {
                return Err(SegmentMetadata::Io(e));
            },
        };
        Self::with_header(min_tx_offset, header, reader, offset_index)
    }

    /// Goes through the commits of a segment, from the last one that the index
    /// leads to. Of those before it only the epochs are taken.
    pub fn with_header(
        min_tx_offset: u64,
        header: Header,
        reader: ByteReader,
        offset_index: Option<&TxOffsetIndex>,
    ) -> (r: Result<Self, SegmentMetadata>)
        requires
            offset_index matches Some(index) ==> index.wf(),
        ensures
            outcome(
                scan(
                    reader@.bytes,
                    known(min_tx_offset, header, reader@.bytes, index_view(offset_index)),
                ),
                r,
            ),
    {
        let ghost bytes = reader@.bytes;
        let mut input = reader;
        let found = match offset_index {
            Some(index) => match Self::find_valid_indexed_commit(
                min_tx_offset,
                header,
                &mut input,
                index,
            ) {
                Ok(found) => Some(found),
                Err(_) => None,
            },
            None => None,
        };
        let mut sofar = match found {
            Some(mut found) => {
                found.header = header;
                let commit_len = match &found.max_commit {
                    Some(commit) => commit.size_in_bytes,
                    None => 0,
                };
                let before = Self::max_epoch_before(&mut input, found.size_in_bytes - commit_len);
                if found.max_epoch < before {
                    found.max_epoch = before;
                }
                found
            },
            None => Self {
                header,
                tx_range: Range { start: min_tx_offset, end: min_tx_offset },
                size_in_bytes: Header::LEN as u64,
                max_epoch: 0,
                max_commit_offset: min_tx_offset,
                max_commit: None,
            },
        };
        let ghost begin = sofar@;
        let len = input.len();
        assert(begin == known(min_tx_offset, header, bytes, index_view(offset_index)));
        input.seek(sofar.size_in_bytes);
        loop
            invariant
                bytes == reader@.bytes,
                begin == known(min_tx_offset, header, bytes, index_view(offset_index)),
                input@ == (ReaderView { bytes, pos: sofar@.size_in_bytes as int }),
                scan(bytes, begin) == scan(bytes, sofar@),
                bytes.len() == len,
            decreases input@.rest().len(),
        {
            let ghost rest = input@.rest();
            proof {
                commit::lemma_decoded(rest, 1);
            }
            match Self::commit_meta(&mut input, &sofar) {
                Err(e) => {
                    return Err(e);
                },
                Ok(None) => {
                    return Ok(sofar);
                },
                Ok(Some(commit)) => {
                    let ghost before = sofar@;
                    if commit.tx_range.start != sofar.tx_range.end {
                        return Err(
                            SegmentMetadata::Io(
                                Error::new(
                                    ErrorKind::InvalidData,
                                    text::with_numbers(
                                        "out-of-order offset: expected=",
                                        sofar.tx_range.end,
                                        " actual=",
                                        commit.tx_range.start,
                                    ),
                                ),
                            ),
                        );
                    }
                    sofar.tx_range.end = commit.tx_range.end;
                    sofar.size_in_bytes = sofar.size_in_bytes + commit.size_in_bytes;
                    if commit.epoch > sofar.max_epoch {
                        sofar.max_epoch = commit.epoch;
                    }
                    sofar.max_commit_offset = commit.tx_range.start;
                    sofar.max_commit = Some(commit);
                    assert(sofar@ =~= before.extended(sofar.max_commit->0@));
                },
            }
        }
    }

    /// The largest epoch of the commits before the position `end`, as far as they
    /// can be read.
    pub fn max_epoch_before(reader: &mut ByteReader, end: u64) -> (r: u64)
        ensures
            final(reader)@.bytes == old(reader)@.bytes,
            r == max_epoch_in(old(reader)@.bytes, Header::LEN as int, end as int),
    {
        let ghost bytes = reader@.bytes;
        let mut max_epoch: u64 = 0;
        let mut pos: u64 = Header::LEN as u64;
        while pos < end
            invariant
                reader@.bytes == bytes,
                bytes == old(reader)@.bytes,
                max_epoch_in(bytes, Header::LEN as int, end as int) == max(
                    max_epoch,
                    max_epoch_in(bytes, pos as int, end as int),
                ),
            decreases end - pos,
        {
            reader.seek(pos);
            assert(reader@ =~= (ReaderView { bytes, pos: pos as int }));
            match commit::Metadata::extract(reader) {
                Ok(Some(commit)) => {
                    if max_epoch < commit.epoch {
                        max_epoch = commit.epoch;
                    }
                    let len = commit.size_in_bytes;
                    if len >= end - pos {
                        assert(max_epoch_in(bytes, pos + len, end as int) == 0);
                        return max_epoch;
                    }
                    pos = pos + len;
                },
                _ => {
                    return max_epoch;
                },
            }
        }
        max_epoch
    }

    /// Reads the metadata of the next commit.
    fn commit_meta(reader: &mut ByteReader, sofar: &Metadata) -> (r: Result<
        Option<commit::Metadata>,
        SegmentMetadata,
    >)
        ensures
            final(reader)@ == commit::after_commit(old(reader)@, 1),
            match r {
                Ok(commit) => commit::Metadata::outcome(
                    commit::decoded(old(reader)@.rest(), 1),
                    Ok(commit),
                ),
                Err(SegmentMetadata::InvalidCommit { sofar: meta, source }) => {
                    &&& meta@ == sofar@
                    &&& commit::Metadata::outcome(
                        commit::decoded(old(reader)@.rest(), 1),
                        Err(source),
                    )
                },
                Err(SegmentMetadata::Io(_)) => false,
            },
    {
        match commit::Metadata::extract(reader) {
            Ok(commit) => Ok(commit),
            Err(e) => Err(Self::unreadable(sofar, e)),
        }
    }

    /// What it means that the next commit cannot be read.
    pub fn unreadable(sofar: &Metadata, e: Error) -> (r: SegmentMetadata)
        ensures
            if e.kind == ErrorKind::InvalidData || e.kind == ErrorKind::UnexpectedEof {
                &&& r matches SegmentMetadata::InvalidCommit { sofar: meta, source }
                &&& meta@ == sofar@
                &&& source == e
            } else {
                r == SegmentMetadata::Io(e)
            },
    {
        if e.kind == ErrorKind::InvalidData || e.kind == ErrorKind::UnexpectedEof {
            SegmentMetadata::InvalidCommit { sofar: sofar.clone(), source: e }
        } else {
            SegmentMetadata::Io(e)
        }
    }

    /// Finds the last valid commit in the segment using the offset index.
    /// It traverses the index in reverse order, starting from the last key.
    ///
    /// Returns
    /// * `Ok((Metadata)` - If a valid commit is found. It contains the commit and
    ///   its epoch, and a default header, which should be replaced with the actual
    ///   header.
    /// * `Err` - If no valid commit is found or if the index is empty
    pub fn find_valid_indexed_commit(
        min_tx_offset: u64,
        _header: Header,
        reader: &mut ByteReader,
        offset_index: &TxOffsetIndex,
    ) -> (r: Result<Metadata, Error>)
        requires
            offset_index.wf(),
        ensures
            final(reader)@.bytes == old(reader)@.bytes,
            match last_valid(old(reader)@.bytes, offset_index@, u64::MAX) {
                Some(entry) => {
                    &&& r matches Ok(meta)
                    &&& meta@ == up_to(
                        min_tx_offset,
                        Header::current(),
                        entry,
                        indexed_commit(old(reader)@.bytes, entry)->0,
                    )
                },
                None => {
                    &&& r matches Err(e)
                    &&& e.is(
                        ErrorKind::InvalidData,
                        "No valid commit found in index up to key: "@ + text::decimal(
                            last_candidate(offset_index@, u64::MAX) as nat,
                        ),
                    )
                },
            },
    {
        let ghost bytes = reader@.bytes;
        let mut candidate_last_key: TxOffset = u64::MAX;
        let mut searching = true;
        while searching
            invariant
                reader@.bytes == bytes,
                bytes == old(reader)@.bytes,
                offset_index.wf(),
                searching ==> last_valid(bytes, offset_index@, u64::MAX) == last_valid(
                    bytes,
                    offset_index@,
                    candidate_last_key,
                ),
                searching ==> last_candidate(offset_index@, u64::MAX) == last_candidate(
                    offset_index@,
                    candidate_last_key,
                ),
                !searching ==> last_valid(bytes, offset_index@, u64::MAX) is None,
                !searching ==> last_candidate(offset_index@, u64::MAX)
                    == candidate_last_key,
            decreases
                candidate_last_key,
                if searching {
                    1int
                } else {
                    0int
                },
        {
            proof {
                index::law_lookup_finds_the_largest_key_below(offset_index@, candidate_last_key);
            }
            match offset_index.key_lookup(candidate_last_key) {
                Err(_) => {
                    searching = false;
                },
                Ok((key, byte_offset)) => {
                    match Self::validate_commit_at_offset(reader, key, byte_offset) {
                        Ok(commit) => {
                            let size_in_bytes = commit.size_in_bytes;
                            return Ok(
                                Metadata {
                                    header: Header::default(),
                                    tx_range: Range {
                                        start: min_tx_offset,
                                        end: commit.tx_range.end,
                                    },
                                    size_in_bytes: byte_offset + size_in_bytes,
                                    max_epoch: commit.epoch,
                                    max_commit_offset: commit.tx_range.start,
                                    max_commit: Some(commit),
                                },
                            );
                        },
                        // `TxOffset` at `byte_offset` is not valid, so try with
                        // previous entry
                        Err(_) => {
                            candidate_last_key = key.saturating_sub(1);
                            if candidate_last_key == 0 {
                                searching = false;
                            }
                        },
                    }
                },
            }
        }
        Err(
            Error::new(
                ErrorKind::InvalidData,
                text::with_number(
                    "No valid commit found in index up to key: ",
                    candidate_last_key,
                ),
            ),
        )
    }

    /// Validates and decodes a commit at `byte_offset` in the segment.
    ///
    /// # Returns
    /// * `Ok(commit::Metadata)` - If a valid commit is found with matching
    ///   transaction offset
    /// * `Err` - If commit can't be decoded or has mismatched transaction
    ///   offset
    pub fn validate_commit_at_offset(
        reader: &mut ByteReader,
        tx_offset: TxOffset,
        byte_offset: u64,
    ) -> (r: Result<commit::Metadata, Error>)
        ensures
            final(reader)@.bytes == old(reader)@.bytes,
            match commit_at(old(reader)@.bytes, byte_offset as int) {
                Decoded::End => {
                    &&& r matches Err(e)
                    &&& e.is(ErrorKind::InvalidData, "failed to decode commit"@)
                },
                Decoded::Commit(c, checksum) => if c.min_tx_offset == tx_offset {
                    &&& r matches Ok(meta)
                    &&& meta@ == MetadataView::of(c, checksum)
                    &&& byte_offset + meta.size_in_bytes <= old(reader)@.bytes.len()
                    &&& byte_offset + meta.size_in_bytes <= u64::MAX
                } else {
                    &&& r matches Err(e)
                    &&& e.is(
                        ErrorKind::InvalidData,
                        "mismatch key in index offset file: expected="@ + text::decimal(
                            tx_offset as nat,
                        ) + " actual="@ + text::decimal(c.min_tx_offset as nat),
                    )
                },
                invalid => {
                    &&& r matches Err(e)
                    &&& commit::Metadata::outcome(invalid, Err(e))
                },
            },
    {
        reader.seek(byte_offset);
        let len = reader.len();
        proof {
            commit::lemma_decoded(reader@.rest(), 1);
        }
        assert(reader@ =~= (ReaderView { bytes: old(reader)@.bytes, pos: byte_offset as int }));
        let commit = match commit::Metadata::extract(reader) {
            Ok(Some(commit)) => commit,
            Ok(None) => {
                return Err(Error::from_text(ErrorKind::InvalidData, "failed to decode commit"));
            },
            Err(e) => {
                return Err(e);
            },
        };
        if commit.tx_range.start != tx_offset {
            return Err(
                Error::new(
                    ErrorKind::InvalidData,
                    text::with_numbers(
                        "mismatch key in index offset file: expected=",
                        tx_offset,
                        " actual=",
                        commit.tx_range.start,
                    ),
                ),
            );
        }
        Ok(commit)
    }
}

/// The key up to which no entry stands for a commit, where there is none.
pub open spec fn last_candidate(entries: Seq<Entry>, candidate: TxOffset) -> TxOffset
    decreases candidate,
    when index::ascending(entries)
{
    match index::lookup(entries, candidate) {
        None => candidate,
        Some(entry) => if entry.key <= 1 {
            0
        } else {
            proof {
                index::law_lookup_finds_the_largest_key_below(entries, candidate);
            }
            last_candidate(entries, (entry.key - 1) as u64)
        },
    }
}

/// Whether `max_commit_offset..end` are the transactions of the latest commit.
pub open spec fn describes_last_commit(v: SegmentView) -> bool {
    match v.max_commit {
        Some(commit) => v.max_commit_offset == commit.start && v.end == commit.end,
        None => v.max_commit_offset == v.start && v.end == v.start,
    }
}

proof fn lemma_scan_describes_last_commit(bytes: Seq<u8>, sofar: SegmentView)
    requires
        describes_last_commit(sofar),
    ensures
        match scan(bytes, sofar) {
            Scan::Done(v) => describes_last_commit(v) && v.start == sofar.start && v.header
                == sofar.header && v.size_in_bytes >= sofar.size_in_bytes,
            Scan::Invalid(v, _) => describes_last_commit(v) && v.start == sofar.start && v.header
                == sofar.header && v.size_in_bytes >= sofar.size_in_bytes,
            Scan::OutOfOrder { .. } => true,
        },
    decreases bytes.len() - sofar.size_in_bytes,
{
    match commit_at(bytes, sofar.size_in_bytes as int) {
        Decoded::Commit(c, checksum) => {
            let found = MetadataView::of(c, checksum);
            if found.start == sofar.end {
                commit::lemma_decoded(
                    (ReaderView { bytes, pos: sofar.size_in_bytes as int }).rest(),
                    1,
                );
                lemma_scan_describes_last_commit(bytes, sofar.extended(found));
            }
        },
        _ => {},
    }
}

/// Whatever a segment and an index hold, the metadata starts with the given
/// offset, and says of the latest commit which transactions it contains.
pub proof fn law_metadata_describes_last_commit(
    min_tx_offset: u64,
    header: Header,
    bytes: Seq<u8>,
    index: Option<Seq<Entry>>,
)
    requires
        index matches Some(entries) ==> index::ascending(entries),
    ensures
        match scan(bytes, known(min_tx_offset, header, bytes, index)) {
            Scan::Done(v) => describes_last_commit(v) && v.start == min_tx_offset && v.header
                == header,
            Scan::Invalid(v, _) => describes_last_commit(v) && v.start == min_tx_offset
                && v.header == header,
            Scan::OutOfOrder { .. } => true,
        },
{
    if let Some(entries) = index {
        lemma_last_valid(bytes, entries, u64::MAX);
    }
    lemma_scan_describes_last_commit(bytes, known(min_tx_offset, header, bytes, index));
}

proof fn lemma_last_valid(bytes: Seq<u8>, entries: Seq<Entry>, candidate: TxOffset)
    requires
        index::ascending(entries),
    ensures
        match last_valid(bytes, entries, candidate) {
            Some(entry) => {
                &&& entries.contains(entry)
                &&& entry.key <= candidate
                &&& indexed_commit(bytes, entry) is Some
                &&& forall|i: int|
                    0 <= i < entries.len() && entry.key < (#[trigger] entries[i]).key <= candidate
                        ==> indexed_commit(bytes, entries[i]) is None
            },
            None => forall|i: int|
                0 <= i < entries.len() && (#[trigger] entries[i]).key <= candidate
                    ==> indexed_commit(bytes, entries[i]) is None,
        },
    decreases candidate,
{
    index::law_lookup_finds_the_largest_key_below(entries, candidate);
    if let Some(entry) = index::lookup(entries, candidate) {
        let k = choose|k: int| 0 <= k < entries.len() && entries[k] == entry;
        assert(entries[k].key > 0);
        if indexed_commit(bytes, entry) is None && entry.key > 1 {
            lemma_last_valid(bytes, entries, (entry.key - 1) as u64);
        }
        // Keys are distinct, so that the entry is the only one with its key.
        assert forall|i: int|
            0 <= i < entries.len() && (#[trigger] entries[i]).key == entry.key implies entries[i]
            == entry by {
            if i < k {
                assert(entries[i].key < entries[k].key);
            } else if k < i {
                assert(entries[k].key < entries[i].key);
            }
        }
    }
}

/// Whether going through the commits that follow those of `sofar` comes to the
/// position `pos`.
pub open spec fn reaches(bytes: Seq<u8>, sofar: SegmentView, pos: int) -> bool
    decreases bytes.len() - sofar.size_in_bytes,
{
    sofar.size_in_bytes == pos || match commit_at(bytes, sofar.size_in_bytes as int) {
        Decoded::Commit(c, checksum) => c.min_tx_offset == sofar.end && reaches(
            bytes,
            sofar.extended(MetadataView::of(c, checksum)),
            pos,
        ),
        _ => false,
    }
}

/// Whether going through the commits that follow those of `sofar` goes past one
/// at the position `pos`.
pub open spec fn passes(bytes: Seq<u8>, sofar: SegmentView, pos: int) -> bool
    decreases bytes.len() - sofar.size_in_bytes,
{
    match commit_at(bytes, sofar.size_in_bytes as int) {
        Decoded::Commit(c, checksum) => c.min_tx_offset == sofar.end && (sofar.size_in_bytes
            == pos || passes(bytes, sofar.extended(MetadataView::of(c, checksum)), pos)),
        _ => false,
    }
}

proof fn lemma_reached_commit_is_passed(bytes: Seq<u8>, sofar: SegmentView, pos: int)
    requires
        scan(bytes, sofar) is Done,
        reaches(bytes, sofar, pos),
        commit_at(bytes, pos) is Commit,
    ensures
        passes(bytes, sofar, pos),
    decreases bytes.len() - sofar.size_in_bytes,
{
    if sofar.size_in_bytes != pos {
        match commit_at(bytes, sofar.size_in_bytes as int) {
            Decoded::Commit(c, checksum) => {
                commit::lemma_decoded(
                    (ReaderView { bytes, pos: sofar.size_in_bytes as int }).rest(),
                    1,
                );
                lemma_reached_commit_is_passed(
                    bytes,
                    sofar.extended(MetadataView::of(c, checksum)),
                    pos,
                );
            },
            _ => {},
        }
    }
}

/// What is known when a commit at the position `pos` was passed.
spec fn known_after(bytes: Seq<u8>, sofar: SegmentView, pos: int) -> SegmentView {
    let (c, checksum) = (commit_at(bytes, pos)->Commit_0, commit_at(bytes, pos)->Commit_1);
    let found = MetadataView::of(c, checksum);
    SegmentView {
        header: sofar.header,
        start: sofar.start,
        end: found.end,
        size_in_bytes: (pos + found.size_in_bytes) as nat,
        max_epoch: max(
            found.epoch,
            max(sofar.max_epoch, max_epoch_in(bytes, sofar.size_in_bytes as int, pos)),
        ),
        max_commit_offset: found.start,
        max_commit: Some(found),
    }
}

proof fn lemma_passed(bytes: Seq<u8>, sofar: SegmentView, pos: int)
    requires
        passes(bytes, sofar, pos),
    ensures
        sofar.size_in_bytes <= pos,
        commit_at(bytes, pos) is Commit,
        scan(bytes, sofar) == scan(bytes, known_after(bytes, sofar, pos)),
    decreases bytes.len() - sofar.size_in_bytes,
{
    match commit_at(bytes, sofar.size_in_bytes as int) {
        Decoded::Commit(c, checksum) => {
            let next = sofar.extended(MetadataView::of(c, checksum));
            commit::lemma_decoded(
                (ReaderView { bytes, pos: sofar.size_in_bytes as int }).rest(),
                1,
            );
            if sofar.size_in_bytes == pos {
                assert(known_after(bytes, sofar, pos) =~= next);
            } else {
                lemma_passed(bytes, next, pos);
                assert(known_after(bytes, sofar, pos) =~= known_after(bytes, next, pos));
            }
        },
        _ => {},
    }
}

/// An index does not change what comes of going through a segment, whatever that
/// is, where each of its entries either is found to stand for no commit, or
/// stands for one that is passed without an index.
pub proof fn law_index_does_not_change_the_outcome(
    min_tx_offset: u64,
    header: Header,
    bytes: Seq<u8>,
    entries: Seq<Entry>,
)
    requires
        index::ascending(entries),
        forall|i: int|
            0 <= i < entries.len() ==> indexed_commit(bytes, #[trigger] entries[i]) is None
                || passes(bytes, fresh(min_tx_offset, header), entries[i].value as int),
    ensures
        scan(bytes, known(min_tx_offset, header, bytes, Some(entries))) == scan(
            bytes,
            known(min_tx_offset, header, bytes, None),
        ),
{
    let begin = fresh(min_tx_offset, header);
    law_last_valid_entry_is_found(bytes, entries);
    if let Some(entry) = last_valid(bytes, entries, u64::MAX) {
        let i = choose|i: int| 0 <= i < entries.len() && entries[i] == entry;
        assert(indexed_commit(bytes, entries[i]) is Some);
        lemma_passed(bytes, begin, entry.value as int);
        assert(known(min_tx_offset, header, bytes, Some(entries)) =~= known_after(
            bytes,
            begin,
            entry.value as int,
        ));
    }
}

/// An index does not change the metadata of a segment: where it can be found
/// without an index, the same is found with one each of whose entries either is
/// found to stand for no commit, or holds a position that is reached without an
/// index.
pub proof fn law_index_does_not_change_the_metadata(
    min_tx_offset: u64,
    header: Header,
    bytes: Seq<u8>,
    entries: Seq<Entry>,
)
    requires
        index::ascending(entries),
        scan(bytes, fresh(min_tx_offset, header)) is Done,
        forall|i: int|
            0 <= i < entries.len() ==> indexed_commit(bytes, #[trigger] entries[i]) is None
                || reaches(bytes, fresh(min_tx_offset, header), entries[i].value as int),
    ensures
        scan(bytes, known(min_tx_offset, header, bytes, Some(entries))) == scan(
            bytes,
            known(min_tx_offset, header, bytes, None),
        ),
{
    let begin = fresh(min_tx_offset, header);
    assert forall|i: int| 0 <= i < entries.len() implies indexed_commit(
        bytes,
        #[trigger] entries[i],
    ) is None || passes(bytes, begin, entries[i].value as int) by {
        if indexed_commit(bytes, entries[i]) is Some {
            lemma_reached_commit_is_passed(bytes, begin, entries[i].value as int);
        }
    }
    law_index_does_not_change_the_outcome(min_tx_offset, header, bytes, entries);
}

/// What is found by way of the index is the last of its entries that stand for
/// a commit.
pub proof fn law_last_valid_entry_is_found(bytes: Seq<u8>, entries: Seq<Entry>)
    requires
        index::ascending(entries),
    ensures
        match last_valid(bytes, entries, u64::MAX) {
            Some(entry) => {
                &&& entries.contains(entry)
                &&& indexed_commit(bytes, entry) is Some
                &&& forall|i: int|
                    0 <= i < entries.len() && (#[trigger] entries[i]).key > entry.key
                        ==> indexed_commit(bytes, entries[i]) is None
            },
            None => forall|i: int|
                0 <= i < entries.len() ==> indexed_commit(bytes, #[trigger] entries[i]) is None,
        },
{
    lemma_last_valid(bytes, entries, u64::MAX);
}

} // verus!

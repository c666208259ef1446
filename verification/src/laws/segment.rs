//! What is promised of reading segments.

use bytes::BytesMut;
use vstd::prelude::*;

use crate::commitlog::buffer;
use crate::commitlog::commit;
use crate::commitlog::commit::{
    crc32c_of, CommitView, Decoded, Header as CommitHeader, MetadataView,
};
use crate::commitlog::commit::StoredCommit;
use crate::commitlog::index;
use crate::commitlog::index::{Entry, IndexError, TxOffsetIndex};
use crate::commitlog::payload::{Decoder, RecordView};
use crate::commitlog::segment;
use crate::commitlog::segment::metadata;
use crate::commitlog::segment::metadata::{Metadata, Scan, SegmentMetadata, SegmentView};
use crate::commitlog::segment::reader;
use crate::commitlog::segment::reader::{
    seek_to_offset, validate_commit_header, Commits, CommitsWithVersion, Reader, TransactionView,
    Unread,
};
use crate::commitlog::segment::{Header, Transaction};
use crate::io::{ByteReader, Error, ErrorKind, ReaderView};
use crate::laws::commit::{
    header_size, is_damaged, is_end, is_read, is_something, is_stored_form, is_torn,
    law_cut_commit_is_torn, law_wrong_checksum_is_damage, lemma_decoded_in, lemma_is_read,
    said_len, starts_with,
};
use crate::laws::data::{is_decimal, lemma_is_decimal};
use crate::le;

verus! {

/// The ten bytes that a segment starts with.
pub open spec fn header_bytes(version: u8, checksum_algorithm: u8) -> Seq<u8> {
    seq![0x28u8, 0x64u8, 0x73u8, 0x29u8, 0x5eu8, 0x32u8, version, checksum_algorithm, 0u8, 0u8]
}

/// Writing a header appends its ten bytes.
pub proof fn law_header_is_written(h: Header, r: Result<(), Error>)
    ensures
        forall|out: &mut Vec<u8>|
            #![trigger call_ensures(Header::write, (&h, out), r)]
            call_ensures(Header::write, (&h, out), r) ==> r is Ok && final(out)@ == out@
                + header_bytes(h.log_format_version, h.checksum_algorithm),
        forall|buf: &mut BytesMut|
            #![trigger call_ensures(Header::encode, (&h, buf), ())]
            call_ensures(Header::encode, (&h, buf), ()) ==> buffer::contents(*final(buf))
                == buffer::contents(*buf) + header_bytes(
                h.log_format_version,
                h.checksum_algorithm,
            ),
{
    assert(h.bytes() =~= header_bytes(h.log_format_version, h.checksum_algorithm));
}

/// Whether `s` starts with the bytes by which a segment is known.
pub open spec fn has_magic(s: Seq<u8>) -> bool {
    s[0] == 0x28 && s[1] == 0x64 && s[2] == 0x73 && s[3] == 0x29 && s[4] == 0x5e && s[5] == 0x32
}

/// A header is read if there are ten bytes and they start as those of a segment.
pub proof fn law_header_is_read(r: Result<Header, Error>)
    ensures
        forall|reader: &mut ByteReader|
            #![trigger call_ensures(Header::decode, (reader,), r)]
            call_ensures(Header::decode, (reader,), r) ==> {
                let s = (*reader)@.rest();
                &&& (*final(reader))@.bytes == (*reader)@.bytes
                &&& if s.len() < 10 {
                    r matches Err(e) && e.kind == ErrorKind::UnexpectedEof
                } else if !has_magic(s) {
                    r matches Err(e) && e.kind == ErrorKind::InvalidData
                } else {
                    r matches Ok(h) && h.log_format_version == s[6] && h.checksum_algorithm == s[7]
                        && (*final(reader))@.pos == (*reader)@.pos + 10
                }
            },
{
    assert forall|reader: &mut ByteReader|
        #![trigger call_ensures(Header::decode, (reader,), r)]
        call_ensures(Header::decode, (reader,), r) implies ({
        let s = (*reader)@.rest();
        &&& (*final(reader))@.bytes == (*reader)@.bytes
        &&& if s.len() < 10 {
            r matches Err(e) && e.kind == ErrorKind::UnexpectedEof
        } else if !has_magic(s) {
            r matches Err(e) && e.kind == ErrorKind::InvalidData
        } else {
            r matches Ok(h) && h.log_format_version == s[6] && h.checksum_algorithm == s[7] && (
            *final(reader))@.pos == (*reader)@.pos + 10
        }
    }) by {
        lemma_magic((*reader)@.rest());
    }
}

proof fn lemma_magic(s: Seq<u8>)
    ensures
        s.len() >= 10 ==> (s.take(6) == segment::magic() <==> has_magic(s)),
{
    if s.len() >= 10 {
        let t = s.take(6);
        if has_magic(s) {
            assert(t =~= segment::magic());
        }
        if t == segment::magic() {
            assert(t[0] == 0x28 && t[1] == 0x64 && t[2] == 0x73 && t[3] == 0x29 && t[4] == 0x5e
                && t[5] == 0x32);
        }
    }
}

/// Without more said, a header is that of the first version, with CRC-32C as the
/// checksum algorithm.
pub proof fn law_default_header(r: Header)
    requires
        call_ensures(<Header as Default>::default, (), r),
    ensures
        r.log_format_version == 1,
        r.checksum_algorithm == 0,
{
}

/// A segment can be read if its version is not above the highest supported one,
/// and its checksum algorithm is the supported one.
pub proof fn law_compatible_header(
    h: Header,
    max_log_format_version: u8,
    checksum_algorithm: u8,
    r: Result<(), String>,
)
    requires
        call_ensures(
            Header::ensure_compatible,
            (&h, max_log_format_version, checksum_algorithm),
            r,
        ),
    ensures
        r is Ok <==> h.log_format_version <= max_log_format_version && h.checksum_algorithm
            == checksum_algorithm,
        r matches Err(message) ==> if h.log_format_version > max_log_format_version {
            exists|s: Seq<char>| #[trigger]
                is_decimal(s, h.log_format_version as int) && message@
                    == "unsupported log format version: "@ + s
        } else {
            exists|s: Seq<char>| #[trigger]
                is_decimal(s, h.checksum_algorithm as int) && message@
                    == "unsupported checksum algorithm: "@ + s
        },
{
    lemma_is_decimal(h.log_format_version as nat);
    lemma_is_decimal(h.checksum_algorithm as nat);
}

/// A segment is opened if it starts with a header of a supported version, with
/// the supported checksum algorithm. What is read next is what follows.
pub proof fn law_segment_is_opened(
    max_log_format_version: u8,
    min_tx_offset: u64,
    inner: ByteReader,
    r: Result<Reader, Error>,
)
    requires
        call_ensures(Reader::new, (max_log_format_version, min_tx_offset, inner), r),
    ensures
        ({
            let s = inner@.rest();
            &&& r is Ok <==> s.len() >= 10 && has_magic(s) && s[6] <= max_log_format_version
                && s[7] == 0
            &&& match r {
                Ok(reader) => {
                    &&& reader.header.log_format_version == s[6]
                    &&& reader.header.checksum_algorithm == s[7]
                    &&& reader.min_tx_offset == min_tx_offset
                    &&& reader.inner@.bytes == inner@.bytes
                    &&& reader.inner@.pos == inner@.pos + 10
                },
                Err(e) => e.kind == if s.len() < 10 {
                    ErrorKind::UnexpectedEof
                } else {
                    ErrorKind::InvalidData
                },
            }
        }),
{
    lemma_magic(inner@.rest());
}

/// The next commit of a segment. None comes only at the end: what cannot be read
/// is an error.
pub proof fn law_next_commit(r: Option<Result<StoredCommit, Error>>)
    ensures
        forall|commits: &mut Commits|
            #![trigger call_ensures(Commits::next, (commits,), r)]
            call_ensures(Commits::next, (commits,), r) ==> {
                let (s, version) = (
                    (*commits).reader@.rest(),
                    (*commits).header.log_format_version,
                );
                &&& r is None <==> is_end(s, version)
                &&& is_torn(s, version) ==> (r matches Some(Err(e)) && e.kind
                    == ErrorKind::UnexpectedEof)
                &&& is_damaged(s, version) ==> (r matches Some(Err(e)) && e.kind
                    == ErrorKind::InvalidData)
                &&& match r {
                    None => is_read(s, version, Ok(None)),
                    Some(Ok(c)) => is_read(s, version, Ok(Some(c))),
                    Some(Err(e)) => is_read(s, version, Err(e)),
                }
                &&& r matches Some(Ok(c)) ==> (*final(commits)).reader@.pos
                    == (*commits).reader@.pos + header_size(version) + c.records@.len() + 4
                &&& (*final(commits)).reader@.bytes == (*commits).reader@.bytes
                &&& (*final(commits)).header == (*commits).header
            },
{
    assert forall|commits: &mut Commits|
        #![trigger call_ensures(Commits::next, (commits,), r)]
        call_ensures(Commits::next, (commits,), r) implies ({
        let (s, version) = ((*commits).reader@.rest(), (*commits).header.log_format_version);
        &&& r is None <==> is_end(s, version)
        &&& is_torn(s, version) ==> (r matches Some(Err(e)) && e.kind == ErrorKind::UnexpectedEof)
        &&& is_damaged(s, version) ==> (r matches Some(Err(e)) && e.kind == ErrorKind::InvalidData)
        &&& match r {
            None => is_read(s, version, Ok(None)),
            Some(Ok(c)) => is_read(s, version, Ok(Some(c))),
            Some(Err(e)) => is_read(s, version, Err(e)),
        }
        &&& r matches Some(Ok(c)) ==> (*final(commits)).reader@.pos == (*commits).reader@.pos
            + header_size(version) + c.records@.len() + 4
        &&& (*final(commits)).reader@.bytes == (*commits).reader@.bytes
        &&& (*final(commits)).header == (*commits).header
    }) by {
        let (s, version) = ((*commits).reader@.rest(), (*commits).header.log_format_version);
        lemma_decoded_in(s, version);
        match r {
            None => {
                lemma_is_read(s, version, Ok(None));
            },
            Some(Ok(c)) => {
                lemma_is_read(s, version, Ok(Some(c)));
            },
            Some(Err(e)) => {
                lemma_is_read(s, version, Err(e));
            },
        }
    }
}

/// A commit of which the end is missing, or whose checksum was changed, is an
/// error, and not the end of the segment.
pub proof fn law_unreadable_commit_is_no_end(
    stored: Seq<u8>,
    c: CommitView,
    r: Option<Result<StoredCommit, Error>>,
)
    requires
        is_something(c.min_tx_offset, c.epoch, c.n, c.records),
        is_stored_form(stored, c.min_tx_offset, c.epoch, c.n, c.records),
    ensures
        forall|commits: &mut Commits|
            #![trigger call_ensures(Commits::next, (commits,), r)]
            call_ensures(Commits::next, (commits,), r) && (*commits).header.log_format_version == 1
                ==> {
                let s = (*commits).reader@.rest();
                let end = stored.len() - 4;
                &&& 22 <= s.len() < stored.len() && s == stored.take(s.len() as int) ==> (
                r matches Some(Err(e)) && e.kind == ErrorKind::UnexpectedEof)
                &&& s.len() >= stored.len() && s.take(end) == stored.take(end) && le::le_value(
                    s.subrange(end, end + 4),
                ) != le::le_value(stored.subrange(end, end + 4)) ==> (r matches Some(Err(e))
                    && e.kind == ErrorKind::InvalidData)
            },
{
    law_next_commit(r);
    assert forall|commits: &mut Commits|
        #![trigger call_ensures(Commits::next, (commits,), r)]
        call_ensures(Commits::next, (commits,), r) && (*commits).header.log_format_version
            == 1 implies ({
        let s = (*commits).reader@.rest();
        let end = stored.len() - 4;
        &&& 22 <= s.len() < stored.len() && s == stored.take(s.len() as int) ==> (r matches Some(
            Err(e),
        ) && e.kind == ErrorKind::UnexpectedEof)
        &&& s.len() >= stored.len() && s.take(end) == stored.take(end) && le::le_value(
            s.subrange(end, end + 4),
        ) != le::le_value(stored.subrange(end, end + 4)) ==> (r matches Some(Err(e)) && e.kind
            == ErrorKind::InvalidData)
    }) by {
        let s = (*commits).reader@.rest();
        let end = stored.len() - 4;
        if 22 <= s.len() < stored.len() && s == stored.take(s.len() as int) {
            law_cut_commit_is_torn(stored, c, s.len() as int);
        }
        if s.len() >= stored.len() && s.take(end) == stored.take(end) && le::le_value(
            s.subrange(end, end + 4),
        ) != le::le_value(stored.subrange(end, end + 4)) {
            law_wrong_checksum_is_damage(stored, c, s);
        }
    }
}

/// The next commit with the version of the log format is the next commit.
pub proof fn law_next_commit_with_version(
    reader: Reader,
    commits: Commits,
    versioned: CommitsWithVersion,
    r: Option<Result<(u8, StoredCommit), Error>>,
)
    ensures
        call_ensures(Reader::commits, (reader,), commits) ==> commits.reader@ == reader.inner@
            && commits.header == reader.header,
        call_ensures(Commits::with_log_format_version, (commits,), versioned) ==> versioned@
            == commits.reader@ && versioned.version() == commits.header.log_format_version,
        forall|c: &mut CommitsWithVersion|
            #![trigger call_ensures(CommitsWithVersion::next, (c,), r)]
            call_ensures(CommitsWithVersion::next, (c,), r) ==> {
                let (s, version) = ((*c)@.rest(), (*c).version());
                &&& match r {
                    None => is_read(s, version, Ok(None)),
                    Some(Ok((v, stored))) => v == version && is_read(
                        s,
                        version,
                        Ok(Some(stored)),
                    ),
                    Some(Err(e)) => is_read(s, version, Err(e)),
                }
                &&& (*final(c)).version() == version
                &&& (*final(c))@.bytes == (*c)@.bytes
                &&& (*final(c))@.pos == (*c)@.pos + bytes_taken(s, version)
            },
{
    assert forall|c: &mut CommitsWithVersion|
        #![trigger call_ensures(CommitsWithVersion::next, (c,), r)]
        call_ensures(CommitsWithVersion::next, (c,), r) implies ({
        let (s, version) = ((*c)@.rest(), (*c).version());
        &&& match r {
            None => is_read(s, version, Ok(None)),
            Some(Ok((v, stored))) => v == version && is_read(s, version, Ok(Some(stored))),
            Some(Err(e)) => is_read(s, version, Err(e)),
        }
        &&& (*final(c)).version() == version
        &&& (*final(c))@.bytes == (*c)@.bytes
        &&& (*final(c))@.pos == (*c)@.pos + bytes_taken(s, version)
    }) by {
        let (s, version) = ((*c)@.rest(), (*c).version());
        lemma_bytes_taken((*c)@, version);
        match r {
            None => {
                lemma_is_read(s, version, Ok(None));
            },
            Some(Ok((_, stored))) => {
                lemma_is_read(s, version, Ok(Some(stored)));
            },
            Some(Err(e)) => {
                lemma_is_read(s, version, Err(e));
            },
        }
    }
}

/// The position behind the first `k` commits, where the first stands at `start`.
pub open spec fn behind(cs: Seq<CommitView>, version: u8, start: int, k: nat) -> int
    decreases k,
{
    if k == 0 {
        start
    } else {
        behind(cs, version, start, (k - 1) as nat) + header_size(version) + cs[k - 1].records.len()
            + 4
    }
}

/// What stands in `s` from `pos` on.
pub open spec fn from(s: Seq<u8>, pos: int) -> Seq<u8> {
    if pos <= s.len() {
        s.skip(pos)
    } else {
        Seq::empty()
    }
}

/// Whether the commits stand one after the other in `s`, from `start` on.
pub open spec fn stand_in(cs: Seq<CommitView>, s: Seq<u8>, version: u8, start: int) -> bool {
    forall|k: nat|
        k < cs.len() ==> starts_with(
            from(s, #[trigger] behind(cs, version, start, k)),
            version,
            cs[k as int],
        )
}

/// The transactions with the offsets from `offset` up to `end` whose payloads stand
/// in `s`, or `None` if one of them cannot be decoded.
pub open spec fn decoded_from<D: Decoder>(
    de: D,
    version: u8,
    offset: int,
    end: int,
    s: Seq<u8>,
) -> Option<Seq<TransactionView<RecordView<D>>>>
    decreases end - offset,
{
    if offset >= end {
        Some(Seq::empty())
    } else {
        match de.decoded(version, offset as u64, s) {
            None => None,
            Some((record, n)) => match decoded_from(
                de,
                version,
                offset + 1,
                end,
                s.skip(n as int),
            ) {
                None => None,
                Some(rest) => Some(
                    seq![TransactionView { offset: offset as u64, txdata: record }] + rest,
                ),
            },
        }
    }
}

/// The transactions of the commits, one commit after the other.
pub open spec fn all_decoded<D: Decoder>(de: D, version: u8, cs: Seq<CommitView>) -> Option<
    Seq<TransactionView<RecordView<D>>>,
>
    decreases cs.len(),
{
    if cs.len() == 0 {
        Some(Seq::empty())
    } else {
        let c = cs[0];
        match (
            decoded_from(
                de,
                version,
                c.min_tx_offset as int,
                c.min_tx_offset.wrapping_add(c.n as u64) as int,
                c.records,
            ),
            all_decoded(de, version, cs.drop_first()),
        ) {
            (Some(first), Some(rest)) => Some(first + rest),
            _ => None,
        }
    }
}

proof fn lemma_decoded_from<D: Decoder>(de: D, version: u8, offset: int, end: int, s: Seq<u8>)
    ensures
        match decoded_from(de, version, offset, end, s) {
            Some(all) => reader::payloads_in(de, version, offset, end, s) == Ok::<
                Seq<TransactionView<RecordView<D>>>,
                Unread,
            >(all),
            None => reader::payloads_in(de, version, offset, end, s) is Err,
        },
    decreases end - offset,
{
    if offset < end {
        if let Some((_, n)) = de.decoded(version, offset as u64, s) {
            lemma_decoded_from(de, version, offset + 1, end, s.skip(n as int));
        }
    }
}

proof fn lemma_behind_first(cs: Seq<CommitView>, version: u8, start: int, k: nat)
    requires
        0 < k <= cs.len(),
    ensures
        behind(cs, version, start, k) == behind(
            cs.drop_first(),
            version,
            start + header_size(version) + cs[0].records.len() + 4,
            (k - 1) as nat,
        ),
    decreases k,
{
    if k > 1 {
        lemma_behind_first(cs, version, start, (k - 1) as nat);
    } else {
        assert(behind(cs, version, start, 0) == start);
    }
}

proof fn lemma_transactions<D: Decoder>(
    de: D,
    cs: Seq<CommitView>,
    s: Seq<u8>,
    version: u8,
    start: int,
)
    requires
        0 <= start <= s.len(),
        stand_in(cs, s, version, start),
    ensures
        ({
            let rest = from(s, behind(cs, version, start, cs.len()));
            let found = reader::transactions_in(de, from(s, start), version);
            match all_decoded(de, version, cs) {
                None => found is Err,
                Some(all) => {
                    &&& is_end(rest, version) ==> found == Ok::<
                        Seq<TransactionView<RecordView<D>>>,
                        Unread,
                    >(all)
                    &&& is_torn(rest, version) ==> found == Err::<
                        Seq<TransactionView<RecordView<D>>>,
                        Unread,
                    >(Unread::Commit(Decoded::Truncated))
                    &&& is_damaged(rest, version) ==> found == Err::<
                        Seq<TransactionView<RecordView<D>>>,
                        Unread,
                    >(Unread::Commit(Decoded::Mismatch))
                },
            }
        }),
    decreases cs.len(),
{
    let t = from(s, start);
    lemma_decoded_in(t, version);
    if cs.len() == 0 {
        assert(behind(cs, version, start, 0) == start);
    } else {
        let c = cs[0];
        let h = header_size(version);
        let next = start + h + c.records.len() + 4;
        assert(behind(cs, version, start, 0) == start);
        assert(starts_with(t, version, c));
        lemma_decoded_from(
            de,
            version,
            c.min_tx_offset as int,
            c.min_tx_offset.wrapping_add(c.n as u64) as int,
            c.records,
        );
        let rest = cs.drop_first();
        assert forall|k: nat| k < rest.len() implies starts_with(
            from(s, #[trigger] behind(rest, version, next, k)),
            version,
            rest[k as int],
        ) by {
            lemma_behind_first(cs, version, start, k + 1);
            assert(starts_with(
                from(s, behind(cs, version, start, k + 1)),
                version,
                cs[k as int + 1],
            ));
        }
        lemma_behind_first(cs, version, start, cs.len());
        lemma_transactions(de, rest, s, version, next);
        assert(t.skip(h + c.records.len() + 4) =~= from(s, next));
    }
}

/// The transactions of a segment are those of its commits, in order. Where a
/// commit is torn or damaged, or a payload cannot be decoded, there is an error,
/// and not a part of them.
pub proof fn law_transactions_of_segment<D: Decoder>(
    reader: Reader,
    de: D,
    cs: Seq<CommitView>,
    r: Result<Vec<Transaction<D::Record>>, Error>,
)
    requires
        0 <= reader.inner@.pos <= reader.inner@.bytes.len(),
        stand_in(
            cs,
            reader.inner@.bytes,
            reader.header.log_format_version,
            reader.inner@.pos,
        ),
        call_ensures(Reader::transactions::<D>, (reader, &de), r),
    ensures
        ({
            let version = reader.header.log_format_version;
            let rest = from(
                reader.inner@.bytes,
                behind(cs, version, reader.inner@.pos, cs.len()),
            );
            match all_decoded(de, version, cs) {
                None => r is Err,
                Some(all) => {
                    &&& is_end(rest, version) ==> {
                        &&& r matches Ok(found)
                        &&& found@.len() == all.len()
                        &&& forall|i: int|
                            0 <= i < found@.len() ==> (#[trigger] found@[i]).offset == all[i].offset
                                && found@[i].txdata@ == all[i].txdata
                    }
                    &&& is_torn(rest, version) ==> (r matches Err(e) && e.kind
                        == ErrorKind::UnexpectedEof)
                    &&& is_damaged(rest, version) ==> (r matches Err(e) && e.kind
                        == ErrorKind::InvalidData)
                },
            }
        }),
{
    let version = reader.header.log_format_version;
    lemma_transactions(de, cs, reader.inner@.bytes, version, reader.inner@.pos);
    if let Ok(all) = r {
        let view = reader::transactions_view(all@);
        assert forall|i: int| 0 <= i < all@.len() implies (#[trigger] all@[i]).offset
            == view[i].offset && all@[i].txdata@ == view[i].txdata by {}
    }
}

/// The transactions of a segment that ends within a commit cannot be read, however
/// many commits stand before it.
pub proof fn law_torn_segment_is_an_error<D: Decoder>(
    reader: Reader,
    de: D,
    cs: Seq<CommitView>,
    stored: Seq<u8>,
    c: CommitView,
    m: int,
    r: Result<Vec<Transaction<D::Record>>, Error>,
)
    requires
        0 <= reader.inner@.pos <= reader.inner@.bytes.len(),
        reader.header.log_format_version == 1,
        stand_in(cs, reader.inner@.bytes, 1, reader.inner@.pos),
        is_something(c.min_tx_offset, c.epoch, c.n, c.records),
        is_stored_form(stored, c.min_tx_offset, c.epoch, c.n, c.records),
        22 <= m < stored.len(),
        from(reader.inner@.bytes, behind(cs, 1, reader.inner@.pos, cs.len())) == stored.take(m),
        call_ensures(Reader::transactions::<D>, (reader, &de), r),
    ensures
        r is Err,
        all_decoded(de, 1, cs) is Some ==> r->Err_0.kind == ErrorKind::UnexpectedEof,
{
    law_cut_commit_is_torn(stored, c, m);
    law_transactions_of_segment(reader, de, cs, r);
}

/// The header of a commit is found where one starts. The reader stays where it is.
pub proof fn law_commit_header_is_validated(
    byte_offset: u64,
    r: Result<CommitHeader, Error>,
)
    ensures
        forall|reader: &mut ByteReader|
            #![trigger call_ensures(validate_commit_header, (reader, byte_offset), r)]
            call_ensures(validate_commit_header, (reader, byte_offset), r) ==> {
                let s = from((*reader)@.bytes, byte_offset as int);
                &&& (*final(reader))@ == (*reader)@
                &&& r is Ok <==> !is_end(s, 1)
                &&& r matches Ok(h) ==> h.min_tx_offset == le::le_value(s.subrange(0, 8)) && h.epoch
                    == le::le_value(s.subrange(8, 16)) && h.n == le::le_value(s.subrange(16, 18))
                    && h.len == le::le_value(s.subrange(18, 22))
                &&& r matches Err(e) ==> e.kind == ErrorKind::UnexpectedEof
            },
{
    assert forall|reader: &mut ByteReader|
        #![trigger call_ensures(validate_commit_header, (reader, byte_offset), r)]
        call_ensures(validate_commit_header, (reader, byte_offset), r) implies ({
        let s = from((*reader)@.bytes, byte_offset as int);
        &&& (*final(reader))@ == (*reader)@
        &&& r is Ok <==> !is_end(s, 1)
        &&& r matches Ok(h) ==> h.min_tx_offset == le::le_value(s.subrange(0, 8)) && h.epoch
            == le::le_value(s.subrange(8, 16)) && h.n == le::le_value(s.subrange(16, 18)) && h.len
            == le::le_value(s.subrange(18, 22))
        &&& r matches Err(e) ==> e.kind == ErrorKind::UnexpectedEof
    }) by {
        lemma_first_header(from((*reader)@.bytes, byte_offset as int));
    }
}

proof fn lemma_first_header(s: Seq<u8>)
    ensures
        commit::Header::first_in(s, 1) is None <==> is_end(s, 1),
        commit::Header::first_in(s, 1) matches Some(h) ==> h.min_tx_offset == le::le_value(
            s.subrange(0, 8),
        ) && h.epoch == le::le_value(s.subrange(8, 16)) && h.n == le::le_value(s.subrange(16, 18))
            && h.len == le::le_value(s.subrange(18, 22)),
{
    le::lemma_le_bounds();
    if s.len() >= 22 {
        let t = s.take(22);
        assert(commit::all_zeros(t) == forall|i: int| 0 <= i < 22 ==> #[trigger] s[i] == 0) by {
            if commit::all_zeros(t) {
                assert forall|i: int| 0 <= i < 22 implies #[trigger] s[i] == 0 by {
                    assert(t[i] == 0);
                }
            }
        }
        assert(t.subrange(0, 8) =~= s.subrange(0, 8));
        assert(t.subrange(8, 16) =~= s.subrange(8, 16));
        assert(t.subrange(16, 18) =~= s.subrange(16, 18));
        assert(t.subrange(18, 22) =~= s.subrange(18, 22));
        le::lemma_le_bytes_of_value(s.subrange(0, 8));
        le::lemma_le_bytes_of_value(s.subrange(8, 16));
        le::lemma_le_bytes_of_value(s.subrange(16, 18));
        le::lemma_le_bytes_of_value(s.subrange(18, 22));
    }
}

/// Whether the entry has the largest key that is not greater than `asked`.
pub open spec fn is_nearest(entries: Seq<Entry>, i: int, asked: u64) -> bool {
    &&& 0 <= i < entries.len()
    &&& entries[i].key <= asked
    &&& forall|j: int|
        0 <= j < entries.len() && (#[trigger] entries[j]).key <= asked ==> entries[j].key
            <= entries[i].key
}

/// Whether the header of a commit that starts with `key` stands at `pos`.
pub open spec fn header_stands_at(s: Seq<u8>, pos: int, key: u64) -> bool {
    !is_end(from(s, pos), 1) && le::le_value(from(s, pos).subrange(0, 8)) == key
}

/// Whether `r` is what comes of seeking: the position of the entry with the
/// largest key that is not greater than `asked`, if a commit stands there that
/// starts with the key, and otherwise an error, with the reader left where it is.
pub open spec fn is_sought(
    v: ReaderView,
    w: ReaderView,
    entries: Seq<Entry>,
    asked: u64,
    r: Result<u64, IndexError>,
) -> bool {
    &&& w.bytes == v.bytes
    &&& match r {
        Ok(pos) => w.pos == pos && exists|i: int| #[trigger]
            is_nearest(entries, i, asked) && entries[i].value == pos && header_stands_at(
                v.bytes,
                pos as int,
                entries[i].key,
            ),
        Err(IndexError::KeyNotFound) => w == v && forall|i: int|
            0 <= i < entries.len() ==> (#[trigger] entries[i]).key > asked,
        Err(IndexError::Io(e)) => w == v && exists|i: int| #[trigger]
            is_nearest(entries, i, asked) && !header_stands_at(
                v.bytes,
                entries[i].value as int,
                entries[i].key,
            ) && e.kind == if is_end(from(v.bytes, entries[i].value as int), 1) {
                ErrorKind::UnexpectedEof
            } else {
                ErrorKind::InvalidData
            },
        Err(_) => false,
    }
}

proof fn lemma_sought(
    v: ReaderView,
    w: ReaderView,
    entries: Seq<Entry>,
    asked: u64,
    r: Result<u64, IndexError>,
)
    requires
        index::ascending(entries),
        reader::sought(v, entries, asked, r, w),
    ensures
        is_sought(v, w, entries, asked, r),
{
    index::law_lookup_finds_the_largest_key_below(entries, asked);
    if let Some(entry) = index::lookup(entries, asked) {
        let i = choose|i: int| 0 <= i < entries.len() && entries[i] == entry;
        assert(is_nearest(entries, i, asked));
        lemma_first_header(from(v.bytes, entry.value as int));
    }
}

/// Seeking goes by the nearest entry of the index.
pub proof fn law_seeking_goes_by_the_index(
    index: TxOffsetIndex,
    asked: u64,
    r: Result<u64, IndexError>,
)
    requires
        index.wf(),
    ensures
        forall|reader: &mut ByteReader|
            #![trigger call_ensures(seek_to_offset, (reader, &index, asked), r)]
            call_ensures(seek_to_offset, (reader, &index, asked), r) ==> is_sought(
                (*reader)@,
                (*final(reader))@,
                index@,
                asked,
                r,
            ),
        forall|reader: &mut Reader|
            #![trigger call_ensures(Reader::seek_to_offset, (reader, &index, asked), r)]
            call_ensures(Reader::seek_to_offset, (reader, &index, asked), r) ==> {
                &&& is_sought((*reader).inner@, (*final(reader)).inner@, index@, asked, r)
                &&& (*final(reader)).header == (*reader).header
                &&& (*final(reader)).min_tx_offset == (*reader).min_tx_offset
            },
{
    assert forall|reader: &mut ByteReader|
        #![trigger call_ensures(seek_to_offset, (reader, &index, asked), r)]
        call_ensures(seek_to_offset, (reader, &index, asked), r) implies is_sought(
        (*reader)@,
        (*final(reader))@,
        index@,
        asked,
        r,
    ) by {
        lemma_sought((*reader)@, (*final(reader))@, index@, asked, r);
    }
    assert forall|reader: &mut Reader|
        #![trigger call_ensures(Reader::seek_to_offset, (reader, &index, asked), r)]
        call_ensures(Reader::seek_to_offset, (reader, &index, asked), r) implies ({
        &&& is_sought((*reader).inner@, (*final(reader)).inner@, index@, asked, r)
        &&& (*final(reader)).header == (*reader).header
        &&& (*final(reader)).min_tx_offset == (*reader).min_tx_offset
    }) by {
        lemma_sought((*reader).inner@, (*final(reader)).inner@, index@, asked, r);
    }
}

/// Whether the first commit starts with the transaction `first`, and each other
/// one where the one before it ends.
pub open spec fn follow_one_another(cs: Seq<CommitView>, first: u64) -> bool {
    &&& cs.len() > 0 ==> cs[0].min_tx_offset == first
    &&& forall|i: int, j: int|
        0 <= i && i + 1 == j && j < cs.len() ==> (#[trigger] cs[j]).min_tx_offset == (
        #[trigger] cs[i]).min_tx_offset.wrapping_add(cs[i].n as u64)
}

/// The offset behind the last transaction of the commits.
pub open spec fn last_end(cs: Seq<CommitView>, first: u64) -> u64 {
    if cs.len() == 0 {
        first
    } else {
        cs.last().min_tx_offset.wrapping_add(cs.last().n as u64)
    }
}

/// Whether `max` is the largest of `least` and the epochs of the commits.
pub open spec fn is_largest_epoch(cs: Seq<CommitView>, least: u64, max: u64) -> bool {
    &&& least <= max
    &&& forall|i: int| 0 <= i < cs.len() ==> (#[trigger] cs[i]).epoch <= max
    &&& max == least || exists|i: int| 0 <= i < cs.len() && (#[trigger] cs[i]).epoch == max
}

/// Whether the metadata are those of the commit that `t` starts with.
pub open spec fn is_metadata_of(m: MetadataView, c: CommitView, t: Seq<u8>) -> bool {
    &&& m.start == c.min_tx_offset
    &&& m.end == c.min_tx_offset.wrapping_add(c.n as u64)
    &&& m.size_in_bytes == 26 + c.records.len()
    &&& m.epoch == c.epoch
    &&& m.checksum == crc32c_of(t.take(22 + c.records.len() as int))
}

/// Whether the metadata are those of a segment of which the given commits are
/// the last. They start at the position `at`, and the largest epoch before them
/// is `epoch`.
pub open spec fn describes(
    m: SegmentView,
    s: Seq<u8>,
    cs: Seq<CommitView>,
    at: int,
    epoch: u64,
    min_tx_offset: u64,
    header: Header,
) -> bool {
    &&& m.header == header
    &&& m.start == min_tx_offset
    &&& m.end == last_end(cs, min_tx_offset)
    &&& m.size_in_bytes == behind(cs, 1, at, cs.len())
    &&& is_largest_epoch(cs, epoch, m.max_epoch)
    &&& m.max_commit_offset == if cs.len() == 0 {
        min_tx_offset
    } else {
        cs.last().min_tx_offset
    }
    &&& m.max_commit is Some <==> cs.len() > 0
    &&& m.max_commit matches Some(c) ==> is_metadata_of(
        c,
        cs.last(),
        from(s, behind(cs, 1, at, (cs.len() - 1) as nat)),
    )
}

/// Whether `r` is what comes of going through the commits of a segment from the
/// position `at` on: the metadata, if they follow one another up to the end; an
/// error with what is known so far, if a commit is torn or damaged; and an error
/// if a commit does not start where the one before it ends.
pub open spec fn surveyed(
    s: Seq<u8>,
    min_tx_offset: u64,
    header: Header,
    cs: Seq<CommitView>,
    at: int,
    epoch: u64,
    r: Result<Metadata, SegmentMetadata>,
) -> bool {
    let rest = from(s, behind(cs, 1, at, cs.len()));
    match r {
        Ok(m) => is_end(rest, 1) && describes(m@, s, cs, at, epoch, min_tx_offset, header),
        Err(SegmentMetadata::InvalidCommit { sofar, source }) => {
            &&& describes(sofar@, s, cs, at, epoch, min_tx_offset, header)
            &&& source.kind == ErrorKind::UnexpectedEof && is_torn(rest, 1) || source.kind
                == ErrorKind::InvalidData && is_damaged(rest, 1)
        },
        Err(SegmentMetadata::Io(e)) => {
            &&& e.kind == ErrorKind::InvalidData
            &&& exists|c: CommitView, x: Seq<char>, y: Seq<char>|
                {
                    &&& #[trigger] starts_with(rest, 1, c)
                    &&& c.min_tx_offset != last_end(cs, min_tx_offset)
                    &&& #[trigger] is_decimal(x, last_end(cs, min_tx_offset) as int)
                    &&& #[trigger] is_decimal(y, c.min_tx_offset as int)
                    &&& e.message@ == "out-of-order offset: expected="@ + x + " actual="@ + y
                }
        },
    }
}

proof fn lemma_describes_push(
    m: SegmentView,
    s: Seq<u8>,
    cs: Seq<CommitView>,
    at: int,
    epoch: u64,
    min_tx_offset: u64,
    header: Header,
    c: CommitView,
    checksum: u32,
)
    requires
        describes(m, s, cs, at, epoch, min_tx_offset, header),
        metadata::commit_at(s, m.size_in_bytes as int) == Decoded::Commit(c, checksum),
    ensures
        describes(
            m.extended(MetadataView::of(c, checksum)),
            s,
            cs.push(c),
            at,
            epoch,
            min_tx_offset,
            header,
        ),
{
    let n = m.extended(MetadataView::of(c, checksum));
    let all = cs.push(c);
    lemma_behind_push(cs, c, 1, at, cs.len());
    assert(all.last() == c);
    assert((ReaderView { bytes: s, pos: m.size_in_bytes as int }).rest() == from(
        s,
        m.size_in_bytes as int,
    ));
    assert(is_metadata_of(
        MetadataView::of(c, checksum),
        c,
        from(s, behind(all, 1, at, cs.len())),
    ));
    assert forall|i: int| 0 <= i < all.len() implies (#[trigger] all[i]).epoch <= n.max_epoch by {
        if i < cs.len() {
            assert(cs[i].epoch <= m.max_epoch);
        }
    }
    if n.max_epoch != epoch {
        if n.max_epoch == c.epoch {
            assert(all[cs.len() as int].epoch == n.max_epoch);
        } else {
            let i = choose|i: int| 0 <= i < cs.len() && (#[trigger] cs[i]).epoch == m.max_epoch;
            assert(all[i].epoch == n.max_epoch);
        }
    }
}

pub proof fn lemma_behind_push(cs: Seq<CommitView>, c: CommitView, version: u8, start: int, k: nat)
    requires
        k <= cs.len(),
    ensures
        behind(cs.push(c), version, start, k) == behind(cs, version, start, k),
        behind(cs.push(c), version, start, cs.len() + 1) == behind(
            cs.push(c),
            version,
            start,
            cs.len(),
        ) + header_size(version) + c.records.len() + 4,
    decreases k,
{
    if k > 0 {
        lemma_behind_push(cs, c, version, start, (k - 1) as nat);
    }
}

/// One more commit stands behind the others.
pub proof fn lemma_stand_in_push(cs: Seq<CommitView>, s: Seq<u8>, at: int, c: CommitView)
    requires
        stand_in(cs, s, 1, at),
        starts_with(from(s, behind(cs, 1, at, cs.len())), 1, c),
    ensures
        stand_in(cs.push(c), s, 1, at),
{
    let next = cs.push(c);
    assert forall|k: nat| k < next.len() implies starts_with(
        from(s, #[trigger] behind(next, 1, at, k)),
        1,
        next[k as int],
    ) by {
        lemma_behind_push(cs, c, 1, at, k);
        if k < cs.len() {
            assert(starts_with(from(s, behind(cs, 1, at, k)), 1, cs[k as int]));
        }
    }
}

/// Goes through the commits that follow `cs`.
proof fn lemma_surveyed(
    s: Seq<u8>,
    min_tx_offset: u64,
    header: Header,
    cs: Seq<CommitView>,
    first: u64,
    at: int,
    epoch: u64,
    sofar: SegmentView,
    r: Result<Metadata, SegmentMetadata>,
) -> (all: Seq<CommitView>)
    requires
        stand_in(cs, s, 1, at),
        follow_one_another(cs, first),
        cs.len() == 0 ==> first == min_tx_offset,
        describes(sofar, s, cs, at, epoch, min_tx_offset, header),
        metadata::outcome(metadata::scan(s, sofar), r),
    ensures
        cs.len() <= all.len(),
        forall|i: int| 0 <= i < cs.len() ==> #[trigger] all[i] == cs[i],
        stand_in(all, s, 1, at),
        follow_one_another(all, first),
        surveyed(s, min_tx_offset, header, all, at, epoch, r),
    decreases s.len() - sofar.size_in_bytes,
{
    let pos = sofar.size_in_bytes as int;
    let rest = from(s, pos);
    lemma_decoded_in(rest, 1);
    assert((ReaderView { bytes: s, pos }).rest() == rest);
    match metadata::commit_at(s, pos) {
        Decoded::Commit(c, checksum) => {
            assert(starts_with(rest, 1, c));
            if c.min_tx_offset != sofar.end {
                lemma_is_decimal(sofar.end as nat);
                lemma_is_decimal(c.min_tx_offset as nat);
                cs
            } else {
                let next = cs.push(c);
                lemma_describes_push(sofar, s, cs, at, epoch, min_tx_offset, header, c, checksum);
                lemma_stand_in_push(cs, s, at, c);
                assert forall|i: int, j: int|
                    0 <= i && i + 1 == j && j < next.len() implies (
                #[trigger] next[j]).min_tx_offset == (
                #[trigger] next[i]).min_tx_offset.wrapping_add(next[i].n as u64) by {
                    if j < cs.len() {
                        assert(cs[j].min_tx_offset == cs[i].min_tx_offset.wrapping_add(
                            cs[i].n as u64,
                        ));
                    }
                }
                commit::lemma_decoded(rest, 1);
                let all = lemma_surveyed(
                    s,
                    min_tx_offset,
                    header,
                    next,
                    first,
                    at,
                    epoch,
                    sofar.extended(MetadataView::of(c, checksum)),
                    r,
                );
                assert forall|i: int| 0 <= i < cs.len() implies #[trigger] all[i] == cs[i] by {
                    assert(all[i] == next[i]);
                }
                all
            }
        },
        _ => cs,
    }
}

/// Goes through all the commits of a segment.
proof fn lemma_surveyed_whole(
    s: Seq<u8>,
    min_tx_offset: u64,
    header: Header,
    r: Result<Metadata, SegmentMetadata>,
)
    requires
        metadata::outcome(metadata::scan(s, metadata::fresh(min_tx_offset, header)), r),
    ensures
        exists|cs: Seq<CommitView>|
            {
                &&& #[trigger] stand_in(cs, s, 1, 10)
                &&& follow_one_another(cs, min_tx_offset)
                &&& surveyed(s, min_tx_offset, header, cs, 10, 0, r)
            },
{
    lemma_fresh(s, min_tx_offset, header);
    let all = lemma_surveyed(
        s,
        min_tx_offset,
        header,
        Seq::empty(),
        min_tx_offset,
        10,
        0,
        metadata::fresh(min_tx_offset, header),
        r,
    );
    assert(stand_in(all, s, 1, 10));
}

proof fn lemma_fresh(s: Seq<u8>, min_tx_offset: u64, header: Header)
    ensures
        describes(
            metadata::fresh(min_tx_offset, header),
            s,
            Seq::empty(),
            10,
            0,
            min_tx_offset,
            header,
        ),
{
    assert(behind(Seq::<CommitView>::empty(), 1, 10, 0) == 10);
}

/// The metadata of a segment are those of its commits, which follow one another
/// from the given offset on without a gap. What does not is an error.
pub proof fn law_metadata_of_segment(
    min_tx_offset: u64,
    header: Header,
    reader: ByteReader,
    r: Result<Metadata, SegmentMetadata>,
)
    requires
        call_ensures(
            Metadata::with_header,
            (min_tx_offset, header, reader, None::<&TxOffsetIndex>),
            r,
        ),
    ensures
        exists|cs: Seq<CommitView>|
            {
                &&& #[trigger] stand_in(cs, reader@.bytes, 1, 10)
                &&& follow_one_another(cs, min_tx_offset)
                &&& surveyed(reader@.bytes, min_tx_offset, header, cs, 10, 0, r)
            },
{
    lemma_surveyed_whole(reader@.bytes, min_tx_offset, header, r);
}

/// The metadata are found with the header that is read first. Without a header
/// they cannot be read.
pub proof fn law_metadata_with_header(
    min_tx_offset: u64,
    reader: ByteReader,
    r: Result<Metadata, SegmentMetadata>,
)
    requires
        call_ensures(
            Metadata::extract,
            (min_tx_offset, reader, None::<&TxOffsetIndex>),
            r,
        ),
    ensures
        ({
            let h = reader@.rest();
            let s = reader@.bytes;
            if h.len() < 10 {
                r matches Err(SegmentMetadata::Io(e)) && e.kind == ErrorKind::UnexpectedEof
            } else if !has_magic(h) {
                r matches Err(SegmentMetadata::Io(e)) && e.kind == ErrorKind::InvalidData
            } else {
                exists|cs: Seq<CommitView>|
                    {
                        &&& #[trigger] stand_in(cs, s, 1, 10)
                        &&& follow_one_another(cs, min_tx_offset)
                        &&& surveyed(
                            s,
                            min_tx_offset,
                            Header { log_format_version: h[6], checksum_algorithm: h[7] },
                            cs,
                            10,
                            0,
                            r,
                        )
                    }
            }
        }),
{
    let h = reader@.rest();
    lemma_magic(h);
    if h.len() >= 10 && has_magic(h) {
        let header = Header { log_format_version: h[6], checksum_algorithm: h[7] };
        lemma_surveyed_whole(reader@.bytes, min_tx_offset, header, r);
    }
}

/// Reading a segment gives its metadata.
pub proof fn law_reader_gives_metadata(reader: Reader, r: Result<Metadata, SegmentMetadata>)
    requires
        call_ensures(Reader::metadata, (reader,), r),
    ensures
        exists|cs: Seq<CommitView>|
            {
                &&& #[trigger] stand_in(cs, reader.inner@.bytes, 1, 10)
                &&& follow_one_another(cs, reader.min_tx_offset)
                &&& surveyed(
                    reader.inner@.bytes,
                    reader.min_tx_offset,
                    reader.header,
                    cs,
                    10,
                    0,
                    r,
                )
            },
{
    lemma_surveyed_whole(reader.inner@.bytes, reader.min_tx_offset, reader.header, r);
}

/// Whether a commit stands where the entry of an index says.
pub open spec fn points_to(s: Seq<u8>, entry: Entry, c: CommitView) -> bool {
    starts_with(from(s, entry.value as int), 1, c) && c.min_tx_offset == entry.key
}

/// Whether the entry of an index points to a commit.
pub open spec fn is_valid(s: Seq<u8>, entry: Entry) -> bool {
    exists|c: CommitView| points_to(s, entry, c)
}

proof fn lemma_points_to(s: Seq<u8>, entry: Entry)
    ensures
        metadata::indexed_commit(s, entry) is Some <==> is_valid(s, entry),
        forall|c: CommitView| #[trigger]
            points_to(s, entry, c) ==> metadata::commit_at(s, entry.value as int) is Commit
                && metadata::commit_at(s, entry.value as int)->Commit_0 == c,
{
    let t = from(s, entry.value as int);
    lemma_decoded_in(t, 1);
    assert((ReaderView { bytes: s, pos: entry.value as int }).rest() == t);
    if let Decoded::Commit(c, _) = metadata::commit_at(s, entry.value as int) {
        assert(starts_with(t, 1, c));
        if c.min_tx_offset == entry.key {
            assert(points_to(s, entry, c));
        }
    }
}

/// A commit that the index is said to point to is accepted if it can be read and
/// starts with the offset in the index.
pub proof fn law_indexed_commit_is_validated(
    tx_offset: u64,
    byte_offset: u64,
    r: Result<commit::Metadata, Error>,
)
    ensures
        forall|reader: &mut ByteReader|
            #![trigger call_ensures(Metadata::validate_commit_at_offset, (reader, tx_offset, byte_offset), r)]
            call_ensures(
                Metadata::validate_commit_at_offset,
                (reader, tx_offset, byte_offset),
                r,
            ) ==> {
                let s = (*reader)@.bytes;
                let t = from(s, byte_offset as int);
                &&& (*final(reader))@.bytes == s
                &&& r is Ok <==> is_valid(s, Entry { key: tx_offset, value: byte_offset })
                &&& r matches Ok(m) ==> exists|c: CommitView|
                    {
                        &&& #[trigger] starts_with(t, 1, c)
                        &&& c.min_tx_offset == tx_offset
                        &&& is_metadata_of(m@, c, t)
                    }
                &&& r matches Err(e) ==> e.kind == if is_torn(t, 1) {
                    ErrorKind::UnexpectedEof
                } else {
                    ErrorKind::InvalidData
                }
            },
{
    assert forall|reader: &mut ByteReader|
        #![trigger call_ensures(Metadata::validate_commit_at_offset, (reader, tx_offset, byte_offset), r)]
        call_ensures(
            Metadata::validate_commit_at_offset,
            (reader, tx_offset, byte_offset),
            r,
        ) implies ({
        let s = (*reader)@.bytes;
        let t = from(s, byte_offset as int);
        &&& (*final(reader))@.bytes == s
        &&& r is Ok <==> is_valid(s, Entry { key: tx_offset, value: byte_offset })
        &&& r matches Ok(m) ==> exists|c: CommitView|
            {
                &&& #[trigger] starts_with(t, 1, c)
                &&& c.min_tx_offset == tx_offset
                &&& is_metadata_of(m@, c, t)
            }
        &&& r matches Err(e) ==> e.kind == if is_torn(t, 1) {
            ErrorKind::UnexpectedEof
        } else {
            ErrorKind::InvalidData
        }
    }) by {
        let s = (*reader)@.bytes;
        let t = from(s, byte_offset as int);
        lemma_points_to(s, Entry { key: tx_offset, value: byte_offset });
        lemma_decoded_in(t, 1);
        assert((ReaderView { bytes: s, pos: byte_offset as int }).rest() == t);
        if let Decoded::Commit(c, _) = metadata::commit_at(s, byte_offset as int) {
            assert(starts_with(t, 1, c));
        }
    }
}

/// Whether the entry is the last of the index that points to a commit, and that
/// is `c`.
pub open spec fn is_last_valid(
    s: Seq<u8>,
    entries: Seq<Entry>,
    entry: Entry,
    c: CommitView,
) -> bool {
    &&& entries.contains(entry)
    &&& points_to(s, entry, c)
    &&& forall|i: int|
        0 <= i < entries.len() && (#[trigger] entries[i]).key > entry.key ==> !is_valid(
            s,
            entries[i],
        )
}

proof fn lemma_last_valid(s: Seq<u8>, entries: Seq<Entry>)
    requires
        index::ascending(entries),
    ensures
        match metadata::last_valid(s, entries, u64::MAX) {
            Some(entry) => metadata::commit_at(s, entry.value as int) is Commit && is_last_valid(
                s,
                entries,
                entry,
                metadata::commit_at(s, entry.value as int)->Commit_0,
            ),
            None => forall|i: int|
                0 <= i < entries.len() ==> !is_valid(s, #[trigger] entries[i]),
        },
{
    metadata::law_last_valid_entry_is_found(s, entries);
    assert forall|i: int| 0 <= i < entries.len() implies (metadata::indexed_commit(
        s,
        #[trigger] entries[i],
    ) is Some <==> is_valid(s, entries[i])) by {
        lemma_points_to(s, entries[i]);
    }
    if let Some(entry) = metadata::last_valid(s, entries, u64::MAX) {
        lemma_points_to(s, entry);
    }
}

/// The last entry of the index that points to a commit tells of the segment up to
/// that commit. It is an error if none does.
pub proof fn law_last_indexed_commit_is_found(
    min_tx_offset: u64,
    header: Header,
    index: TxOffsetIndex,
    r: Result<Metadata, Error>,
)
    requires
        index.wf(),
    ensures
        forall|reader: &mut ByteReader|
            #![trigger call_ensures(Metadata::find_valid_indexed_commit, (min_tx_offset, header, reader, &index), r)]
            call_ensures(
                Metadata::find_valid_indexed_commit,
                (min_tx_offset, header, reader, &index),
                r,
            ) ==> {
                let s = (*reader)@.bytes;
                &&& (*final(reader))@.bytes == s
                &&& match r {
                    Ok(m) => exists|entry: Entry, c: CommitView|
                        {
                            &&& #[trigger] is_last_valid(s, index@, entry, c)
                            &&& m.header.log_format_version == 1
                            &&& m.header.checksum_algorithm == 0
                            &&& m.tx_range.start == min_tx_offset
                            &&& m.tx_range.end == c.min_tx_offset.wrapping_add(c.n as u64)
                            &&& m.size_in_bytes == entry.value + 26 + c.records.len()
                            &&& m.max_epoch == c.epoch
                            &&& m.max_commit_offset == c.min_tx_offset
                            &&& m.max_commit matches Some(last)
                            &&& is_metadata_of(last@, c, from(s, entry.value as int))
                        },
                    Err(e) => e.kind == ErrorKind::InvalidData && forall|i: int|
                        0 <= i < index@.len() ==> !is_valid(s, #[trigger] index@[i]),
                }
            },
{
    assert forall|reader: &mut ByteReader|
        #![trigger call_ensures(Metadata::find_valid_indexed_commit, (min_tx_offset, header, reader, &index), r)]
        call_ensures(
            Metadata::find_valid_indexed_commit,
            (min_tx_offset, header, reader, &index),
            r,
        ) implies ({
        let s = (*reader)@.bytes;
        &&& (*final(reader))@.bytes == s
        &&& match r {
            Ok(m) => exists|entry: Entry, c: CommitView|
                {
                    &&& #[trigger] is_last_valid(s, index@, entry, c)
                    &&& m.header.log_format_version == 1
                    &&& m.header.checksum_algorithm == 0
                    &&& m.tx_range.start == min_tx_offset
                    &&& m.tx_range.end == c.min_tx_offset.wrapping_add(c.n as u64)
                    &&& m.size_in_bytes == entry.value + 26 + c.records.len()
                    &&& m.max_epoch == c.epoch
                    &&& m.max_commit_offset == c.min_tx_offset
                    &&& m.max_commit matches Some(last)
                    &&& is_metadata_of(last@, c, from(s, entry.value as int))
                },
            Err(e) => e.kind == ErrorKind::InvalidData && forall|i: int|
                0 <= i < index@.len() ==> !is_valid(s, #[trigger] index@[i]),
        }
    }) by {
        let s = (*reader)@.bytes;
        lemma_last_valid(s, index@);
        if let Ok(m) = r {
            let entry = metadata::last_valid(s, index@, u64::MAX)->0;
            let c = metadata::commit_at(s, entry.value as int)->Commit_0;
            assert(is_last_valid(s, index@, entry, c));
            assert(m@.max_commit is Some);
        }
    }
}

/// Whether the commits stand one after the other from the header up to `end`, as
/// far as they can be read.
pub open spec fn stand_up_to(cs: Seq<CommitView>, s: Seq<u8>, end: int) -> bool {
    &&& stand_in(cs, s, 1, 10)
    &&& cs.len() > 0 ==> behind(cs, 1, 10, (cs.len() - 1) as nat) < end
    &&& behind(cs, 1, 10, cs.len()) >= end || forall|c: CommitView|
        !#[trigger] starts_with(from(s, behind(cs, 1, 10, cs.len())), 1, c)
}

/// Whether `max` is the largest epoch of the commits that stand one after the
/// other from the header up to `end`, as far as they can be read.
pub open spec fn is_epoch_up_to(s: Seq<u8>, end: int, max: u64) -> bool {
    exists|cs: Seq<CommitView>| #[trigger] stand_up_to(cs, s, end) && is_largest_epoch(cs, 0, max)
}

proof fn lemma_largest_epoch_push(cs: Seq<CommitView>, c: CommitView, max: u64)
    requires
        is_largest_epoch(cs, 0, max),
    ensures
        is_largest_epoch(cs.push(c), 0, metadata::max(c.epoch, max)),
{
    let next = cs.push(c);
    let larger = metadata::max(c.epoch, max);
    assert forall|i: int| 0 <= i < next.len() implies (#[trigger] next[i]).epoch <= larger by {
        if i < cs.len() {
            assert(cs[i].epoch <= max);
        }
    }
    if larger != 0 {
        if larger == c.epoch {
            assert(next[cs.len() as int].epoch == larger);
        } else {
            let i = choose|i: int| 0 <= i < cs.len() && (#[trigger] cs[i]).epoch == max;
            assert(next[i].epoch == larger);
        }
    }
}

proof fn lemma_epoch_up_to(s: Seq<u8>, cs: Seq<CommitView>, end: int, max: u64)
    requires
        stand_in(cs, s, 1, 10),
        cs.len() > 0 ==> behind(cs, 1, 10, (cs.len() - 1) as nat) < end,
        is_largest_epoch(cs, 0, max),
    ensures
        is_epoch_up_to(
            s,
            end,
            metadata::max(max, metadata::max_epoch_in(s, behind(cs, 1, 10, cs.len()), end)),
        ),
    decreases
        if behind(cs, 1, 10, cs.len()) < end {
            end - behind(cs, 1, 10, cs.len())
        } else {
            0
        },
{
    let pos = behind(cs, 1, 10, cs.len());
    let rest = from(s, pos);
    lemma_behind_at_least(cs, 1, 10, cs.len());
    lemma_decoded_in(rest, 1);
    assert((ReaderView { bytes: s, pos }).rest() == rest);
    if pos < end && metadata::commit_at(s, pos) is Commit {
        let c = metadata::commit_at(s, pos)->Commit_0;
        assert(starts_with(rest, 1, c));
        lemma_behind_push(cs, c, 1, 10, cs.len());
        lemma_stand_in_push(cs, s, 10, c);
        lemma_largest_epoch_push(cs, c, max);
        lemma_epoch_up_to(s, cs.push(c), end, metadata::max(c.epoch, max));
    } else {
        assert(stand_up_to(cs, s, end));
    }
}

proof fn lemma_behind_at_least(cs: Seq<CommitView>, version: u8, start: int, k: nat)
    ensures
        behind(cs, version, start, k) >= start,
    decreases k,
{
    if k > 0 {
        lemma_behind_at_least(cs, version, start, (k - 1) as nat);
    }
}

/// The largest epoch before a position is that of the commits up to there.
pub proof fn law_largest_epoch_before(end: u64, r: u64)
    ensures
        forall|reader: &mut ByteReader|
            #![trigger call_ensures(Metadata::max_epoch_before, (reader, end), r)]
            call_ensures(Metadata::max_epoch_before, (reader, end), r) ==> (*final(reader))@.bytes
                == (*reader)@.bytes && is_epoch_up_to((*reader)@.bytes, end as int, r),
{
    assert forall|reader: &mut ByteReader|
        #![trigger call_ensures(Metadata::max_epoch_before, (reader, end), r)]
        call_ensures(Metadata::max_epoch_before, (reader, end), r) implies (*final(reader))@.bytes
        == (*reader)@.bytes && is_epoch_up_to((*reader)@.bytes, end as int, r) by {
        lemma_epoch_from_start((*reader)@.bytes, end as int);
    }
}

proof fn lemma_epoch_from_start(s: Seq<u8>, end: int)
    ensures
        is_epoch_up_to(s, end, metadata::max_epoch_in(s, 10, end)),
{
    let none = Seq::<CommitView>::empty();
    assert(behind(none, 1, 10, 0) == 10);
    lemma_epoch_up_to(s, none, end, 0);
}

/// With an index, the commits are gone through from the last one on that the
/// index points to. Where it points to none, all commits are.
#[verifier::rlimit(40)]
pub proof fn law_metadata_by_the_index(
    min_tx_offset: u64,
    header: Header,
    reader: ByteReader,
    index: TxOffsetIndex,
    r: Result<Metadata, SegmentMetadata>,
)
    requires
        index.wf(),
        call_ensures(Metadata::with_header, (min_tx_offset, header, reader, Some(&index)), r),
    ensures
        ({
            let s = reader@.bytes;
            ||| (forall|i: int| 0 <= i < index@.len() ==> !is_valid(s, #[trigger] index@[i]))
                && exists|cs: Seq<CommitView>|
                {
                    &&& #[trigger] stand_in(cs, s, 1, 10)
                    &&& follow_one_another(cs, min_tx_offset)
                    &&& surveyed(s, min_tx_offset, header, cs, 10, 0, r)
                }
            ||| exists|entry: Entry, cs: Seq<CommitView>, epoch: u64|
                {
                    &&& cs.len() > 0
                    &&& #[trigger] is_last_valid(s, index@, entry, cs[0])
                    &&& stand_in(cs, s, 1, entry.value as int)
                    &&& follow_one_another(cs, entry.key)
                    &&& is_epoch_up_to(s, entry.value as int, epoch)
                    &&& #[trigger] surveyed(
                        s,
                        min_tx_offset,
                        header,
                        cs,
                        entry.value as int,
                        epoch,
                        r,
                    )
                }
        }),
{
    let s = reader@.bytes;
    lemma_last_valid(s, index@);
    let sofar = metadata::known(min_tx_offset, header, s, Some(index@));
    assert(metadata::index_view(Some(&index)) == Some(index@));
    if let Some(entry) = metadata::last_valid(s, index@, u64::MAX) {
        let at = entry.value as int;
        let c = metadata::commit_at(s, at)->Commit_0;
        let epoch = metadata::max_epoch_in(s, 10, at);
        let cs = seq![c];
        lemma_epoch_from_start(s, at);
        assert(behind(cs, 1, at, 0) == at);
        assert(behind(cs, 1, at, 1) == at + 26 + c.records.len());
        assert(cs.last() == c && cs[0] == c);
        assert(sofar.max_epoch == c.epoch || sofar.max_epoch == epoch);
        assert(describes(sofar, s, cs, at, epoch, min_tx_offset, header));
        let all = lemma_surveyed(
            s,
            min_tx_offset,
            header,
            cs,
            entry.key,
            at,
            epoch,
            sofar,
            r,
        );
        assert(all[0] == cs[0]);
        assert(is_last_valid(s, index@, entry, all[0]));
        assert(surveyed(s, min_tx_offset, header, all, at, epoch, r));
    } else {
        lemma_surveyed_whole(s, min_tx_offset, header, r);
    }
}

proof fn lemma_scan_of(
    cs: Seq<CommitView>,
    s: Seq<u8>,
    min_tx_offset: u64,
    k: int,
    sofar: SegmentView,
    header: Header,
)
    requires
        0 <= k <= cs.len(),
        stand_in(cs, s, 1, 10),
        follow_one_another(cs, min_tx_offset),
        describes(sofar, s, cs.take(k), 10, 0, min_tx_offset, header),
    ensures
        ({
            let rest = from(s, behind(cs, 1, 10, cs.len()));
            let scan = metadata::scan(s, sofar);
            &&& is_end(rest, 1) ==> (scan matches Scan::Done(m) && describes(
                m,
                s,
                cs,
                10,
                0,
                min_tx_offset,
                header,
            ))
            &&& is_torn(rest, 1) || is_damaged(rest, 1) ==> (scan matches Scan::Invalid(m, d)
                && describes(m, s, cs, 10, 0, min_tx_offset, header) && (d is Truncated <==> is_torn(
                rest,
                1,
            )) && (d is Mismatch <==> is_damaged(rest, 1)))
            &&& forall|c: CommitView| #[trigger]
                starts_with(rest, 1, c) && c.min_tx_offset != last_end(cs, min_tx_offset)
                    ==> scan is OutOfOrder
        }),
        forall|i: int|
            k <= i < cs.len() ==> metadata::passes(
                s,
                sofar,
                #[trigger] behind(cs, 1, 10, i as nat),
            ),
    decreases cs.len() - k,
{
    lemma_behind_take(cs, k, 1, 10, k as nat);
    let pos = sofar.size_in_bytes as int;
    let here = from(s, pos);
    lemma_decoded_in(here, 1);
    assert((ReaderView { bytes: s, pos }).rest() == here);
    if k < cs.len() {
        let c = cs[k];
        assert(starts_with(here, 1, c));
        let checksum = metadata::commit_at(s, pos)->Commit_1;
        if k > 0 {
            assert(cs.take(k).last() == cs[k - 1]);
            assert(cs[k].min_tx_offset == cs[k - 1].min_tx_offset.wrapping_add(
                cs[k - 1].n as u64,
            ));
        }
        assert(cs.take(k + 1) =~= cs.take(k).push(c));
        lemma_describes_push(sofar, s, cs.take(k), 10, 0, min_tx_offset, header, c, checksum);
        lemma_scan_of(
            cs,
            s,
            min_tx_offset,
            k + 1,
            sofar.extended(MetadataView::of(c, checksum)),
            header,
        );
        assert forall|i: int| k <= i < cs.len() implies metadata::passes(
            s,
            sofar,
            #[trigger] behind(cs, 1, 10, i as nat),
        ) by {
            if i == k {
                assert(pos == behind(cs, 1, 10, i as nat));
            }
        }
    } else {
        assert(cs.take(k) =~= cs);
    }
}

proof fn lemma_behind_take(cs: Seq<CommitView>, k: int, version: u8, start: int, i: nat)
    requires
        0 <= i <= k <= cs.len(),
    ensures
        behind(cs.take(k), version, start, i) == behind(cs, version, start, i),
    decreases i,
{
    if i > 0 {
        lemma_behind_take(cs, k, version, start, (i - 1) as nat);
    }
}

/// Where commits that follow one another stand in a segment up to its end, the
/// metadata describe them. A commit behind them that is torn or damaged, or does
/// not start where they end, is an error. An index whose entries point to some of
/// the commits, or to none, does not change that.
pub proof fn law_segment_with_commits(
    cs: Seq<CommitView>,
    min_tx_offset: u64,
    header: Header,
    reader: ByteReader,
    index: Option<&TxOffsetIndex>,
    r: Result<Metadata, SegmentMetadata>,
)
    requires
        stand_in(cs, reader@.bytes, 1, 10),
        follow_one_another(cs, min_tx_offset),
        index matches Some(index) ==> index.wf() && forall|i: int|
            0 <= i < index@.len() && is_valid(reader@.bytes, #[trigger] index@[i]) ==> exists|
                k: int,
            |
                0 <= k < cs.len() && #[trigger] behind(cs, 1, 10, k as nat) == index@[i].value,
        call_ensures(Metadata::with_header, (min_tx_offset, header, reader, index), r),
    ensures
        ({
            let s = reader@.bytes;
            let rest = from(s, behind(cs, 1, 10, cs.len()));
            &&& is_end(rest, 1) ==> (r matches Ok(m) && describes(
                m@,
                s,
                cs,
                10,
                0,
                min_tx_offset,
                header,
            ))
            &&& is_torn(rest, 1) ==> (r matches Err(SegmentMetadata::InvalidCommit { sofar, source })
                && describes(sofar@, s, cs, 10, 0, min_tx_offset, header) && source.kind
                == ErrorKind::UnexpectedEof)
            &&& is_damaged(rest, 1) ==> (r matches Err(
                SegmentMetadata::InvalidCommit { sofar, source },
            ) && describes(sofar@, s, cs, 10, 0, min_tx_offset, header) && source.kind
                == ErrorKind::InvalidData)
            &&& forall|c: CommitView| #[trigger]
                starts_with(rest, 1, c) && c.min_tx_offset != last_end(cs, min_tx_offset) ==> (
                r matches Err(SegmentMetadata::Io(e)) && e.kind == ErrorKind::InvalidData)
        }),
{
    let s = reader@.bytes;
    lemma_fresh(s, min_tx_offset, header);
    assert(cs.take(0) =~= Seq::empty());
    lemma_scan_of(cs, s, min_tx_offset, 0, metadata::fresh(min_tx_offset, header), header);
    if let Some(index) = index {
        assert forall|i: int| 0 <= i < index@.len() implies metadata::indexed_commit(
            s,
            #[trigger] index@[i],
        ) is None || metadata::passes(
            s,
            metadata::fresh(min_tx_offset, header),
            index@[i].value as int,
        ) by {
            lemma_points_to(s, index@[i]);
        }
        metadata::law_index_does_not_change_the_outcome(min_tx_offset, header, s, index@);
    }
}

/// What cannot be read of a segment is told together with what is known so far.
pub proof fn law_unreadable_commit(sofar: Metadata, e: Error, r: SegmentMetadata)
    requires
        call_ensures(Metadata::unreadable, (&sofar, e), r),
    ensures
        match r {
            SegmentMetadata::InvalidCommit { sofar: known, source } => {
                &&& known@ == sofar@
                &&& source == e
                &&& e.kind == ErrorKind::InvalidData || e.kind == ErrorKind::UnexpectedEof
            },
            SegmentMetadata::Io(source) => {
                &&& source == e
                &&& e.kind != ErrorKind::InvalidData
                &&& e.kind != ErrorKind::UnexpectedEof
            },
        },
{
}

/// Copies of metadata are equal.
pub proof fn law_copied_metadata(
    a: Metadata,
    b: Metadata,
    c: commit::Metadata,
    d: commit::Metadata,
)
    ensures
        call_ensures(<Metadata as Clone>::clone, (&a,), b) ==> {
            &&& b.header == a.header
            &&& b.tx_range.start == a.tx_range.start
            &&& b.tx_range.end == a.tx_range.end
            &&& b.size_in_bytes == a.size_in_bytes
            &&& b.max_epoch == a.max_epoch
            &&& b.max_commit_offset == a.max_commit_offset
            &&& b.max_commit is Some <==> a.max_commit is Some
        },
        call_ensures(<commit::Metadata as Clone>::clone, (&c,), d) ==> {
            &&& d.tx_range.start == c.tx_range.start
            &&& d.tx_range.end == c.tx_range.end
            &&& d.size_in_bytes == c.size_in_bytes
            &&& d.epoch == c.epoch
            &&& d.checksum == c.checksum
        },
{
    if call_ensures(<Metadata as Clone>::clone, (&a,), b) {
        assert(a@.header == b@.header && a@.start == b@.start && a@.end == b@.end
            && a@.size_in_bytes == b@.size_in_bytes && a@.max_epoch == b@.max_epoch
            && a@.max_commit_offset == b@.max_commit_offset && a@.max_commit == b@.max_commit);
    }
    if call_ensures(<commit::Metadata as Clone>::clone, (&c,), d) {
        assert(c@.start == d@.start && c@.end == d@.end && c@.size_in_bytes == d@.size_in_bytes
            && c@.epoch == d@.epoch && c@.checksum == d@.checksum);
    }
}

/// How many bytes of `s` are taken where a commit is read: those of the commit, or
/// of a header of zeros, as far as there are so many.
pub open spec fn bytes_taken(s: Seq<u8>, version: u8) -> int {
    let h = header_size(version);
    if s.len() < h {
        s.len() as int
    } else if is_end(s, version) {
        h
    } else if s.len() < h + said_len(s, version) + 4 {
        s.len() as int
    } else {
        h + said_len(s, version) + 4
    }
}

proof fn lemma_bytes_taken(v: ReaderView, version: u8)
    ensures
        commit::after_commit(v, version).bytes == v.bytes,
        commit::after_commit(v, version).pos == v.pos + bytes_taken(v.rest(), version),
{
    let s = v.rest();
    let h = header_size(version);
    lemma_decoded_in(s, version);
    le::lemma_le_bounds();
    if s.len() >= h {
        let t = s.take(h);
        if version == 0 {
            assert(t.subrange(10, 14) =~= s.subrange(10, 14));
            le::lemma_le_bytes_of_value(s.subrange(10, 14));
        } else {
            assert(t.subrange(18, 22) =~= s.subrange(18, 22));
            le::lemma_le_bytes_of_value(s.subrange(18, 22));
        }
    }
}

/// Whatever comes of reading a commit, the bytes that it takes are not read again,
/// and no others are passed over.
pub proof fn law_reading_takes_the_bytes(
    version: u8,
    a: Result<Option<StoredCommit>, Error>,
    b: Result<Option<commit::Metadata>, Error>,
    c: Option<Result<StoredCommit, Error>>,
)
    ensures
        forall|reader: &mut ByteReader|
            #![trigger call_ensures(StoredCommit::decode_internal, (reader, version), a)]
            call_ensures(StoredCommit::decode_internal, (reader, version), a) ==> (
            *final(reader))@.pos == (*reader)@.pos + bytes_taken((*reader)@.rest(), version),
        forall|reader: &mut ByteReader|
            #![trigger call_ensures(StoredCommit::decode, (reader,), a)]
            call_ensures(StoredCommit::decode, (reader,), a) ==> (*final(reader))@.pos
                == (*reader)@.pos + bytes_taken((*reader)@.rest(), 1),
        forall|reader: &mut ByteReader|
            #![trigger call_ensures(commit::Metadata::extract, (reader,), b)]
            call_ensures(commit::Metadata::extract, (reader,), b) ==> (*final(reader))@.pos
                == (*reader)@.pos + bytes_taken((*reader)@.rest(), 1) && (*final(reader))@.bytes
                == (*reader)@.bytes,
        forall|commits: &mut Commits|
            #![trigger call_ensures(Commits::next, (commits,), c)]
            call_ensures(Commits::next, (commits,), c) ==> (*final(commits)).reader@.pos
                == (*commits).reader@.pos + bytes_taken(
                (*commits).reader@.rest(),
                (*commits).header.log_format_version,
            ),
{
    assert forall|reader: &mut ByteReader|
        #![trigger call_ensures(StoredCommit::decode_internal, (reader, version), a)]
        call_ensures(StoredCommit::decode_internal, (reader, version), a) implies (
    *final(reader))@.pos == (*reader)@.pos + bytes_taken((*reader)@.rest(), version) by {
        lemma_bytes_taken((*reader)@, version);
    }
    assert forall|reader: &mut ByteReader|
        #![trigger call_ensures(StoredCommit::decode, (reader,), a)]
        call_ensures(StoredCommit::decode, (reader,), a) implies (*final(reader))@.pos
        == (*reader)@.pos + bytes_taken((*reader)@.rest(), 1) by {
        lemma_bytes_taken((*reader)@, 1);
    }
    assert forall|reader: &mut ByteReader|
        #![trigger call_ensures(commit::Metadata::extract, (reader,), b)]
        call_ensures(commit::Metadata::extract, (reader,), b) implies (*final(reader))@.pos
        == (*reader)@.pos + bytes_taken((*reader)@.rest(), 1) && (*final(reader))@.bytes
        == (*reader)@.bytes by {
        lemma_bytes_taken((*reader)@, 1);
    }
    assert forall|commits: &mut Commits|
        #![trigger call_ensures(Commits::next, (commits,), c)]
        call_ensures(Commits::next, (commits,), c) implies (*final(commits)).reader@.pos
        == (*commits).reader@.pos + bytes_taken(
        (*commits).reader@.rest(),
        (*commits).header.log_format_version,
    ) by {
        lemma_bytes_taken((*commits).reader@, (*commits).header.log_format_version);
    }
}

/// Reading a header takes its bytes, or all that there are.
pub proof fn law_reading_takes_the_header(a: Result<Header, Error>, b: Option<CommitHeader>)
    ensures
        forall|reader: &mut ByteReader|
            #![trigger call_ensures(Header::decode, (reader,), a)]
            call_ensures(Header::decode, (reader,), a) ==> (*final(reader))@.pos == (*reader)@.pos
                + if (*reader)@.rest().len() < 10 {
                (*reader)@.rest().len() as int
            } else {
                10
            },
        forall|reader: &mut ByteReader|
            #![trigger call_ensures(CommitHeader::decode, (reader,), b)]
            call_ensures(CommitHeader::decode, (reader,), b) ==> (*final(reader))@.pos
                == (*reader)@.pos + if (*reader)@.rest().len() < 22 {
                (*reader)@.rest().len() as int
            } else {
                22
            },
{
}

} // verus!

//! What is promised of commits.

use bytes::BytesMut;
use core::ops::Range;
use vstd::prelude::*;

use crate::commitlog::buffer;
use crate::commitlog::commit;
use crate::commitlog::commit::{
    crc32c_of, Commit, CommitView, Decoded, Header, Metadata, StoredCommit,
};
use crate::io::{ByteReader, Error, ErrorKind};
use crate::le;

verus! {

/// Whether `s` is the stored form of a commit with these parts: the first offset,
/// the epoch, the number of transactions and the size of the records, then the
/// records, and the checksum of all that. Numbers have their lowest byte first.
pub open spec fn is_stored_form(
    s: Seq<u8>,
    min_tx_offset: u64,
    epoch: u64,
    n: u16,
    records: Seq<u8>,
) -> bool {
    let end = 22 + records.len() as int;
    &&& s.len() == end + 4
    &&& le::le_value(s.subrange(0, 8)) == min_tx_offset
    &&& le::le_value(s.subrange(8, 16)) == epoch
    &&& le::le_value(s.subrange(16, 18)) == n
    &&& le::le_value(s.subrange(18, 22)) == records.len()
    &&& s.subrange(22, end) == records
    &&& le::le_value(s.subrange(end, end + 4)) == crc32c_of(s.take(end))
}

/// The bytes of a commit are its stored form.
pub proof fn lemma_stored_form(c: CommitView)
    requires
        c.records.len() <= u32::MAX,
    ensures
        is_stored_form(c.bytes(), c.min_tx_offset, c.epoch, c.n, c.records),
        c.checksum() == crc32c_of(c.bytes().take(22 + c.records.len() as int)),
{
    let s = c.bytes();
    let h = c.header();
    c.lemma_bytes_len();
    h.lemma_of_bytes();
    le::lemma_le_bounds();
    le::lemma_le_bytes_len(h.min_tx_offset as nat, 8);
    le::lemma_le_bytes_len(h.epoch as nat, 8);
    le::lemma_le_bytes_len(h.n as nat, 2);
    le::lemma_le_bytes_len(h.len as nat, 4);
    le::lemma_le_value_of_bytes(h.min_tx_offset as nat, 8);
    le::lemma_le_value_of_bytes(h.epoch as nat, 8);
    le::lemma_le_value_of_bytes(h.n as nat, 2);
    le::lemma_le_value_of_bytes(h.len as nat, 4);
    le::lemma_le_value_of_bytes(c.checksum() as nat, 4);
    let end = 22 + c.records.len() as int;
    assert(s.subrange(0, 8) =~= le::le_bytes(h.min_tx_offset as nat, 8));
    assert(s.subrange(8, 16) =~= le::le_bytes(h.epoch as nat, 8));
    assert(s.subrange(16, 18) =~= le::le_bytes(h.n as nat, 2));
    assert(s.subrange(18, 22) =~= le::le_bytes(h.len as nat, 4));
    assert(s.subrange(22, end) =~= c.records);
    assert(s.take(end) =~= c.body());
    assert(s.subrange(end, end + 4) =~= le::le_bytes(c.checksum() as nat, 4));
}

/// Encoding a commit appends its stored form, and gives its checksum.
pub proof fn law_encoded_commit(c: Commit, r: u32)
    requires
        c.records@.len() <= u32::MAX,
    ensures
        forall|buf: &mut BytesMut|
            #![trigger call_ensures(Commit::encode, (&c, buf), r)]
            call_ensures(Commit::encode, (&c, buf), r) ==> {
                let (old_len, all) = (
                    buffer::contents(*buf).len() as int,
                    buffer::contents(*final(buf)),
                );
                &&& all.take(old_len) == buffer::contents(*buf)
                &&& is_stored_form(all.skip(old_len), c.min_tx_offset, c.epoch, c.n, c.records@)
                &&& r == crc32c_of(all.skip(old_len).take(22 + c.records@.len() as int))
            },
{
    lemma_stored_form(c@);
    assert forall|buf: &mut BytesMut|
        #![trigger call_ensures(Commit::encode, (&c, buf), r)]
        call_ensures(Commit::encode, (&c, buf), r) implies ({
        let (old_len, all) = (buffer::contents(*buf).len() as int, buffer::contents(*final(buf)));
        &&& all.take(old_len) == buffer::contents(*buf)
        &&& is_stored_form(all.skip(old_len), c.min_tx_offset, c.epoch, c.n, c.records@)
        &&& r == crc32c_of(all.skip(old_len).take(22 + c.records@.len() as int))
    }) by {
        let (old_len, all) = (buffer::contents(*buf).len() as int, buffer::contents(*final(buf)));
        assert(all.skip(old_len) =~= c@.bytes());
        assert(all.take(old_len) =~= buffer::contents(*buf));
    }
}

/// The size of a header in a version of the log format.
pub open spec fn header_size(version: u8) -> int {
    if version == 0 {
        14
    } else {
        22
    }
}

/// The number of bytes of records that a header says there are.
pub open spec fn said_len(s: Seq<u8>, version: u8) -> int {
    if version == 0 {
        le::le_value(s.subrange(10, 14)) as int
    } else {
        le::le_value(s.subrange(18, 22)) as int
    }
}

/// Whether no commit starts in `s`: there are too few bytes for a header, or those
/// of the header are all zero.
pub open spec fn is_end(s: Seq<u8>, version: u8) -> bool {
    s.len() < header_size(version) || forall|i: int|
        0 <= i < header_size(version) ==> #[trigger] s[i] == 0
}

/// What becomes of reading the commit that `s` starts with: nothing where none
/// starts; an error where bytes are missing, or the checksum is not that of the
/// commit; and otherwise the commit.
pub open spec fn is_read(
    s: Seq<u8>,
    version: u8,
    r: Result<Option<StoredCommit>, Error>,
) -> bool {
    let h = header_size(version);
    let end = h + said_len(s, version);
    if is_end(s, version) {
        r == Ok::<Option<StoredCommit>, Error>(None)
    } else if s.len() < end + 4 {
        r matches Err(e) && e.kind == ErrorKind::UnexpectedEof
    } else if crc32c_of(s.take(end)) != le::le_value(s.subrange(end, end + 4)) {
        r matches Err(e) && e.kind == ErrorKind::InvalidData
    } else {
        &&& r matches Ok(Some(c))
        &&& c.min_tx_offset == le::le_value(s.subrange(0, 8))
        &&& c.epoch == if version == 0 {
            0
        } else {
            le::le_value(s.subrange(8, 16))
        }
        &&& c.n == if version == 0 {
            le::le_value(s.subrange(8, 10))
        } else {
            le::le_value(s.subrange(16, 18))
        }
        &&& c.records@ == s.subrange(h, end)
        &&& c.checksum == le::le_value(s.subrange(end, end + 4))
    }
}

/// What decoding gives is what is read.
pub proof fn lemma_is_read(s: Seq<u8>, version: u8, r: Result<Option<StoredCommit>, Error>)
    requires
        StoredCommit::outcome(commit::decoded(s, version), r),
    ensures
        is_read(s, version, r),
{
    let h = header_size(version);
    le::lemma_le_bounds();
    if s.len() >= h {
        let t = s.take(h);
        assert(commit::all_zeros(t) == forall|i: int| 0 <= i < h ==> #[trigger] s[i] == 0) by {
            if commit::all_zeros(t) {
                assert forall|i: int| 0 <= i < h implies #[trigger] s[i] == 0 by {
                    assert(t[i] == 0);
                }
            }
        }
        assert(t.subrange(0, 8) =~= s.subrange(0, 8));
        le::lemma_le_bytes_of_value(s.subrange(0, 8));
        if version == 0 {
            assert(t.subrange(8, 10) =~= s.subrange(8, 10));
            assert(t.subrange(10, 14) =~= s.subrange(10, 14));
            le::lemma_le_bytes_of_value(s.subrange(8, 10));
            le::lemma_le_bytes_of_value(s.subrange(10, 14));
        } else {
            assert(t.subrange(8, 16) =~= s.subrange(8, 16));
            assert(t.subrange(16, 18) =~= s.subrange(16, 18));
            assert(t.subrange(18, 22) =~= s.subrange(18, 22));
            le::lemma_le_bytes_of_value(s.subrange(8, 16));
            le::lemma_le_bytes_of_value(s.subrange(16, 18));
            le::lemma_le_bytes_of_value(s.subrange(18, 22));
        }
        if !is_end(s, version) {
            let end = h + said_len(s, version);
            if s.len() >= end + 4 {
                le::lemma_le_bytes_of_value(s.subrange(end, end + 4));
            }
        }
    }
}

/// Reading a commit goes by its bytes alone.
pub proof fn law_commit_is_read(version: u8, r: Result<Option<StoredCommit>, Error>)
    ensures
        forall|reader: &mut ByteReader|
            #![trigger call_ensures(StoredCommit::decode_internal, (reader, version), r)]
            call_ensures(StoredCommit::decode_internal, (reader, version), r) ==> is_read(
                (*reader)@.rest(),
                version,
                r,
            ) && (*final(reader))@.bytes == (*reader)@.bytes && (r matches Ok(Some(c)) ==> (
            *final(reader))@.pos == (*reader)@.pos + header_size(version) + c.records@.len() + 4),
        forall|reader: &mut ByteReader|
            #![trigger call_ensures(StoredCommit::decode, (reader,), r)]
            call_ensures(StoredCommit::decode, (reader,), r) ==> is_read(
                (*reader)@.rest(),
                1,
                r,
            ) && (*final(reader))@.bytes == (*reader)@.bytes && (r matches Ok(Some(c)) ==> (
            *final(reader))@.pos == (*reader)@.pos + 26 + c.records@.len()),
{
    assert forall|reader: &mut ByteReader|
        #![trigger call_ensures(StoredCommit::decode_internal, (reader, version), r)]
        call_ensures(StoredCommit::decode_internal, (reader, version), r) implies is_read(
        (*reader)@.rest(),
        version,
        r,
    ) && (*final(reader))@.bytes == (*reader)@.bytes && (r matches Ok(Some(c)) ==> (
    *final(reader))@.pos == (*reader)@.pos + header_size(version) + c.records@.len() + 4) by {
        lemma_is_read((*reader)@.rest(), version, r);
    }
    assert forall|reader: &mut ByteReader|
        #![trigger call_ensures(StoredCommit::decode, (reader,), r)]
        call_ensures(StoredCommit::decode, (reader,), r) implies is_read(
        (*reader)@.rest(),
        1,
        r,
    ) && (*final(reader))@.bytes == (*reader)@.bytes && (r matches Ok(Some(c)) ==> (
    *final(reader))@.pos == (*reader)@.pos + 26 + c.records@.len()) by {
        lemma_is_read((*reader)@.rest(), 1, r);
    }
}

/// A commit that was encoded is read back, whatever follows it.
pub proof fn law_encoded_commit_is_read_back(
    s: Seq<u8>,
    rest: Seq<u8>,
    min_tx_offset: u64,
    epoch: u64,
    n: u16,
    records: Seq<u8>,
    r: Result<Option<StoredCommit>, Error>,
)
    requires
        is_something(min_tx_offset, epoch, n, records),
        is_stored_form(s, min_tx_offset, epoch, n, records),
    ensures
        forall|reader: &mut ByteReader|
            #![trigger call_ensures(StoredCommit::decode, (reader,), r)]
            call_ensures(StoredCommit::decode, (reader,), r) && (*reader)@.rest() == s + rest ==> {
                &&& r matches Ok(Some(c))
                &&& c.min_tx_offset == min_tx_offset
                &&& c.epoch == epoch
                &&& c.n == n
                &&& c.records@ == records
                &&& c.checksum == crc32c_of(s.take(22 + records.len() as int))
            },
{
    assert((s + rest).take(22) =~= s.take(22));
    lemma_prefix_is_no_end(s, min_tx_offset, epoch, n, records, s + rest);
    let all = s + rest;
    let end = 22 + records.len() as int;
    assert(all.subrange(0, 8) =~= s.subrange(0, 8));
    assert(all.subrange(8, 16) =~= s.subrange(8, 16));
    assert(all.subrange(16, 18) =~= s.subrange(16, 18));
    assert(all.subrange(18, 22) =~= s.subrange(18, 22));
    assert(all.subrange(22, end) =~= s.subrange(22, end));
    assert(all.take(end) =~= s.take(end));
    assert(all.subrange(end, end + 4) =~= s.subrange(end, end + 4));
    law_commit_is_read(1, r);
}

proof fn lemma_zero_value(t: Seq<u8>)
    requires
        forall|i: int| 0 <= i < t.len() ==> #[trigger] t[i] == 0,
    ensures
        le::le_value(t) == 0,
    decreases t.len(),
{
    if t.len() > 0 {
        lemma_zero_value(t.drop_first());
    }
}

/// Whether not all parts of a commit are zero. The bytes of one of which they are
/// look like the end of a segment.
pub open spec fn is_something(
    min_tx_offset: u64,
    epoch: u64,
    n: u16,
    records: Seq<u8>,
) -> bool {
    min_tx_offset > 0 || epoch > 0 || n > 0 || records.len() > 0
}

/// The bytes of a commit are not all zero.
proof fn lemma_prefix_is_no_end(
    s: Seq<u8>,
    min_tx_offset: u64,
    epoch: u64,
    n: u16,
    records: Seq<u8>,
    all: Seq<u8>,
)
    requires
        is_something(min_tx_offset, epoch, n, records),
        is_stored_form(s, min_tx_offset, epoch, n, records),
        all.len() >= 22,
        all.take(22) == s.take(22),
    ensures
        !is_end(all, 1),
{
    if forall|i: int| 0 <= i < 22 ==> #[trigger] all[i] == 0 {
        assert forall|i: int| 0 <= i < 22 implies #[trigger] s[i] == 0 by {
            assert(all.take(22)[i] == all[i]);
            assert(s.take(22)[i] == s[i]);
        }
        lemma_zero_value(s.subrange(0, 8));
        lemma_zero_value(s.subrange(8, 16));
        lemma_zero_value(s.subrange(16, 18));
        lemma_zero_value(s.subrange(18, 22));
    }
}

/// A commit of which the end is missing is an error. It does not look like the
/// end.
pub proof fn law_damaged_commit_is_an_error(
    s: Seq<u8>,
    min_tx_offset: u64,
    epoch: u64,
    n: u16,
    records: Seq<u8>,
    m: int,
    r: Result<Option<StoredCommit>, Error>,
)
    requires
        is_something(min_tx_offset, epoch, n, records),
        is_stored_form(s, min_tx_offset, epoch, n, records),
        22 <= m < s.len(),
    ensures
        forall|reader: &mut ByteReader|
            #![trigger call_ensures(StoredCommit::decode, (reader,), r)]
            call_ensures(StoredCommit::decode, (reader,), r) && (*reader)@.rest() == s.take(m)
                ==> (r matches Err(e) && e.kind == ErrorKind::UnexpectedEof),
{
    let t = s.take(m);
    assert(t.take(22) =~= s.take(22));
    lemma_prefix_is_no_end(s, min_tx_offset, epoch, n, records, t);
    assert(t.subrange(18, 22) =~= s.subrange(18, 22));
    law_commit_is_read(1, r);
}

/// The metadata of a commit say what is read of it.
pub proof fn law_metadata_of_commit(
    r: Result<Option<Metadata>, Error>,
    d: Result<Option<StoredCommit>, Error>,
    s: Seq<u8>,
)
    requires
        is_read(s, 1, d),
    ensures
        forall|reader: &mut ByteReader|
            #![trigger call_ensures(Metadata::extract, (reader,), r)]
            call_ensures(Metadata::extract, (reader,), r) && (*reader)@.rest() == s ==> match (d, r) {
                (Ok(None), Ok(None)) => true,
                (Ok(Some(c)), Ok(Some(m))) => {
                    &&& m.tx_range.start == c.min_tx_offset
                    &&& m.tx_range.end == c.min_tx_offset.wrapping_add(c.n as u64)
                    &&& m.size_in_bytes == 26 + c.records@.len()
                    &&& m.epoch == c.epoch
                    &&& m.checksum == c.checksum
                },
                (Err(e), Err(f)) => e.kind == f.kind,
                _ => false,
            },
{
    assert forall|reader: &mut ByteReader|
        #![trigger call_ensures(Metadata::extract, (reader,), r)]
        call_ensures(Metadata::extract, (reader,), r) && (*reader)@.rest() == s implies match (
            d,
            r,
        ) {
        (Ok(None), Ok(None)) => true,
        (Ok(Some(c)), Ok(Some(m))) => {
            &&& m.tx_range.start == c.min_tx_offset
            &&& m.tx_range.end == c.min_tx_offset.wrapping_add(c.n as u64)
            &&& m.size_in_bytes == 26 + c.records@.len()
            &&& m.epoch == c.epoch
            &&& m.checksum == c.checksum
        },
        (Err(e), Err(f)) => e.kind == f.kind,
        _ => false,
    } by {
        lemma_decoded(s);
    }
}

/// What decoding finds, in terms of the bytes.
pub proof fn lemma_decoded(s: Seq<u8>)
    ensures
        commit::decoded(s, 1) is End <==> is_end(s, 1),
        match commit::decoded(s, 1) {
            Decoded::End => true,
            Decoded::Truncated => s.len() < 22 + said_len(s, 1) + 4,
            Decoded::Mismatch => s.len() >= 22 + said_len(s, 1) + 4 && crc32c_of(
                s.take(22 + said_len(s, 1)),
            ) != le::le_value(s.subrange(22 + said_len(s, 1), 22 + said_len(s, 1) + 4)),
            Decoded::Commit(c, checksum) => {
                let end = 22 + said_len(s, 1);
                &&& s.len() >= end + 4
                &&& is_stored_form(
                    s.take(end + 4),
                    c.min_tx_offset,
                    c.epoch,
                    c.n,
                    c.records,
                )
                &&& c.records == s.subrange(22, end)
                &&& c.min_tx_offset == le::le_value(s.subrange(0, 8))
                &&& c.epoch == le::le_value(s.subrange(8, 16))
                &&& c.n == le::le_value(s.subrange(16, 18))
                &&& checksum == le::le_value(s.subrange(end, end + 4))
                &&& crc32c_of(s.take(end)) == checksum
            },
        },
{
    le::lemma_le_bounds();
    if s.len() >= 22 {
        let t = s.take(22);
        assert(commit::all_zeros(t) == forall|i: int| 0 <= i < 22 ==> #[trigger] s[i] == 0) by {
            if commit::all_zeros(t) {
                assert forall|i: int| 0 <= i < 22 implies #[trigger] s[i] == 0 by {
                    assert(t[i] == 0);
                }
            }
        }
        assert(t.subrange(0, 8) =~= s.subrange(0, 8));
        assert(t.subrange(8, 16) =~= s.subrange(8, 16));
        assert(t.subrange(16, 18) =~= s.subrange(16, 18));
        assert(t.subrange(18, 22) =~= s.subrange(18, 22));
        le::lemma_le_bytes_of_value(s.subrange(0, 8));
        le::lemma_le_bytes_of_value(s.subrange(8, 16));
        le::lemma_le_bytes_of_value(s.subrange(16, 18));
        le::lemma_le_bytes_of_value(s.subrange(18, 22));
        let end = 22 + said_len(s, 1);
        if s.len() >= end + 4 {
            le::lemma_le_bytes_of_value(s.subrange(end, end + 4));
            let u = s.take(end + 4);
            assert(u.subrange(0, 8) =~= s.subrange(0, 8));
            assert(u.subrange(8, 16) =~= s.subrange(8, 16));
            assert(u.subrange(16, 18) =~= s.subrange(16, 18));
            assert(u.subrange(18, 22) =~= s.subrange(18, 22));
            assert(u.subrange(22, end) =~= s.subrange(22, end));
            assert(u.take(end) =~= s.take(end));
            assert(u.subrange(end, end + 4) =~= s.subrange(end, end + 4));
        }
    }
}

/// Whether the commit `c` stands at the start of `s`, with its checksum behind it.
pub open spec fn starts_with(s: Seq<u8>, version: u8, c: CommitView) -> bool {
    let h = header_size(version);
    let end = h + c.records.len();
    &&& !is_end(s, version)
    &&& said_len(s, version) == c.records.len()
    &&& s.len() >= end + 4
    &&& c.min_tx_offset == le::le_value(s.subrange(0, 8))
    &&& c.epoch == if version == 0 {
        0
    } else {
        le::le_value(s.subrange(8, 16))
    }
    &&& c.n == if version == 0 {
        le::le_value(s.subrange(8, 10))
    } else {
        le::le_value(s.subrange(16, 18))
    }
    &&& c.records == s.subrange(h, end)
    &&& crc32c_of(s.take(end)) == le::le_value(s.subrange(end, end + 4))
}

/// Whether a commit starts in `s` of which the end is missing.
pub open spec fn is_torn(s: Seq<u8>, version: u8) -> bool {
    !is_end(s, version) && s.len() < header_size(version) + said_len(s, version) + 4
}

/// Whether a commit stands at the start of `s` whose checksum is wrong.
pub open spec fn is_damaged(s: Seq<u8>, version: u8) -> bool {
    let end = header_size(version) + said_len(s, version);
    !is_end(s, version) && s.len() >= end + 4 && crc32c_of(s.take(end)) != le::le_value(
        s.subrange(end, end + 4),
    )
}

/// Where the stored form of a commit stands, that commit starts.
pub proof fn law_stored_form_starts(
    s: Seq<u8>,
    rest: Seq<u8>,
    c: CommitView,
)
    requires
        is_something(c.min_tx_offset, c.epoch, c.n, c.records),
        is_stored_form(s, c.min_tx_offset, c.epoch, c.n, c.records),
    ensures
        starts_with(s + rest, 1, c),
{
    let all = s + rest;
    let end = 22 + c.records.len() as int;
    assert(all.take(22) =~= s.take(22));
    lemma_prefix_is_no_end(s, c.min_tx_offset, c.epoch, c.n, c.records, all);
    assert(all.subrange(0, 8) =~= s.subrange(0, 8));
    assert(all.subrange(8, 16) =~= s.subrange(8, 16));
    assert(all.subrange(16, 18) =~= s.subrange(16, 18));
    assert(all.subrange(18, 22) =~= s.subrange(18, 22));
    assert(all.subrange(22, end) =~= s.subrange(22, end));
    assert(all.take(end) =~= s.take(end));
    assert(all.subrange(end, end + 4) =~= s.subrange(end, end + 4));
}

/// Where a commit starts, its stored form stands.
pub proof fn law_commit_that_starts_is_stored(s: Seq<u8>, c: CommitView)
    requires
        starts_with(s, 1, c),
    ensures
        is_stored_form(
            s.take(26 + c.records.len() as int),
            c.min_tx_offset,
            c.epoch,
            c.n,
            c.records,
        ),
{
    let end = 22 + c.records.len() as int;
    let t = s.take(end + 4);
    assert(t.subrange(0, 8) =~= s.subrange(0, 8));
    assert(t.subrange(8, 16) =~= s.subrange(8, 16));
    assert(t.subrange(16, 18) =~= s.subrange(16, 18));
    assert(t.subrange(18, 22) =~= s.subrange(18, 22));
    assert(t.subrange(22, end) =~= s.subrange(22, end));
    assert(t.take(end) =~= s.take(end));
    assert(t.subrange(end, end + 4) =~= s.subrange(end, end + 4));
}

/// A commit that is cut off behind its header is torn.
pub proof fn law_cut_commit_is_torn(s: Seq<u8>, c: CommitView, m: int)
    requires
        is_something(c.min_tx_offset, c.epoch, c.n, c.records),
        is_stored_form(s, c.min_tx_offset, c.epoch, c.n, c.records),
        22 <= m < s.len(),
    ensures
        is_torn(s.take(m), 1),
{
    let t = s.take(m);
    assert(t.take(22) =~= s.take(22));
    lemma_prefix_is_no_end(s, c.min_tx_offset, c.epoch, c.n, c.records, t);
    assert(t.subrange(18, 22) =~= s.subrange(18, 22));
}

/// A commit with another checksum than its own is damaged.
pub proof fn law_wrong_checksum_is_damage(s: Seq<u8>, c: CommitView, all: Seq<u8>)
    requires
        is_something(c.min_tx_offset, c.epoch, c.n, c.records),
        is_stored_form(s, c.min_tx_offset, c.epoch, c.n, c.records),
        all.len() >= s.len(),
        all.take(s.len() - 4) == s.take(s.len() - 4),
        le::le_value(all.subrange(s.len() - 4, s.len() as int)) != le::le_value(
            s.subrange(s.len() - 4, s.len() as int),
        ),
    ensures
        is_damaged(all, 1),
{
    let end = 22 + c.records.len() as int;
    let t = all.take(end);
    assert(all.take(22) =~= t.take(22));
    assert(s.take(22) =~= s.take(end).take(22));
    lemma_prefix_is_no_end(s, c.min_tx_offset, c.epoch, c.n, c.records, all);
    assert(all.subrange(18, 22) =~= t.subrange(18, 22));
    assert(s.subrange(18, 22) =~= s.take(end).subrange(18, 22));
}

/// What decoding finds, in any version of the log format.
pub proof fn lemma_decoded_in(s: Seq<u8>, version: u8)
    ensures
        commit::decoded(s, version) is End <==> is_end(s, version),
        commit::decoded(s, version) is Truncated <==> is_torn(s, version),
        commit::decoded(s, version) is Mismatch <==> is_damaged(s, version),
        forall|c: CommitView| #[trigger]
            starts_with(s, version, c) <==> commit::decoded(s, version) is Commit && commit::decoded(
                s,
                version,
            )->Commit_0 == c,
{
    let h = header_size(version);
    le::lemma_le_bounds();
    if s.len() >= h {
        let t = s.take(h);
        assert(commit::all_zeros(t) == forall|i: int| 0 <= i < h ==> #[trigger] s[i] == 0) by {
            if commit::all_zeros(t) {
                assert forall|i: int| 0 <= i < h implies #[trigger] s[i] == 0 by {
                    assert(t[i] == 0);
                }
            }
        }
        assert(t.subrange(0, 8) =~= s.subrange(0, 8));
        le::lemma_le_bytes_of_value(s.subrange(0, 8));
        if version == 0 {
            assert(t.subrange(8, 10) =~= s.subrange(8, 10));
            assert(t.subrange(10, 14) =~= s.subrange(10, 14));
            le::lemma_le_bytes_of_value(s.subrange(8, 10));
            le::lemma_le_bytes_of_value(s.subrange(10, 14));
        } else {
            assert(t.subrange(8, 16) =~= s.subrange(8, 16));
            assert(t.subrange(16, 18) =~= s.subrange(16, 18));
            assert(t.subrange(18, 22) =~= s.subrange(18, 22));
            le::lemma_le_bytes_of_value(s.subrange(8, 16));
            le::lemma_le_bytes_of_value(s.subrange(16, 18));
            le::lemma_le_bytes_of_value(s.subrange(18, 22));
        }
        let end = h + said_len(s, version);
        if !is_end(s, version) && s.len() >= end + 4 {
            le::lemma_le_bytes_of_value(s.subrange(end, end + 4));
            if let Decoded::Commit(c, _) = commit::decoded(s, version) {
                assert(starts_with(s, version, c));
            }
        }
    }
    assert forall|c: CommitView| #[trigger]
        starts_with(s, version, c) implies commit::decoded(s, version) is Commit
        && commit::decoded(s, version)->Commit_0 == c by {
        let d = commit::decoded(s, version)->Commit_0;
        assert(d =~= c);
    }
}

/// A header is read where there are enough bytes that are not all zero.
pub proof fn law_header_is_read(r: Option<Header>)
    ensures
        forall|reader: &mut ByteReader|
            #![trigger call_ensures(Header::decode, (reader,), r)]
            call_ensures(Header::decode, (reader,), r) ==> {
                let s = (*reader)@.rest();
                &&& r is None <==> is_end(s, 1)
                &&& r matches Some(h) ==> {
                    &&& h.min_tx_offset == le::le_value(s.subrange(0, 8))
                    &&& h.epoch == le::le_value(s.subrange(8, 16))
                    &&& h.n == le::le_value(s.subrange(16, 18))
                    &&& h.len == le::le_value(s.subrange(18, 22))
                }
            },
{
    assert forall|reader: &mut ByteReader|
        #![trigger call_ensures(Header::decode, (reader,), r)]
        call_ensures(Header::decode, (reader,), r) implies ({
        let s = (*reader)@.rest();
        &&& r is None <==> is_end(s, 1)
        &&& r matches Some(h) ==> {
            &&& h.min_tx_offset == le::le_value(s.subrange(0, 8))
            &&& h.epoch == le::le_value(s.subrange(8, 16))
            &&& h.n == le::le_value(s.subrange(16, 18))
            &&& h.len == le::le_value(s.subrange(18, 22))
        }
    }) by {
        let s = (*reader)@.rest();
        le::lemma_le_bounds();
        if s.len() >= 22 {
            let t = s.take(22);
            assert(commit::all_zeros(t) == forall|i: int|
                0 <= i < 22 ==> #[trigger] s[i] == 0) by {
                if commit::all_zeros(t) {
                    assert forall|i: int| 0 <= i < 22 implies #[trigger] s[i] == 0 by {
                        assert(t[i] == 0);
                    }
                }
            }
            assert(t.subrange(0, 8) =~= s.subrange(0, 8));
            assert(t.subrange(8, 16) =~= s.subrange(8, 16));
            assert(t.subrange(16, 18) =~= s.subrange(16, 18));
            assert(t.subrange(18, 22) =~= s.subrange(18, 22));
            le::lemma_le_bytes_of_value(s.subrange(0, 8));
            le::lemma_le_bytes_of_value(s.subrange(8, 16));
            le::lemma_le_bytes_of_value(s.subrange(16, 18));
            le::lemma_le_bytes_of_value(s.subrange(18, 22));
        }
    }
}

/// The range of transactions and the size of a commit.
pub proof fn law_range_and_size(c: Commit, range: Range<u64>, len: usize)
    requires
        call_ensures(Commit::tx_range, (&c,), range),
        call_ensures(Commit::encoded_len, (&c,), len),
    ensures
        range.start == c.min_tx_offset,
        c.min_tx_offset + c.n <= u64::MAX ==> range.end == c.min_tx_offset + c.n,
        len == 26 + c.records@.len(),
{
}

/// A stored commit without its checksum is the commit.
pub proof fn law_stored_commit(stored: StoredCommit, range: Range<u64>, c: Commit)
    requires
        call_ensures(StoredCommit::tx_range, (&stored,), range),
        call_ensures(StoredCommit::into_commit, (stored,), c),
    ensures
        range.start == stored.min_tx_offset,
        stored.min_tx_offset + stored.n <= u64::MAX ==> range.end == stored.min_tx_offset
            + stored.n,
        c.min_tx_offset == stored.min_tx_offset,
        c.epoch == stored.epoch,
        c.n == stored.n,
        c.records@ == stored.records@,
{
}

} // verus!

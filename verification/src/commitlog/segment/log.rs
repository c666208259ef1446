//! What is read of what was written.

use vstd::prelude::*;

use crate::commitlog::commit;
use crate::commitlog::commit::{CommitView, Decoded, MetadataView};
use crate::commitlog::index;
use crate::commitlog::index::{Entry, IndexError};
use crate::commitlog::payload::{Decoder, Encode, RecordView};
use crate::commitlog::segment;
use crate::commitlog::segment::metadata;
use crate::commitlog::segment::metadata::{Scan, SegmentView};
use crate::commitlog::segment::offset_index::IndexWriterView;
use crate::commitlog::segment::reader;
use crate::commitlog::segment::reader::{TransactionView, Unread};
use crate::commitlog::segment::writer;
use crate::commitlog::segment::writer::WriterView;
use crate::commitlog::segment::{Header, Transaction};
use crate::io::ReaderView;

verus! {

/// The stored form of commits, one after the other.
pub open spec fn commits_bytes(commits: Seq<CommitView>) -> Seq<u8>
    decreases commits.len(),
{
    if commits.len() == 0 {
        Seq::empty()
    } else {
        commits_bytes(commits.drop_last()) + commits.last().bytes()
    }
}

/// The offset after that of the last transaction, where the first commit starts
/// at `start`.
pub open spec fn end_of(commits: Seq<CommitView>, start: u64) -> u64 {
    if commits.len() == 0 {
        start
    } else {
        commits.last().end()
    }
}

/// Whether the commits are not empty, and follow one another from `start` on.
pub open spec fn consecutive(commits: Seq<CommitView>, start: u64) -> bool
    decreases commits.len(),
{
    commits.len() == 0 || {
        let last = commits.last();
        &&& consecutive(commits.drop_last(), start)
        &&& last.min_tx_offset == end_of(commits.drop_last(), start)
        &&& last.min_tx_offset + last.n <= u64::MAX
        &&& last.n > 0
        &&& last.records.len() <= u32::MAX
    }
}

/// The commits that stand in `s`, in the current version of the log format.
/// `None` if one cannot be read.
pub open spec fn commits_in(s: Seq<u8>) -> Option<Seq<CommitView>>
    decreases s.len(),
{
    match commit::decoded(s, 1) {
        Decoded::End => Some(Seq::empty()),
        Decoded::Commit(c, _) => if c.encoded_len() > s.len() {
            None
        } else {
            match commits_in(s.skip(c.encoded_len() as int)) {
                Some(rest) => Some(seq![c] + rest),
                None => None,
            }
        },
        _ => None,
    }
}

proof fn lemma_commits_bytes_first(commits: Seq<CommitView>)
    requires
        commits.len() > 0,
    ensures
        commits_bytes(commits) == commits[0].bytes() + commits_bytes(commits.drop_first()),
    decreases commits.len(),
{
    if commits.len() == 1 {
        assert(commits.drop_last() =~= Seq::empty());
        assert(commits.drop_first() =~= Seq::empty());
        assert(commits_bytes(Seq::<CommitView>::empty()) =~= Seq::empty());
        assert(commits_bytes(commits) =~= commits[0].bytes() + commits_bytes(commits.drop_first()));
    } else {
        let front = commits.drop_last();
        lemma_commits_bytes_first(front);
        assert(front.drop_first() =~= commits.drop_first().drop_last());
        assert(commits_bytes(commits) =~= commits[0].bytes() + commits_bytes(commits.drop_first()));
    }
}

proof fn lemma_consecutive_at(commits: Seq<CommitView>, start: u64, i: int)
    requires
        consecutive(commits, start),
        0 <= i < commits.len(),
    ensures
        consecutive(commits.take(i), start),
        commits[i].min_tx_offset == end_of(commits.take(i), start),
        commits[i].min_tx_offset + commits[i].n <= u64::MAX,
        commits[i].n > 0,
        commits[i].records.len() <= u32::MAX,
    decreases commits.len(),
{
    let front = commits.drop_last();
    if i == commits.len() - 1 {
        assert(front =~= commits.take(i));
    } else {
        lemma_consecutive_at(front, start, i);
        assert(front.take(i) =~= commits.take(i));
    }
}

proof fn lemma_end(rest: Seq<u8>)
    requires
        commit::all_zeros(rest),
    ensures
        commit::decoded(rest, 1) is End,
{
}

/// What follows the first `k` commits in a segment.
proof fn lemma_commit_at(commits: Seq<CommitView>, start: u64, header: Header, rest: Seq<u8>, k: int)
    requires
        consecutive(commits, start),
        0 <= k <= commits.len(),
        commit::all_zeros(rest),
    ensures
        ({
            let bytes = header.bytes() + commits_bytes(commits) + rest;
            let pos = 10 + commits_bytes(commits.take(k)).len();
            &&& pos <= bytes.len()
            &&& (ReaderView { bytes, pos: pos as int }).rest() == commits_bytes(commits.skip(k))
                + rest
            &&& if k < commits.len() {
                metadata::commit_at(bytes, pos as int) == Decoded::Commit(
                    commits[k],
                    commits[k].checksum(),
                )
            } else {
                metadata::commit_at(bytes, pos as int) is End
            }
        }),
    decreases k,
{
    let bytes = header.bytes() + commits_bytes(commits) + rest;
    segment::law_header_roundtrip(header, Seq::empty());
    lemma_split(commits, k);
    let pos = 10 + commits_bytes(commits.take(k)).len() as int;
    let tail = (ReaderView { bytes, pos }).rest();
    assert(tail =~= commits_bytes(commits.skip(k)) + rest);
    if k < commits.len() {
        lemma_commits_bytes_first(commits.skip(k));
        lemma_consecutive_at(commits, start, k);
        let more = commits_bytes(commits.skip(k).drop_first()) + rest;
        assert(tail =~= commits[k].bytes() + more);
        commit::law_decode_gives_back_encoded_commit(commits[k], more);
    } else {
        assert(commits.skip(k) =~= Seq::empty());
        assert(tail =~= rest);
        lemma_end(rest);
    }
}

proof fn lemma_split(commits: Seq<CommitView>, k: int)
    requires
        0 <= k <= commits.len(),
    ensures
        commits_bytes(commits) == commits_bytes(commits.take(k)) + commits_bytes(commits.skip(k)),
    decreases k,
{
    if k == 0 {
        assert(commits.take(0) =~= Seq::empty());
        assert(commits.skip(0) =~= commits);
        assert(commits_bytes(commits) =~= commits_bytes(commits.take(k)) + commits_bytes(
            commits.skip(k),
        ));
    } else {
        lemma_split(commits, k - 1);
        lemma_commits_bytes_first(commits.skip(k - 1));
        assert(commits.skip(k - 1).drop_first() =~= commits.skip(k));
        assert(commits.take(k).drop_last() =~= commits.take(k - 1));
        assert(commits_bytes(commits) =~= commits_bytes(commits.take(k)) + commits_bytes(
            commits.skip(k),
        ));
    }
}

/// Reading the stored form of commits gives back the commits. Zeros may follow.
pub proof fn law_commits_are_read_back(commits: Seq<CommitView>, start: u64, rest: Seq<u8>)
    requires
        consecutive(commits, start),
        commit::all_zeros(rest),
    ensures
        commits_in(commits_bytes(commits) + rest) == Some(commits),
{
    lemma_commits_from(commits, start, rest, 0);
    assert(commits.skip(0) =~= commits);
}

/// What is read after the first `k` commits.
proof fn lemma_next_commit(commits: Seq<CommitView>, start: u64, rest: Seq<u8>, k: int)
    requires
        consecutive(commits, start),
        0 <= k < commits.len(),
    ensures
        ({
            let s = commits_bytes(commits.skip(k)) + rest;
            let c = commits[k];
            &&& commit::decoded(s, 1) == Decoded::Commit(c, c.checksum())
            &&& c.encoded_len() <= s.len()
            &&& s.skip(c.encoded_len() as int) == commits_bytes(commits.skip(k + 1)) + rest
        }),
{
    let s = commits_bytes(commits.skip(k)) + rest;
    let c = commits[k];
    let more = commits_bytes(commits.skip(k + 1)) + rest;
    lemma_commits_bytes_first(commits.skip(k));
    lemma_consecutive_at(commits, start, k);
    c.lemma_bytes_len();
    assert(commits.skip(k).drop_first() =~= commits.skip(k + 1));
    assert(s =~= c.bytes() + more);
    commit::law_decode_gives_back_encoded_commit(c, more);
    assert(s.skip(c.encoded_len() as int) =~= more);
}

proof fn lemma_commits_from(commits: Seq<CommitView>, start: u64, rest: Seq<u8>, k: int)
    requires
        consecutive(commits, start),
        commit::all_zeros(rest),
        0 <= k <= commits.len(),
    ensures
        commits_in(commits_bytes(commits.skip(k)) + rest) == Some(commits.skip(k)),
    decreases commits.len() - k,
{
    let s = commits_bytes(commits.skip(k)) + rest;
    if k < commits.len() {
        let c = commits[k];
        lemma_next_commit(commits, start, rest, k);
        lemma_commits_from(commits, start, rest, k + 1);
        assert(seq![c] + commits.skip(k + 1) =~= commits.skip(k));
    } else {
        assert(commits.skip(k) =~= Seq::empty());
        assert(s =~= rest);
        lemma_end(rest);
    }
}

/// The metadata of a segment that holds `commits`.
pub open spec fn summary(commits: Seq<CommitView>, start: u64, header: Header) -> SegmentView
    decreases commits.len(),
{
    if commits.len() == 0 {
        metadata::fresh(start, header)
    } else {
        let last = commits.last();
        summary(commits.drop_last(), start, header).extended(
            MetadataView::of(last, last.checksum()),
        )
    }
}

/// What the metadata of a segment says of its commits.
pub proof fn law_summary(commits: Seq<CommitView>, start: u64, header: Header)
    requires
        consecutive(commits, start),
    ensures
        ({
            let v = summary(commits, start, header);
            &&& v.header == header
            &&& v.start == start
            &&& v.end == end_of(commits, start)
            &&& v.size_in_bytes == Header::LEN + commits_bytes(commits).len()
            &&& forall|i: int|
                0 <= i < commits.len() ==> (#[trigger] commits[i]).epoch <= v.max_epoch
            &&& v.max_epoch == 0 || exists|i: int|
                0 <= i < commits.len() && (#[trigger] commits[i]).epoch == v.max_epoch
            &&& v.max_commit_offset == if commits.len() == 0 {
                start
            } else {
                commits.last().min_tx_offset
            }
            &&& v.max_commit == if commits.len() == 0 {
                None
            } else {
                Some(MetadataView::of(commits.last(), commits.last().checksum()))
            }
        }),
    decreases commits.len(),
{
    if commits.len() > 0 {
        let front = commits.drop_last();
        law_summary(front, start, header);
        commits.last().lemma_bytes_len();
        let u = summary(front, start, header);
        let v = summary(commits, start, header);
        assert forall|i: int| 0 <= i < commits.len() implies (#[trigger] commits[i]).epoch
            <= v.max_epoch by {
            if i < front.len() {
                assert(front[i].epoch <= u.max_epoch);
            }
        }
        if v.max_epoch != 0 {
            if v.max_epoch == commits.last().epoch {
                assert(commits[commits.len() - 1].epoch == v.max_epoch);
            } else {
                let i = choose|i: int|
                    0 <= i < front.len() && (#[trigger] front[i]).epoch == u.max_epoch;
                assert(commits[i].epoch == v.max_epoch);
            }
        }
    }
}

proof fn lemma_scan_from(
    commits: Seq<CommitView>,
    start: u64,
    header: Header,
    rest: Seq<u8>,
    k: int,
)
    requires
        consecutive(commits, start),
        commit::all_zeros(rest),
        0 <= k <= commits.len(),
    ensures
        metadata::scan(
            header.bytes() + commits_bytes(commits) + rest,
            summary(commits.take(k), start, header),
        ) == Scan::Done(summary(commits, start, header)),
    decreases commits.len() - k,
{
    let bytes = header.bytes() + commits_bytes(commits) + rest;
    let sofar = summary(commits.take(k), start, header);
    lemma_consecutive_take(commits, start, k);
    law_summary(commits.take(k), start, header);
    lemma_commit_at(commits, start, header, rest, k);
    if k < commits.len() {
        lemma_consecutive_at(commits, start, k);
        lemma_scan_from(commits, start, header, rest, k + 1);
        assert(commits.take(k + 1).drop_last() =~= commits.take(k));
        assert(commits.take(k + 1).last() == commits[k]);
    } else {
        assert(commits.take(k) =~= commits);
    }
}

proof fn lemma_consecutive_take(commits: Seq<CommitView>, start: u64, k: int)
    requires
        consecutive(commits, start),
        0 <= k <= commits.len(),
    ensures
        consecutive(commits.take(k), start),
{
    if k < commits.len() {
        lemma_consecutive_at(commits, start, k);
    } else {
        assert(commits.take(k) =~= commits);
    }
}

/// The metadata of a segment that holds `commits`, and maybe zeros after them,
/// is the summary of the commits.
pub proof fn law_metadata_is_the_summary(
    commits: Seq<CommitView>,
    start: u64,
    header: Header,
    rest: Seq<u8>,
)
    requires
        consecutive(commits, start),
        commit::all_zeros(rest),
    ensures
        metadata::scan(
            header.bytes() + commits_bytes(commits) + rest,
            metadata::fresh(start, header),
        ) == Scan::Done(summary(commits, start, header)),
{
    lemma_scan_from(commits, start, header, rest, 0);
    assert(commits.take(0) =~= Seq::empty());
}

/// Whether each entry stands for a commit of the segment, or else is found to
/// stand for none.
pub open spec fn leads_to_commits(
    entries: Seq<Entry>,
    commits: Seq<CommitView>,
    bytes: Seq<u8>,
) -> bool {
    forall|i: int|
        0 <= i < entries.len() ==> metadata::indexed_commit(bytes, #[trigger] entries[i]) is None
            || points_to_commit(entries[i], commits)
}

/// Whether the entry stands for one of the commits.
pub open spec fn points_to_commit(entry: Entry, commits: Seq<CommitView>) -> bool {
    exists|k: int| 0 <= k < commits.len() && #[trigger] is_entry_for(entry, commits, k)
}

/// Whether the entry holds the first offset and the position of the `k`-th
/// commit.
pub open spec fn is_entry_for(entry: Entry, commits: Seq<CommitView>, k: int) -> bool {
    &&& entry.key == commits[k].min_tx_offset
    &&& entry.value == position(commits, k)
}

/// The position of the `k`-th commit in a segment, or that after the last.
pub open spec fn position(commits: Seq<CommitView>, k: int) -> int {
    Header::LEN + commits_bytes(commits.take(k)).len()
}

/// Going through the commits from the `i`-th on comes to the `k`-th.
proof fn lemma_commit_is_reached(
    commits: Seq<CommitView>,
    start: u64,
    header: Header,
    rest: Seq<u8>,
    i: int,
    k: int,
)
    requires
        consecutive(commits, start),
        commit::all_zeros(rest),
        0 <= i <= k < commits.len(),
    ensures
        metadata::reaches(
            header.bytes() + commits_bytes(commits) + rest,
            summary(commits.take(i), start, header),
            Header::LEN + commits_bytes(commits.take(k)).len(),
        ),
    decreases k - i,
{
    lemma_consecutive_take(commits, start, i);
    law_summary(commits.take(i), start, header);
    if i < k {
        lemma_commit_at(commits, start, header, rest, i);
        lemma_consecutive_at(commits, start, i);
        assert(commits.take(i + 1).drop_last() =~= commits.take(i));
        assert(commits.take(i + 1).last() == commits[i]);
        lemma_commit_is_reached(commits, start, header, rest, i + 1, k);
    }
}

/// With an index each of whose entries either stands for a commit or is found to
/// stand for none, the metadata of a segment that holds `commits` is the summary
/// of the commits.
pub proof fn law_indexed_metadata_is_the_summary(
    commits: Seq<CommitView>,
    start: u64,
    header: Header,
    rest: Seq<u8>,
    entries: Seq<Entry>,
)
    requires
        consecutive(commits, start),
        commit::all_zeros(rest),
        index::ascending(entries),
        leads_to_commits(entries, commits, header.bytes() + commits_bytes(commits) + rest),
    ensures
        ({
            let bytes = header.bytes() + commits_bytes(commits) + rest;
            metadata::scan(bytes, metadata::known(start, header, bytes, Some(entries)))
                == Scan::Done(summary(commits, start, header))
        }),
{
    let bytes = header.bytes() + commits_bytes(commits) + rest;
    law_metadata_is_the_summary(commits, start, header, rest);
    assert(commits.take(0) =~= Seq::empty());
    assert forall|i: int| 0 <= i < entries.len() implies metadata::indexed_commit(
        bytes,
        #[trigger] entries[i],
    ) is None || metadata::reaches(
        bytes,
        metadata::fresh(start, header),
        entries[i].value as int,
    ) by {
        if metadata::indexed_commit(bytes, entries[i]) is Some {
            let k = choose|k: int|
                0 <= k < commits.len() && is_entry_for(entries[i], commits, k);
            lemma_commit_is_reached(commits, start, header, rest, 0, k);
        }
    }
    metadata::law_index_does_not_change_the_metadata(start, header, bytes, entries);
}

/// Commits end before those after them start.
proof fn lemma_commits_ascend(commits: Seq<CommitView>, start: u64, i: int, k: int)
    requires
        consecutive(commits, start),
        0 <= i < k < commits.len(),
    ensures
        commits[i].end() <= commits[k].min_tx_offset,
        commits[i].min_tx_offset < commits[k].min_tx_offset,
    decreases k - i,
{
    lemma_consecutive_at(commits, start, i);
    lemma_consecutive_at(commits, start, k);
    if i < k - 1 {
        lemma_commits_ascend(commits, start, i, k - 1);
        lemma_consecutive_at(commits, start, k - 1);
    }
}

/// Seeking to a transaction, where the index leads to the `k`-th commit, moves to
/// that commit. What is read from there on are this commit and all that follow
/// it. The commit does not start after the transaction that was asked for, and
/// those before it end before that transaction, so that none is missed.
pub proof fn law_seeking_leads_to_a_commit(
    commits: Seq<CommitView>,
    start: u64,
    header: Header,
    rest: Seq<u8>,
    entries: Seq<Entry>,
    asked: u64,
    k: int,
    before: ReaderView,
    r: Result<u64, IndexError>,
    after: ReaderView,
)
    requires
        consecutive(commits, start),
        commit::all_zeros(rest),
        index::ascending(entries),
        index::lookup(entries, asked) is Some,
        0 <= k < commits.len(),
        is_entry_for(index::lookup(entries, asked)->0, commits, k),
        before.bytes == header.bytes() + commits_bytes(commits) + rest,
        reader::sought(before, entries, asked, r, after),
    ensures
        ({
            let entry = index::lookup(entries, asked)->0;
            &&& r == Ok::<u64, IndexError>(entry.value)
            &&& after == before.at(entry.value as int)
            &&& commits_in(before.bytes.skip(entry.value as int)) == Some(commits.skip(k))
            &&& after.rest() == before.bytes.skip(entry.value as int)
        }),
        commits[k].min_tx_offset <= asked,
        forall|i: int| 0 <= i < k ==> (#[trigger] commits[i]).end() <= asked,
{
    let entry = index::lookup(entries, asked)->0;
    let bytes = before.bytes;
    index::law_lookup_finds_the_largest_key_below(entries, asked);
    lemma_commit_at(commits, start, header, rest, k);
    lemma_commits_from(commits, start, rest, k);
    let s = (ReaderView { bytes, pos: entry.value as int }).rest();
    assert(commit::decoded(s, 1) == Decoded::Commit(commits[k], commits[k].checksum()));
    lemma_decoded_header(s);
    assert forall|i: int| 0 <= i < k implies (#[trigger] commits[i]).end() <= asked by {
        lemma_commits_ascend(commits, start, i, k);
    }
}

/// The header of a commit that was read.
proof fn lemma_decoded_header(s: Seq<u8>)
    ensures
        commit::decoded(s, 1) matches Decoded::Commit(c, _) ==> {
            &&& commit::Header::first_in(s, 1) matches Some(h)
            &&& h.min_tx_offset == c.min_tx_offset
        },
{
}

/// Whether the segment and the buffer of a writer hold the header and the
/// commits, and nothing else. The buffer starts with a commit.
pub open spec fn holds(w: WriterView, header: Header, commits: Seq<CommitView>) -> bool {
    &&& w.bytes_written <= w.contents.len()
    &&& w.contents.take(w.bytes_written as int) + w.buffered == header.bytes() + commits_bytes(
        commits,
    )
    &&& exists|i: int| 0 <= i <= commits.len() && w.bytes_written == #[trigger] position(commits, i)
    &&& consecutive(commits, w.min_tx_offset)
    &&& w.next_tx_offset == end_of(commits, w.min_tx_offset)
}

/// A writer to a segment that holds just a header holds no commits.
pub proof fn law_new_segment_holds_no_commits(w: WriterView, header: Header)
    requires
        w.contents == header.bytes(),
        w.bytes_written == Header::LEN,
        w.buffered.len() == 0,
        w.next_tx_offset == w.min_tx_offset,
    ensures
        holds(w, header, Seq::empty()),
{
    segment::law_header_roundtrip(header, Seq::empty());
    assert(w.contents.take(10) + w.buffered =~= header.bytes() + commits_bytes(Seq::empty()));
    let none = Seq::<CommitView>::empty();
    assert(none.take(0) =~= none);
    assert(w.bytes_written == position(none, 0));
}

/// A commit adds to what a writer holds.
pub proof fn law_commit_is_added(
    w: WriterView,
    header: Header,
    commits: Seq<CommitView>,
    commit: CommitView,
)
    requires
        holds(w, header, commits),
        commit.min_tx_offset == w.next_tx_offset,
        commit.n > 0,
        w.next_tx_offset + commit.n <= u64::MAX,
        commit.records.len() <= u32::MAX,
    ensures
        holds(w.committed(commit), header, commits.push(commit)),
{
    assert(commits.push(commit).drop_last() =~= commits);
    let front = w.contents.take(w.bytes_written as int);
    assert(front + (w.buffered + commit.bytes()) =~= (front + w.buffered) + commit.bytes());
    assert(header.bytes() + (commits_bytes(commits) + commit.bytes()) =~= (header.bytes()
        + commits_bytes(commits)) + commit.bytes());
    let i = choose|i: int|
        0 <= i <= commits.len() && w.bytes_written == #[trigger] position(commits, i);
    assert(commits.push(commit).take(i) =~= commits.take(i));
    assert(w.bytes_written == position(commits.push(commit), i));
}

/// Writing the buffer to the segment keeps what a writer holds. All of it is in
/// the segment then.
pub proof fn law_flush_keeps_commits(w: WriterView, header: Header, commits: Seq<CommitView>)
    requires
        holds(w, header, commits),
    ensures
        holds(w.flushed(), header, commits),
        w.flushed().contents.take(w.flushed().bytes_written as int) == header.bytes()
            + commits_bytes(commits),
{
    let after = w.flushed();
    assert(after.contents.take(after.bytes_written as int) =~= w.contents.take(
        w.bytes_written as int,
    ) + w.buffered);
    assert(after.contents.take(after.bytes_written as int) + after.buffered
        =~= after.contents.take(after.bytes_written as int));
    segment::law_header_roundtrip(header, Seq::empty());
    assert(commits.take(commits.len() as int) =~= commits);
    assert(after.bytes_written == position(commits, commits.len() as int));
}

/// Telling the index of a commit changes nothing of what a writer holds.
pub proof fn law_index_keeps_commits(
    w: WriterView,
    header: Header,
    commits: Seq<CommitView>,
    commit: CommitView,
    byte_offset: nat,
)
    requires
        holds(w, header, commits),
    ensures
        holds(w.indexed(commit, byte_offset), header, commits),
{
}

/// Whether the entry holds the position of a commit, and the first offset of that
/// commit or of one after it.
pub open spec fn leads_up_to_commit(entry: Entry, commits: Seq<CommitView>) -> bool {
    exists|i: int, k: int|
        #![trigger position(commits, i), commits[k]]
        0 <= i <= k < commits.len() && entry.value == position(commits, i) && entry.key
            == commits[k].min_tx_offset
}

/// Whether each entry of an index, and the one that is to be appended next, leads
/// up to one of the commits.
pub open spec fn leads_up_to(index: IndexWriterView, commits: Seq<CommitView>) -> bool {
    &&& forall|i: int|
        0 <= i < index.head.entries.len() ==> leads_up_to_commit(
            #[trigger] index.head.entries[i],
            commits,
        )
    &&& index.candidate_min_tx_offset != 0 ==> leads_up_to_commit(
        Entry { key: index.candidate_min_tx_offset, value: index.candidate_byte_offset },
        commits,
    )
}

proof fn lemma_leads_up_to_commit_push(entry: Entry, commits: Seq<CommitView>, commit: CommitView)
    requires
        leads_up_to_commit(entry, commits),
    ensures
        leads_up_to_commit(entry, commits.push(commit)),
{
    let (i, k) = choose|i: int, k: int|
        #![trigger position(commits, i), commits[k]]
        0 <= i <= k < commits.len() && entry.value == position(commits, i) && entry.key
            == commits[k].min_tx_offset;
    let all = commits.push(commit);
    assert(all.take(i) =~= commits.take(i));
    assert(entry.value == position(all, i));
    assert(entry.key == all[k].min_tx_offset);
}

/// The entries of the index of a writer lead up to commits of the segment:
/// committing keeps it so, whether or not the buffer is written and the index
/// told of the commit, and so does taking note that the index was written to
/// storage. Where nothing was in the buffer, what the index is told stands for
/// the commit itself.
pub proof fn law_index_entries_lead_up_to_commits(
    w: WriterView,
    header: Header,
    commits: Seq<CommitView>,
    commit: CommitView,
)
    requires
        w.wf(),
        holds(w, header, commits),
        commit.min_tx_offset == w.next_tx_offset,
        w.index matches Some(index) && leads_up_to(index, commits),
    ensures
        leads_up_to(w.committed(commit).index->0, commits.push(commit)),
        ({
            let indexed = w.committed(commit).flushed().indexed(commit, w.bytes_written);
            indexed.index matches Some(index) && leads_up_to(index, commits.push(commit))
        }),
        leads_up_to(w.index->0.reset(), commits),
        w.buffered.len() == 0 ==> is_entry_for(
            Entry { key: commit.min_tx_offset, value: w.bytes_written as u64 },
            commits.push(commit),
            commits.len() as int,
        ),
{
    let index = w.index->0;
    let all = commits.push(commit);
    let entries = index.head.entries;
    assert forall|i: int| 0 <= i < entries.len() implies leads_up_to_commit(
        #[trigger] entries[i],
        all,
    ) by {
        lemma_leads_up_to_commit_push(entries[i], commits, commit);
    }
    if index.candidate_min_tx_offset != 0 {
        lemma_leads_up_to_commit_push(
            Entry { key: index.candidate_min_tx_offset, value: index.candidate_byte_offset },
            commits,
            commit,
        );
    }
    let offset = w.bytes_written as u64;
    let front = w.contents.take(w.bytes_written as int);
    segment::law_header_roundtrip(header, Seq::empty());
    assert((front + w.buffered).len() == w.bytes_written + w.buffered.len());
    assert(all.take(commits.len() as int) =~= commits);
    let own = Entry { key: commit.min_tx_offset, value: offset };
    assert(leads_up_to_commit(own, all)) by {
        let i = choose|i: int|
            0 <= i <= commits.len() && w.bytes_written == #[trigger] position(commits, i);
        assert(all.take(i) =~= commits.take(i));
        assert(own.value == position(all, i));
        assert(own.key == all[commits.len() as int].min_tx_offset);
    }
    let noted = index.noted(commit.min_tx_offset, offset, commit.encoded_len() as u64);
    assert(noted.candidate_min_tx_offset != 0 ==> leads_up_to_commit(
        Entry { key: noted.candidate_min_tx_offset, value: noted.candidate_byte_offset },
        all,
    ));
    let after = noted.appended().head.entries;
    assert forall|i: int| 0 <= i < after.len() implies leads_up_to_commit(
        #[trigger] after[i],
        all,
    ) by {
        if i < entries.len() {
            assert(after[i] == entries[i]);
        }
    }
}

/// An entry with the position of one commit and the offset of a later one is
/// found to stand for none.
proof fn lemma_leads_to_commits(
    commits: Seq<CommitView>,
    start: u64,
    header: Header,
    rest: Seq<u8>,
    entry: Entry,
)
    requires
        consecutive(commits, start),
        commit::all_zeros(rest),
        leads_up_to_commit(entry, commits),
    ensures
        metadata::indexed_commit(header.bytes() + commits_bytes(commits) + rest, entry) is None
            || points_to_commit(entry, commits),
{
    let (i, k) = choose|i: int, k: int|
        #![trigger position(commits, i), commits[k]]
        0 <= i <= k < commits.len() && entry.value == position(commits, i) && entry.key
            == commits[k].min_tx_offset;
    lemma_commit_at(commits, start, header, rest, i);
    if i < k {
        lemma_commits_ascend(commits, start, i, k);
    } else {
        assert(is_entry_for(entry, commits, k));
    }
}

/// The index that a writer made does not change what is found of the segment
/// that it wrote.
pub proof fn law_index_of_writer_does_not_change_the_metadata(
    w: WriterView,
    header: Header,
    commits: Seq<CommitView>,
)
    requires
        w.wf(),
        holds(w, header, commits),
        w.buffered.len() == 0,
        commit::all_zeros(w.contents.skip(w.bytes_written as int)),
        w.index matches Some(index) && leads_up_to(index, commits),
    ensures
        metadata::scan(
            w.contents,
            metadata::known(
                w.min_tx_offset,
                header,
                w.contents,
                Some(w.index->0.head.entries),
            ),
        ) == Scan::Done(summary(commits, w.min_tx_offset, header)),
{
    let rest = w.contents.skip(w.bytes_written as int);
    assert(w.contents.take(w.bytes_written as int) + w.buffered =~= w.contents.take(
        w.bytes_written as int,
    ));
    assert(w.contents =~= w.contents.take(w.bytes_written as int) + rest);
    assert(w.contents =~= header.bytes() + commits_bytes(commits) + rest);
    let entries = w.index->0.head.entries;
    assert forall|i: int| 0 <= i < entries.len() implies metadata::indexed_commit(
        w.contents,
        #[trigger] entries[i],
    ) is None || points_to_commit(entries[i], commits) by {
        lemma_leads_to_commits(commits, w.min_tx_offset, header, rest, entries[i]);
    }
    law_indexed_metadata_is_the_summary(
        commits,
        w.min_tx_offset,
        header,
        rest,
        w.index->0.head.entries,
    );
}

/// Reading a segment to which a writer has written gives back the commits, and
/// nothing else. Zeros may follow what was written.
pub proof fn law_written_segment_is_read_back(
    w: WriterView,
    header: Header,
    commits: Seq<CommitView>,
)
    requires
        holds(w, header, commits),
        w.buffered.len() == 0,
        commit::all_zeros(w.contents.skip(w.bytes_written as int)),
    ensures
        Header::first_in(w.contents) == Some(header),
        commits_in(w.contents.skip(Header::LEN as int)) == Some(commits),
        metadata::scan(w.contents, metadata::fresh(w.min_tx_offset, header)) == Scan::Done(
            summary(commits, w.min_tx_offset, header),
        ),
{
    let rest = w.contents.skip(w.bytes_written as int);
    segment::law_header_roundtrip(header, commits_bytes(commits) + rest);
    assert(w.contents.take(w.bytes_written as int) + w.buffered =~= w.contents.take(
        w.bytes_written as int,
    ));
    assert(w.contents =~= w.contents.take(w.bytes_written as int) + rest);
    assert(w.contents =~= header.bytes() + (commits_bytes(commits) + rest));
    assert(w.contents =~= header.bytes() + commits_bytes(commits) + rest);
    assert(w.contents.skip(10) =~= commits_bytes(commits) + rest);
    law_commits_are_read_back(commits, w.min_tx_offset, rest);
    law_metadata_is_the_summary(commits, w.min_tx_offset, header, rest);
}

proof fn lemma_records_of_first<T: Encode>(transactions: Seq<Transaction<T>>)
    requires
        transactions.len() > 0,
    ensures
        writer::records_of(transactions) == transactions[0].txdata.record() + writer::records_of(
            transactions.drop_first(),
        ),
    decreases transactions.len(),
{
    let all = writer::records_of(transactions);
    let first = transactions[0].txdata.record();
    if transactions.len() == 1 {
        assert(transactions.drop_last() =~= Seq::empty());
        assert(transactions.drop_first() =~= Seq::empty());
        assert(writer::records_of(Seq::<Transaction<T>>::empty()) =~= Seq::empty());
        assert(all =~= first + writer::records_of(transactions.drop_first()));
    } else {
        let front = transactions.drop_last();
        lemma_records_of_first(front);
        assert(front.drop_first() =~= transactions.drop_first().drop_last());
        assert(all =~= first + writer::records_of(transactions.drop_first()));
    }
}

/// Whether `de` decodes the payload of each transaction as the respective one of
/// `records`, whatever follows the payload.
pub open spec fn decodes<T: Encode, D: Decoder>(
    de: D,
    transactions: Seq<Transaction<T>>,
    records: Seq<RecordView<D>>,
) -> bool {
    &&& records.len() == transactions.len()
    &&& forall|j: int, rest: Seq<u8>|
        0 <= j < transactions.len() ==> #[trigger] de.decoded(
            1,
            transactions[j].offset,
            transactions[j].txdata.record() + rest,
        ) == Some((records[j], transactions[j].txdata.record().len()))
}

/// Transactions with the given payloads.
pub open spec fn with_records<T, V>(
    transactions: Seq<Transaction<T>>,
    records: Seq<V>,
) -> Seq<TransactionView<V>> {
    Seq::new(
        transactions.len(),
        |i: int| TransactionView { offset: transactions[i].offset, txdata: records[i] },
    )
}

proof fn lemma_payloads_in<T: Encode, D: Decoder>(
    de: D,
    transactions: Seq<Transaction<T>>,
    records: Seq<RecordView<D>>,
    next: u64,
)
    requires
        writer::in_order(transactions, next),
        next + transactions.len() <= u64::MAX,
        decodes(de, transactions, records),
    ensures
        reader::payloads_in(
            de,
            1,
            next as int,
            next + transactions.len(),
            writer::records_of(transactions),
        ) == Ok::<Seq<TransactionView<RecordView<D>>>, Unread>(
            with_records(transactions, records),
        ),
    decreases transactions.len(),
{
    let all = with_records(transactions, records);
    if transactions.len() == 0 {
        assert(all =~= Seq::empty());
    } else {
        let rest = transactions.drop_first();
        let tail = records.drop_first();
        let first = transactions[0].txdata.record();
        let s = writer::records_of(transactions);
        lemma_records_of_first(transactions);
        assert(transactions[0].offset == next);
        assert(de.decoded(1, transactions[0].offset, first + writer::records_of(rest)) == Some(
            (records[0], first.len()),
        ));
        assert(s.skip(first.len() as int) =~= writer::records_of(rest));
        assert forall|i: int| 0 <= i < rest.len() implies (#[trigger] rest[i]).offset == next + 1
            + i by {
            assert(transactions[i + 1].offset == next + (i + 1));
        }
        assert forall|j: int, more: Seq<u8>| 0 <= j < rest.len() implies #[trigger] de.decoded(
            1,
            rest[j].offset,
            rest[j].txdata.record() + more,
        ) == Some((tail[j], rest[j].txdata.record().len())) by {
            let k = j + 1;
            assert(de.decoded(
                1,
                transactions[k].offset,
                transactions[k].txdata.record() + more,
            ) == Some((records[k], transactions[k].txdata.record().len())));
        }
        lemma_payloads_in(de, rest, tail, (next + 1) as u64);
        assert(seq![TransactionView { offset: next, txdata: records[0] }] + with_records(
            rest,
            tail,
        ) =~= all);
    }
}

/// The transactions of which a writer makes a commit are those that are read of
/// it, by a decoder that gives back the payloads from their bytes.
pub proof fn law_commit_consists_of_its_transactions<T: Encode, D: Decoder>(
    w: WriterView,
    transactions: Seq<Transaction<T>>,
    de: D,
    records: Seq<RecordView<D>>,
)
    requires
        writer::in_order(transactions, w.next_tx_offset),
        transactions.len() <= u16::MAX,
        w.next_tx_offset + transactions.len() <= u64::MAX,
        decodes(de, transactions, records),
    ensures
        reader::transactions_of(de, 1, w.commit_of(transactions)) == Ok::<
            Seq<TransactionView<RecordView<D>>>,
            Unread,
        >(with_records(transactions, records)),
{
    lemma_payloads_in(de, transactions, records, w.next_tx_offset);
}

/// The transactions of commits, one commit after the other. `None` if one cannot
/// be decoded.
pub open spec fn flattened<D: Decoder>(de: D, commits: Seq<CommitView>) -> Option<
    Seq<TransactionView<RecordView<D>>>,
>
    decreases commits.len(),
{
    if commits.len() == 0 {
        Some(Seq::empty())
    } else {
        match (reader::transactions_of(de, 1, commits[0]), flattened(de, commits.drop_first())) {
            (Ok(first), Some(rest)) => Some(first + rest),
            _ => None,
        }
    }
}

/// Reading the transactions of a segment gives those of its commits, in order.
/// Zeros may follow the commits.
pub proof fn law_transactions_are_read_back<D: Decoder>(
    de: D,
    commits: Seq<CommitView>,
    start: u64,
    rest: Seq<u8>,
)
    requires
        consecutive(commits, start),
        commit::all_zeros(rest),
        flattened(de, commits) is Some,
    ensures
        reader::transactions_in(de, commits_bytes(commits) + rest, 1) == Ok::<
            Seq<TransactionView<RecordView<D>>>,
            Unread,
        >(flattened(de, commits)->0),
{
    assert(commits.skip(0) =~= commits);
    lemma_transactions_from(de, commits, start, rest, 0);
}

proof fn lemma_transactions_from<D: Decoder>(
    de: D,
    commits: Seq<CommitView>,
    start: u64,
    rest: Seq<u8>,
    k: int,
)
    requires
        consecutive(commits, start),
        commit::all_zeros(rest),
        0 <= k <= commits.len(),
        flattened(de, commits.skip(k)) is Some,
    ensures
        reader::transactions_in(de, commits_bytes(commits.skip(k)) + rest, 1) == Ok::<
            Seq<TransactionView<RecordView<D>>>,
            Unread,
        >(flattened(de, commits.skip(k))->0),
    decreases commits.len() - k,
{
    let s = commits_bytes(commits.skip(k)) + rest;
    if k < commits.len() {
        lemma_next_commit(commits, start, rest, k);
        assert(commits.skip(k).drop_first() =~= commits.skip(k + 1));
        lemma_transactions_from(de, commits, start, rest, k + 1);
    } else {
        assert(commits.skip(k) =~= Seq::empty());
        assert(s =~= rest);
        lemma_end(rest);
    }
}

} // verus!

//! Writing to a segment.

use bytes::BytesMut;
use vstd::prelude::*;

use crate::commitlog::buffer;
use crate::commitlog::commit::{Commit, CommitView};
use crate::commitlog::index::IndexError;
use crate::commitlog::payload::Encode;
use crate::commitlog::repo;
use crate::commitlog::repo::SegmentWriter;
use crate::commitlog::segment::offset_index::IndexWriterView;
use crate::commitlog::segment::{Committed, Header, OffsetIndexWriter, Transaction, WriterParams};
use crate::io::{Error, ErrorKind};
use crate::text;

verus! {

/// A commit could not be written.
#[derive(Debug)]
pub enum CommitError {
    /// A transaction does not have the offset that comes next. Nothing was
    /// committed.
    Offset(Error),
    /// Writing the buffer to the segment failed, and the buffer is lost.
    Flush(Error),
}

/// Writes commits to a segment.
///
/// Commits are collected in a buffer, which is written to the segment when it
/// has grown to a given size.
#[derive(Debug)]
pub struct Writer<W: SegmentWriter> {
    commit: Commit,
    inner: W,
    buf: BytesMut,
    min_tx_offset: u64,
    bytes_written: u64,
    flush_buffer: u64,
    offset_index_head: Option<OffsetIndexWriter>,
    index_appended: bool,
}

/// The state of a [Writer].
#[verifier::ext_equal]
pub struct WriterView {
    /// The offset of the next transaction.
    pub next_tx_offset: u64,
    pub epoch: u64,
    /// The bytes of the segment.
    pub contents: Seq<u8>,
    /// What is committed, but not written to the segment.
    pub buffered: Seq<u8>,
    pub min_tx_offset: u64,
    /// The size of the part of the segment that is written.
    pub bytes_written: nat,
    pub flush_buffer: u64,
    pub index: Option<IndexWriterView>,
    /// Whether the last commit appended an entry to the index.
    pub index_appended: bool,
}

/// The payloads, one after the other.
pub open spec fn records_of<T: Encode>(transactions: Seq<Transaction<T>>) -> Seq<u8>
    decreases transactions.len(),
{
    if transactions.len() == 0 {
        Seq::empty()
    } else {
        records_of(transactions.drop_last()) + transactions.last().txdata.record()
    }
}

/// Whether the transactions have the offsets from `next` on.
pub open spec fn in_order<T>(transactions: Seq<Transaction<T>>, next: u64) -> bool {
    forall|i: int|
        0 <= i < transactions.len() ==> (#[trigger] transactions[i]).offset == next + i
}

/// The number of the first transactions that have the offsets from `next` on.
pub open spec fn in_order_count<T>(transactions: Seq<Transaction<T>>, next: u64) -> nat
    decreases transactions.len(),
{
    if in_order(transactions, next) {
        transactions.len()
    } else {
        in_order_count(transactions.drop_last(), next)
    }
}

proof fn lemma_in_order_count<T>(transactions: Seq<Transaction<T>>, next: u64, n: int)
    requires
        0 <= n < transactions.len(),
        in_order(transactions.take(n), next),
        transactions[n].offset != next + n,
    ensures
        in_order_count(transactions, next) == n,
        !in_order(transactions, next),
    decreases transactions.len(),
{
    assert(!in_order(transactions, next)) by {
        assert(transactions[n].offset != next + n);
    }
    let front = transactions.drop_last();
    if n == transactions.len() - 1 {
        assert(front =~= transactions.take(n));
        reveal_with_fuel(in_order_count, 2);
    } else {
        assert(front.take(n) =~= transactions.take(n));
        lemma_in_order_count(front, next, n);
    }
}

/// The first transactions that have the offsets from `next` on are no more than
/// those that do.
proof fn lemma_in_order_take<T>(transactions: Seq<Transaction<T>>, next: u64, n: int)
    requires
        0 <= n <= transactions.len(),
        in_order(transactions.take(n), next),
    ensures
        n <= in_order_count(transactions, next),
    decreases transactions.len(),
{
    if !in_order(transactions, next) {
        if n == transactions.len() {
            assert(transactions.take(n) =~= transactions);
        }
        assert(transactions.drop_last().take(n) =~= transactions.take(n));
        lemma_in_order_take(transactions.drop_last(), next, n);
    }
}

impl WriterView {
    /// The commit that `transactions` make up.
    pub open spec fn commit_of<T: Encode>(self, transactions: Seq<Transaction<T>>) -> CommitView {
        CommitView {
            min_tx_offset: self.next_tx_offset,
            epoch: self.epoch,
            n: transactions.len() as u16,
            records: records_of(transactions),
        }
    }

    /// The state after a commit was added to the buffer.
    pub open spec fn committed(self, commit: CommitView) -> Self {
        WriterView {
            next_tx_offset: commit.end(),
            buffered: self.buffered + commit.bytes(),
            ..self
        }
    }

    /// Whether the buffer is to be written to the segment.
    pub open spec fn should_flush(self) -> bool {
        self.buffered.len() >= self.flush_buffer
    }

    /// The state after the buffer was written to the segment.
    pub open spec fn flushed(self) -> Self {
        WriterView {
            contents: repo::overwritten(self.contents, self.buffered, self.bytes_written as int),
            bytes_written: self.bytes_written + self.buffered.len(),
            buffered: Seq::empty(),
            ..self
        }
    }

    /// The state after the buffer could not be written to the segment, which
    /// may have changed to `contents`.
    pub open spec fn lost(self, contents: Seq<u8>) -> Self {
        WriterView { contents, buffered: Seq::empty(), ..self }
    }

    /// The state after the index was told of a commit that was written with the
    /// buffer that starts at `byte_offset`. That the index cannot be appended
    /// to is no error.
    pub open spec fn indexed(self, commit: CommitView, byte_offset: nat) -> Self {
        match self.index {
            Some(index) => {
                let noted = index.noted(
                    commit.min_tx_offset,
                    byte_offset as u64,
                    commit.encoded_len() as u64,
                );
                WriterView {
                    index: Some(
                        index.after_commit(
                            commit.min_tx_offset,
                            byte_offset as u64,
                            commit.encoded_len() as u64,
                        ),
                    ),
                    index_appended: !index.require_segment_fsync && noted.append_result() == Ok::<
                        bool,
                        IndexError,
                    >(true),
                    ..self
                }
            },
            None => self,
        }
    }

    pub open spec fn wf(self) -> bool {
        &&& self.bytes_written + self.buffered.len() <= u64::MAX
        &&& self.index matches Some(index) ==> index.head.wf()
    }

    /// Whether a commit of `n` bytes is no more than the buffer and the segment
    /// can hold, and the index can count.
    pub open spec fn has_room(self, n: nat) -> bool {
        &&& self.buffered.len() + n <= isize::MAX
        &&& self.bytes_written + self.buffered.len() + n <= u64::MAX
        &&& self.index matches Some(index) ==> index.bytes_since_last_index + n <= u64::MAX
    }
}

impl<W: SegmentWriter> View for Writer<W> {
    type V = WriterView;

    closed spec fn view(&self) -> WriterView {
        WriterView {
            next_tx_offset: self.commit.min_tx_offset,
            epoch: self.commit.epoch,
            contents: self.inner.contents(),
            buffered: buffer::contents(self.buf),
            min_tx_offset: self.min_tx_offset,
            bytes_written: self.bytes_written as nat,
            flush_buffer: self.flush_buffer,
            index: match self.offset_index_head {
                Some(index) => Some(index@),
                None => None,
            },
            index_appended: self.index_appended,
        }
    }
}

impl<W: SegmentWriter> Writer<W> {
    pub closed spec fn wf(self) -> bool {
        &&& self@.wf()
        &&& self.commit.n == 0
    }

    /// The segment.
    pub closed spec fn segment(self) -> W {
        self.inner
    }

    pub fn new(inner: W, offset_index_head: Option<OffsetIndexWriter>, params: WriterParams) -> (r:
        Self)
        requires
            offset_index_head matches Some(index) ==> index.wf(),
        ensures
            r.wf(),
            r.segment() == inner,
            r@ == (WriterView {
                next_tx_offset: params.next_tx_offset,
                epoch: params.epoch,
                contents: inner.contents(),
                buffered: Seq::empty(),
                min_tx_offset: params.min_tx_offset,
                bytes_written: params.bytes_written as nat,
                flush_buffer: params.flush_buffer,
                index: match offset_index_head {
                    Some(index) => Some(index@),
                    None => None,
                },
                index_appended: false,
            }),
    {
        Self {
            commit: Commit {
                min_tx_offset: params.next_tx_offset,
                n: 0,
                records: Vec::new(),
                epoch: params.epoch,
            },
            inner,
            buf: buffer::new_buffer(),
            min_tx_offset: params.min_tx_offset,
            bytes_written: params.bytes_written,
            flush_buffer: params.flush_buffer,
            offset_index_head,
            index_appended: false,
        }
    }

    /// Commits `transactions`, which must have the offsets that come next.
    ///
    /// Returns `None` if there are no transactions.
    pub fn commit<T: Encode>(&mut self, transactions: Vec<Transaction<T>>) -> (r: Result<
        Option<Committed>,
        CommitError,
    >)
        requires
            old(self).wf(),
            // The maximum number of transactions in a single commit.
            in_order_count(transactions@, old(self)@.next_tx_offset) <= u16::MAX,
            old(self)@.next_tx_offset + in_order_count(transactions@, old(self)@.next_tx_offset)
                <= u64::MAX,
            in_order(transactions@, old(self)@.next_tx_offset) ==> records_of(transactions@).len()
                <= u32::MAX && old(self)@.has_room(26 + records_of(transactions@).len()),
        ensures
            final(self).wf(),
            ({
                let before = WriterView { index_appended: false, ..old(self)@ };
                let after = final(self)@;
                let n = in_order_count(transactions@, before.next_tx_offset);
                if n < transactions@.len() {
                    &&& after == before
                    &&& r matches Err(CommitError::Offset(e))
                    &&& e.is(
                        ErrorKind::InvalidInput,
                        "invalid transaction offset "@ + text::decimal(
                            transactions@[n as int].offset as nat,
                        ) + ", expected "@ + text::decimal((before.next_tx_offset + n) as nat),
                    )
                } else if n == 0 {
                    &&& after == before
                    &&& r == Ok::<Option<Committed>, CommitError>(None)
                } else {
                    let commit = before.commit_of(transactions@);
                    let pending = before.committed(commit);
                    match r {
                        Ok(Some(committed)) => {
                            &&& committed.tx_range.start == before.next_tx_offset
                            &&& committed.tx_range.end == before.next_tx_offset + n
                            &&& committed.checksum == commit.checksum()
                            &&& after == if pending.should_flush() {
                                pending.flushed().indexed(commit, before.bytes_written)
                            } else {
                                pending
                            }
                            &&& if pending.should_flush() {
                                exists|s: &mut W, written: Result<(), Error>|
                                    *final(s) == final(self).segment() && written is Ok
                                        && #[trigger] repo::answers(
                                        s,
                                        old(self).segment(),
                                        pending.buffered,
                                        before.bytes_written as u64,
                                        written,
                                    )
                            } else {
                                final(self).segment() == old(self).segment()
                            }
                        },
                        Ok(None) => false,
                        Err(CommitError::Offset(_)) => false,
                        Err(CommitError::Flush(e)) => {
                            &&& pending.should_flush()
                            &&& after == pending.lost(after.contents)
                            &&& exists|s: &mut W|
                                *final(s) == final(self).segment() && #[trigger] repo::answers(
                                    s,
                                    old(self).segment(),
                                    pending.buffered,
                                    before.bytes_written as u64,
                                    Err(e),
                                )
                        },
                    }
                }
            }),
    {
        self.index_appended = false;
        self.commit.records.clear();
        let ghost before = self@;
        assert(self.segment() == old(self).segment());
        let len = transactions.len();
        let mut i: usize = 0;
        assert(transactions@.take(0) =~= Seq::empty());
        while i < len
            invariant
                i <= len == transactions@.len(),
                before == (WriterView { index_appended: false, ..old(self)@ }),
                self@ == before,
                self@.wf(),
                self.inner == old(self).inner,
                in_order(transactions@.take(i as int), before.next_tx_offset),
                in_order_count(transactions@, before.next_tx_offset) <= u16::MAX,
                before.next_tx_offset + in_order_count(transactions@, before.next_tx_offset)
                    <= u64::MAX,
                self.commit.n == i,
                self.commit.min_tx_offset == before.next_tx_offset,
                self.commit.records@ == records_of(transactions@.take(i as int)),
            decreases len - i,
        {
            let tx = &transactions[i];
            proof {
                lemma_in_order_take(transactions@, before.next_tx_offset, i as int);
            }
            let expected_offset = self.commit.min_tx_offset + self.commit.n as u64;
            if tx.offset != expected_offset {
                proof {
                    lemma_in_order_count(transactions@, before.next_tx_offset, i as int);
                }
                self.commit.n = 0;
                self.commit.records.clear();
                return Err(
                    CommitError::Offset(
                        Error::new(
                            ErrorKind::InvalidInput,
                            text::with_numbers(
                                "invalid transaction offset ",
                                tx.offset,
                                ", expected ",
                                expected_offset,
                            ),
                        ),
                    ),
                );
            }
            let ghost taken = transactions@.take(i + 1);
            assert(taken.drop_last() =~= transactions@.take(i as int));
            assert(in_order(taken, before.next_tx_offset)) by {
                assert forall|j: int| 0 <= j < taken.len() implies (#[trigger] taken[j]).offset
                    == before.next_tx_offset + j by {
                    if j < i {
                        assert(transactions@.take(i as int)[j].offset == before.next_tx_offset + j);
                    }
                }
            }
            proof {
                lemma_in_order_take(transactions@, before.next_tx_offset, i + 1);
            }
            self.commit.n = self.commit.n + 1;
            tx.txdata.encode_record(&mut self.commit.records);
            i += 1;
        }
        assert(transactions@.take(len as int) =~= transactions@);
        if self.commit.n == 0 {
            return Ok(None);
        }
        let ghost commit = before.commit_of(transactions@);
        assert(self.commit@ =~= commit);
        proof {
            commit.lemma_bytes_len();
        }
        let checksum = self.commit.encode(&mut self.buf);
        let committed_range = self.commit.tx_range();
        let commit_len = self.commit.encoded_len() as u64;
        let should_flush = buffer::buffer_len(&self.buf) as u64 >= self.flush_buffer;
        let start = committed_range.start;
        self.commit.min_tx_offset = self.commit.min_tx_offset + self.commit.n as u64;
        self.commit.n = 0;
        let ghost pending = before.committed(commit);
        assert(self@ =~= pending);
        if should_flush {
            let bytes_written_before_flush = self.bytes_written;
            match self.flush() {
                Ok(()) => {},
                Err(e) => {
                    return Err(CommitError::Flush(e));
                },
            }
            let ghost flushed = pending.flushed();
            let mut appended = false;
            if let Some(mut index) = self.offset_index_head.take() {
                match index.append_after_commit(start, bytes_written_before_flush, commit_len) {
                    Ok(true) => {
                        appended = true;
                    },
                    _ => {},
                }
                self.offset_index_head = Some(index);
                self.index_appended = appended;
            }
            assert(self@ =~= flushed.indexed(commit, before.bytes_written));
        }
        Ok(Some(Committed { tx_range: committed_range, checksum }))
    }

    /// Writes the buffer to the segment.
    pub fn flush(&mut self) -> (r: Result<(), Error>)
        requires
            old(self).wf(),
        ensures
            final(self).wf(),
            match r {
                Ok(_) => {
                    &&& final(self)@ == old(self)@.flushed()
                    &&& if old(self)@.buffered.len() > 0 {
                        exists|s: &mut W, written: Result<(), Error>|
                            *final(s) == final(self).segment() && written is Ok
                                && #[trigger] repo::answers(
                                s,
                                old(self).segment(),
                                old(self)@.buffered,
                                old(self)@.bytes_written as u64,
                                written,
                            )
                    } else {
                        final(self).segment() == old(self).segment()
                    }
                },
                Err(e) => {
                    &&& old(self)@.buffered.len() > 0
                    &&& final(self)@ == old(self)@.lost(final(self)@.contents)
                    &&& exists|s: &mut W|
                        *final(s) == final(self).segment() && #[trigger] repo::answers(
                            s,
                            old(self).segment(),
                            old(self)@.buffered,
                            old(self)@.bytes_written as u64,
                            Err(e),
                        )
                },
            },
    {
        let buf = buffer::split_buffer(&mut self.buf);
        let len = buffer::buffer_len(&buf);
        if len == 0 {
            assert(self@ =~= old(self)@.flushed());
            return Ok(());
        }
        let outcome = self.inner.pwrite_all(buffer::buffer_slice(&buf), self.bytes_written);
        proof {
            let (s, b) = choose|s: &mut W, b: &[u8]|
                *s == old(self).inner && *final(s) == self.inner && b@ == old(self)@.buffered
                    && #[trigger] call_ensures(
                    W::pwrite_all,
                    (s, b, old(self).bytes_written),
                    outcome,
                );
            assert(repo::answers(
                s,
                old(self).segment(),
                old(self)@.buffered,
                old(self)@.bytes_written as u64,
                outcome,
            ));
        }
        self.written(len as u64, outcome)
    }

    /// Takes note of what became of writing the `n` bytes of the buffer to the
    /// segment.
    pub fn written(&mut self, n: u64, outcome: Result<(), Error>) -> (r: Result<(), Error>)
        requires
            old(self).wf(),
            old(self)@.bytes_written + old(self)@.buffered.len() + n <= u64::MAX,
        ensures
            final(self).wf(),
            final(self).segment() == old(self).segment(),
            match outcome {
                Ok(_) => r is Ok && final(self)@ == (WriterView {
                    bytes_written: old(self)@.bytes_written + n as nat,
                    ..old(self)@
                }),
                Err(e) => r == Err::<(), Error>(e) && final(self)@ == old(self)@,
            },
    {
        match outcome {
            Ok(()) => {
                self.bytes_written = self.bytes_written + n;
                Ok(())
            },
            Err(e) => Err(e),
        }
    }

    /// Whether `r` is what the segment may say to a request to be made durable.
    pub closed spec fn may_sync(self, r: Result<(), Error>) -> bool {
        call_ensures(W::fdatasync, (&self.inner,), r)
    }

    /// Makes what was written to the segment durable.
    pub fn sync_data(&self) -> (r: Result<(), Error>)
        ensures
            self.may_sync(r),
    {
        self.inner.fdatasync()
    }

    /// Get the current epoch.
    pub fn epoch(&self) -> (r: u64)
        ensures
            r == self@.epoch,
    {
        self.commit.epoch
    }

    /// Update the epoch.
    ///
    /// The caller must ensure that:
    ///
    /// - The new epoch is greater than the current epoch.
    /// - [Self::commit] has been called as appropriate.
    ///
    pub fn set_epoch(&mut self, epoch: u64)
        requires
            old(self).wf(),
        ensures
            final(self).wf(),
            final(self).segment() == old(self).segment(),
            final(self)@ == (WriterView { epoch, ..old(self)@ }),
    {
        self.commit.epoch = epoch;
    }

    /// The smallest transaction offset in this segment.
    pub fn min_tx_offset(&self) -> (r: u64)
        ensures
            r == self@.min_tx_offset,
    {
        self.min_tx_offset
    }

    /// The next transaction offset to be written if [Self::commit] was called.
    pub fn next_tx_offset(&self) -> (r: u64)
        ensures
            r == self@.next_tx_offset,
    {
        self.commit.min_tx_offset
    }

    /// `true` if the segment contains no commits.
    ///
    /// The segment will, however, contain a header. This thus violates the
    /// convention that `is_empty == (len == 0)`.
    pub fn is_empty(&self) -> (r: bool)
        ensures
            r == (self@.bytes_written <= Header::LEN),
    {
        self.bytes_written <= Header::LEN as u64
    }

    /// Number of bytes written to this segment, including the header.
    pub fn len(&self) -> (r: u64)
        ensures
            r == self@.bytes_written,
    {
        self.bytes_written
    }

    /// Whether the buffer and the segment can hold `n` more bytes, and the index
    /// can count them.
    pub fn has_room(&self, n: u64) -> (r: bool)
        requires
            self.wf(),
        ensures
            r == self@.has_room(n as nat),
    {
        let buffered = buffer::buffer_len(&self.buf) as u64;
        let most = isize::MAX as u64;
        let counted = match &self.offset_index_head {
            Some(index) => index.bytes_since_last_index(),
            None => 0,
        };
        buffered <= most && n <= most - buffered && n <= u64::MAX - self.bytes_written - buffered
            && n <= u64::MAX - counted
    }

    /// Whether the last commit appended an entry to the offset index, which is
    /// then to be written to storage.
    pub fn index_appended(&self) -> (r: bool)
        ensures
            r == self@.index_appended,
    {
        self.index_appended
    }

    /// The offset index, to be written to storage.
    pub fn offset_index(&self) -> (r: Option<&OffsetIndexWriter>)
        ensures
            match r {
                Some(index) => self@.index == Some(index@),
                None => self@.index is None,
            },
    {
        match &self.offset_index_head {
            Some(index) => Some(index),
            None => None,
        }
    }

    /// Takes note of what became of writing the offset index to storage after
    /// a commit appended an entry to it.
    pub fn index_flushed(&mut self, outcome: Result<(), Error>) -> (r: Result<(), IndexError>)
        requires
            old(self).wf(),
            old(self)@.index is Some,
        ensures
            final(self).wf(),
            final(self).segment() == old(self).segment(),
            match outcome {
                Ok(_) => r is Ok && final(self)@ == (WriterView {
                    index: Some(old(self)@.index->0.reset()),
                    index_appended: false,
                    ..old(self)@
                }),
                Err(e) => r == Err::<(), IndexError>(IndexError::Io(e)) && final(self)@ == (
                WriterView { index_appended: false, ..old(self)@ }),
            },
    {
        self.index_appended = false;
        match self.offset_index_head.take() {
            Some(mut index) => {
                let r = index.flushed(outcome);
                self.offset_index_head = Some(index);
                r
            },
            None => Ok(()),
        }
    }

    /// Hands back the segment.
    pub fn into_inner(self) -> (r: W)
        ensures
            r == self.segment(),
            r.contents() == self@.contents,
    {
        self.inner
    }
}

} // verus!

//! What is promised of writing segments.

use vstd::prelude::*;

use crate::commitlog::commit::CommitView;
use crate::commitlog::index::{IndexError, TxOffsetIndex};
use crate::commitlog::payload::Encode;
use crate::commitlog::repo;
use crate::commitlog::repo::{create_segment_writer, header_written, SegmentWriter};
use crate::commitlog::segment::metadata::{Metadata, SegmentMetadata};
use crate::commitlog::segment::writer;
use crate::commitlog::segment::writer::{CommitError, WriterView};
use crate::commitlog::segment::{
    Committed, Header, OffsetIndexWriter, Transaction, Writer, WriterParams,
};
use crate::io::{ByteReader, Error, ErrorKind};
use crate::laws::commit::{
    is_stored_form, law_stored_form_starts, lemma_stored_form, starts_with,
};
use crate::laws::data::{is_decimal, lemma_is_decimal};
use crate::laws::index::{is_cleared, is_noted, lemma_noted, same_settings};
use crate::laws::segment::{
    behind, describes, follow_one_another, from, header_bytes, last_end,
    law_segment_with_commits, lemma_behind_push, lemma_stand_in_push, stand_in,
};
use crate::le;

verus! {

/// The bytes of the log: what is written to the segment, and what is in the
/// buffer.
pub open spec fn log_of(v: WriterView) -> Seq<u8> {
    v.contents.take(v.bytes_written as int) + v.buffered
}

/// The payloads, one after the other.
pub open spec fn joined<T: Encode>(transactions: Seq<Transaction<T>>) -> Seq<u8>
    decreases transactions.len(),
{
    if transactions.len() == 0 {
        Seq::empty()
    } else {
        transactions[0].txdata.record() + joined(transactions.drop_first())
    }
}

proof fn lemma_joined<T: Encode>(transactions: Seq<Transaction<T>>)
    ensures
        joined(transactions) == writer::records_of(transactions),
    decreases transactions.len(),
{
    if transactions.len() == 1 {
        assert(transactions.drop_first() =~= Seq::empty());
        assert(transactions.drop_last() =~= Seq::empty());
        reveal_with_fuel(joined, 2);
        reveal_with_fuel(writer::records_of, 2);
        assert(joined(transactions) =~= writer::records_of(transactions));
    } else if transactions.len() > 1 {
        let (tail, front) = (transactions.drop_first(), transactions.drop_last());
        lemma_joined(tail);
        lemma_joined(front);
        lemma_joined(tail.drop_last());
        assert(tail.drop_last() =~= front.drop_first());
        assert(front[0] == transactions[0]);
        assert(tail.last() == transactions.last());
        assert(joined(transactions) =~= writer::records_of(transactions));
    }
}

/// Whether the transactions have the offsets from `next` on.
pub open spec fn numbered<T>(transactions: Seq<Transaction<T>>, next: u64) -> bool {
    forall|i: int|
        0 <= i < transactions.len() ==> (#[trigger] transactions[i]).offset == next + i
}

/// Whether the transaction at `i` is the first that does not have the offset that
/// comes next.
pub open spec fn is_first_wrong<T>(
    transactions: Seq<Transaction<T>>,
    next: u64,
    i: int,
) -> bool {
    &&& 0 <= i < transactions.len()
    &&& transactions[i].offset != next + i
    &&& forall|j: int| 0 <= j < i ==> (#[trigger] transactions[j]).offset == next + j
}

proof fn lemma_numbered<T>(transactions: Seq<Transaction<T>>, next: u64)
    ensures
        writer::in_order_count(transactions, next) <= transactions.len(),
        if writer::in_order_count(transactions, next) == transactions.len() {
            numbered(transactions, next)
        } else {
            is_first_wrong(
                transactions,
                next,
                writer::in_order_count(transactions, next) as int,
            ) && !numbered(transactions, next)
        },
    decreases transactions.len(),
{
    if !writer::in_order(transactions, next) {
        if transactions.len() > 0 {
            let front = transactions.drop_last();
            lemma_numbered(front, next);
            let c = writer::in_order_count(front, next) as int;
            assert forall|j: int| 0 <= j < c implies (#[trigger] transactions[j]).offset == next
                + j by {
                assert(front[j] == transactions[j]);
                assert(front[j].offset == next + j);
            }
            if c < front.len() {
                assert(front[c].offset != next + c);
            } else {
                let k = choose|k: int|
                    0 <= k < transactions.len() && (#[trigger] transactions[k]).offset != next + k;
                assert(k == c);
            }
        }
    }
}

/// Whether `r` is what `segment` may say when it is asked to write `bytes` at
/// `offset`, where `s` is the segment before and after.
pub open spec fn may_say<W: SegmentWriter>(
    s: &mut W,
    segment: W,
    bytes: Seq<u8>,
    offset: int,
    r: Result<(), Error>,
) -> bool {
    *s == segment && exists|b: &[u8]|
        b@ == bytes && #[trigger] call_ensures(W::pwrite_all, (s, b, offset as u64), r)
}

/// Whether `t` is what became of `s` by writing `bytes` at `offset`: they stand
/// there, what is elsewhere has not changed, and a gap is filled with zeros.
pub open spec fn is_written(s: Seq<u8>, t: Seq<u8>, bytes: Seq<u8>, offset: int) -> bool {
    let end = offset + bytes.len();
    &&& bytes.len() == 0 ==> t == s
    &&& bytes.len() > 0 ==> t.len() == if s.len() < end {
        end
    } else {
        s.len() as int
    }
    &&& forall|i: int| offset <= i < end ==> #[trigger] t[i] == bytes[i - offset]
    &&& forall|i: int|
        0 <= i < t.len() && !(offset <= i < end) ==> #[trigger] t[i] == if i < s.len() {
            s[i]
        } else {
            0
        }
}

/// Whether nothing but what was committed, written and indexed is another.
pub open spec fn same_writer(v: WriterView, w: WriterView) -> bool {
    &&& w.epoch == v.epoch
    &&& w.min_tx_offset == v.min_tx_offset
    &&& w.flush_buffer == v.flush_buffer
}

/// Whether the transactions became a commit, which the log ends with, in memory or
/// in the segment.
pub open spec fn is_committed(
    v: WriterView,
    w: WriterView,
    n: int,
    records: Seq<u8>,
    stored: Seq<u8>,
    committed: Committed,
) -> bool {
    let all = v.buffered + stored;
    &&& is_stored_form(stored, v.next_tx_offset, v.epoch, n as u16, records)
    &&& committed.tx_range.start == v.next_tx_offset
    &&& committed.tx_range.end == v.next_tx_offset + n
    &&& committed.checksum == le::le_value(
        stored.subrange(stored.len() - 4, stored.len() as int),
    )
    &&& w.next_tx_offset == v.next_tx_offset + n
    &&& if all.len() < v.flush_buffer {
        &&& w.contents == v.contents
        &&& w.bytes_written == v.bytes_written
        &&& w.buffered == all
        &&& w.index == v.index
        &&& !w.index_appended
    } else {
        &&& is_written(v.contents, w.contents, all, v.bytes_written as int)
        &&& w.bytes_written == v.bytes_written + all.len()
        &&& w.buffered.len() == 0
        &&& match (v.index, w.index) {
            (Some(i), Some(j)) => exists|r: Result<bool, IndexError>|
                {
                    &&& #[trigger] is_noted(
                        i,
                        j,
                        v.next_tx_offset,
                        v.bytes_written as u64,
                        stored.len() as int,
                        r,
                    )
                    &&& w.index_appended == (r == Ok::<bool, IndexError>(true))
                },
            (None, None) => !w.index_appended,
            _ => false,
        }
    }
}

/// Whether nothing was committed.
pub open spec fn is_unchanged(v: WriterView, w: WriterView) -> bool {
    &&& w.next_tx_offset == v.next_tx_offset
    &&& w.contents == v.contents
    &&& w.buffered == v.buffered
    &&& w.bytes_written == v.bytes_written
    &&& w.index == v.index
    &&& !w.index_appended
}

/// Whether `r` is what comes of a commit. With a transaction that does not have the
/// offset that comes next, or without transactions, nothing is committed. What is
/// committed is the stored form of one commit with all of them.
pub open spec fn comes_of_commit<T: Encode>(
    v: WriterView,
    w: WriterView,
    transactions: Seq<Transaction<T>>,
    r: Result<Option<Committed>, CommitError>,
) -> bool {
    let n = transactions.len() as int;
    &&& same_writer(v, w)
    &&& match r {
        Err(CommitError::Offset(e)) => {
            &&& e.kind == ErrorKind::InvalidInput
            &&& exists|i: int, s: Seq<char>, t: Seq<char>|
                {
                    &&& #[trigger] is_first_wrong(transactions, v.next_tx_offset, i)
                    &&& #[trigger] is_decimal(s, transactions[i].offset as int)
                    &&& #[trigger] is_decimal(t, v.next_tx_offset + i)
                    &&& e.message@ == "invalid transaction offset "@ + s + ", expected "@ + t
                }
            &&& is_unchanged(v, w)
        },
        Ok(None) => n == 0 && is_unchanged(v, w),
        Ok(Some(committed)) => {
            &&& n > 0
            &&& numbered(transactions, v.next_tx_offset)
            &&& exists|stored: Seq<u8>| #[trigger]
                is_committed(v, w, n, joined(transactions), stored, committed)
        },
        Err(CommitError::Flush(_)) => {
            &&& n > 0
            &&& numbered(transactions, v.next_tx_offset)
            &&& w.next_tx_offset == v.next_tx_offset + n
            &&& w.bytes_written == v.bytes_written
            &&& w.buffered.len() == 0
            &&& w.index == v.index
            &&& !w.index_appended
            &&& v.buffered.len() + 26 + joined(transactions).len() >= v.flush_buffer
        },
    }
}

/// Whether the transactions fit in one commit, and there is room for it.
pub open spec fn fits<T: Encode>(v: WriterView, transactions: Seq<Transaction<T>>) -> bool {
    let len = 26 + joined(transactions).len();
    &&& transactions.len() <= u16::MAX
    &&& v.next_tx_offset + transactions.len() <= u64::MAX
    &&& joined(transactions).len() <= u32::MAX
    &&& v.bytes_written + v.buffered.len() + len <= u64::MAX
    &&& v.index matches Some(index) ==> index.head.wf() && index.bytes_since_last_index + len
        <= u64::MAX
}

/// Transactions that have the offsets that come next are committed as one.
pub proof fn law_transactions_are_committed<W: SegmentWriter, T: Encode>(
    transactions: Vec<Transaction<T>>,
    r: Result<Option<Committed>, CommitError>,
)
    ensures
        forall|writer: &mut Writer<W>|
            #![trigger call_ensures(Writer::<W>::commit::<T>, (writer, transactions), r)]
            fits((*writer)@, transactions@) && call_ensures(
                Writer::<W>::commit::<T>,
                (writer, transactions),
                r,
            ) ==> comes_of_commit((*writer)@, (*final(writer))@, transactions@, r),
{
    assert forall|writer: &mut Writer<W>|
        #![trigger call_ensures(Writer::<W>::commit::<T>, (writer, transactions), r)]
        fits((*writer)@, transactions@) && call_ensures(
            Writer::<W>::commit::<T>,
            (writer, transactions),
            r,
        ) implies comes_of_commit((*writer)@, (*final(writer))@, transactions@, r) by {
        let (v, w) = ((*writer)@, (*final(writer))@);
        let t = transactions@;
        let c = v.commit_of(t);
        let stored = c.bytes();
        lemma_joined(t);
        lemma_numbered(t, v.next_tx_offset);
        lemma_stored_form(c);
        c.lemma_bytes_len();
        if let Err(CommitError::Offset(_)) = r {
            let i = writer::in_order_count(t, v.next_tx_offset);
            lemma_is_decimal(t[i as int].offset as nat);
            lemma_is_decimal((v.next_tx_offset + i) as nat);
            assert(is_first_wrong(t, v.next_tx_offset, i as int));
        }
        if let Ok(Some(committed)) = r {
            if v.buffered.len() + stored.len() >= v.flush_buffer {
                if let Some(i) = v.index {
                    lemma_noted(
                        i,
                        v.next_tx_offset,
                        v.bytes_written as u64,
                        stored.len() as u64,
                    );
                    let said = if i.require_segment_fsync {
                        Ok(false)
                    } else {
                        i.noted(
                            v.next_tx_offset,
                            v.bytes_written as u64,
                            stored.len() as u64,
                        ).append_result()
                    };
                    assert(is_noted(
                        i,
                        w.index->0,
                        v.next_tx_offset,
                        v.bytes_written as u64,
                        stored.len() as int,
                        said,
                    ));
                }
            }
            assert(is_committed(v, w, t.len() as int, joined(t), stored, committed));
        }
    }
}

/// A commit that makes the buffer full asks the segment to write the buffer behind
/// what is written, once. Others leave the segment alone.
pub proof fn law_full_buffer_is_written<W: SegmentWriter, T: Encode>(
    transactions: Vec<Transaction<T>>,
    r: Result<Option<Committed>, CommitError>,
)
    ensures
        forall|writer: &mut Writer<W>|
            #![trigger call_ensures(Writer::<W>::commit::<T>, (writer, transactions), r)]
            fits((*writer)@, transactions@) && call_ensures(
                Writer::<W>::commit::<T>,
                (writer, transactions),
                r,
            ) ==> {
                let v = (*writer)@;
                let (n, records) = (transactions@.len() as u16, joined(transactions@));
                let full = v.buffered.len() + 26 + records.len() >= v.flush_buffer;
                match r {
                    Ok(Some(_)) => if full {
                        exists|s: &mut W, stored: Seq<u8>, said: Result<(), Error>|
                            {
                                &&& is_stored_form(stored, v.next_tx_offset, v.epoch, n, records)
                                &&& said is Ok
                                &&& #[trigger] may_say(
                                    s,
                                    (*writer).segment(),
                                    v.buffered + stored,
                                    v.bytes_written as int,
                                    said,
                                )
                                &&& *final(s) == (*final(writer)).segment()
                            }
                    } else {
                        (*final(writer)).segment() == (*writer).segment()
                    },
                    Err(CommitError::Flush(e)) => full && exists|s: &mut W, stored: Seq<u8>|
                        {
                            &&& is_stored_form(stored, v.next_tx_offset, v.epoch, n, records)
                            &&& #[trigger] may_say(
                                s,
                                (*writer).segment(),
                                v.buffered + stored,
                                v.bytes_written as int,
                                Err(e),
                            )
                            &&& *final(s) == (*final(writer)).segment()
                        },
                    _ => true,
                }
            },
{
    assert forall|writer: &mut Writer<W>|
        #![trigger call_ensures(Writer::<W>::commit::<T>, (writer, transactions), r)]
        fits((*writer)@, transactions@) && call_ensures(
            Writer::<W>::commit::<T>,
            (writer, transactions),
            r,
        ) implies ({
        let v = (*writer)@;
        let (n, records) = (transactions@.len() as u16, joined(transactions@));
        let full = v.buffered.len() + 26 + records.len() >= v.flush_buffer;
        match r {
            Ok(Some(_)) => if full {
                exists|s: &mut W, stored: Seq<u8>, said: Result<(), Error>|
                    {
                        &&& is_stored_form(stored, v.next_tx_offset, v.epoch, n, records)
                        &&& said is Ok
                        &&& #[trigger] may_say(
                            s,
                            (*writer).segment(),
                            v.buffered + stored,
                            v.bytes_written as int,
                            said,
                        )
                        &&& *final(s) == (*final(writer)).segment()
                    }
            } else {
                (*final(writer)).segment() == (*writer).segment()
            },
            Err(CommitError::Flush(e)) => full && exists|s: &mut W, stored: Seq<u8>|
                {
                    &&& is_stored_form(stored, v.next_tx_offset, v.epoch, n, records)
                    &&& #[trigger] may_say(
                        s,
                        (*writer).segment(),
                        v.buffered + stored,
                        v.bytes_written as int,
                        Err(e),
                    )
                    &&& *final(s) == (*final(writer)).segment()
                },
            _ => true,
        }
    }) by {
        let v = (*writer)@;
        let (before, after) = ((*writer).segment(), (*final(writer)).segment());
        let t = transactions@;
        let c = v.commit_of(t);
        let stored = c.bytes();
        let all = v.buffered + stored;
        lemma_joined(t);
        lemma_numbered(t, v.next_tx_offset);
        lemma_stored_form(c);
        c.lemma_bytes_len();
        if let Ok(Some(_)) = r {
            if all.len() >= v.flush_buffer {
                let (s, written) = choose|s: &mut W, written: Result<(), Error>|
                    *final(s) == after && written is Ok && #[trigger] repo::answers(
                        s,
                        before,
                        all,
                        v.bytes_written as u64,
                        written,
                    );
                assert(may_say(s, before, v.buffered + stored, v.bytes_written as int, written));
            }
        }
        if let Err(CommitError::Flush(e)) = r {
            let s = choose|s: &mut W|
                *final(s) == after && #[trigger] repo::answers(
                    s,
                    before,
                    all,
                    v.bytes_written as u64,
                    Err(e),
                );
            assert(may_say(s, before, v.buffered + stored, v.bytes_written as int, Err(e)));
        }
    }
}

/// Flushing writes the buffer behind what is written. It is an error if the segment
/// says so, and then the buffer is lost.
pub proof fn law_buffer_is_flushed<W: SegmentWriter>(r: Result<(), Error>)
    ensures
        forall|writer: &mut Writer<W>|
            #![trigger call_ensures(Writer::<W>::flush, (writer,), r)]
            call_ensures(Writer::<W>::flush, (writer,), r) ==> {
                let (v, w) = ((*writer)@, (*final(writer))@);
                &&& same_writer(v, w)
                &&& w.next_tx_offset == v.next_tx_offset
                &&& w.index == v.index
                &&& w.index_appended == v.index_appended
                &&& w.buffered.len() == 0
                &&& r is Ok ==> w.bytes_written == v.bytes_written + v.buffered.len() && is_written(
                    v.contents,
                    w.contents,
                    v.buffered,
                    v.bytes_written as int,
                )
                &&& r is Err ==> w.bytes_written == v.bytes_written
                &&& if v.buffered.len() == 0 {
                    r is Ok && (*final(writer)).segment() == (*writer).segment()
                } else {
                    exists|s: &mut W, said: Result<(), Error>|
                        {
                            &&& #[trigger] may_say(
                                s,
                                (*writer).segment(),
                                v.buffered,
                                v.bytes_written as int,
                                said,
                            )
                            &&& *final(s) == (*final(writer)).segment()
                            &&& r is Ok <==> said is Ok
                            &&& r matches Err(e) ==> said == Err::<(), Error>(e)
                        }
                }
            },
{
    assert forall|writer: &mut Writer<W>|
        #![trigger call_ensures(Writer::<W>::flush, (writer,), r)]
        call_ensures(Writer::<W>::flush, (writer,), r) implies ({
        let (v, w) = ((*writer)@, (*final(writer))@);
        &&& same_writer(v, w)
        &&& w.next_tx_offset == v.next_tx_offset
        &&& w.index == v.index
        &&& w.index_appended == v.index_appended
        &&& w.buffered.len() == 0
        &&& r is Ok ==> w.bytes_written == v.bytes_written + v.buffered.len() && is_written(
            v.contents,
            w.contents,
            v.buffered,
            v.bytes_written as int,
        )
        &&& r is Err ==> w.bytes_written == v.bytes_written
        &&& if v.buffered.len() == 0 {
            r is Ok && (*final(writer)).segment() == (*writer).segment()
        } else {
            exists|s: &mut W, said: Result<(), Error>|
                {
                    &&& #[trigger] may_say(
                        s,
                        (*writer).segment(),
                        v.buffered,
                        v.bytes_written as int,
                        said,
                    )
                    &&& *final(s) == (*final(writer)).segment()
                    &&& r is Ok <==> said is Ok
                    &&& r matches Err(e) ==> said == Err::<(), Error>(e)
                }
        }
    }) by {
        let v = (*writer)@;
        let (before, after) = ((*writer).segment(), (*final(writer)).segment());
        if v.buffered.len() > 0 {
            let (s, said) = choose|s: &mut W, said: Result<(), Error>|
                {
                    &&& *final(s) == after
                    &&& #[trigger] repo::answers(
                        s,
                        before,
                        v.buffered,
                        v.bytes_written as u64,
                        said,
                    )
                    &&& r is Ok <==> said is Ok
                    &&& r matches Err(e) ==> said == Err::<(), Error>(e)
                };
            assert(may_say(s, before, v.buffered, v.bytes_written as int, said));
        }
    }
}

/// What became of writing is taken note of.
pub proof fn law_writing_is_counted<W: SegmentWriter>(
    n: u64,
    outcome: Result<(), Error>,
    r: Result<(), Error>,
)
    ensures
        forall|writer: &mut Writer<W>|
            #![trigger call_ensures(Writer::<W>::written, (writer, n, outcome), r)]
            call_ensures(Writer::<W>::written, (writer, n, outcome), r) ==> {
                let (v, w) = ((*writer)@, (*final(writer))@);
                &&& same_writer(v, w)
                &&& w.next_tx_offset == v.next_tx_offset
                &&& w.contents == v.contents
                &&& w.buffered == v.buffered
                &&& w.index == v.index
                &&& match outcome {
                    Ok(_) => r is Ok && w.bytes_written == v.bytes_written + n,
                    Err(e) => r == Err::<(), Error>(e) && w.bytes_written == v.bytes_written,
                }
            },
{
}

/// Another epoch changes nothing else.
pub proof fn law_epoch_is_set<W: SegmentWriter>(epoch: u64)
    ensures
        forall|writer: &mut Writer<W>|
            #![trigger call_ensures(Writer::<W>::set_epoch, (writer, epoch), ())]
            call_ensures(Writer::<W>::set_epoch, (writer, epoch), ()) ==> {
                let (v, w) = ((*writer)@, (*final(writer))@);
                &&& w.epoch == epoch
                &&& w.min_tx_offset == v.min_tx_offset
                &&& w.next_tx_offset == v.next_tx_offset
                &&& w.contents == v.contents
                &&& w.buffered == v.buffered
                &&& w.bytes_written == v.bytes_written
                &&& w.flush_buffer == v.flush_buffer
                &&& w.index == v.index
            },
{
}

/// What is told of a writer is what it holds.
pub proof fn law_writer_tells<W: SegmentWriter>(writer: Writer<W>, n: u64, yes: bool)
    ensures
        call_ensures(Writer::<W>::epoch, (&writer,), n) ==> n == writer@.epoch,
        call_ensures(Writer::<W>::min_tx_offset, (&writer,), n) ==> n == writer@.min_tx_offset,
        call_ensures(Writer::<W>::next_tx_offset, (&writer,), n) ==> n == writer@.next_tx_offset,
        call_ensures(Writer::<W>::len, (&writer,), n) ==> n == writer@.bytes_written,
        call_ensures(Writer::<W>::is_empty, (&writer,), yes) ==> yes == (writer@.bytes_written
            <= 10),
        call_ensures(Writer::<W>::index_appended, (&writer,), yes) ==> yes
            == writer@.index_appended,
        call_ensures(Writer::<W>::has_room, (&writer, n), yes) ==> yes == (writer@.buffered.len()
            + n <= isize::MAX && writer@.bytes_written + writer@.buffered.len() + n <= u64::MAX
            && (writer@.index matches Some(index) ==> index.bytes_since_last_index + n
            <= u64::MAX)),
{
}

/// When the index was written to storage, it starts anew. When that failed, it
/// stays as it is.
pub proof fn law_index_of_writer_is_written<W: SegmentWriter>(
    outcome: Result<(), Error>,
    r: Result<(), IndexError>,
)
    ensures
        forall|writer: &mut Writer<W>|
            #![trigger call_ensures(Writer::<W>::index_flushed, (writer, outcome), r)]
            (*writer)@.index is Some && call_ensures(
                Writer::<W>::index_flushed,
                (writer, outcome),
                r,
            ) ==> {
                let (v, w) = ((*writer)@, (*final(writer))@);
                &&& same_writer(v, w)
                &&& w.next_tx_offset == v.next_tx_offset
                &&& w.contents == v.contents
                &&& w.buffered == v.buffered
                &&& w.bytes_written == v.bytes_written
                &&& !w.index_appended
                &&& w.index is Some
                &&& match outcome {
                    Ok(_) => r is Ok && same_settings(v.index->0, w.index->0) && w.index->0.head
                        == v.index->0.head && is_cleared(w.index->0),
                    Err(e) => w.index == v.index && (r matches Err(IndexError::Io(said)) && said
                        == e),
                }
            },
{
}

/// Whether the writer has written just a header.
pub open spec fn is_new(
    w: WriterView,
    offset_index: Option<OffsetIndexWriter>,
    epoch: u64,
    offset: u64,
    flush_buffer: u64,
) -> bool {
    &&& w.contents == header_bytes(1, 0)
    &&& w.bytes_written == 10
    &&& w.buffered.len() == 0
    &&& w.epoch == epoch
    &&& w.min_tx_offset == offset
    &&& w.next_tx_offset == offset
    &&& w.flush_buffer == flush_buffer
    &&& !w.index_appended
    &&& match (offset_index, w.index) {
        (Some(given), Some(index)) => index == given@,
        (None, None) => true,
        _ => false,
    }
}

/// A segment starts with a header. It cannot be written to if that cannot be
/// written.
pub proof fn law_segment_is_started<W: SegmentWriter>(
    storage: W,
    offset_index: Option<OffsetIndexWriter>,
    epoch: u64,
    offset: u64,
    flush_buffer: u64,
    r: Result<Writer<W>, Error>,
)
    requires
        call_ensures(
            create_segment_writer::<W>,
            (storage, offset_index, epoch, offset, flush_buffer),
            r,
        ),
    ensures
        r matches Ok(writer) ==> is_new(writer@, offset_index, epoch, offset, flush_buffer),
        exists|s: &mut W, said: Result<(), Error>|
            {
                &&& #[trigger] may_say(s, storage, header_bytes(1, 0), 0, said)
                &&& r is Ok <==> said is Ok
                &&& r matches Ok(writer) ==> *final(s) == writer.segment()
                &&& r matches Err(e) ==> said == Err::<(), Error>(e)
            },
{
    assert(Header::current().bytes() =~= header_bytes(1, 0));
    match r {
        Ok(writer) => {
            let (s, said) = choose|s: &mut W, said: Result<(), Error>|
                *final(s) == writer.segment() && said is Ok && #[trigger] repo::answers(
                    s,
                    storage,
                    Header::current().bytes(),
                    0,
                    said,
                );
            assert(may_say(s, storage, header_bytes(1, 0), 0, said));
        },
        Err(e) => {
            let s = choose|s: &mut W| #[trigger]
                repo::answers(s, storage, Header::current().bytes(), 0, Err(e));
            assert(may_say(s, storage, header_bytes(1, 0), 0, Err(e)));
        },
    }
}

/// Whether a header was written decides whether a segment can be written to.
pub proof fn law_header_decides<W: SegmentWriter>(
    storage: W,
    written: Result<(), Error>,
    offset_index: Option<OffsetIndexWriter>,
    epoch: u64,
    offset: u64,
    flush_buffer: u64,
    r: Result<Writer<W>, Error>,
)
    requires
        call_ensures(
            header_written::<W>,
            (storage, written, offset_index, epoch, offset, flush_buffer),
            r,
        ),
    ensures
        match (written, r) {
            (Ok(_), Ok(writer)) => writer.segment() == storage && is_new(
                writer@,
                offset_index,
                epoch,
                offset,
                flush_buffer,
            ),
            (Err(e), Err(said)) => said == e,
            _ => false,
        },
{
    assert(Header::current().bytes() =~= header_bytes(1, 0));
}

/// Writing goes on as it is told to.
pub proof fn law_writer_is_resumed<W: SegmentWriter>(
    inner: W,
    offset_index: Option<OffsetIndexWriter>,
    params: WriterParams,
    r: Writer<W>,
)
    requires
        call_ensures(Writer::<W>::new, (inner, offset_index, params), r),
    ensures
        r.segment() == inner,
        r@.contents == inner.contents(),
        r@.buffered.len() == 0,
        r@.next_tx_offset == params.next_tx_offset,
        r@.min_tx_offset == params.min_tx_offset,
        r@.epoch == params.epoch,
        r@.bytes_written == params.bytes_written,
        r@.flush_buffer == params.flush_buffer,
        !r@.index_appended,
        match (offset_index, r@.index) {
            (Some(given), Some(index)) => index == given@,
            (None, None) => true,
            _ => false,
        },
{
}

/// Whether the log holds just these commits, from the first transaction of the
/// segment on up to the next one.
pub open spec fn holds(v: WriterView, cs: Seq<CommitView>) -> bool {
    &&& v.contents.len() == v.bytes_written
    &&& v.bytes_written >= 10
    &&& log_of(v).take(10) == header_bytes(1, 0)
    &&& log_of(v).len() == behind(cs, 1, 10, cs.len())
    &&& stand_in(cs, log_of(v), 1, 10)
    &&& follow_one_another(cs, v.min_tx_offset)
    &&& last_end(cs, v.min_tx_offset) == v.next_tx_offset
}

/// A commit that stands in `s` stands in what `s` starts.
proof fn lemma_starts_in_longer(s: Seq<u8>, t: Seq<u8>, c: CommitView)
    requires
        starts_with(s, 1, c),
    ensures
        starts_with(s + t, 1, c),
{
    let all = s + t;
    let end = 22 + c.records.len() as int;
    let i = choose|i: int| 0 <= i < 22 && s[i] != 0;
    assert(all[i] != 0);
    assert(all.subrange(0, 8) =~= s.subrange(0, 8));
    assert(all.subrange(8, 16) =~= s.subrange(8, 16));
    assert(all.subrange(16, 18) =~= s.subrange(16, 18));
    assert(all.subrange(18, 22) =~= s.subrange(18, 22));
    assert(all.subrange(22, end) =~= s.subrange(22, end));
    assert(all.take(end) =~= s.take(end));
    assert(all.subrange(end, end + 4) =~= s.subrange(end, end + 4));
}

proof fn lemma_behind_grows(cs: Seq<CommitView>, k: nat, n: nat)
    requires
        k <= n,
    ensures
        10 <= behind(cs, 1, 10, k) <= behind(cs, 1, 10, n),
    decreases n,
{
    if k < n {
        lemma_behind_grows(cs, k, (n - 1) as nat);
    } else if k > 0 {
        lemma_behind_grows(cs, (k - 1) as nat, (k - 1) as nat);
    }
}

proof fn lemma_stand_in_longer(cs: Seq<CommitView>, s: Seq<u8>, t: Seq<u8>)
    requires
        stand_in(cs, s, 1, 10),
        s.len() == behind(cs, 1, 10, cs.len()),
    ensures
        stand_in(cs, s + t, 1, 10),
{
    assert forall|k: nat| k < cs.len() implies starts_with(
        from(s + t, #[trigger] behind(cs, 1, 10, k)),
        1,
        cs[k as int],
    ) by {
        let pos = behind(cs, 1, 10, k);
        lemma_behind_grows(cs, k, cs.len());
        lemma_starts_in_longer(from(s, pos), t, cs[k as int]);
        assert(from(s + t, pos) =~= from(s, pos) + t);
    }
}

/// A segment that was started holds no commits.
pub proof fn law_started_segment_is_empty<W: SegmentWriter>(
    storage: W,
    offset_index: Option<OffsetIndexWriter>,
    epoch: u64,
    offset: u64,
    flush_buffer: u64,
    writer: Writer<W>,
)
    requires
        call_ensures(
            create_segment_writer::<W>,
            (storage, offset_index, epoch, offset, flush_buffer),
            Ok(writer),
        ),
    ensures
        holds(writer@, Seq::empty()),
{
    law_segment_is_started(storage, offset_index, epoch, offset, flush_buffer, Ok(writer));
    let v = writer@;
    assert(v.contents.take(10) =~= v.contents);
    assert(log_of(v) =~= v.contents);
    assert(log_of(v).take(10) =~= header_bytes(1, 0));
    assert(behind(Seq::<CommitView>::empty(), 1, 10, 0) == 10);
}

/// The log after a commit is the log before it, and the stored form of the commit.
proof fn lemma_log_grows(
    v: WriterView,
    w: WriterView,
    n: int,
    records: Seq<u8>,
    stored: Seq<u8>,
    committed: Committed,
)
    requires
        v.contents.len() == v.bytes_written,
        is_committed(v, w, n, records, stored, committed),
    ensures
        log_of(w) == log_of(v) + stored,
        w.contents.len() == w.bytes_written,
{
    let all = v.buffered + stored;
    if all.len() < v.flush_buffer {
        assert(log_of(w) =~= log_of(v) + stored);
    } else {
        assert(log_of(w) =~= log_of(v) + stored);
    }
}

proof fn lemma_follow_push(cs: Seq<CommitView>, c: CommitView, first: u64)
    requires
        follow_one_another(cs, first),
        c.min_tx_offset == last_end(cs, first),
    ensures
        follow_one_another(cs.push(c), first),
{
    let all = cs.push(c);
    assert forall|i: int, j: int| 0 <= i && i + 1 == j && j < all.len() implies (
    #[trigger] all[j]).min_tx_offset == (#[trigger] all[i]).min_tx_offset.wrapping_add(
        all[i].n as u64,
    ) by {
        if j < cs.len() {
            assert(cs[j].min_tx_offset == cs[i].min_tx_offset.wrapping_add(cs[i].n as u64));
        } else {
            assert(cs.last() == cs[i]);
        }
    }
}

proof fn lemma_holds_one_more(
    v: WriterView,
    w: WriterView,
    cs: Seq<CommitView>,
    n: int,
    records: Seq<u8>,
    stored: Seq<u8>,
    committed: Committed,
)
    requires
        0 < n <= u16::MAX,
        v.next_tx_offset + n <= u64::MAX,
        w.min_tx_offset == v.min_tx_offset,
        holds(v, cs),
        is_committed(v, w, n, records, stored, committed),
    ensures
        holds(
            w,
            cs.push(
                CommitView {
                    min_tx_offset: v.next_tx_offset,
                    epoch: v.epoch,
                    n: n as u16,
                    records,
                },
            ),
        ),
{
    let c = CommitView {
        min_tx_offset: v.next_tx_offset,
        epoch: v.epoch,
        n: n as u16,
        records,
    };
    lemma_log_grows(v, w, n, records, stored, committed);
    law_stored_form_starts(stored, Seq::empty(), c);
    assert(stored + Seq::<u8>::empty() =~= stored);
    lemma_stand_in_longer(cs, log_of(v), stored);
    assert(from(log_of(w), log_of(v).len() as int) =~= stored);
    lemma_stand_in_push(cs, log_of(w), 10, c);
    lemma_behind_push(cs, c, 1, 10, cs.len());
    lemma_follow_push(cs, c, v.min_tx_offset);
    assert(cs.push(c).last() == c);
    assert(log_of(w).take(10) =~= log_of(v).take(10));
}

/// What is committed stands behind the commits that the log holds. Those stay.
pub proof fn law_log_grows_by_a_commit<W: SegmentWriter, T: Encode>(
    transactions: Vec<Transaction<T>>,
    cs: Seq<CommitView>,
    committed: Committed,
)
    ensures
        forall|writer: &mut Writer<W>|
            #![trigger call_ensures(Writer::<W>::commit::<T>, (writer, transactions), Ok(Some(committed)))]
            fits((*writer)@, transactions@) && holds((*writer)@, cs) && call_ensures(
                Writer::<W>::commit::<T>,
                (writer, transactions),
                Ok(Some(committed)),
            ) ==> holds(
                (*final(writer))@,
                cs.push(
                    CommitView {
                        min_tx_offset: (*writer)@.next_tx_offset,
                        epoch: (*writer)@.epoch,
                        n: transactions@.len() as u16,
                        records: joined(transactions@),
                    },
                ),
            ),
{
    let r: Result<Option<Committed>, CommitError> = Ok(Some(committed));
    law_transactions_are_committed::<W, T>(transactions, r);
    assert forall|writer: &mut Writer<W>|
        #![trigger call_ensures(Writer::<W>::commit::<T>, (writer, transactions), Ok(Some(committed)))]
        fits((*writer)@, transactions@) && holds((*writer)@, cs) && call_ensures(
            Writer::<W>::commit::<T>,
            (writer, transactions),
            Ok(Some(committed)),
        ) implies holds(
        (*final(writer))@,
        cs.push(
            CommitView {
                min_tx_offset: (*writer)@.next_tx_offset,
                epoch: (*writer)@.epoch,
                n: transactions@.len() as u16,
                records: joined(transactions@),
            },
        ),
    ) by {
        let (v, w) = ((*writer)@, (*final(writer))@);
        assert(comes_of_commit(v, w, transactions@, r));
        let n = transactions@.len() as int;
        let records = joined(transactions@);
        let stored = choose|stored: Seq<u8>| #[trigger]
            is_committed(v, w, n, records, stored, committed);
        lemma_holds_one_more(v, w, cs, n, records, stored, committed);
    }
}

/// Flushing changes nothing of what the log holds, and then the segment holds all
/// of it.
pub proof fn law_flushing_keeps_the_log<W: SegmentWriter>(cs: Seq<CommitView>, r: Result<(), Error>)
    ensures
        forall|writer: &mut Writer<W>|
            #![trigger call_ensures(Writer::<W>::flush, (writer,), r)]
            holds((*writer)@, cs) && r is Ok && call_ensures(Writer::<W>::flush, (writer,), r) ==> {
                &&& holds((*final(writer))@, cs)
                &&& (*final(writer))@.contents == log_of((*writer)@)
            },
{
    law_buffer_is_flushed::<W>(r);
    assert forall|writer: &mut Writer<W>|
        #![trigger call_ensures(Writer::<W>::flush, (writer,), r)]
        holds((*writer)@, cs) && r is Ok && call_ensures(Writer::<W>::flush, (writer,), r) implies ({
        &&& holds((*final(writer))@, cs)
        &&& (*final(writer))@.contents == log_of((*writer)@)
    }) by {
        let (v, w) = ((*writer)@, (*final(writer))@);
        assert(w.contents =~= log_of(v));
        assert(log_of(w) =~= w.contents);
    }
}

/// The metadata of a segment that is written and flushed are those of the commits
/// that were written to it.
pub proof fn law_written_segment_is_described<W: SegmentWriter>(
    writer: Writer<W>,
    cs: Seq<CommitView>,
    header: Header,
    reader: ByteReader,
    r: Result<Metadata, SegmentMetadata>,
)
    requires
        holds(writer@, cs),
        writer@.buffered.len() == 0,
        reader@.bytes == writer@.contents,
        call_ensures(
            Metadata::with_header,
            (writer@.min_tx_offset, header, reader, None::<&TxOffsetIndex>),
            r,
        ),
    ensures
        r matches Ok(m) && describes(
            m@,
            writer@.contents,
            cs,
            10,
            0,
            writer@.min_tx_offset,
            header,
        ),
{
    let v = writer@;
    assert(log_of(v) =~= v.contents);
    law_segment_with_commits(cs, v.min_tx_offset, header, reader, None, r);
    assert(from(v.contents, v.contents.len() as int).len() == 0);
}

/// A writer hands out its index and its segment as they are, and tells what the
/// segment says to a request to be made durable.
pub proof fn law_writer_hands_out<W: SegmentWriter>(
    writer: Writer<W>,
    index: Option<&OffsetIndexWriter>,
    inner: W,
)
    ensures
        call_ensures(Writer::<W>::offset_index, (&writer,), index) ==> match (index, writer@.index) {
            (Some(given), Some(held)) => given@ == held,
            (None, None) => true,
            _ => false,
        },
        call_ensures(Writer::<W>::into_inner, (writer,), inner) ==> inner == writer.segment()
            && inner.contents() == writer@.contents,
{
}

/// Without more said, writing starts at the start, with a buffer of 4096 bytes.
pub proof fn law_default_params(r: WriterParams)
    requires
        call_ensures(<WriterParams as Default>::default, (), r),
    ensures
        r.epoch == 0,
        r.min_tx_offset == 0,
        r.next_tx_offset == 0,
        r.bytes_written == 0,
        r.flush_buffer == 4096,
{
}

/// A transaction is made of its offset and its payload.
pub proof fn law_transaction_of_pair<T>(pair: (u64, T), r: Transaction<T>)
    requires
        call_ensures(<Transaction<T> as From<(u64, T)>>::from, (pair,), r),
    ensures
        r.offset == pair.0,
        r.txdata == pair.1,
{
}

} // verus!

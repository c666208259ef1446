//! The index entries that are added while a segment is written.

use vstd::prelude::*;

use crate::commitlog::index;
use crate::commitlog::index::{IndexError, IndexView, TxOffset, TxOffsetIndexMut};
use crate::commitlog::Options;
use crate::io::Error;

verus! {

/// Appends to an offset index as commits are written, at most once per
/// `min_write_interval` bytes.
///
/// Writing the index to storage is left to the caller. Where an entry was
/// appended, [Self::flushed] wants to know what became of writing it. As long
/// as it is not told, the writing counts as failed.
#[derive(Debug)]
pub struct OffsetIndexWriter {
    head: TxOffsetIndexMut,
    require_segment_fsync: bool,
    min_write_interval: u64,
    candidate_min_tx_offset: TxOffset,
    candidate_byte_offset: u64,
    bytes_since_last_index: u64,
}

/// The state of an [OffsetIndexWriter].
#[verifier::ext_equal]
pub struct IndexWriterView {
    pub head: IndexView,
    pub require_segment_fsync: bool,
    pub min_write_interval: u64,
    /// The first commit since the last entry. Zero if there was none.
    pub candidate_min_tx_offset: TxOffset,
    pub candidate_byte_offset: u64,
    pub bytes_since_last_index: u64,
}

impl IndexWriterView {
    /// Without a candidate.
    pub open spec fn reset(self) -> Self {
        IndexWriterView {
            candidate_min_tx_offset: 0,
            candidate_byte_offset: 0,
            bytes_since_last_index: 0,
            ..self
        }
    }

    /// After a commit of `commit_len` bytes at `byte_offset`. It becomes the
    /// candidate if there is none.
    pub open spec fn noted(self, min_tx_offset: TxOffset, byte_offset: u64, commit_len: u64) -> Self {
        let counted = IndexWriterView {
            bytes_since_last_index: (self.bytes_since_last_index + commit_len) as u64,
            ..self
        };
        if self.candidate_min_tx_offset == 0 {
            IndexWriterView {
                candidate_min_tx_offset: min_tx_offset,
                candidate_byte_offset: byte_offset,
                ..counted
            }
        } else {
            counted
        }
    }

    /// Whether it is time for an entry.
    pub open spec fn due(self) -> bool {
        self.candidate_min_tx_offset != 0 && self.bytes_since_last_index
            >= self.min_write_interval
    }

    /// Why an entry that is due cannot be appended.
    pub open spec fn append_error(self) -> Option<IndexError> {
        if self.due() {
            self.head.append_error(self.candidate_min_tx_offset)
        } else {
            None
        }
    }

    /// After appending an entry if one is due and can be appended.
    pub open spec fn appended(self) -> Self {
        if self.due() && self.append_error() is None {
            IndexWriterView {
                head: self.head.appended(self.candidate_min_tx_offset, self.candidate_byte_offset),
                ..self
            }
        } else {
            self
        }
    }

    /// After a commit: an entry is appended unless that has to wait for the
    /// segment to be durable.
    pub open spec fn after_commit(
        self,
        min_tx_offset: TxOffset,
        byte_offset: u64,
        commit_len: u64,
    ) -> Self {
        let noted = self.noted(min_tx_offset, byte_offset, commit_len);
        if self.require_segment_fsync {
            noted
        } else {
            noted.appended()
        }
    }

    /// What appending an entry if one is due returns: the error, or whether an
    /// entry was appended.
    pub open spec fn append_result(self) -> Result<bool, IndexError> {
        match self.append_error() {
            Some(e) => Err(e),
            None => Ok(self.due()),
        }
    }

    /// Without the entries from `offset` on, if the index has any key up to
    /// `offset`.
    pub open spec fn truncated(self, offset: TxOffset) -> Self {
        IndexWriterView {
            head: if index::lookup(self.head.entries, offset) is Some {
                self.head.truncated(offset)
            } else {
                self.head
            },
            ..self.reset()
        }
    }
}

impl View for OffsetIndexWriter {
    type V = IndexWriterView;

    closed spec fn view(&self) -> IndexWriterView {
        IndexWriterView {
            head: self.head@,
            require_segment_fsync: self.require_segment_fsync,
            min_write_interval: self.min_write_interval,
            candidate_min_tx_offset: self.candidate_min_tx_offset,
            candidate_byte_offset: self.candidate_byte_offset,
            bytes_since_last_index: self.bytes_since_last_index,
        }
    }
}

impl OffsetIndexWriter {
    pub open spec fn wf(self) -> bool {
        self@.head.wf()
    }

    /// The index.
    pub fn head(&self) -> (r: &TxOffsetIndexMut)
        ensures
            r@ == self@.head,
    {
        &self.head
    }

    /// The number of bytes that were written since the last entry.
    pub fn bytes_since_last_index(&self) -> (r: u64)
        ensures
            r == self@.bytes_since_last_index,
    {
        self.bytes_since_last_index
    }

    pub fn new(head: TxOffsetIndexMut, opts: Options) -> (r: Self)
        requires
            head.wf(),
        ensures
            r.wf(),
            r@ == (IndexWriterView {
                head: head@,
                require_segment_fsync: opts.offset_index_require_segment_fsync,
                min_write_interval: opts.offset_index_interval_bytes,
                candidate_min_tx_offset: 0,
                candidate_byte_offset: 0,
                bytes_since_last_index: 0,
            }),
    {
        OffsetIndexWriter {
            head,
            require_segment_fsync: opts.offset_index_require_segment_fsync,
            min_write_interval: opts.offset_index_interval_bytes,
            candidate_min_tx_offset: 0,
            candidate_byte_offset: 0,
            bytes_since_last_index: 0,
        }
    }

    fn reset(&mut self)
        ensures
            final(self)@ == old(self)@.reset(),
    {
        self.candidate_byte_offset = 0;
        self.candidate_min_tx_offset = 0;
        self.bytes_since_last_index = 0;
    }

    /// Either append to index or save offsets to append at future fsync.
    ///
    /// Returns whether an entry was appended.
    pub fn append_after_commit(
        &mut self,
        min_tx_offset: TxOffset,
        byte_offset: u64,
        commit_len: u64,
    ) -> (r: Result<bool, IndexError>)
        requires
            old(self).wf(),
            old(self)@.bytes_since_last_index + commit_len <= u64::MAX,
        ensures
            final(self).wf(),
            final(self)@ == old(self)@.after_commit(min_tx_offset, byte_offset, commit_len),
            r == if old(self)@.require_segment_fsync {
                Ok(false)
            } else {
                old(self)@.noted(min_tx_offset, byte_offset, commit_len).append_result()
            },
    {
        self.bytes_since_last_index = self.bytes_since_last_index + commit_len;
        if self.candidate_min_tx_offset == 0 {
            self.candidate_byte_offset = byte_offset;
            self.candidate_min_tx_offset = min_tx_offset;
        }
        assert(self@ =~= old(self)@.noted(min_tx_offset, byte_offset, commit_len));
        if !self.require_segment_fsync {
            return self.append_internal();
        }
        Ok(false)
    }

    fn append_internal(&mut self) -> (r: Result<bool, IndexError>)
        requires
            old(self).wf(),
        ensures
            final(self).wf(),
            final(self)@ == old(self)@.appended(),
            r == old(self)@.append_result(),
    {
        // If the candidate offset is zero, there has not been a commit since
        // the last offset entry
        if self.candidate_min_tx_offset == 0 {
            return Ok(false);
        }
        if self.bytes_since_last_index < self.min_write_interval {
            return Ok(false);
        }
        match self.head.append(self.candidate_min_tx_offset, self.candidate_byte_offset) {
            Ok(()) => Ok(true),
            Err(e) => Err(e),
        }
    }

    /// Takes note of what became of writing the index to storage after an entry
    /// was appended.
    pub fn flushed(&mut self, outcome: Result<(), Error>) -> (r: Result<(), IndexError>)
        requires
            old(self).wf(),
        ensures
            final(self).wf(),
            match outcome {
                Ok(_) => r is Ok && final(self)@ == old(self)@.reset(),
                Err(e) => r == Err::<(), IndexError>(IndexError::Io(e)) && final(self)@
                    == old(self)@,
            },
    {
        match outcome {
            Ok(()) => {
                self.reset();
                Ok(())
            },
            Err(e) => Err(IndexError::Io(e)),
        }
    }

    /// Appends an entry if one is due, after which the index is to be written
    /// to storage. That it cannot be appended is no error.
    ///
    /// Returns whether an entry was appended.
    pub fn flush(&mut self) -> (appended: bool)
        requires
            old(self).wf(),
        ensures
            final(self).wf(),
            final(self)@ == old(self)@.appended(),
            appended == (old(self)@.append_result() == Ok::<bool, IndexError>(true)),
    {
        match self.append_internal() {
            Ok(appended) => appended,
            Err(_) => false,
        }
    }

    /// Removes the entries from `offset` on. That there are no keys up to
    /// `offset` is no error.
    pub fn truncate(&mut self, offset: TxOffset)
        requires
            old(self).wf(),
        ensures
            final(self).wf(),
            final(self)@ == old(self)@.truncated(offset),
    {
        self.reset();
        let _ = self.head.truncate(offset);
    }
}

/// An entry that was appended and written stands for the first commit since the
/// entry before, and the next commit is a candidate again.
pub proof fn law_written_entry_is_found(w: IndexWriterView, asked: TxOffset)
    requires
        w.head.wf(),
        w.append_result() == Ok::<bool, IndexError>(true),
        asked >= w.candidate_min_tx_offset,
    ensures
        index::lookup(w.appended().reset().head.entries, asked) == Some(
            index::Entry { key: w.candidate_min_tx_offset, value: w.candidate_byte_offset },
        ),
        w.appended().reset().candidate_min_tx_offset == 0,
        !w.appended().reset().due(),
{
    index::law_appended_entry_is_found(
        w.head,
        w.candidate_min_tx_offset,
        w.candidate_byte_offset,
        asked,
    );
}

/// No entry is appended before `min_write_interval` bytes were written since
/// the last one.
pub proof fn law_entries_keep_their_distance(
    w: IndexWriterView,
    min_tx_offset: TxOffset,
    byte_offset: u64,
    commit_len: u64,
)
    requires
        w.bytes_since_last_index + commit_len < w.min_write_interval,
    ensures
        w.after_commit(min_tx_offset, byte_offset, commit_len).head == w.head,
{
}

/// Truncating to an offset leaves no entry from the offset on, where the index
/// has a key up to the offset.
pub proof fn law_truncated_index_ends_before(w: IndexWriterView, offset: TxOffset)
    requires
        w.head.wf(),
        index::lookup(w.head.entries, offset) is Some,
    ensures
        forall|e: index::Entry|
            w.truncated(offset).head.entries.contains(e) <==> w.head.entries.contains(e) && e.key
                < offset,
{
    index::law_truncate_keeps_the_smaller_keys(w.head, offset);
}

} // verus!

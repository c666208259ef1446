//! Where the segments of a log are kept.

use vstd::prelude::*;

use crate::commitlog::segment::{Header, OffsetIndexWriter, Writer, WriterParams};
use crate::commitlog::segment::writer::WriterView;
use crate::io::Error;

pub mod fs;
pub mod mem;

verus! {

/// `s` after `buf` was written at `offset`. Bytes that were never written are
/// zero.
pub open spec fn overwritten(s: Seq<u8>, buf: Seq<u8>, offset: int) -> Seq<u8> {
    let end = offset + buf.len();
    if buf.len() == 0 {
        s
    } else {
        Seq::new(
            if s.len() < end {
                end as nat
            } else {
                s.len()
            },
            |i: int|
                if offset <= i < end {
                    buf[i - offset]
                } else if i < s.len() {
                    s[i]
                } else {
                    0
                },
        )
    }
}

/// A segment that can be written to.
pub trait SegmentWriter: Sized {
    /// The bytes of the segment.
    ///
    /// An implementation must say what they are. The default, which is one and
    /// the same unknown sequence for all values of a type, does not meet the
    /// contract of [Self::pwrite_all]; it is there for implementations in
    /// ordinary Rust, which cannot say it, and of which nothing is proved.
    open spec fn contents(&self) -> Seq<u8> {
        arbitrary()
    }

    /// Writes all of `buf` at `offset`.
    fn pwrite_all(&mut self, buf: &[u8], offset: u64) -> (r: Result<(), Error>)
        ensures
            r is Ok ==> final(self).contents() == overwritten(
                old(self).contents(),
                buf@,
                offset as int,
            ),
    ;

    /// Makes what was written durable.
    fn fdatasync(&self) -> (r: Result<(), Error>);
}

/// Whether `r` is what `segment` may say to a request to write `buf` at
/// `offset`, where `s` is the segment before and after.
pub open spec fn answers<W: SegmentWriter>(
    s: &mut W,
    segment: W,
    buf: Seq<u8>,
    offset: u64,
    r: Result<(), Error>,
) -> bool {
    *s == segment && exists|b: &[u8]|
        b@ == buf && #[trigger] call_ensures(W::pwrite_all, (s, b, offset), r)
}

/// The state of a writer to a segment that holds just a header.
pub open spec fn new_writer(
    offset_index: Option<OffsetIndexWriter>,
    epoch: u64,
    offset: u64,
    flush_buffer: u64,
) -> WriterView {
    WriterView {
        next_tx_offset: offset,
        epoch,
        contents: Header::current().bytes(),
        buffered: Seq::empty(),
        min_tx_offset: offset,
        bytes_written: 10,
        flush_buffer,
        index: match offset_index {
            Some(index) => Some(index@),
            None => None,
        },
        index_appended: false,
    }
}

/// Starts to write to an empty segment, whose first transaction will have the
/// given offset: writes the header. Fails if and only if that write does, with
/// its error.
pub fn create_segment_writer<W: SegmentWriter>(
    storage: W,
    offset_index: Option<OffsetIndexWriter>,
    epoch: u64,
    offset: u64,
    flush_buffer: u64,
) -> (r: Result<Writer<W>, Error>)
    requires
        storage.contents().len() == 0,
        offset_index matches Some(index) ==> index.wf(),
    ensures
        match r {
            Ok(writer) => {
                &&& exists|s: &mut W, written: Result<(), Error>|
                    *final(s) == writer.segment() && written is Ok && #[trigger] answers(
                        s,
                        storage,
                        Header::current().bytes(),
                        0,
                        written,
                    )
                &&& writer.wf()
                &&& writer@ == new_writer(offset_index, epoch, offset, flush_buffer)
            },
            Err(e) => exists|s: &mut W| #[trigger]
                answers(s, storage, Header::current().bytes(), 0, Err(e)),
        },
{
    let mut segment = storage;
    let header = Header::default();
    let mut bytes: Vec<u8> = Vec::new();
    let _ = header.write(&mut bytes);
    assert(bytes@ =~= Header::current().bytes());
    let written = segment.pwrite_all(bytes.as_slice(), 0);
    proof {
        let (s, b) = choose|s: &mut W, b: &[u8]|
            *s == storage && *final(s) == segment && b@ == bytes@ && #[trigger] call_ensures(
                W::pwrite_all,
                (s, b, 0),
                written,
            );
        assert(answers(s, storage, Header::current().bytes(), 0, written));
        if written is Ok {
            assert(segment.contents() =~= Header::current().bytes());
        }
    }
    header_written(segment, written, offset_index, epoch, offset, flush_buffer)
}

/// Takes the outcome of writing the header to an empty segment.
pub fn header_written<W: SegmentWriter>(
    storage: W,
    written: Result<(), Error>,
    offset_index: Option<OffsetIndexWriter>,
    epoch: u64,
    offset: u64,
    flush_buffer: u64,
) -> (r: Result<Writer<W>, Error>)
    requires
        written is Ok ==> storage.contents() == Header::current().bytes(),
        offset_index matches Some(index) ==> index.wf(),
    ensures
        match written {
            Ok(_) => {
                &&& r matches Ok(writer)
                &&& writer.wf()
                &&& writer.segment() == storage
                &&& writer@ == new_writer(offset_index, epoch, offset, flush_buffer)
            },
            Err(e) => r == Err::<Writer<W>, Error>(e),
        },
{
    match written {
        Ok(()) => {},
        Err(e) => {
            return Err(e);
        },
    }
    Ok(
        Writer::new(
            storage,
            offset_index,
            WriterParams {
                epoch,
                min_tx_offset: offset,
                next_tx_offset: offset,
                bytes_written: Header::LEN as u64,
                flush_buffer,
            },
        ),
    )
}

} // verus!

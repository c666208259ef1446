//! Segments in memory.

use vstd::prelude::*;

use crate::commitlog::repo;
use crate::commitlog::repo::SegmentWriter;
use crate::io::{Error, ErrorKind};

verus! {

pub const PAGE_SIZE: usize = 4096;

/// A segment in memory.
#[derive(Debug)]
pub struct Segment {
    bytes: Vec<u8>,
    max_len: u64,
}

impl Segment {
    /// The size that the segment can grow to.
    pub closed spec fn max_len(self) -> u64 {
        self.max_len
    }

    /// Whether there is room for `n` bytes at `offset`.
    pub open spec fn fits(self, n: nat, offset: u64) -> bool {
        n == 0 || offset + n <= self.max_len() && offset + n <= usize::MAX
    }

    /// An empty segment that can grow to `max_len` bytes.
    pub fn new(max_len: u64) -> (r: Self)
        ensures
            r.contents() == Seq::<u8>::empty(),
            r.max_len() == max_len,
    {
        let r = Segment { bytes: Vec::new(), max_len };
        assert(r.contents() =~= Seq::empty());
        r
    }

    /// An empty segment that can grow as long as there is memory.
    pub fn unlimited() -> (r: Self)
        ensures
            r.contents() == Seq::<u8>::empty(),
            r.max_len() == u64::MAX,
    {
        Self::new(u64::MAX)
    }

    /// The bytes of the segment.
    pub fn as_slice(&self) -> (r: &[u8])
        ensures
            r@ == self.contents(),
    {
        self.bytes.as_slice()
    }
}

impl SegmentWriter for Segment {
    closed spec fn contents(&self) -> Seq<u8> {
        self.bytes@
    }

    fn pwrite_all(&mut self, buf: &[u8], offset: u64) -> (r: Result<(), Error>)
        ensures
            final(self).max_len() == old(self).max_len(),
            if old(self).fits(buf@.len(), offset) {
                r is Ok
            } else {
                &&& r matches Err(e)
                &&& e.is(ErrorKind::StorageFull, "segment is full"@)
                &&& final(self).contents() == old(self).contents()
            },
    {
        let len = buf.len();
        if len == 0 {
            return Ok(());
        }
        if offset > self.max_len || len as u64 > self.max_len - offset || offset > usize::MAX as u64
            || len > usize::MAX - offset as usize {
            return Err(Error::from_text(ErrorKind::StorageFull, "segment is full"));
        }
        let start = offset as usize;
        let end = start + len;
        let ghost all = self.bytes@;
        while self.bytes.len() < end
            invariant
                all.len() <= self.bytes@.len(),
                self.bytes@.len() <= end || self.bytes@.len() == all.len(),
                self.max_len == old(self).max_len,
                forall|i: int| 0 <= i < all.len() ==> #[trigger] self.bytes@[i] == all[i],
                forall|i: int| all.len() <= i < self.bytes@.len() ==> #[trigger] self.bytes@[i] == 0,
            decreases end - self.bytes@.len(),
        {
            self.bytes.push(0);
        }
        let ghost grown = self.bytes@;
        let mut i: usize = 0;
        while i < len
            invariant
                0 < len,
                i <= len == buf@.len(),
                start + len == end <= self.bytes@.len() == grown.len(),
                self.max_len == old(self).max_len,
                forall|j: int| start <= j < start + i ==> #[trigger] self.bytes@[j] == buf@[j - start],
                forall|j: int|
                    0 <= j < grown.len() && !(start <= j < start + i) ==> #[trigger] self.bytes@[j]
                        == grown[j],
            decreases len - i,
        {
            self.bytes[start + i] = buf[i];
            i += 1;
        }
        assert(self.bytes@ =~= repo::overwritten(all, buf@, offset as int));
        Ok(())
    }

    fn fdatasync(&self) -> (r: Result<(), Error>)
        ensures
            r is Ok,
    {
        Ok(())
    }
}

} // verus!

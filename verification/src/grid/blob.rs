//! Blobs: data of any length, kept in chains of blocks.

use vstd::prelude::*;

use crate::checksum;
use crate::checksum::Checksum;
use crate::free_set;
use crate::free_set::{AcquiredAddress, FreeSet, FreeSetView, Reservation, ReservationView};
use crate::grid::block::{
    BlockRef, Chain, ChainView, ChainedBlock, InFlightBlock, ReadError as BlockReadError, RefView,
    CHAINED_DATA_LEN,
};
use crate::grid::supply;
use crate::io::ErrorWith;
use crate::le;
use crate::manifest::BlobRef;

verus! {

/// A blob could not be read.
#[derive(Debug)]
pub enum ReadError<E> {
    ChecksumMismatch { computed: Checksum, expected: Checksum },
    Block(BlockReadError<E>),
}

/// A blob could not be written.
#[derive(Debug)]
pub enum WriteError {
    EmptyBlock,
    NoSpace { required_blocks: usize },
}

pub open spec fn min(a: int, b: int) -> int {
    if a < b {
        a
    } else {
        b
    }
}

/// A blob that is being loaded, block by block.
pub struct BlobLoader {
    chain: Chain,
    dst: Vec<u8>,
    offset: usize,
    expected: Checksum,
}

/// How far a blob is loaded.
#[verifier::ext_equal]
pub struct LoaderView {
    /// The rest of the chain.
    pub chain: ChainView,
    /// The destination.
    pub dst: Seq<u8>,
    /// The destination is filled from here on.
    pub offset: int,
    /// The checksum of the blob.
    pub expected: Seq<u8>,
}

impl LoaderView {
    pub open spec fn wf(self) -> bool {
        0 <= self.offset <= self.dst.len()
    }

    /// The number of bytes that the pending block holds of the blob: all blocks
    /// but the last one of a blob are full, and it is the last one that comes
    /// first.
    pub open spec fn pending_len(self) -> int {
        if self.offset == 0 {
            0
        } else if self.offset % CHAINED_DATA_LEN as int == 0 {
            CHAINED_DATA_LEN as int
        } else {
            self.offset % CHAINED_DATA_LEN as int
        }
    }

    /// The state after the pending block, with the given header and data, was
    /// loaded: what it holds of the blob is placed before what is filled
    /// already.
    pub open spec fn placed(self, parent: RefView, data: Seq<u8>) -> Self {
        let offset = self.offset - self.pending_len();
        LoaderView {
            chain: ChainView { head: parent, failed: false },
            dst: Seq::new(
                self.dst.len(),
                |i: int|
                    if offset <= i < self.offset {
                        data[i - offset]
                    } else {
                        self.dst[i]
                    },
            ),
            offset,
            expected: self.expected,
        }
    }

    /// The state after the pending block could not be loaded.
    pub open spec fn failed(self) -> Self {
        LoaderView { chain: ChainView { failed: true, ..self.chain }, ..self }
    }
}

impl View for BlobLoader {
    type V = LoaderView;

    closed spec fn view(&self) -> LoaderView {
        LoaderView {
            chain: self.chain@,
            dst: self.dst@,
            offset: self.offset as int,
            expected: self.expected@,
        }
    }
}

/// Starts to load the blob described by `ptr` by copying block data into `dst`.
///
/// `dst` must be appropriately sized to hold the data of the blob, i.e.
/// `dst.len() == ptr.len`. It is filled from the back as traversing the block
/// chain yields blocks in reverse order.
pub fn load_into(ptr: &BlobRef, dst: Vec<u8>) -> (r: BlobLoader)
    requires
        dst@.len() == ptr.len,
    ensures
        r@ == (LoaderView {
            chain: ChainView { head: ptr.block@, failed: false },
            dst: dst@,
            offset: dst@.len() as int,
            expected: ptr.checksum@,
        }),
        r@.wf(),
{
    let offset = dst.len();
    BlobLoader {
        chain: ChainedBlock::load_chain(ptr.block),
        dst,
        offset,
        expected: ptr.checksum,
    }
}

impl BlobLoader {
    /// The block that is to be read next.
    pub fn pending(&self) -> (r: Option<BlockRef>)
        ensures
            match r {
                Some(ptr) => self@.chain.has_next() && ptr@ == self@.chain.head,
                None => !self@.chain.has_next(),
            },
    {
        self.chain.pending()
    }

    /// Takes the outcome of reading the pending block. The memory of the block
    /// is handed back on both sides of the `Result` so that it can be reused.
    pub fn accept<E>(
        &mut self,
        read: Result<ChainedBlock, ErrorWith<E, ChainedBlock>>,
    ) -> (r: Result<ChainedBlock, ErrorWith<ReadError<E>, ChainedBlock>>)
        requires
            old(self)@.wf(),
            old(self)@.chain.has_next(),
            read matches Ok(block) ==> block.wf(),
        ensures
            final(self)@.wf(),
            match read {
                Ok(block) => if block.spec_checksum() == old(self)@.chain.head.checksum {
                    &&& r == Ok::<ChainedBlock, ErrorWith<ReadError<E>, ChainedBlock>>(block)
                    &&& final(self)@ == old(self)@.placed(block.parent@, block.data@)
                } else {
                    &&& r matches Err(e)
                    &&& e.with == block
                    &&& e.error matches ReadError::Block(
                        BlockReadError::ChecksumMismatch { computed, expected },
                    )
                    &&& computed@ == block.spec_checksum()
                    &&& expected@ == old(self)@.chain.head.checksum
                    &&& final(self)@ == old(self)@.failed()
                },
                Err(e) => {
                    &&& r == Err::<ChainedBlock, ErrorWith<ReadError<E>, ChainedBlock>>(
                        ErrorWith {
                            error: ReadError::Block(BlockReadError::Io(e.error)),
                            with: e.with,
                        },
                    )
                    &&& final(self)@ == old(self)@.failed()
                },
            },
    {
        match self.chain.advance(read) {
            Ok(block) => {
                let rest = self.offset % CHAINED_DATA_LEN;
                let len = if self.offset > 0 && rest == 0 {
                    CHAINED_DATA_LEN
                } else {
                    rest
                };
                let end = self.offset;
                let start = end - len;
                let mut i: usize = 0;
                while i < len
                    invariant
                        i <= len <= CHAINED_DATA_LEN,
                        start + len == end <= self.dst@.len(),
                        block.wf(),
                        self.dst@.len() == old(self).dst@.len(),
                        self.offset == old(self).offset,
                        self.expected == old(self).expected,
                        self.chain@ == (ChainView { head: block.parent@, failed: false }),
                        forall|j: int|
                            start <= j < start + i ==> #[trigger] self.dst@[j] == block.data@[j
                                - start],
                        forall|j: int|
                            0 <= j < self.dst@.len() && !(start <= j < start + i)
                                ==> #[trigger] self.dst@[j] == old(self).dst@[j],
                    decreases len - i,
                {
                    self.dst[start + i] = block.data[i];
                    i += 1;
                }
                self.offset = start;
                assert(self@ =~= old(self)@.placed(block.parent@, block.data@));
                Ok(block)
            },
            Err(ErrorWith { error, with }) => {
                assert(self@ =~= old(self)@.failed());
                Err(ErrorWith { error: ReadError::Block(error), with })
            },
        }
    }

    /// When all blocks have been successfully loaded, verifies the checksum of
    /// the data bytes against that of the blob.
    pub fn finish<E>(&self) -> (r: Result<(), ReadError<E>>)
        requires
            !self@.chain.failed,
            !self@.chain.has_next(),
            self@.offset == 0,
        ensures
            if checksum::blake3_hash(self@.dst) == self@.expected {
                r is Ok
            } else {
                &&& r matches Err(ReadError::ChecksumMismatch { computed, expected })
                &&& computed@ == checksum::blake3_hash(self@.dst)
                &&& expected@ == self@.expected
            },
    {
        let computed = Checksum::from_bytes(self.dst.as_slice());
        if computed != self.expected {
            Err(ReadError::ChecksumMismatch { computed, expected: self.expected })
        } else {
            Ok(())
        }
    }

    /// The number of bytes at the front of the destination that are still to be
    /// filled.
    pub fn missing(&self) -> (r: usize)
        ensures
            r == self@.offset,
    {
        self.offset
    }

    /// Hands back the destination.
    pub fn into_dst(self) -> (r: Vec<u8>)
        ensures
            r@ == self@.dst,
    {
        self.dst
    }
}

/// A blob that is incrementally being written via [StoreBlobs].
pub struct PendingBlob<'a, E> {
    data: &'a [u8],
    block_count: usize,
    offset: usize,
    head: BlockRef,
    submitted: usize,
    completed: usize,
    error: Option<E>,
}

/// How far a blob is written.
#[verifier::ext_equal]
pub struct JobView<E> {
    /// The blob.
    pub data: Seq<u8>,
    /// The data up to here was handed out.
    pub offset: int,
    /// The last block that was handed out.
    pub head: RefView,
    /// The number of blocks that were handed out.
    pub submitted: int,
    /// The number of blocks whose write is over.
    pub completed: int,
    /// The first error.
    pub error: Option<E>,
}

/// The data of the block that starts at `offset` in `data`.
pub open spec fn chunk(data: Seq<u8>, offset: int) -> Seq<u8> {
    le::zero_padded(
        data.subrange(offset, min(offset + CHAINED_DATA_LEN, data.len() as int)),
        CHAINED_DATA_LEN as nat,
    )
}

impl<E> JobView<E> {
    pub open spec fn wf(self) -> bool {
        &&& 0 <= self.offset <= self.data.len() <= usize::MAX
        &&& 0 <= self.completed <= self.submitted <= self.offset
    }

    /// A blob of which nothing is written.
    pub open spec fn start(data: Seq<u8>) -> Self {
        JobView {
            data,
            offset: 0,
            head: RefView::zero(),
            submitted: 0,
            completed: 0,
            error: None,
        }
    }

    /// Whether there is a block to be written.
    pub open spec fn has_next(self) -> bool {
        self.offset < self.data.len() && self.error is None
    }

    /// The number of blocks that are still to be handed out. None are after an
    /// error.
    pub open spec fn to_submit(self) -> nat {
        if self.has_next() {
            ChainedBlock::blocks_for((self.data.len() - self.offset) as nat)
        } else {
            0
        }
    }

    /// The state after the next block was handed out to be written at `address`.
    pub open spec fn submit(self, address: u64) -> Self {
        JobView {
            offset: min(self.offset + CHAINED_DATA_LEN, self.data.len() as int),
            head: RefView::to_block(self.head, chunk(self.data, self.offset), address),
            submitted: self.submitted + 1,
            ..self
        }
    }

    /// The state after a write is over.
    pub open spec fn complete(self, outcome: Result<(), E>) -> Self {
        JobView {
            completed: self.completed + 1,
            error: match (self.error, outcome) {
                (None, Err(e)) => Some(e),
                _ => self.error,
            },
            ..self
        }
    }

    /// Whether all writes are over, and there either was an error or all of the
    /// data was written.
    pub open spec fn is_complete(self) -> bool {
        self.submitted == self.completed && (self.error is Some || self.offset
            == self.data.len())
    }
}

impl<'a, E> View for PendingBlob<'a, E> {
    type V = JobView<E>;

    closed spec fn view(&self) -> JobView<E> {
        JobView {
            data: self.data@,
            offset: self.offset as int,
            head: self.head@,
            submitted: self.submitted as int,
            completed: self.completed as int,
            error: self.error,
        }
    }
}

impl<'a, E> PendingBlob<'a, E> {
    pub closed spec fn wf(self) -> bool {
        &&& self@.wf()
        &&& self.block_count == ChainedBlock::blocks_for(self.data@.len())
    }

    /// The state of a job is well-formed.
    pub proof fn lemma_wf(self)
        requires
            self.wf(),
        ensures
            self@.wf(),
    {
    }

    /// Create a new [PendingBlob] job that stores `data` by copying it into the
    /// required number of [ChainedBlock]s.
    ///
    /// `data` must not be empty.
    ///
    /// To write the blob to storage, pass it to [StoreBlobs].
    pub fn new(data: &'a [u8]) -> (r: Self)
        requires
            data@.len() > 0,
        ensures
            r.wf(),
            r@ == JobView::<E>::start(data@),
    {
        let block_count = match ChainedBlock::num_blocks_for(data) {
            Some(n) => n,
            None => 0,
        };
        let len = data.len();
        Self {
            data,
            block_count,
            offset: 0,
            head: BlockRef::zero(),
            submitted: 0,
            completed: 0,
            error: None,
        }
    }

    /// The number of [ChainedBlock]s needed to store this blob.
    pub fn required_blocks(&self) -> (r: usize)
        requires
            self.wf(),
        ensures
            r == ChainedBlock::blocks_for(self@.data.len()),
    {
        self.block_count
    }

    /// Check whether there is a block to be written: there is more data, and no
    /// completed write errored.
    pub fn has_next(&self) -> (r: bool)
        ensures
            r == self@.has_next(),
    {
        self.offset < self.data.len() && self.error.is_none()
    }

    /// Copies the current slice of data into `memory`, to be written at
    /// `address`.
    ///
    /// Returns `memory` in an `Err` if either:
    ///
    /// - a previously completed write errored
    /// - there is no more data to be written
    ///
    pub fn submit_write(&mut self, address: AcquiredAddress, memory: ChainedBlock) -> (r: Result<
        InFlightBlock,
        ChainedBlock,
    >)
        requires
            old(self).wf(),
        ensures
            final(self).wf(),
            if old(self)@.has_next() {
                &&& r matches Ok(write)
                &&& write.address == address
                &&& write.block.wf()
                &&& write.block.parent@ == old(self)@.head
                &&& write.block.data@ == chunk(old(self)@.data, old(self)@.offset)
                &&& final(self)@ == old(self)@.submit(address@)
            } else {
                &&& r == Err::<InFlightBlock, ChainedBlock>(memory)
                &&& final(self)@ == old(self)@
            },
    {
        let len = self.data.len();
        if self.offset >= len || self.error.is_some() {
            return Err(memory);
        }
        let mut memory = memory;
        let end = if len - self.offset < CHAINED_DATA_LEN {
            len
        } else {
            self.offset + CHAINED_DATA_LEN
        };
        memory.copy_from_slice(
            self.head,
            vstd::slice::slice_subrange(self.data, self.offset, end),
        );
        let block_ref = BlockRef::new(memory.checksum(), address.get());
        self.offset = end;
        self.submitted = self.submitted + 1;
        self.head = block_ref;
        assert(self@ =~= old(self)@.submit(address@));
        Ok(InFlightBlock { address, block: memory })
    }

    /// Update the state with the result of a write that [Self::submit_write]
    /// asked for.
    pub fn complete_write(
        &mut self,
        result: Result<ChainedBlock, ErrorWith<E, ChainedBlock>>,
    ) -> (r: ChainedBlock)
        requires
            old(self).wf(),
            old(self)@.completed < old(self)@.submitted,
        ensures
            final(self).wf(),
            match result {
                Ok(block) => r == block && final(self)@ == old(self)@.complete(Ok(())),
                Err(e) => r == e.with && final(self)@ == old(self)@.complete(Err(e.error)),
            },
    {
        self.completed = self.completed + 1;
        match result {
            Ok(block) => block,
            Err(ErrorWith { error, with }) => {
                if self.error.is_none() {
                    self.error = Some(error);
                }
                with
            },
        }
    }

    /// Check whether this blob is complete.
    ///
    /// It is complete if all submitted writes have been completed, and there
    /// either was an error or all of the data has been written.
    pub fn is_complete(&self) -> (r: bool)
        ensures
            r == self@.is_complete(),
    {
        self.submitted == self.completed && (self.error.is_some() || self.offset
            == self.data.len())
    }
}

/// A block that a slot was filled with, to be written at its address.
pub struct SlotWrite {
    pub slot: usize,
    pub write: InFlightBlock,
}

/// What is to be written, and the slot that waits for it.
#[verifier::ext_equal]
pub struct WriteView {
    pub slot: int,
    pub address: u64,
    pub parent: RefView,
    pub data: Seq<u8>,
}

impl View for SlotWrite {
    type V = WriteView;

    open spec fn view(&self) -> WriteView {
        WriteView {
            slot: self.slot as int,
            address: self.write.address@,
            parent: self.write.block.parent@,
            data: self.write.block.data@,
        }
    }
}

pub open spec fn writes_view(writes: Seq<SlotWrite>) -> Seq<WriteView> {
    Seq::new(writes.len(), |i: int| writes[i]@)
}

/// The outcome of the write that a slot waits for, if it is over.
pub type WriteEvent<E> = Option<Result<ChainedBlock, ErrorWith<E, ChainedBlock>>>;

/// What is known of a write: nothing, that it succeeded, or its error.
pub open spec fn event_view<E>(event: WriteEvent<E>) -> Option<Result<(), E>> {
    match event {
        None => None,
        Some(Ok(_)) => Some(Ok(())),
        Some(Err(e)) => Some(Err(e.error)),
    }
}

pub open spec fn events_view<E>(events: Seq<WriteEvent<E>>) -> Seq<Option<Result<(), E>>> {
    Seq::new(events.len(), |i: int| event_view(events[i]))
}

/// There was no address left in the reservation for a block.
#[derive(Debug)]
pub struct InsufficientAddresses;

/// What to do after a round of [StoreBlobs::poll].
#[derive(Clone, Copy, Debug, PartialEq, Eq, Structural)]
pub enum Round {
    /// All blobs are done.
    Ready,
    /// Something was achieved: look at the writes again.
    Again,
    /// Wait for a write to be over.
    Pending,
}

/// Writes a set of [PendingBlob]s to storage.
///
/// The number of blocks that are written at the same time is bounded by the
/// number of slots, and by the number of [ChainedBlock] allocations provided.
///
/// The writes themselves are left to the caller: [Self::poll] takes what is
/// known of those that were asked for, and says which are to be started.
pub struct StoreBlobs<'a, E> {
    reserved_addresses: Reservation,
    block_memory: Vec<ChainedBlock>,
    jobs: Vec<PendingBlob<'a, E>>,
    completions: Vec<Option<(usize, AcquiredAddress)>>,
    next_job: usize,
}

/// The write that a slot waits for.
pub struct SlotView {
    pub job: int,
    pub address: u64,
}

/// The state of [StoreBlobs].
#[verifier::ext_equal]
pub struct StoreView<E> {
    pub jobs: Seq<JobView<E>>,
    /// For each slot, the job and the address of the write that it waits for.
    pub slots: Seq<Option<SlotView>>,
    /// The number of blocks that no write uses.
    pub memory: int,
    /// The job that is asked first for the next free slot.
    pub next: int,
    pub reserved: ReservationView,
}

/// The number of the first `n` slots that wait for a write.
pub open spec fn busy_count(slots: Seq<Option<SlotView>>, n: nat) -> nat
    decreases n,
{
    if n == 0 {
        0
    } else {
        busy_count(slots, (n - 1) as nat) + if slots[n - 1] is Some {
            1nat
        } else {
            0nat
        }
    }
}

/// The number of the first `n` slots that wait for a write of job `j`.
pub open spec fn job_count(slots: Seq<Option<SlotView>>, j: int, n: nat) -> nat
    decreases n,
{
    if n == 0 {
        0
    } else {
        job_count(slots, j, (n - 1) as nat) + if slots[n - 1] is Some && slots[n - 1]->0.job == j {
            1nat
        } else {
            0nat
        }
    }
}

/// The number of blocks of the first `n` jobs that are still to be handed out.
pub open spec fn to_submit_of<E>(jobs: Seq<JobView<E>>, n: nat) -> nat
    decreases n,
{
    if n == 0 {
        0
    } else {
        to_submit_of(jobs, (n - 1) as nat) + jobs[n - 1].to_submit()
    }
}

impl<E> StoreView<E> {
    /// The number of blocks that are still to be handed out.
    pub open spec fn to_submit(self) -> nat {
        to_submit_of(self.jobs, self.jobs.len())
    }

    /// The number of free blocks in the reservation.
    pub open spec fn free_blocks(self, free: FreeSetView) -> nat {
        free_set::count_false(free.acquired, self.reserved.start, self.reserved.end)
    }

    /// Whether the reservation holds a free block for each that is still to be
    /// handed out.
    pub open spec fn provided_for(self, free: FreeSetView) -> bool {
        self.to_submit() <= self.free_blocks(free)
    }

    /// What holds at all times, together with the free set that the addresses
    /// come from:
    ///
    /// - the reservation is held,
    /// - all blocks that are being written are acquired, not released, and
    ///   different from each other,
    /// - the writes of a job that are not over are those that slots wait for,
    /// - there is no more memory than slots.
    pub open spec fn inv(self, free: FreeSetView) -> bool {
        &&& free.wf()
        &&& free.consistent()
        &&& free.holds(self.reserved)
        &&& 0 <= self.next < self.jobs.len()
        &&& forall|j: int| 0 <= j < self.jobs.len() ==> (#[trigger] self.jobs[j]).wf()
        &&& forall|k: int|
            0 <= k < self.slots.len() && (#[trigger] self.slots[k]) is Some ==> {
                let SlotView { job, address } = self.slots[k]->0;
                &&& 0 <= job < self.jobs.len()
                &&& 0 < address <= free.acquired.len()
                &&& free.acquired[address - 1]
                &&& !free.released[address - 1]
            }
        &&& forall|k: int, l: int|
            0 <= k < l < self.slots.len() && (#[trigger] self.slots[k]) is Some && (
            #[trigger] self.slots[l]) is Some ==> self.slots[k]->0.address != self.slots[l]->0.address
        &&& forall|j: int|
            0 <= j < self.jobs.len() ==> (#[trigger] self.jobs[j]).submitted - self.jobs[j].completed
                == job_count(self.slots, j, self.slots.len())
        &&& 0 <= self.memory
        &&& self.memory + busy_count(self.slots, self.slots.len()) <= self.slots.len()
    }

    /// The number of blocks of memory, used by a write or not.
    pub open spec fn blocks(self) -> int {
        self.memory + busy_count(self.slots, self.slots.len())
    }

    pub open spec fn all_complete(self) -> bool {
        forall|j: int| 0 <= j < self.jobs.len() ==> (#[trigger] self.jobs[j]).is_complete()
    }
}

/// The state while writes are scheduled or completed.
#[verifier::ext_equal]
pub struct Progress<E> {
    pub store: StoreView<E>,
    pub free: FreeSetView,
    /// The writes that are to be started.
    pub writes: Seq<WriteView>,
    /// Whether anything was achieved.
    pub made: bool,
}

/// What comes of looking for a job for a slot.
pub enum Attempt<E> {
    /// There was no address.
    NoAddress,
    /// There is no memory: no more slots can be filled.
    NoMemory(Progress<E>),
    /// The slot was filled, or no job has a block for it.
    Next(Progress<E>),
}

impl<E> StoreView<E> {
    /// The first job with a block to be written, from the `t`-th after `start`
    /// on.
    pub open spec fn next_with_block(self, start: int, t: nat) -> Option<int>
        decreases self.jobs.len() - t,
    {
        let j = (start + t) % (self.jobs.len() as int);
        if t >= self.jobs.len() {
            None
        } else if self.jobs[j].has_next() {
            Some(j)
        } else {
            self.next_with_block(start, t + 1)
        }
    }

    /// The job that is found is one with a block to be written. There is none
    /// only if no job that was asked has a block.
    pub proof fn lemma_next_with_block(self, start: int, t: nat)
        ensures
            match self.next_with_block(start, t) {
                Some(j) => 0 <= j < self.jobs.len() && self.jobs[j].has_next(),
                None => forall|u: int|
                    t <= u < self.jobs.len() ==> !(
                    #[trigger] self.jobs[(start + u) % (self.jobs.len() as int)]).has_next(),
            },
        decreases self.jobs.len() - t,
    {
        if t < self.jobs.len() {
            let j = (start + t) % (self.jobs.len() as int);
            vstd::arithmetic::div_mod::lemma_mod_bound(start + t, self.jobs.len() as int);
            if !self.jobs[j].has_next() {
                self.lemma_next_with_block(start, t + 1);
            }
        }
    }
}

impl<E> Progress<E> {
    /// Fills `slot` with a block of the first job after `start` that has one. An
    /// address is acquired for the block.
    pub open spec fn fill_slot(self, slot: int, start: int) -> Attempt<E> {
        if self.store.memory == 0 {
            Attempt::NoMemory(self)
        } else {
            match (
                self.store.next_with_block(start, 0),
                self.free.reserved_block(self.store.reserved),
            ) {
                (None, _) => Attempt::Next(self),
                (Some(_), None) => Attempt::NoAddress,
                (Some(j), Some(block)) => {
                    let job = self.store.jobs[j];
                    let address = (block + 1) as u64;
                    Attempt::Next(
                        Progress {
                            store: StoreView {
                                jobs: self.store.jobs.update(j, job.submit(address)),
                                slots: self.store.slots.update(
                                    slot,
                                    Some(SlotView { job: j, address }),
                                ),
                                memory: self.store.memory - 1,
                                ..self.store
                            },
                            free: self.free.reserved_acquired(self.store.reserved),
                            writes: self.writes.push(
                                WriteView {
                                    slot,
                                    address,
                                    parent: job.head,
                                    data: chunk(job.data, job.offset),
                                },
                            ),
                            made: true,
                        },
                    )
                },
            }
        }
    }

    /// Fills the free slots from `k` on. `None` if there was no address for a
    /// block.
    pub open spec fn fill_from(self, k: nat) -> Option<Progress<E>>
        decreases self.store.slots.len() - k,
        when self.store.jobs.len() > 0
    {
        if k >= self.store.slots.len() {
            Some(self)
        } else if self.store.slots[k as int] is Some {
            self.fill_from(k + 1)
        } else {
            let start = self.store.next;
            let asked = Progress {
                store: StoreView {
                    next: (start + 1) % (self.store.jobs.len() as int),
                    ..self.store
                },
                ..self
            };
            match asked.fill_slot(k as int, start) {
                Attempt::NoAddress => None,
                Attempt::NoMemory(p) => Some(p),
                Attempt::Next(p) => {
                    proof {
                        asked.store.lemma_next_with_block(start, 0);
                    }
                    p.fill_from(k + 1)
                },
            }
        }
    }

    /// Takes note of the outcome of the write that slot `k` waits for. The
    /// address of a failed write is released.
    pub open spec fn complete_slot(self, k: int, outcome: Result<(), E>) -> Self {
        let SlotView { job: j, address } = self.store.slots[k]->0;
        Progress {
            store: StoreView {
                jobs: self.store.jobs.update(j, self.store.jobs[j].complete(outcome)),
                slots: self.store.slots.update(k, None),
                memory: self.store.memory + 1,
                ..self.store
            },
            free: match outcome {
                Ok(_) => self.free,
                Err(_) => FreeSetView {
                    released: self.free.released.update(address - 1, true),
                    ..self.free
                },
            },
            writes: self.writes,
            made: true,
        }
    }

    /// Takes note of the outcomes of writes, for the slots from `k` on.
    pub open spec fn complete_from(self, events: Seq<Option<Result<(), E>>>, k: nat) -> Self
        decreases events.len() - k,
    {
        if k >= events.len() {
            self
        } else {
            match (self.store.slots[k as int], events[k as int]) {
                (Some(_), Some(outcome)) => self.complete_slot(k as int, outcome).complete_from(
                    events,
                    k + 1,
                ),
                _ => self.complete_from(events, k + 1),
            }
        }
    }
}

/// What changing one slot does to the number of busy slots.
pub proof fn lemma_busy_update(
    slots: Seq<Option<SlotView>>,
    k: int,
    v: Option<SlotView>,
    n: nat,
)
    requires
        0 <= k < slots.len(),
        n <= slots.len(),
    ensures
        busy_count(slots.update(k, v), n) == busy_count(slots, n) - (if k < n && slots[k] is Some {
            1int
        } else {
            0int
        }) + (if k < n && v is Some {
            1int
        } else {
            0int
        }),
    decreases n,
{
    if n > 0 {
        lemma_busy_update(slots, k, v, (n - 1) as nat);
    }
}

proof fn lemma_job_update(
    slots: Seq<Option<SlotView>>,
    j: int,
    k: int,
    v: Option<SlotView>,
    n: nat,
)
    requires
        0 <= k < slots.len(),
        n <= slots.len(),
    ensures
        job_count(slots.update(k, v), j, n) == job_count(slots, j, n) - (if k < n && slots[k] is Some
            && slots[k]->0.job == j {
            1int
        } else {
            0int
        }) + (if k < n && v is Some && v->0.job == j {
            1int
        } else {
            0int
        }),
    decreases n,
{
    if n > 0 {
        lemma_job_update(slots, j, k, v, (n - 1) as nat);
    }
}

proof fn lemma_job_count_zero(slots: Seq<Option<SlotView>>, k: int, n: nat)
    requires
        0 <= k < n <= slots.len(),
        slots[k] is Some,
    ensures
        job_count(slots, slots[k]->0.job, n) > 0,
        busy_count(slots, n) > 0,
    decreases n,
{
    if k < n - 1 {
        lemma_job_count_zero(slots, k, (n - 1) as nat);
    }
}

impl<E> StoreView<E> {
    /// Where all blobs are complete, no slot waits for a write.
    pub proof fn law_complete_means_idle(self, free: FreeSetView)
        requires
            self.inv(free),
            self.all_complete(),
        ensures
            forall|k: int| 0 <= k < self.slots.len() ==> (#[trigger] self.slots[k]) is None,
    {
        assert forall|k: int| 0 <= k < self.slots.len() implies (
        #[trigger] self.slots[k]) is None by {
            if self.slots[k] is Some {
                lemma_job_count_zero(self.slots, k, self.slots.len());
                let j = self.slots[k]->0.job;
                assert(self.jobs[j].is_complete());
            }
        }
    }

    /// Where all blobs are complete, all memory is back.
    pub proof fn law_complete_means_all_memory_is_back(self, free: FreeSetView)
        requires
            self.inv(free),
            self.all_complete(),
        ensures
            self.memory == self.blocks(),
    {
        self.law_complete_means_idle(free);
        lemma_idle(self.slots, self.slots.len());
    }

    /// Acquiring a block keeps the invariant. The block is used by no write.
    pub proof fn lemma_acquire(self, free: FreeSetView)
        requires
            self.inv(free),
            free.reserved_block(self.reserved) is Some,
        ensures
            ({
                let block = free.reserved_block(self.reserved)->0;
                let after = free.reserved_acquired(self.reserved);
                &&& self.inv(after)
                &&& 0 <= block < free.acquired.len()
                &&& after.acquired[block]
                &&& !after.released[block]
                &&& forall|k: int|
                    0 <= k < self.slots.len() && (#[trigger] self.slots[k]) is Some
                        ==> self.slots[k]->0.address != block + 1
            }),
    {
        free_set::law_every_reserved_block_can_be_acquired(free, self.reserved);
        free_set::law_released_blocks_are_acquired(free, 0, self.reserved, 0);
        let block = free.reserved_block(self.reserved)->0;
        let after = free.reserved_acquired(self.reserved);
        assert forall|k: int|
            0 <= k < self.slots.len() && (#[trigger] self.slots[k]) is Some implies {
            let SlotView { job, address } = self.slots[k]->0;
            &&& after.acquired[address - 1]
            &&& address != block + 1
        } by {
            let address = self.slots[k]->0.address;
            assert(free.acquired[address - 1]);
        }
    }

    /// Filling a slot keeps the invariant.
    pub proof fn lemma_submit(self, free: FreeSetView, slot: int, j: int, block: int)
        requires
            self.inv(free),
            0 <= slot < self.slots.len(),
            self.slots[slot] is None,
            0 <= j < self.jobs.len(),
            self.jobs[j].has_next(),
            self.memory > 0,
            0 <= block < free.acquired.len(),
            free.acquired[block],
            !free.released[block],
            forall|k: int|
                0 <= k < self.slots.len() && (#[trigger] self.slots[k]) is Some
                    ==> self.slots[k]->0.address != block + 1,
        ensures
            (StoreView {
                jobs: self.jobs.update(j, self.jobs[j].submit((block + 1) as u64)),
                slots: self.slots.update(
                    slot,
                    Some(SlotView { job: j, address: (block + 1) as u64 }),
                ),
                memory: self.memory - 1,
                ..self
            }).inv(free),
    {
        let v = Some(SlotView { job: j, address: (block + 1) as u64 });
        let slots = self.slots.update(slot, v);
        let jobs = self.jobs.update(j, self.jobs[j].submit((block + 1) as u64));
        lemma_busy_update(self.slots, slot, v, self.slots.len());
        assert forall|i: int| 0 <= i < jobs.len() implies (#[trigger] jobs[i]).submitted
            - jobs[i].completed == job_count(slots, i, slots.len()) by {
            lemma_job_update(self.slots, i, slot, v, self.slots.len());
            assert(self.jobs[i].wf());
        }
        assert forall|i: int| 0 <= i < jobs.len() implies (#[trigger] jobs[i]).wf() by {
            assert(self.jobs[i].wf());
        }
    }
}

impl<E> Progress<E> {
    /// Taking note of the outcome of a write keeps the invariant.
    pub proof fn lemma_complete(self, k: int, outcome: Result<(), E>)
        requires
            self.store.inv(self.free),
            0 <= k < self.store.slots.len(),
            self.store.slots[k] is Some,
        ensures
            self.complete_slot(k, outcome).store.inv(self.complete_slot(k, outcome).free),
            self.store.jobs[self.store.slots[k]->0.job].completed
                < self.store.jobs[self.store.slots[k]->0.job].submitted,
            self.store.memory < self.store.slots.len(),
    {
        let SlotView { job: j, address } = self.store.slots[k]->0;
        let after = self.complete_slot(k, outcome);
        let slots = after.store.slots;
        let jobs = after.store.jobs;
        lemma_job_count_zero(self.store.slots, k, self.store.slots.len());
        lemma_busy_update(self.store.slots, k, None, self.store.slots.len());
        assert(self.store.jobs[j].wf());
        assert forall|i: int| 0 <= i < jobs.len() implies (#[trigger] jobs[i]).submitted
            - jobs[i].completed == job_count(slots, i, slots.len()) by {
            lemma_job_update(self.store.slots, i, k, None, self.store.slots.len());
            assert(self.store.jobs[i].wf());
        }
        assert forall|i: int| 0 <= i < jobs.len() implies (#[trigger] jobs[i]).wf() by {
            assert(self.store.jobs[i].wf());
        }
        free_set::law_released_blocks_are_acquired(self.free, 0, self.store.reserved, address - 1);
        assert forall|l: int| 0 <= l < slots.len() && (#[trigger] slots[l]) is Some implies {
            let SlotView { job, address } = slots[l]->0;
            &&& 0 < address <= after.free.acquired.len()
            &&& after.free.acquired[address - 1]
            &&& !after.free.released[address - 1]
        } by {
            assert(self.store.slots[l] is Some);
            if l < k {
                assert(self.store.slots[l]->0.address != self.store.slots[k]->0.address);
            } else {
                assert(self.store.slots[k]->0.address != self.store.slots[l]->0.address);
            }
        }
    }
}

pub proof fn lemma_idle(slots: Seq<Option<SlotView>>, n: nat)
    requires
        n <= slots.len(),
        forall|k: int| 0 <= k < slots.len() ==> (#[trigger] slots[k]) is None,
    ensures
        busy_count(slots, n) == 0,
    decreases n,
{
    if n > 0 {
        lemma_idle(slots, (n - 1) as nat);
    }
}

pub proof fn lemma_idle_job(slots: Seq<Option<SlotView>>, j: int, n: nat)
    requires
        n <= slots.len(),
        forall|k: int| 0 <= k < slots.len() ==> (#[trigger] slots[k]) is None,
    ensures
        job_count(slots, j, n) == 0,
    decreases n,
{
    if n > 0 {
        lemma_idle_job(slots, j, (n - 1) as nat);
    }
}

/// Whether the write that slot `k` waits for is over and failed.
pub open spec fn failed<E>(
    slots: Seq<Option<SlotView>>,
    events: Seq<Option<Result<(), E>>>,
    k: int,
) -> bool {
    slots[k] is Some && events[k] matches Some(Err(_))
}

/// Whether `q` is `p` after taking note of the outcomes of writes, for the slots
/// from `from` on: a slot waits no longer if its write is over; the blocks that
/// are released in addition are those that could not be written; a job has an
/// error if it had one or one of its blocks could not be written, and is
/// otherwise where it was.
pub open spec fn took_note<E>(
    p: Progress<E>,
    events: Seq<Option<Result<(), E>>>,
    from: nat,
    q: Progress<E>,
) -> bool {
    &&& q.store.slots.len() == p.store.slots.len()
    &&& forall|k: int|
        0 <= k < q.store.slots.len() ==> #[trigger] q.store.slots[k] == if k >= from
            && events[k] is Some {
            None
        } else {
            p.store.slots[k]
        }
    &&& q.free == (FreeSetView { released: q.free.released, ..p.free })
    &&& q.free.released.len() == p.free.released.len()
    &&& forall|i: int|
        0 <= i < q.free.released.len() ==> (#[trigger] q.free.released[i] <==> p.free.released[i]
            || exists|k: int|
            from <= k < events.len() && #[trigger] failed(p.store.slots, events, k)
                && p.store.slots[k]->0.address == i + 1)
    &&& q.store.jobs.len() == p.store.jobs.len()
    &&& forall|j: int|
        0 <= j < q.store.jobs.len() ==> {
            &&& #[trigger] q.store.jobs[j] == (JobView {
                completed: q.store.jobs[j].completed,
                error: q.store.jobs[j].error,
                ..p.store.jobs[j]
            })
            &&& q.store.jobs[j].error is Some <==> p.store.jobs[j].error is Some || exists|k: int|
                from <= k < events.len() && #[trigger] failed(p.store.slots, events, k)
                    && p.store.slots[k]->0.job == j
            &&& p.store.jobs[j].error is Some ==> q.store.jobs[j].error == p.store.jobs[j].error
        }
    &&& q.store.blocks() == p.store.blocks()
    &&& q.store.next == p.store.next
    &&& q.store.reserved == p.store.reserved
    &&& q.writes == p.writes
}

/// What taking note of the outcomes of writes comes to.
pub proof fn law_outcomes_are_taken_note_of<E>(
    p: Progress<E>,
    events: Seq<Option<Result<(), E>>>,
    from: nat,
)
    requires
        p.store.inv(p.free),
        events.len() == p.store.slots.len(),
    ensures
        took_note(p, events, from, p.complete_from(events, from)),
        p.complete_from(events, from).store.inv(p.complete_from(events, from).free),
    decreases events.len() - from,
{
    if from < events.len() {
        let k = from as int;
        match (p.store.slots[k], events[k]) {
            (Some(slot), Some(outcome)) => {
                let m = p.complete_slot(k, outcome);
                let q = m.complete_from(events, from + 1);
                p.lemma_complete(k, outcome);
                lemma_busy_update(p.store.slots, k, None, p.store.slots.len());
                law_outcomes_are_taken_note_of(m, events, from + 1);
                assert forall|l: int| from < l < events.len() implies #[trigger] failed(
                    p.store.slots,
                    events,
                    l,
                ) == failed(m.store.slots, events, l) by {}
                assert(failed(p.store.slots, events, k) == (outcome is Err));
                assert forall|i: int| 0 <= i < q.free.released.len() implies (
                #[trigger] q.free.released[i] <==> p.free.released[i] || exists|l: int|
                    from <= l < events.len() && #[trigger] failed(p.store.slots, events, l)
                        && p.store.slots[l]->0.address == i + 1) by {
                    if exists|l: int|
                        from < l < events.len() && #[trigger] failed(m.store.slots, events, l)
                            && m.store.slots[l]->0.address == i + 1 {
                        let l = choose|l: int|
                            from < l < events.len() && #[trigger] failed(m.store.slots, events, l)
                                && m.store.slots[l]->0.address == i + 1;
                        assert(failed(p.store.slots, events, l));
                    }
                    if exists|l: int|
                        from <= l < events.len() && #[trigger] failed(p.store.slots, events, l)
                            && p.store.slots[l]->0.address == i + 1 {
                        let l = choose|l: int|
                            from <= l < events.len() && #[trigger] failed(p.store.slots, events, l)
                                && p.store.slots[l]->0.address == i + 1;
                        if l > k {
                            assert(failed(m.store.slots, events, l));
                        }
                    }
                }
                assert forall|j: int| 0 <= j < q.store.jobs.len() implies {
                    &&& #[trigger] q.store.jobs[j] == (JobView {
                        completed: q.store.jobs[j].completed,
                        error: q.store.jobs[j].error,
                        ..p.store.jobs[j]
                    })
                    &&& q.store.jobs[j].error is Some <==> p.store.jobs[j].error is Some
                        || exists|l: int|
                        from <= l < events.len() && #[trigger] failed(p.store.slots, events, l)
                            && p.store.slots[l]->0.job == j
                    &&& p.store.jobs[j].error is Some ==> q.store.jobs[j].error
                        == p.store.jobs[j].error
                } by {
                    if exists|l: int|
                        from < l < events.len() && #[trigger] failed(m.store.slots, events, l)
                            && m.store.slots[l]->0.job == j {
                        let l = choose|l: int|
                            from < l < events.len() && #[trigger] failed(m.store.slots, events, l)
                                && m.store.slots[l]->0.job == j;
                        assert(failed(p.store.slots, events, l));
                    }
                    if exists|l: int|
                        from <= l < events.len() && #[trigger] failed(p.store.slots, events, l)
                            && p.store.slots[l]->0.job == j {
                        let l = choose|l: int|
                            from <= l < events.len() && #[trigger] failed(p.store.slots, events, l)
                                && p.store.slots[l]->0.job == j;
                        if l > k {
                            assert(failed(m.store.slots, events, l));
                        }
                    }
                }
            },
            _ => {
                law_outcomes_are_taken_note_of(p, events, from + 1);
                assert(!failed(p.store.slots, events, k));
            },
        }
    }
}

/// The memory of a write that is over is that of a block.
pub open spec fn event_wf<E>(event: WriteEvent<E>) -> bool {
    match event {
        None => true,
        Some(Ok(block)) => block.wf(),
        Some(Err(e)) => e.with.wf(),
    }
}

/// There is one event for each slot.
pub open spec fn events_fit<E>(events: Seq<WriteEvent<E>>, store: StoreView<E>) -> bool {
    &&& events.len() == store.slots.len()
    &&& forall|k: int| 0 <= k < events.len() ==> event_wf(#[trigger] events[k])
}

/// The number of blocks that the first `n` blobs take.
pub open spec fn blocks_needed<E>(jobs: Seq<PendingBlob<'_, E>>, n: nat) -> nat
    decreases n,
{
    if n == 0 {
        0
    } else {
        blocks_needed(jobs, (n - 1) as nat) + ChainedBlock::blocks_for(jobs[n - 1]@.data.len())
    }
}

pub open spec fn jobs_view<E>(jobs: Seq<PendingBlob<'_, E>>) -> Seq<JobView<E>> {
    Seq::new(jobs.len(), |j: int| jobs[j]@)
}

pub open spec fn slots_view(slots: Seq<Option<(usize, AcquiredAddress)>>) -> Seq<Option<SlotView>> {
    Seq::new(
        slots.len(),
        |k: int|
            match slots[k] {
                Some((job, address)) => Some(SlotView { job: job as int, address: address@ }),
                None => None,
            },
    )
}

impl<'a, E> View for StoreBlobs<'a, E> {
    type V = StoreView<E>;

    closed spec fn view(&self) -> StoreView<E> {
        StoreView {
            jobs: jobs_view(self.jobs@),
            slots: slots_view(self.completions@),
            memory: self.block_memory@.len() as int,
            next: self.next_job as int,
            reserved: self.reserved_addresses@,
        }
    }
}

impl<'a, E> StoreBlobs<'a, E> {
    pub closed spec fn wf(self) -> bool {
        &&& forall|j: int| 0 <= j < self.jobs@.len() ==> (#[trigger] self.jobs@[j]).wf()
        &&& forall|i: int|
            0 <= i < self.block_memory@.len() ==> (#[trigger] self.block_memory@[i]).wf()
    }

    /// Starts to write `jobs`, at most `max_concurrency` blocks at a time, to
    /// addresses out of `reserved_addresses`.
    ///
    /// Both the number of blocks provided and the number of jobs must be at
    /// least 1.
    pub fn new(
        free_set: &FreeSet,
        reserved_addresses: Reservation,
        block_memory: Vec<ChainedBlock>,
        jobs: Vec<PendingBlob<'a, E>>,
        max_concurrency: usize,
    ) -> (r: Self)
        requires
            free_set.wf(),
            free_set@.consistent(),
            free_set@.holds(reserved_addresses@),
            0 < block_memory@.len() <= max_concurrency,
            jobs@.len() >= 1,
            blocks_needed(jobs@, jobs@.len()) <= reserved_addresses@.end
                - reserved_addresses@.start,
            forall|i: int| 0 <= i < block_memory@.len() ==> (#[trigger] block_memory@[i]).wf(),
            forall|j: int|
                0 <= j < jobs@.len() ==> (#[trigger] jobs@[j]).wf() && jobs@[j]@ == JobView::<
                    E,
                >::start(jobs@[j]@.data),
        ensures
            r.wf(),
            r@.inv(free_set@),
            r@ == (StoreView {
                jobs: jobs_view(jobs@),
                slots: Seq::new(max_concurrency as nat, |k: int| None::<SlotView>),
                memory: block_memory@.len() as int,
                next: 0,
                reserved: reserved_addresses@,
            }),
            r@.to_submit() == blocks_needed(jobs@, jobs@.len()),
    {
        let mut completions: Vec<Option<(usize, AcquiredAddress)>> = Vec::new();
        while completions.len() < max_concurrency
            invariant
                completions@.len() <= max_concurrency,
                forall|k: int|
                    0 <= k < completions@.len() ==> (#[trigger] completions@[k]) is None,
            decreases max_concurrency - completions@.len(),
        {
            completions.push(None);
        }
        let r = Self { reserved_addresses, block_memory, jobs, completions, next_job: 0 };
        proof {
            assert(r@.slots =~= Seq::new(max_concurrency as nat, |k: int| None::<SlotView>));
            free_set.lemma_wf();
            supply::law_all_blocks_are_to_be_handed_out(jobs@, jobs@.len());
            lemma_idle(r@.slots, r@.slots.len());
            assert forall|j: int| 0 <= j < r@.jobs.len() implies (#[trigger] r@.jobs[j]).wf()
                && r@.jobs[j].submitted - r@.jobs[j].completed == job_count(
                r@.slots,
                j,
                r@.slots.len(),
            ) by {
                assert(r.jobs@[j].wf());
                r.jobs@[j].lemma_wf();
                lemma_idle_job(r@.slots, j, r@.slots.len());
            }
        }
        r
    }

    /// One round: takes note of the writes that are over, then fills free slots.
    ///
    /// `events` holds for each slot what is known of the write that it waits
    /// for.
    ///
    /// Fails only if there are fewer free blocks in the reservation than are
    /// still to be written.
    pub fn poll(&mut self, free_set: &mut FreeSet, events: Vec<WriteEvent<E>>) -> (r: Result<
        (Round, Vec<SlotWrite>),
        InsufficientAddresses,
    >)
        requires
            old(self).wf(),
            old(free_set).wf(),
            old(self)@.inv(old(free_set)@),
            events_fit(events@, old(self)@),
        ensures
            final(self).wf(),
            final(free_set).wf(),
            final(self)@.inv(final(free_set)@),
            final(self)@.slots.len() == old(self)@.slots.len(),
            final(self)@.reserved == old(self)@.reserved,
            ({
                let begin = Progress {
                    store: old(self)@,
                    free: old(free_set)@,
                    writes: Seq::empty(),
                    made: false,
                };
                match begin.complete_from(events_view(events@), 0).fill_from(0) {
                    Some(end) => {
                        &&& r matches Ok((round, writes))
                        &&& final(self)@ == end.store
                        &&& final(free_set)@ == end.free
                        &&& writes_view(writes@) == end.writes
                        &&& forall|i: int|
                            0 <= i < writes@.len() ==> (#[trigger] writes@[i]).write.block.wf()
                        &&& round == if end.store.all_complete() {
                            Round::Ready
                        } else if end.made {
                            Round::Again
                        } else {
                            Round::Pending
                        }
                    },
                    None => r is Err,
                }
            }),
            old(self)@.provided_for(old(free_set)@) ==> r is Ok && final(self)@.provided_for(
                final(free_set)@,
            ),
    {
        proof {
            if self@.provided_for(free_set@) {
                supply::law_enough_addresses_suffice(
                    Progress {
                        store: self@,
                        free: free_set@,
                        writes: Seq::empty(),
                        made: false,
                    },
                    events_view(events@),
                );
            }
        }
        let completed = self.poll_completions(free_set, events);
        match self.schedule_jobs(free_set, completed) {
            Ok((made_progress, writes)) => {
                let round = if self.is_done() {
                    Round::Ready
                } else if made_progress {
                    Round::Again
                } else {
                    Round::Pending
                };
                Ok((round, writes))
            },
            Err(e) => Err(e),
        }
    }

    /// Takes note of the writes that are over.
    pub fn poll_completions(
        &mut self,
        free_set: &mut FreeSet,
        events: Vec<WriteEvent<E>>,
    ) -> (made_progress: bool)
        requires
            old(self).wf(),
            old(free_set).wf(),
            old(self)@.inv(old(free_set)@),
            events_fit(events@, old(self)@),
        ensures
            final(self).wf(),
            final(free_set).wf(),
            final(self)@.inv(final(free_set)@),
            final(self)@.slots.len() == old(self)@.slots.len(),
            final(self)@.reserved == old(self)@.reserved,
            ({
                let begin = Progress {
                    store: old(self)@,
                    free: old(free_set)@,
                    writes: Seq::empty(),
                    made: false,
                };
                begin.complete_from(events_view(events@), 0) == (Progress {
                    store: final(self)@,
                    free: final(free_set)@,
                    writes: Seq::empty(),
                    made: made_progress,
                })
            }),
    {
        let ghost begin = Progress {
            store: self@,
            free: free_set@,
            writes: Seq::empty(),
            made: false,
        };
        let ghost seen = events_view(events@);
        let ghost all = events@;
        let mut events = events;
        let mut made_progress = false;
        let mut k: usize = 0;
        while k < self.completions.len()
            invariant
                k <= self.completions@.len(),
                events@.len() == self.completions@.len() == all.len(),
                all.len() == old(self)@.slots.len(),
                self.reserved_addresses == old(self).reserved_addresses,
                self.wf(),
                free_set.wf(),
                self@.inv(free_set@),
                seen == events_view(all),
                forall|i: int| k <= i < events@.len() ==> #[trigger] events@[i] == all[i],
                forall|i: int| 0 <= i < all.len() ==> event_wf(#[trigger] all[i]),
                begin.complete_from(seen, 0) == (Progress {
                    store: self@,
                    free: free_set@,
                    writes: Seq::empty(),
                    made: made_progress,
                }).complete_from(seen, k as nat),
            decreases self.completions@.len() - k,
        {
            let ghost cur = Progress {
                store: self@,
                free: free_set@,
                writes: Seq::<WriteView>::empty(),
                made: made_progress,
            };
            let event = events[k].take();
            if let Some(result) = event {
                let slot = self.completions[k].take();
                match slot {
                    Some((job_index, address)) => {
                        let ghost outcome: Result<(), E> = event_view(Some(result))->0;
                        proof {
                            cur.lemma_complete(k as int, outcome);
                        }
                        if result.is_err() {
                            // This block's address is definitely not used.
                            free_set.release(address.get());
                        }
                        let memory = self.jobs[job_index].complete_write(result);
                        self.block_memory.push(memory);
                        made_progress = true;
                        proof {
                            let after = cur.complete_slot(k as int, outcome);
                            assert(self@.jobs =~= after.store.jobs);
                            assert(self@.slots =~= after.store.slots);
                        }
                    },
                    None => {
                        assert(self@.slots =~= cur.store.slots);
                    },
                }
            }
            k += 1;
        }
        made_progress
    }

    /// Fills free slots with blocks of the jobs. `made_progress` says whether
    /// anything was achieved before.
    pub fn schedule_jobs(&mut self, free_set: &mut FreeSet, made_progress: bool) -> (r: Result<
        (bool, Vec<SlotWrite>),
        InsufficientAddresses,
    >)
        requires
            old(self).wf(),
            old(free_set).wf(),
            old(self)@.inv(old(free_set)@),
        ensures
            final(self).wf(),
            final(free_set).wf(),
            final(self)@.inv(final(free_set)@),
            final(self)@.slots.len() == old(self)@.slots.len(),
            final(self)@.reserved == old(self)@.reserved,
            ({
                let begin = Progress {
                    store: old(self)@,
                    free: old(free_set)@,
                    writes: Seq::empty(),
                    made: made_progress,
                };
                match begin.fill_from(0) {
                    Some(end) => {
                        &&& r matches Ok((made, writes))
                        &&& end == (Progress {
                            store: final(self)@,
                            free: final(free_set)@,
                            writes: writes_view(writes@),
                            made,
                        })
                        &&& forall|i: int|
                            0 <= i < writes@.len() ==> (#[trigger] writes@[i]).write.block.wf()
                    },
                    None => r is Err,
                }
            }),
    {
        let ghost begin = Progress {
            store: self@,
            free: free_set@,
            writes: Seq::empty(),
            made: made_progress,
        };
        let mut made = made_progress;
        let mut writes: Vec<SlotWrite> = Vec::new();
        let job_count = self.jobs.len();
        let slot_count = self.completions.len();
        let mut k: usize = 0;
        assert(writes_view(writes@) =~= Seq::empty());
        while k < slot_count
            invariant
                k <= slot_count == self.completions@.len(),
                slot_count == old(self)@.slots.len(),
                self.reserved_addresses == old(self).reserved_addresses,
                job_count == self.jobs@.len() > 0,
                begin.store == old(self)@,
                begin.free == old(free_set)@,
                begin.writes == Seq::<WriteView>::empty(),
                begin.made == made_progress,
                begin.store.jobs.len() > 0,
                self.wf(),
                free_set.wf(),
                self@.inv(free_set@),
                forall|i: int|
                    0 <= i < writes@.len() ==> (#[trigger] writes@[i]).write.block.wf(),
                begin.fill_from(0) == (Progress {
                    store: self@,
                    free: free_set@,
                    writes: writes_view(writes@),
                    made,
                }).fill_from(k as nat),
            decreases slot_count - k,
        {
            if self.completions[k].is_some() {
                k += 1;
                continue;
            }
            let ghost before = Progress {
                store: self@,
                free: free_set@,
                writes: writes_view(writes@),
                made,
            };
            let start = self.next_job;
            self.next_job = if start + 1 == job_count {
                0
            } else {
                start + 1
            };
            let ghost asked = Progress {
                store: self@,
                free: free_set@,
                writes: writes_view(writes@),
                made,
            };
            proof {
                if start + 1 == job_count {
                    vstd::arithmetic::div_mod::lemma_mod_self_0(job_count as int);
                } else {
                    vstd::arithmetic::div_mod::lemma_small_mod(
                        (start + 1) as nat,
                        job_count as nat,
                    );
                }
            }
            assert(asked.store =~= (StoreView {
                next: (start + 1) % (before.store.jobs.len() as int),
                ..before.store
            }));
            assert(asked.store.inv(asked.free));
            let mut t: usize = 0;
            let mut filled = false;
            while t < job_count && !filled
                invariant
                    t <= job_count,
                    k < slot_count == self.completions@.len(),
                    slot_count == old(self)@.slots.len(),
                    self.reserved_addresses == old(self).reserved_addresses,
                    begin.store == old(self)@,
                    begin.free == old(free_set)@,
                    begin.writes == Seq::<WriteView>::empty(),
                    begin.made == made_progress,
                    begin.store.jobs.len() > 0,
                    start < job_count == self.jobs@.len(),
                    self.wf(),
                    free_set.wf(),
                    self@.inv(free_set@),
                    forall|i: int|
                        0 <= i < writes@.len() ==> (#[trigger] writes@[i]).write.block.wf(),
                    !filled ==> self@.slots[k as int] is None,
                    before.fill_from(k as nat) == begin.fill_from(0),
                    before.store.slots[k as int] is None,
                    k < before.store.slots.len(),
                    before.store.jobs.len() > 0,
                    before.store.next == start,
                    asked == (Progress {
                        store: StoreView {
                            next: (start + 1) % (before.store.jobs.len() as int),
                            ..before.store
                        },
                        ..before
                    }),
                    !filled ==> asked.store.next_with_block(start as int, 0)
                        == asked.store.next_with_block(start as int, t as nat),
                    !filled ==> asked == (Progress {
                        store: self@,
                        free: free_set@,
                        writes: writes_view(writes@),
                        made,
                    }),
                    filled ==> asked.fill_slot(k as int, start as int) == Attempt::Next(
                        Progress {
                            store: self@,
                            free: free_set@,
                            writes: writes_view(writes@),
                            made,
                        },
                    ),
                    t > 0 ==> asked.store.memory > 0,
                decreases
                    job_count - t,
                    if filled {
                        0int
                    } else {
                        1int
                    },
            {
                let ghost cur = Progress {
                    store: self@,
                    free: free_set@,
                    writes: writes_view(writes@),
                    made,
                };
                let memory = match self.block_memory.pop() {
                    Some(memory) => memory,
                    None => {
                        // Jobs need to complete to reclaim block memory.
                        return Ok((made, writes));
                    },
                };
                let job_index = if start < job_count - t {
                    start + t
                } else {
                    start - (job_count - t)
                };
                assert(job_index == (start + t) % job_count as int) by {
                    if start < job_count - t {
                        vstd::arithmetic::div_mod::lemma_small_mod(
                            (start + t) as nat,
                            job_count as nat,
                        );
                    } else {
                        vstd::arithmetic::div_mod::lemma_mod_add_multiples_vanish(
                            job_index as int,
                            job_count as int,
                        );
                        vstd::arithmetic::div_mod::lemma_small_mod(
                            job_index as nat,
                            job_count as nat,
                        );
                    }
                }
                if !self.jobs[job_index].has_next() {
                    self.block_memory.push(memory);
                    assert(self@ =~= cur.store);
                    t += 1;
                    continue;
                }
                proof {
                    if cur.free.reserved_block(cur.store.reserved) is Some {
                        cur.store.lemma_acquire(cur.free);
                    }
                }
                let address = match free_set.acquire_reserved(&self.reserved_addresses) {
                    Some(address) => address,
                    None => {
                        self.block_memory.push(memory);
                        assert(self@ =~= cur.store);
                        return Err(InsufficientAddresses);
                    },
                };
                let ghost block = cur.free.reserved_block(cur.store.reserved)->0;
                let ghost addr = address@;
                proof {
                    cur.store.lemma_submit(free_set@, k as int, job_index as int, block);
                }
                match self.jobs[job_index].submit_write(address, memory) {
                    Ok(write) => {
                        let InFlightBlock { address, block } = write;
                        // The slot waits for the write at the address.
                        let kept = address.duplicate();
                        self.completions[k] = Some((job_index, kept));
                        writes.push(
                            SlotWrite { slot: k, write: InFlightBlock { address, block } },
                        );
                        made = true;
                        filled = true;
                        assert(self@.jobs =~= cur.store.jobs.update(
                            job_index as int,
                            cur.store.jobs[job_index as int].submit(addr),
                        ));
                        assert(self@.slots =~= cur.store.slots.update(
                            k as int,
                            Some(SlotView { job: job_index as int, address: addr }),
                        ));
                        assert(writes_view(writes@) =~= cur.writes.push(writes@.last()@));
                    },
                    Err(memory) => {
                        self.block_memory.push(memory);
                        assert(self@ =~= cur.store);
                        t += 1;
                    },
                }
            }
            k += 1;
        }
        Ok((made, writes))
    }

    /// Whether all jobs are complete.
    pub fn is_done(&self) -> (r: bool)
        ensures
            r == self@.all_complete(),
    {
        let mut j: usize = 0;
        while j < self.jobs.len()
            invariant
                j <= self.jobs@.len(),
                forall|i: int| 0 <= i < j ==> (#[trigger] self@.jobs[i]).is_complete(),
            decreases self.jobs@.len() - j,
        {
            if !self.jobs[j].is_complete() {
                assert(!self@.jobs[j as int].is_complete());
                return false;
            }
            assert(self@.jobs[j as int].is_complete());
            j += 1;
        }
        true
    }

    /// When all blobs are done, gives back the reservation and the memory, and
    /// says for each blob where it is stored, or the error.
    pub fn finish(self, free_set: &mut FreeSet) -> (r: (Vec<Result<BlobRef, E>>, Vec<ChainedBlock>))
        requires
            self.wf(),
            old(free_set).wf(),
            self@.inv(old(free_set)@),
            self@.all_complete(),
        ensures
            final(free_set).wf(),
            final(free_set)@ == old(free_set)@.forfeited(),
            r.0@.len() == self@.jobs.len(),
            forall|j: int|
                0 <= j < r.0@.len() ==> stored(self@.jobs[j], #[trigger] r.0@[j]),
            r.1@.len() == self@.blocks(),
            forall|i: int| 0 <= i < r.1@.len() ==> (#[trigger] r.1@[i]).wf(),
    {
        proof {
            self@.law_complete_means_all_memory_is_back(free_set@);
        }
        let ghost all = self@.jobs;
        let StoreBlobs { reserved_addresses, block_memory, jobs, completions: _, next_job: _ } =
            self;
        free_set.forfeit(reserved_addresses);
        let mut jobs = jobs;
        let mut results: Vec<Result<BlobRef, E>> = Vec::new();
        let mut j: usize = 0;
        while j < jobs.len()
            invariant
                j <= jobs@.len() == all.len(),
                results@.len() == j,
                forall|i: int| j <= i < jobs@.len() ==> #[trigger] jobs@[i]@ == all[i],
                forall|i: int| 0 <= i < j ==> stored(all[i], #[trigger] results@[i]),
            decreases jobs@.len() - j,
        {
            assert(jobs@[j as int]@ == all[j as int]);
            let error = jobs[j].error.take();
            let result = match error {
                Some(error) => Err(error),
                None => {
                    let data = jobs[j].data;
                    let len = data.len() as u64;
                    assert(len as u32 == len % 0x1_0000_0000) by (bit_vector);
                    Ok(
                        BlobRef::new(
                            Checksum::from_bytes(data),
                            #[verifier::truncate] (len as u32),
                            0,
                            jobs[j].head,
                        ),
                    )
                },
            };
            results.push(result);
            j += 1;
        }
        (results, block_memory)
    }
}

/// What is returned for a blob: the first error, or else the reference to it.
pub open spec fn stored<E>(job: JobView<E>, result: Result<BlobRef, E>) -> bool {
    match job.error {
        Some(error) => result == Err::<BlobRef, E>(error),
        None => {
            &&& result matches Ok(ptr)
            &&& ptr.checksum@ == checksum::blake3_hash(job.data)
            &&& ptr.len == job.data.len() % 0x1_0000_0000
            &&& ptr.refcount == 0
            &&& ptr.reserved@ == Seq::new(8, |i: int| 0u8)
            &&& ptr.block@ == job.head
        },
    }
}

} // verus!

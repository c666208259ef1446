//! What is promised of blobs.

use vstd::prelude::*;

use crate::checksum::blake3_hash;
use crate::free_set::{AcquiredAddress, FreeSet};
use crate::grid::blob;
use crate::grid::blob::{
    load_into, BlobLoader, InsufficientAddresses, JobView, PendingBlob, Progress, ReadError, Round,
    SlotWrite, StoreBlobs, WriteEvent,
};
use crate::grid::block::{BlockRef, ChainedBlock, InFlightBlock, ReadError as BlockReadError};
use crate::grid::stored;
use crate::grid::stored::StoredBlock;
use crate::grid::supply;
use crate::io::ErrorWith;
use crate::manifest::BlobRef;

verus! {

/// Loading starts with the block that the reference to the blob names, with all
/// of the destination to be filled.
pub proof fn law_loading_starts_with_the_head(
    ptr: BlobRef,
    dst: Vec<u8>,
    loader: BlobLoader,
    pending: Option<BlockRef>,
    missing: usize,
    out: Vec<u8>,
)
    requires
        call_ensures(load_into, (&ptr, dst), loader),
        call_ensures(BlobLoader::pending, (&loader,), pending),
        call_ensures(BlobLoader::missing, (&loader,), missing),
        call_ensures(BlobLoader::into_dst, (loader,), out),
    ensures
        pending is Some <==> !ptr.block.spec_is_zero(),
        pending matches Some(p) ==> p == ptr.block,
        missing == dst@.len(),
        out@ == dst@,
{
    if let Some(p) = pending {
        BlockRef::lemma_view(p, ptr.block);
    }
}

/// A block that has the checksum of the reference to it fills the destination
/// from behind: down to the next multiple of what a block holds, with the start
/// of its data. What was filled stays, and its parent is next. A block that does
/// not is an error, and nothing more is loaded.
pub proof fn law_blocks_fill_the_destination_from_behind<E>(
    block: ChainedBlock,
    stored: Vec<u8>,
    r: Result<ChainedBlock, ErrorWith<ReadError<E>, ChainedBlock>>,
    asked: Option<BlockRef>,
    next: Option<BlockRef>,
    i: int,
)
    requires
        block.wf(),
        call_ensures(ChainedBlock::to_bytes, (&block,), stored),
    ensures
        forall|loader: &mut BlobLoader|
            #![trigger call_ensures(BlobLoader::accept::<E>, (loader, Ok::<ChainedBlock, ErrorWith<E, ChainedBlock>>(block)), r)]
            (*loader)@.wf() && call_ensures(
                BlobLoader::accept::<E>,
                (loader, Ok::<ChainedBlock, ErrorWith<E, ChainedBlock>>(block)),
                r,
            ) && call_ensures(BlobLoader::pending, (&*loader,), asked) && call_ensures(
                BlobLoader::pending,
                (&*final(loader),),
                next,
            ) && asked is Some && 0 <= i < (*loader)@.dst.len() ==> {
                let (v, w) = ((*loader)@, (*final(loader))@);
                let intact = blake3_hash(stored@) == asked->0.checksum@;
                &&& r is Ok <==> intact
                &&& w.expected == v.expected
                &&& w.dst.len() == v.dst.len()
                &&& match r {
                    Ok(b) => {
                        &&& b == block
                        &&& w.offset % 65488 == 0
                        &&& v.offset > 0 ==> w.offset < v.offset <= w.offset + 65488
                        &&& v.offset == 0 ==> w.offset == 0
                        &&& w.dst[i] == if w.offset <= i < v.offset {
                            block.data@[i - w.offset]
                        } else {
                            v.dst[i]
                        }
                        &&& next is Some <==> !block.parent.spec_is_zero()
                        &&& next matches Some(p) ==> p == block.parent
                    },
                    Err(e) => {
                        &&& e.with == block
                        &&& e.error matches ReadError::Block(
                            BlockReadError::ChecksumMismatch { computed, expected },
                        )
                        &&& computed@ == blake3_hash(stored@)
                        &&& expected@ == asked->0.checksum@
                        &&& next is None
                        &&& w.dst == v.dst
                        &&& w.offset == v.offset
                    },
                }
            },
{
    if let Some(p) = next {
        BlockRef::lemma_view(p, block.parent);
    }
}

/// That a block cannot be read is an error, and nothing more is loaded.
pub proof fn law_unread_block_ends_loading<E>(
    e: ErrorWith<E, ChainedBlock>,
    r: Result<ChainedBlock, ErrorWith<ReadError<E>, ChainedBlock>>,
    next: Option<BlockRef>,
)
    ensures
        forall|loader: &mut BlobLoader|
            #![trigger call_ensures(BlobLoader::accept::<E>, (loader, Err::<ChainedBlock, ErrorWith<E, ChainedBlock>>(e)), r)]
            call_ensures(
                BlobLoader::accept::<E>,
                (loader, Err::<ChainedBlock, ErrorWith<E, ChainedBlock>>(e)),
                r,
            ) && call_ensures(BlobLoader::pending, (&*final(loader),), next) ==> {
                &&& r matches Err(f)
                &&& f.with == e.with
                &&& f.error == ReadError::Block(BlockReadError::<E>::Io(e.error))
                &&& next is None
                &&& (*final(loader))@.dst == (*loader)@.dst
            },
{
}

/// A blob is loaded if and only if its data has the hash that the reference to it
/// holds.
pub proof fn law_loaded_data_has_the_checksum<E>(
    ptr: BlobRef,
    dst: Vec<u8>,
    begin: BlobLoader,
    loader: BlobLoader,
    out: Vec<u8>,
    r: Result<(), ReadError<E>>,
)
    requires
        call_ensures(load_into, (&ptr, dst), begin),
        loader@.expected == begin@.expected,
        call_ensures(BlobLoader::finish::<E>, (&loader,), r),
        call_ensures(BlobLoader::into_dst, (loader,), out),
    ensures
        r is Ok <==> blake3_hash(out@) == ptr.checksum@,
        r matches Err(e) ==> (e matches ReadError::ChecksumMismatch { computed, expected }
            && computed@ == blake3_hash(out@) && expected@ == ptr.checksum@),
{
}

/// A new job has all of its data to be written, in as many blocks as hold it.
pub proof fn law_new_job<'a, E>(
    data: &'a [u8],
    job: PendingBlob<'a, E>,
    blocks: usize,
    has_next: bool,
    complete: bool,
)
    requires
        data@.len() > 0,
        call_ensures(PendingBlob::<'a, E>::new, (data,), job),
        call_ensures(PendingBlob::<'a, E>::required_blocks, (&job,), blocks),
        call_ensures(PendingBlob::<'a, E>::has_next, (&job,), has_next),
        call_ensures(PendingBlob::<'a, E>::is_complete, (&job,), complete),
    ensures
        job@.data == data@,
        65488 * (blocks - 1) < data@.len() <= 65488 * blocks,
        has_next,
        !complete,
        job@.error is None,
        job@.offset == 0,
{
}

/// A job is complete if and only if nothing is being written, and there was an
/// error or all data was handed out. There is a next block if and only if there
/// is more data and no error.
pub proof fn law_complete_job<'a, E>(job: PendingBlob<'a, E>, complete: bool, has_next: bool)
    requires
        call_ensures(PendingBlob::<'a, E>::is_complete, (&job,), complete),
        call_ensures(PendingBlob::<'a, E>::has_next, (&job,), has_next),
    ensures
        complete <==> job@.submitted == job@.completed && (job@.error is Some || job@.offset
            == job@.data.len()),
        has_next <==> job@.offset < job@.data.len() && job@.error is None,
{
}

/// The block that is handed out holds the next part of the data, followed by
/// zeros, and refers to the block before it. The job then refers to the block
/// that was handed out, by its address and the hash of its stored form. Nothing
/// is handed out after an error, nor when there is no more data.
pub proof fn law_next_part_is_handed_out<'a, E>(
    address: AcquiredAddress,
    memory: ChainedBlock,
    r: Result<InFlightBlock, ChainedBlock>,
    i: int,
)
    requires
        0 <= i < 65488,
    ensures
        forall|job: &mut PendingBlob<'a, E>|
            #![trigger call_ensures(PendingBlob::<'a, E>::submit_write, (job, address, memory), r)]
            job.wf() && call_ensures(
                PendingBlob::<'a, E>::submit_write,
                (job, address, memory),
                r,
            ) ==> {
                let (v, w) = ((*job)@, (*final(job))@);
                &&& w.data == v.data && w.completed == v.completed && w.error == v.error
                &&& r is Ok <==> v.offset < v.data.len() && v.error is None
                &&& match r {
                    Ok(write) => {
                        &&& write.address == address
                        &&& write.block.parent@ == v.head
                        &&& write.block.data@.len() == 65488
                        &&& write.block.data@[i] == if v.offset + i < v.data.len() {
                            v.data[v.offset + i]
                        } else {
                            0
                        }
                        &&& w.offset == if v.offset + 65488 < v.data.len() {
                            v.offset + 65488
                        } else {
                            v.data.len() as int
                        }
                        &&& w.submitted == v.submitted + 1
                        &&& w.head.address == address@
                        &&& w.head.padding == 0
                        &&& w.head.checksum == blake3_hash(write.block.bytes())
                    },
                    Err(m) => m == memory && w == v,
                }
            },
{
    assert forall|job: &mut PendingBlob<'a, E>|
        #![trigger call_ensures(PendingBlob::<'a, E>::submit_write, (job, address, memory), r)]
        job.wf() && call_ensures(
            PendingBlob::<'a, E>::submit_write,
            (job, address, memory),
            r,
        ) implies ({
        let v = (*job)@;
        r matches Ok(write) ==> write.block.data@[i] == if v.offset + i < v.data.len() {
            v.data[v.offset + i]
        } else {
            0
        }
    }) by {
        job.lemma_wf();
    }
}

/// When a write is over its memory is handed back, and the first error is kept.
pub proof fn law_outcome_of_write<'a, E>(
    result: Result<ChainedBlock, ErrorWith<E, ChainedBlock>>,
    r: ChainedBlock,
)
    ensures
        forall|job: &mut PendingBlob<'a, E>|
            #![trigger call_ensures(PendingBlob::<'a, E>::complete_write, (job, result), r)]
            call_ensures(PendingBlob::<'a, E>::complete_write, (job, result), r) ==> {
                let (v, w) = ((*job)@, (*final(job))@);
                &&& w.data == v.data && w.offset == v.offset && w.head == v.head && w.submitted
                    == v.submitted
                &&& w.completed == v.completed + 1
                &&& v.error is Some ==> w.error == v.error
                &&& match result {
                    Ok(block) => r == block && w.error == v.error,
                    Err(e) => r == e.with && (v.error is None ==> w.error == Some(e.error)),
                }
            },
{
}

/// What is polled for, in terms of the two states and what is known of writes.
pub open spec fn begin_of<E>(
    store: blob::StoreView<E>,
    free: crate::free_set::FreeSetView,
) -> Progress<E> {
    Progress { store, free, writes: Seq::empty(), made: false }
}

/// A round of writing takes note of the writes that are over: their slots are
/// free, the address of each that failed is released, and no other. It acquires
/// exactly the blocks that are to be written then, which were free and in the
/// reservation. It does not fail where the reservation holds enough free blocks.
/// Writing is over if and only if all blobs are complete; it waits only if no
/// write is over and none is to be started.
pub proof fn law_round<'a, E>(
    events: Vec<WriteEvent<E>>,
    r: Result<(Round, Vec<SlotWrite>), InsufficientAddresses>,
)
    ensures
        forall|store: &mut StoreBlobs<'a, E>, free: &mut FreeSet|
            #![trigger call_ensures(StoreBlobs::<'a, E>::poll, (store, free, events), r)]
            (*store)@.inv((*free)@) && events@.len() == (*store)@.slots.len() && (
            *store)@.provided_for((*free)@) && call_ensures(
                StoreBlobs::<'a, E>::poll,
                (store, free, events),
                r,
            ) ==> {
                let (v, w) = ((*free)@, (*final(free))@);
                let (s, t) = ((*store)@, (*final(store))@);
                &&& r matches Ok((round, writes))
                &&& w.acquired.len() == v.acquired.len()
                &&& forall|i: int|
                    0 <= i < v.acquired.len() ==> (#[trigger] w.acquired[i] <==> v.acquired[i]
                        || exists|x: int|
                        0 <= x < writes@.len() && (#[trigger] writes@[x]).write.address@ == i + 1)
                &&& forall|x: int|
                    0 <= x < writes@.len() ==> s.reserved.start < (
                    #[trigger] writes@[x]).write.address@ <= s.reserved.end
                        && !v.acquired[writes@[x].write.address@ - 1]
                &&& forall|x: int, y: int|
                    0 <= x < y < writes@.len() ==> (#[trigger] writes@[x]).write.address@ != (
                    #[trigger] writes@[y]).write.address@
                &&& w.released.len() == v.released.len()
                &&& forall|i: int|
                    0 <= i < v.released.len() ==> (#[trigger] w.released[i] <==> v.released[i]
                        || exists|k: int|
                        0 <= k < events@.len() && s.slots[k] is Some && (
                        #[trigger] events@[k] matches Some(Err(_))) && s.slots[k]->0.address == i
                            + 1)
                &&& round == Round::Ready <==> forall|j: int|
                    0 <= j < t.jobs.len() ==> (#[trigger] t.jobs[j]).submitted == t.jobs[j].completed
                        && (t.jobs[j].error is Some || t.jobs[j].offset == t.jobs[j].data.len())
                &&& round == Round::Pending ==> writes@.len() == 0 && forall|k: int|
                    0 <= k < events@.len() && s.slots[k] is Some ==> (#[trigger] events@[k]) is None
            },
{
    assert forall|store: &mut StoreBlobs<'a, E>, free: &mut FreeSet|
        #![trigger call_ensures(StoreBlobs::<'a, E>::poll, (store, free, events), r)]
        (*store)@.inv((*free)@) && events@.len() == (*store)@.slots.len() && (
        *store)@.provided_for((*free)@) && call_ensures(
            StoreBlobs::<'a, E>::poll,
            (store, free, events),
            r,
        ) implies ({
        let (v, w) = ((*free)@, (*final(free))@);
        let (s, t) = ((*store)@, (*final(store))@);
        &&& r matches Ok((round, writes))
        &&& w.acquired.len() == v.acquired.len()
        &&& forall|i: int|
            0 <= i < v.acquired.len() ==> (#[trigger] w.acquired[i] <==> v.acquired[i] || exists|
                x: int,
            |
                0 <= x < writes@.len() && (#[trigger] writes@[x]).write.address@ == i + 1)
        &&& forall|x: int|
            0 <= x < writes@.len() ==> s.reserved.start < (#[trigger] writes@[x]).write.address@
                <= s.reserved.end && !v.acquired[writes@[x].write.address@ - 1]
        &&& forall|x: int, y: int|
            0 <= x < y < writes@.len() ==> (#[trigger] writes@[x]).write.address@ != (
            #[trigger] writes@[y]).write.address@
        &&& w.released.len() == v.released.len()
        &&& forall|i: int|
            0 <= i < v.released.len() ==> (#[trigger] w.released[i] <==> v.released[i] || exists|
                k: int,
            |
                0 <= k < events@.len() && s.slots[k] is Some && (
                #[trigger] events@[k] matches Some(Err(_))) && s.slots[k]->0.address == i + 1)
        &&& round == Round::Ready <==> forall|j: int|
            0 <= j < t.jobs.len() ==> (#[trigger] t.jobs[j]).submitted == t.jobs[j].completed && (
            t.jobs[j].error is Some || t.jobs[j].offset == t.jobs[j].data.len())
        &&& round == Round::Pending ==> writes@.len() == 0 && forall|k: int|
            0 <= k < events@.len() && s.slots[k] is Some ==> (#[trigger] events@[k]) is None
    }) by {
        let (v, w) = ((*free)@, (*final(free))@);
        let (s, t) = ((*store)@, (*final(store))@);
        let begin = begin_of(s, v);
        let seen = blob::events_view(events@);
        supply::law_enough_addresses_suffice(begin, seen);
        blob::law_outcomes_are_taken_note_of(begin, seen, 0);
        let mid = begin.complete_from(seen, 0);
        let end = mid.fill_from(0)->0;
        let (round, writes) = r->Ok_0;
        lemma_fill_keeps_released(mid, 0);
        lemma_made(begin, seen, 0);
        assert forall|x: int| 0 <= x < writes@.len() implies end.writes[x].address
            == (#[trigger] writes@[x]).write.address@ by {
            assert(blob::writes_view(writes@)[x] == writes@[x]@);
        }
        assert forall|i: int| 0 <= i < v.acquired.len() implies (
        #[trigger] w.acquired[i] <==> v.acquired[i] || exists|x: int|
            0 <= x < writes@.len() && (#[trigger] writes@[x]).write.address@ == i + 1) by {
            if exists|x: int| 0 <= x < end.writes.len() && (#[trigger] end.writes[x]).address == i
                + 1 {
                let x = choose|x: int|
                    0 <= x < end.writes.len() && (#[trigger] end.writes[x]).address == i + 1;
                assert(writes@[x].write.address@ == i + 1);
            }
            if exists|x: int|
                0 <= x < writes@.len() && (#[trigger] writes@[x]).write.address@ == i + 1 {
                let x = choose|x: int|
                    0 <= x < writes@.len() && (#[trigger] writes@[x]).write.address@ == i + 1;
                assert(end.writes[x].address == i + 1);
            }
        }
        assert forall|x: int| 0 <= x < writes@.len() implies s.reserved.start < (
        #[trigger] writes@[x]).write.address@ <= s.reserved.end
            && !v.acquired[writes@[x].write.address@ - 1] by {
            assert(end.writes[x].address == writes@[x].write.address@);
        }
        assert forall|x: int, y: int| 0 <= x < y < writes@.len() implies (
        #[trigger] writes@[x]).write.address@ != (#[trigger] writes@[y]).write.address@ by {
            assert(end.writes[x].address != end.writes[y].address);
        }
        assert forall|i: int| 0 <= i < v.released.len() implies (
        #[trigger] w.released[i] <==> v.released[i] || exists|k: int|
            0 <= k < events@.len() && s.slots[k] is Some && (
            #[trigger] events@[k] matches Some(Err(_))) && s.slots[k]->0.address == i + 1) by {
            if exists|k: int|
                0 <= k < seen.len() && #[trigger] blob::failed(s.slots, seen, k)
                    && s.slots[k]->0.address == i + 1 {
                let k = choose|k: int|
                    0 <= k < seen.len() && #[trigger] blob::failed(s.slots, seen, k)
                        && s.slots[k]->0.address == i + 1;
                assert(events@[k] matches Some(Err(_)));
            }
            if exists|k: int|
                0 <= k < events@.len() && s.slots[k] is Some && (
                #[trigger] events@[k] matches Some(Err(_))) && s.slots[k]->0.address == i + 1 {
                let k = choose|k: int|
                    0 <= k < events@.len() && s.slots[k] is Some && (
                    #[trigger] events@[k] matches Some(Err(_))) && s.slots[k]->0.address == i + 1;
                assert(blob::failed(s.slots, seen, k));
            }
        }
        assert(t.all_complete() == forall|j: int|
            0 <= j < t.jobs.len() ==> (#[trigger] t.jobs[j]).submitted == t.jobs[j].completed && (
            t.jobs[j].error is Some || t.jobs[j].offset == t.jobs[j].data.len()));
        if round == Round::Pending {
            assert(!end.made);
            assert(!mid.made);
            assert forall|k: int| 0 <= k < events@.len() && s.slots[k] is Some implies (
            #[trigger] events@[k]) is None by {
                assert(seen[k] is None);
            }
        }
    }
}

proof fn lemma_fill_keeps_released<E>(p: Progress<E>, k: nat)
    requires
        p.store.jobs.len() > 0,
    ensures
        p.fill_from(k) matches Some(q) ==> q.free.released == p.free.released && (p.made
            ==> q.made) && (q.writes.len() > p.writes.len() ==> q.made) && q.writes.len()
            >= p.writes.len(),
    decreases p.store.slots.len() - k,
{
    if k < p.store.slots.len() {
        if p.store.slots[k as int] is Some {
            lemma_fill_keeps_released(p, k + 1);
        } else {
            let start = p.store.next;
            let asked = Progress {
                store: blob::StoreView {
                    next: (start + 1) % (p.store.jobs.len() as int),
                    ..p.store
                },
                ..p
            };
            asked.store.lemma_next_with_block(start, 0);
            match asked.fill_slot(k as int, start) {
                blob::Attempt::Next(q) => {
                    lemma_fill_keeps_released(q, k + 1);
                },
                _ => {},
            }
        }
    }
}

proof fn lemma_made<E>(p: Progress<E>, events: Seq<Option<Result<(), E>>>, k: nat)
    requires
        events.len() == p.store.slots.len(),
    ensures
        p.made ==> p.complete_from(events, k).made,
        !p.complete_from(events, k).made ==> forall|l: int|
            k <= l < events.len() && p.store.slots[l] is Some ==> (#[trigger] events[l]) is None,
    decreases events.len() - k,
{
    if k < events.len() {
        match (p.store.slots[k as int], events[k as int]) {
            (Some(_), Some(outcome)) => {
                lemma_made(p.complete_slot(k as int, outcome), events, k + 1);
            },
            _ => {
                lemma_made(p, events, k + 1);
            },
        }
    }
}

/// After a round of writing the blocks that were handed out of each blob stand in
/// storage, once those that the round asks for are written: in order, each
/// referring to the one before it, at addresses that are acquired.
pub proof fn law_round_writes_the_blobs<'a, E>(
    events: Vec<WriteEvent<E>>,
    round: Round,
    writes: Vec<SlotWrite>,
    storage: Map<u64, StoredBlock>,
    places: Seq<Seq<u64>>,
)
    ensures
        forall|store: &mut StoreBlobs<'a, E>, free: &mut FreeSet|
            #![trigger call_ensures(StoreBlobs::<'a, E>::poll, (store, free, events), Ok::<(Round, Vec<SlotWrite>), InsufficientAddresses>((round, writes)))]
            (*store)@.inv((*free)@) && events@.len() == (*store)@.slots.len()
                && stored::in_storage((*store)@, (*free)@, storage, places) && call_ensures(
                StoreBlobs::<'a, E>::poll,
                (store, free, events),
                Ok::<(Round, Vec<SlotWrite>), InsufficientAddresses>((round, writes)),
            ) ==> exists|after: Seq<Seq<u64>>| #[trigger]
                stored::in_storage(
                    (*final(store))@,
                    (*final(free))@,
                    stored::written(storage, blob::writes_view(writes@), writes@.len()),
                    after,
                ),
{
    assert forall|store: &mut StoreBlobs<'a, E>, free: &mut FreeSet|
        #![trigger call_ensures(StoreBlobs::<'a, E>::poll, (store, free, events), Ok::<(Round, Vec<SlotWrite>), InsufficientAddresses>((round, writes)))]
        (*store)@.inv((*free)@) && events@.len() == (*store)@.slots.len() && stored::in_storage(
            (*store)@,
            (*free)@,
            storage,
            places,
        ) && call_ensures(
            StoreBlobs::<'a, E>::poll,
            (store, free, events),
            Ok::<(Round, Vec<SlotWrite>), InsufficientAddresses>((round, writes)),
        ) implies exists|after: Seq<Seq<u64>>| #[trigger]
        stored::in_storage(
            (*final(store))@,
            (*final(free))@,
            stored::written(storage, blob::writes_view(writes@), writes@.len()),
            after,
        ) by {
        let begin = begin_of((*store)@, (*free)@);
        let after = stored::law_round_keeps_blobs_in_storage(
            begin,
            blob::events_view(events@),
            storage,
            places,
        );
        assert(stored::in_storage(
            (*final(store))@,
            (*final(free))@,
            stored::written(storage, blob::writes_view(writes@), writes@.len()),
            after,
        ));
    }
}

/// When all blobs are complete, each is answered with its error, or with a
/// reference to its last block, its length and the hash of its data. The
/// reservation is given up.
pub proof fn law_finished_blobs<'a, E>(
    store: StoreBlobs<'a, E>,
    r: (Vec<Result<BlobRef, E>>, Vec<ChainedBlock>),
    j: int,
)
    requires
        0 <= j < store@.jobs.len(),
    ensures
        forall|free: &mut FreeSet|
            #![trigger call_ensures(StoreBlobs::<'a, E>::finish, (store, free), r)]
            call_ensures(StoreBlobs::<'a, E>::finish, (store, free), r) ==> {
                let job = store@.jobs[j];
                &&& r.0@.len() == store@.jobs.len()
                &&& r.1@.len() == store@.blocks()
                &&& (*final(free))@.acquired == (*free)@.acquired
                &&& (*final(free))@.released == (*free)@.released
                &&& (*final(free))@.reservations == (*free)@.reservations - 1
                &&& match r.0@[j] {
                    Ok(ptr) => {
                        &&& job.error is None
                        &&& ptr.checksum@ == blake3_hash(job.data)
                        &&& job.data.len() <= u32::MAX ==> ptr.len == job.data.len()
                        &&& ptr.refcount == 0
                        &&& ptr.block@ == job.head
                    },
                    Err(e) => job.error == Some(e),
                }
            },
{
    assert forall|free: &mut FreeSet|
        #![trigger call_ensures(StoreBlobs::<'a, E>::finish, (store, free), r)]
        call_ensures(StoreBlobs::<'a, E>::finish, (store, free), r) implies ({
        let job = store@.jobs[j];
        match r.0@[j] {
            Ok(ptr) => {
                &&& job.error is None
                &&& ptr.checksum@ == blake3_hash(job.data)
                &&& job.data.len() <= u32::MAX ==> ptr.len == job.data.len()
                &&& ptr.refcount == 0
                &&& ptr.block@ == job.head
            },
            Err(e) => job.error == Some(e),
        }
    }) by {
        assert(blob::stored(store@.jobs[j], r.0@[j]));
    }
}

/// Writing starts with all memory and all slots free, and every blob to be
/// written from its start.
pub proof fn law_new_store<'a, E>(
    free: FreeSet,
    reserved: crate::free_set::Reservation,
    memory: Vec<ChainedBlock>,
    jobs: Vec<PendingBlob<'a, E>>,
    max_concurrency: usize,
    store: StoreBlobs<'a, E>,
    done: bool,
)
    requires
        jobs@.len() > 0,
        forall|j: int|
            0 <= j < jobs@.len() ==> (#[trigger] jobs@[j])@ == JobView::<E>::start(
                jobs@[j]@.data,
            ) && jobs@[j]@.data.len() > 0,
        call_ensures(
            StoreBlobs::<'a, E>::new,
            (&free, reserved, memory, jobs, max_concurrency),
            store,
        ),
        call_ensures(StoreBlobs::<'a, E>::is_done, (&store,), done),
    ensures
        store@.memory == memory@.len(),
        store@.slots.len() == max_concurrency,
        forall|k: int| 0 <= k < max_concurrency ==> (#[trigger] store@.slots[k]) is None,
        store@.reserved == reserved@,
        store@.jobs.len() == jobs@.len(),
        forall|j: int| 0 <= j < jobs@.len() ==> #[trigger] store@.jobs[j] == jobs@[j]@,
        !done,
{
    assert(store@.jobs[0] == jobs@[0]@);
    assert(!store@.jobs[0].is_complete());
}

} // verus!

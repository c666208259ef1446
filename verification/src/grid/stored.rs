//! What becomes of a blob that is written to storage and then loaded.
//!
//! Storage is taken to hold one block for each address: that a block is written
//! at one address is taken not to change what stands at another. An address that
//! is used as a byte offset in a file gives that only where blocks in use are at
//! least a block's size apart.

use vstd::prelude::*;

use crate::checksum;
use crate::grid::block::{ChainedBlock, RefView};
use crate::grid::blob;
use crate::grid::blob::{Attempt, JobView, LoaderView, Progress, StoreView, WriteView};
use crate::free_set;
use crate::free_set::FreeSetView;

verus! {

/// The header and the data of a block in storage.
#[verifier::ext_equal]
pub struct StoredBlock {
    pub parent: RefView,
    pub data: Seq<u8>,
}

/// The number of bytes that `n` blocks hold.
pub open spec fn capacity(n: int) -> int {
    65488 * n
}

/// The reference to the last of the first `n` blocks of `data`, where the
/// blocks are written at `addresses`.
pub open spec fn head_of(data: Seq<u8>, addresses: Seq<u64>, n: nat) -> RefView
    decreases n,
{
    if n == 0 {
        RefView::zero()
    } else {
        RefView::to_block(
            head_of(data, addresses, (n - 1) as nat),
            blob::chunk(data, capacity(n - 1)),
            addresses[n - 1],
        )
    }
}

/// Whether the blocks handed out are the first blocks of the blob, to be
/// written at `addresses`.
pub open spec fn handed_out<E>(job: JobView<E>, addresses: Seq<u64>) -> bool {
    &&& addresses.len() <= ChainedBlock::blocks_for(job.data.len())
    &&& job.offset == blob::min(capacity(addresses.len() as int), job.data.len() as int)
    &&& job.head == head_of(job.data, addresses, addresses.len())
}

/// Whether the blocks of `data` stand in storage at `addresses`.
pub open spec fn stores(
    storage: Map<u64, StoredBlock>,
    data: Seq<u8>,
    addresses: Seq<u64>,
) -> bool {
    forall|i: int|
        0 <= i < addresses.len() ==> storage.contains_key(#[trigger] addresses[i])
            && storage[addresses[i]] == (StoredBlock {
            parent: head_of(data, addresses, i as nat),
            data: blob::chunk(data, capacity(i)),
        })
}

/// The state of loading a blob after `n` blocks were found in storage.
pub open spec fn loaded(
    begin: LoaderView,
    storage: Map<u64, StoredBlock>,
    n: nat,
) -> LoaderView
    decreases n,
{
    if n == 0 {
        begin
    } else {
        let before = loaded(begin, storage, (n - 1) as nat);
        let block = storage[before.chain.head.address];
        before.placed(block.parent, block.data)
    }
}

/// Before anything is written, no block is handed out.
pub proof fn law_nothing_is_handed_out_at_start<E>(data: Seq<u8>)
    ensures
        handed_out(JobView::<E>::start(data), Seq::empty()),
{
}

proof fn lemma_head_of_push(data: Seq<u8>, addresses: Seq<u64>, address: u64, n: nat)
    requires
        n <= addresses.len(),
    ensures
        head_of(data, addresses.push(address), n) == head_of(data, addresses, n),
    decreases n,
{
    if n > 0 {
        lemma_head_of_push(data, addresses, address, (n - 1) as nat);
    }
}

/// Each block that is handed out is the next one of the blob.
pub proof fn law_submit_hands_out_the_next_block<E>(
    job: JobView<E>,
    addresses: Seq<u64>,
    address: u64,
)
    requires
        handed_out(job, addresses),
        job.has_next(),
    ensures
        handed_out(job.submit(address), addresses.push(address)),
{
    lemma_head_of_push(job.data, addresses, address, addresses.len());
}

/// That a write is over changes nothing about which blocks are handed out.
pub proof fn law_complete_hands_out_nothing<E>(
    job: JobView<E>,
    addresses: Seq<u64>,
    outcome: Result<(), E>,
)
    requires
        handed_out(job, addresses),
    ensures
        handed_out(job.complete(outcome), addresses),
{
}

/// A blob that is complete without an error was handed out to its last block.
pub proof fn law_complete_blob_is_handed_out<E>(job: JobView<E>, addresses: Seq<u64>)
    requires
        handed_out(job, addresses),
        job.is_complete(),
        job.error is None,
    ensures
        addresses.len() == ChainedBlock::blocks_for(job.data.len()),
{
}

/// Where the byte `x` of a blob stands in its block.
proof fn lemma_chunk_at(data: Seq<u8>, i: int, x: int)
    requires
        0 <= i,
        capacity(i) <= x < capacity(i + 1),
        x < data.len(),
    ensures
        blob::chunk(data, capacity(i))[x - capacity(i)] == data[x],
{
}

/// The pending block is the `i`-th of the blob, where the destination is filled
/// from its end on.
proof fn lemma_pending_len(v: LoaderView, i: int)
    requires
        0 <= i,
        capacity(i) < v.offset <= capacity(i + 1),
    ensures
        v.offset - v.pending_len() == capacity(i),
{
}

proof fn lemma_loaded(
    begin: LoaderView,
    storage: Map<u64, StoredBlock>,
    data: Seq<u8>,
    addresses: Seq<u64>,
    n: nat,
)
    requires
        data.len() > 0,
        addresses.len() == ChainedBlock::blocks_for(data.len()),
        stores(storage, data, addresses),
        begin.dst.len() == data.len(),
        begin.offset == data.len(),
        !begin.chain.failed,
        begin.chain.head == head_of(data, addresses, addresses.len()),
        n <= addresses.len(),
    ensures
        ({
            let v = loaded(begin, storage, n);
            &&& !v.chain.failed
            &&& v.chain.head == head_of(data, addresses, (addresses.len() - n) as nat)
            &&& v.dst.len() == data.len()
            &&& v.expected == begin.expected
            &&& v.offset == if n == 0 {
                data.len() as int
            } else {
                capacity(addresses.len() - n)
            }
            &&& forall|x: int| v.offset <= x < data.len() ==> #[trigger] v.dst[x] == data[x]
        }),
    decreases n,
{
    if n > 0 {
        lemma_loaded(begin, storage, data, addresses, (n - 1) as nat);
        let u = loaded(begin, storage, (n - 1) as nat);
        let v = loaded(begin, storage, n);
        let i = addresses.len() - n;
        assert(head_of(data, addresses, (i + 1) as nat).address == addresses[i]);
        assert(storage.contains_key(addresses[i]));
        let block = storage[addresses[i]];
        assert(v == u.placed(block.parent, block.data));
        assert(capacity(i) < u.offset <= capacity(i + 1));
        lemma_pending_len(u, i);
        assert forall|x: int| v.offset <= x < data.len() implies #[trigger] v.dst[x]
            == data[x] by {
            if x < u.offset {
                lemma_chunk_at(data, i, x);
            }
        }
    }
}

/// Loading a blob whose blocks stand in storage finds all of them, with the
/// checksums that the references to them hold, comes to the end of the chain
/// when the destination is filled, and gives the data that was written.
pub proof fn law_stored_blob_is_loaded(
    begin: LoaderView,
    storage: Map<u64, StoredBlock>,
    data: Seq<u8>,
    addresses: Seq<u64>,
)
    requires
        data.len() > 0,
        addresses.len() == ChainedBlock::blocks_for(data.len()),
        forall|i: int| 0 <= i < addresses.len() ==> #[trigger] addresses[i] != 0,
        stores(storage, data, addresses),
        begin.dst.len() == data.len(),
        begin.offset == data.len(),
        !begin.chain.failed,
        begin.chain.head == head_of(data, addresses, addresses.len()),
    ensures
        forall|n: nat|
            n < addresses.len() ==> ({
                let v = #[trigger] loaded(begin, storage, n);
                let block = storage[v.chain.head.address];
                &&& v.chain.has_next()
                &&& storage.contains_key(v.chain.head.address)
                &&& checksum::blake3_hash(block.parent.bytes() + block.data)
                    == v.chain.head.checksum
            }),
        !loaded(begin, storage, addresses.len()).chain.has_next(),
        !loaded(begin, storage, addresses.len()).chain.failed,
        loaded(begin, storage, addresses.len()).offset == 0,
        loaded(begin, storage, addresses.len()).dst == data,
        loaded(begin, storage, addresses.len()).expected == begin.expected,
{
    assert forall|n: nat| n < addresses.len() implies ({
        let v = #[trigger] loaded(begin, storage, n);
        let block = storage[v.chain.head.address];
        &&& v.chain.has_next()
        &&& storage.contains_key(v.chain.head.address)
        &&& checksum::blake3_hash(block.parent.bytes() + block.data) == v.chain.head.checksum
    }) by {
        lemma_loaded(begin, storage, data, addresses, n);
        let i = addresses.len() - n - 1;
        assert(addresses[i] != 0);
        assert(storage.contains_key(addresses[i]));
    }
    lemma_loaded(begin, storage, data, addresses, addresses.len());
    assert(loaded(begin, storage, addresses.len()).dst =~= data);
}

/// The storage after the first `n` of the given writes.
pub open spec fn written(
    storage: Map<u64, StoredBlock>,
    writes: Seq<WriteView>,
    n: nat,
) -> Map<u64, StoredBlock>
    decreases n,
{
    if n == 0 {
        storage
    } else {
        let write = writes[n - 1];
        written(storage, writes, (n - 1) as nat).insert(
            write.address,
            StoredBlock { parent: write.parent, data: write.data },
        )
    }
}

proof fn lemma_written_push(
    storage: Map<u64, StoredBlock>,
    writes: Seq<WriteView>,
    write: WriteView,
    n: nat,
)
    requires
        n <= writes.len(),
    ensures
        written(storage, writes.push(write), n) == written(storage, writes, n),
    decreases n,
{
    if n > 0 {
        lemma_written_push(storage, writes, write, (n - 1) as nat);
    }
}

/// Whether the blocks of each blob that were handed out stand in storage, at
/// the addresses in `places`, which are acquired.
pub open spec fn in_storage<E>(
    store: StoreView<E>,
    free: FreeSetView,
    storage: Map<u64, StoredBlock>,
    places: Seq<Seq<u64>>,
) -> bool {
    &&& places.len() == store.jobs.len()
    &&& forall|j: int|
        0 <= j < places.len() ==> handed_out(store.jobs[j], #[trigger] places[j]) && stores(
            storage,
            store.jobs[j].data,
            places[j],
        )
    &&& forall|j: int, i: int|
        0 <= j < places.len() && 0 <= i < places[j].len() ==> 0 < #[trigger] places[j][i]
            <= free.acquired.len() && free.acquired[places[j][i] - 1]
}

/// The state of writing blobs, and the storage after the writes that were asked
/// for.
pub open spec fn tracked_in<E>(
    p: Progress<E>,
    storage: Map<u64, StoredBlock>,
    places: Seq<Seq<u64>>,
) -> bool {
    &&& p.store.inv(p.free)
    &&& in_storage(p.store, p.free, written(storage, p.writes, p.writes.len()), places)
}

proof fn lemma_fill_slot<E>(
    p: Progress<E>,
    slot: int,
    start: int,
    storage: Map<u64, StoredBlock>,
    places: Seq<Seq<u64>>,
) -> (r: Seq<Seq<u64>>)
    requires
        tracked_in(p, storage, places),
        0 <= slot < p.store.slots.len(),
        p.store.slots[slot] is None,
    ensures
        match p.fill_slot(slot, start) {
            Attempt::NoAddress => true,
            Attempt::NoMemory(q) => tracked_in(q, storage, r) && q.store.slots.len()
                == p.store.slots.len() && q.store.blocks() == p.store.blocks(),
            Attempt::Next(q) => tracked_in(q, storage, r) && q.store.slots.len()
                == p.store.slots.len() && q.store.blocks() == p.store.blocks(),
        },
{
    p.store.lemma_next_with_block(start, 0);
    match (p.store.next_with_block(start, 0), p.free.reserved_block(p.store.reserved)) {
        (Some(j), Some(block)) if p.store.memory != 0 => {
            p.store.lemma_acquire(p.free);
            free_set::law_every_reserved_block_can_be_acquired(p.free, p.store.reserved);
            let free = p.free.reserved_acquired(p.store.reserved);
            let job = p.store.jobs[j];
            let address = (block + 1) as u64;
            let after = p.fill_slot(slot, start)->Next_0;
            p.store.lemma_submit(free, slot, j, block);
            blob::lemma_busy_update(
                p.store.slots,
                slot,
                after.store.slots[slot],
                p.store.slots.len(),
            );
            law_submit_hands_out_the_next_block(job, places[j], address);
            let r = places.update(j, places[j].push(address));
            let before = written(storage, p.writes, p.writes.len());
            let write = after.writes.last();
            lemma_written_push(storage, p.writes, write, p.writes.len());
            let now = written(storage, after.writes, after.writes.len());
            assert(now == before.insert(
                address,
                StoredBlock { parent: write.parent, data: write.data },
            ));
            assert forall|k: int| 0 <= k < r.len() implies handed_out(
                after.store.jobs[k],
                #[trigger] r[k],
            ) && stores(now, after.store.jobs[k].data, r[k]) by {
                assert(handed_out(p.store.jobs[k], places[k]));
                assert forall|i: int| 0 <= i < r[k].len() implies now.contains_key(
                    #[trigger] r[k][i],
                ) && now[r[k][i]] == (StoredBlock {
                    parent: head_of(after.store.jobs[k].data, r[k], i as nat),
                    data: blob::chunk(after.store.jobs[k].data, capacity(i)),
                }) by {
                    if i < places[k].len() {
                        assert(before.contains_key(places[k][i]));
                        assert(p.free.acquired[places[k][i] - 1]);
                        assert(places[k][i] != address);
                    }
                    if k == j {
                        lemma_head_of_push(job.data, places[j], address, i as nat);
                    }
                }
            }
            assert forall|k: int, i: int| 0 <= k < r.len() && 0 <= i < r[k].len() implies 0
                < #[trigger] r[k][i] <= free.acquired.len() && free.acquired[r[k][i] - 1] by {
                if i < places[k].len() {
                    assert(p.free.acquired[places[k][i] - 1]);
                }
            }
            r
        },
        _ => places,
    }
}

proof fn lemma_fill_from<E>(
    p: Progress<E>,
    k: nat,
    storage: Map<u64, StoredBlock>,
    places: Seq<Seq<u64>>,
) -> (r: Seq<Seq<u64>>)
    requires
        tracked_in(p, storage, places),
    ensures
        p.fill_from(k) matches Some(q) ==> tracked_in(q, storage, r) && q.store.blocks()
            == p.store.blocks(),
    decreases p.store.slots.len() - k,
{
    if k >= p.store.slots.len() {
        places
    } else if p.store.slots[k as int] is Some {
        lemma_fill_from(p, k + 1, storage, places)
    } else {
        let start = p.store.next;
        let asked = Progress {
            store: StoreView {
                next: (start + 1) % (p.store.jobs.len() as int),
                ..p.store
            },
            ..p
        };
        let r = lemma_fill_slot(asked, k as int, start, storage, places);
        match asked.fill_slot(k as int, start) {
            Attempt::Next(q) => lemma_fill_from(q, k + 1, storage, r),
            _ => r,
        }
    }
}

proof fn lemma_complete_from<E>(
    p: Progress<E>,
    events: Seq<Option<Result<(), E>>>,
    k: nat,
    storage: Map<u64, StoredBlock>,
    places: Seq<Seq<u64>>,
)
    requires
        tracked_in(p, storage, places),
        events.len() == p.store.slots.len(),
    ensures
        tracked_in(p.complete_from(events, k), storage, places),
        p.complete_from(events, k).store.blocks() == p.store.blocks(),
    decreases events.len() - k,
{
    if k < events.len() {
        match (p.store.slots[k as int], events[k as int]) {
            (Some(slot), Some(outcome)) => {
                let q = p.complete_slot(k as int, outcome);
                p.lemma_complete(k as int, outcome);
                blob::lemma_busy_update(p.store.slots, k as int, None, p.store.slots.len());
                assert forall|j: int| 0 <= j < places.len() implies handed_out(
                    q.store.jobs[j],
                    #[trigger] places[j],
                ) by {
                    assert(handed_out(p.store.jobs[j], places[j]));
                    law_complete_hands_out_nothing(p.store.jobs[j], places[j], outcome);
                }
                lemma_complete_from(q, events, k + 1, storage, places);
            },
            _ => lemma_complete_from(p, events, k + 1, storage, places),
        }
    }
}

/// A round of writing blobs keeps in storage what was written before, and adds
/// the blocks that are handed out, each at an address of its own. It uses no
/// memory but what it was given.
pub proof fn law_round_keeps_blobs_in_storage<E>(
    begin: Progress<E>,
    events: Seq<Option<Result<(), E>>>,
    storage: Map<u64, StoredBlock>,
    places: Seq<Seq<u64>>,
) -> (r: Seq<Seq<u64>>)
    requires
        tracked_in(begin, storage, places),
        events.len() == begin.store.slots.len(),
    ensures
        begin.complete_from(events, 0).fill_from(0) matches Some(end) ==> tracked_in(
            end,
            storage,
            r,
        ) && end.store.blocks() == begin.store.blocks(),
{
    lemma_complete_from(begin, events, 0, storage, places);
    lemma_fill_from(begin.complete_from(events, 0), 0, storage, places)
}

/// A blob that was written without an error stands in storage as a whole, and
/// loading it from its reference gives the data that was written.
pub proof fn law_written_blob_is_loaded<E>(
    store: StoreView<E>,
    free: FreeSetView,
    storage: Map<u64, StoredBlock>,
    places: Seq<Seq<u64>>,
    j: int,
    begin: LoaderView,
)
    requires
        in_storage(store, free, storage, places),
        store.all_complete(),
        0 <= j < store.jobs.len(),
        store.jobs[j].error is None,
        store.jobs[j].data.len() > 0,
        begin.dst.len() == store.jobs[j].data.len(),
        begin.offset == begin.dst.len(),
        !begin.chain.failed,
        begin.chain.head == store.jobs[j].head,
    ensures
        ({
            let n = ChainedBlock::blocks_for(store.jobs[j].data.len());
            let end = loaded(begin, storage, n);
            &&& forall|k: nat|
                k < n ==> ({
                    let v = #[trigger] loaded(begin, storage, k);
                    let block = storage[v.chain.head.address];
                    &&& v.chain.has_next()
                    &&& storage.contains_key(v.chain.head.address)
                    &&& checksum::blake3_hash(block.parent.bytes() + block.data)
                        == v.chain.head.checksum
                })
            &&& !end.chain.has_next()
            &&& !end.chain.failed
            &&& end.offset == 0
            &&& end.dst == store.jobs[j].data
            &&& end.expected == begin.expected
        }),
{
    let job = store.jobs[j];
    assert(handed_out(job, places[j]));
    assert(job.is_complete());
    law_complete_blob_is_handed_out(job, places[j]);
    assert forall|i: int| 0 <= i < places[j].len() implies #[trigger] places[j][i] != 0 by {}
    law_stored_blob_is_loaded(begin, storage, job.data, places[j]);
}

} // verus!

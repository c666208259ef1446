//! Whether there are enough addresses to write blobs to.

use vstd::prelude::*;

use crate::free_set;
use crate::free_set::{FreeSetView, ReservationView};
use crate::grid::blob;
use crate::grid::blob::{Attempt, JobView, PendingBlob, Progress, StoreView, WriteView};

verus! {

/// Whether the blocks that are acquired in `after` and not in `before` are
/// those that the writes from the `from`-th on go to: different ones, out of
/// the reservation.
pub open spec fn wrote(
    before: FreeSetView,
    after: FreeSetView,
    reserved: ReservationView,
    writes: Seq<WriteView>,
    from: nat,
) -> bool {
    &&& from <= writes.len()
    &&& after.acquired.len() == before.acquired.len()
    &&& forall|i: int|
        0 <= i < after.acquired.len() ==> (#[trigger] after.acquired[i] <==> before.acquired[i]
            || exists|w: int| from <= w < writes.len() && (#[trigger] writes[w]).address == i + 1)
    &&& forall|w: int|
        from <= w < writes.len() ==> reserved.start < (#[trigger] writes[w]).address
            <= reserved.end && !before.acquired[writes[w].address - 1]
    &&& forall|w: int, x: int|
        from <= w < x < writes.len() ==> (#[trigger] writes[w]).address != (
        #[trigger] writes[x]).address
}

/// Whether no write failed.
pub open spec fn no_error<E>(events: Seq<Option<Result<(), E>>>) -> bool {
    forall|k: int|
        0 <= k < events.len() ==> !((#[trigger] events[k]) matches Some(Err(_)))
}

/// Whether no job has an error.
pub open spec fn no_job_failed<E>(jobs: Seq<JobView<E>>) -> bool {
    forall|j: int| 0 <= j < jobs.len() ==> (#[trigger] jobs[j]).error is None
}

proof fn lemma_to_submit_update<E>(jobs: Seq<JobView<E>>, j: int, job: JobView<E>, n: nat)
    requires
        0 <= j < jobs.len(),
        n <= jobs.len(),
    ensures
        blob::to_submit_of(jobs.update(j, job), n) == blob::to_submit_of(jobs, n) + (if j < n {
            job.to_submit() - jobs[j].to_submit()
        } else {
            0
        }),
        j < n ==> jobs[j].to_submit() <= blob::to_submit_of(jobs, n),
    decreases n,
{
    if n > 0 {
        lemma_to_submit_update(jobs, j, job, (n - 1) as nat);
    }
}

proof fn lemma_submit_counts<E>(job: JobView<E>, address: u64)
    requires
        job.wf(),
        job.has_next(),
    ensures
        job.submit(address).to_submit() == job.to_submit() - 1,
{
}

proof fn lemma_complete_counts<E>(job: JobView<E>, outcome: Result<(), E>)
    ensures
        job.complete(outcome).to_submit() <= job.to_submit(),
        outcome is Ok ==> job.complete(outcome).to_submit() == job.to_submit(),
{
}

/// Filling a slot takes a free block out of the reservation for a block that is
/// to be handed out.
proof fn lemma_fill_slot<E>(
    before: FreeSetView,
    from: nat,
    p: Progress<E>,
    slot: int,
    start: int,
)
    requires
        p.store.inv(p.free),
        p.store.provided_for(p.free),
        wrote(before, p.free, p.store.reserved, p.writes, from),
        0 <= slot < p.store.slots.len(),
        p.store.slots[slot] is None,
    ensures
        match p.fill_slot(slot, start) {
            Attempt::NoAddress => false,
            Attempt::NoMemory(q) => q == p && p.store.memory == 0,
            Attempt::Next(q) => {
                &&& q.store.inv(q.free)
                &&& q.store.provided_for(q.free)
                &&& q.store.reserved == p.store.reserved
                &&& q.store.slots.len() == p.store.slots.len()
                &&& wrote(before, q.free, q.store.reserved, q.writes, from)
                &&& q.store.to_submit() + q.writes.len() == p.store.to_submit() + p.writes.len()
                &&& q.store.free_blocks(q.free) + q.writes.len() == p.store.free_blocks(p.free)
                    + p.writes.len()
                &&& q.writes.len() >= p.writes.len()
                &&& p.store.next_with_block(start, 0) is Some ==> q.writes.len() > p.writes.len()
                &&& no_job_failed(p.store.jobs) ==> no_job_failed(q.store.jobs)
            },
        },
{
    p.store.lemma_next_with_block(start, 0);
    free_set::law_every_reserved_block_can_be_acquired(p.free, p.store.reserved);
    if p.store.memory > 0 && p.store.next_with_block(start, 0) is Some {
        let j = p.store.next_with_block(start, 0)->0;
        let job = p.store.jobs[j];
        lemma_to_submit_update(p.store.jobs, j, job.submit(1), p.store.jobs.len());
        assert(job.wf());
        assert(job.to_submit() > 0) by {
            lemma_submit_counts(job, 1);
        }
        assert(p.free.reserved_block(p.store.reserved) is Some);
        let block = p.free.reserved_block(p.store.reserved)->0;
        let address = (block + 1) as u64;
        let q = p.fill_slot(slot, start)->Next_0;
        p.store.lemma_acquire(p.free);
        p.store.lemma_submit(q.free, slot, j, block);
        lemma_submit_counts(job, address);
        lemma_to_submit_update(p.store.jobs, j, job.submit(address), p.store.jobs.len());
        let last = p.writes.len() as int;
        assert(q.writes[last].address == block + 1);
        assert forall|i: int| 0 <= i < q.free.acquired.len() implies (
        #[trigger] q.free.acquired[i] <==> before.acquired[i] || exists|w: int|
            from <= w < q.writes.len() && (#[trigger] q.writes[w]).address == i + 1) by {
            if i == block {
                assert(q.writes[last].address == i + 1);
            } else {
                assert(q.free.acquired[i] == p.free.acquired[i]);
                if exists|w: int| from <= w < p.writes.len() && (#[trigger] p.writes[w]).address == i
                    + 1 {
                    let w = choose|w: int|
                        from <= w < p.writes.len() && (#[trigger] p.writes[w]).address == i + 1;
                    assert(q.writes[w].address == i + 1);
                }
                if exists|w: int| from <= w < q.writes.len() && (#[trigger] q.writes[w]).address == i
                    + 1 {
                    let w = choose|w: int|
                        from <= w < q.writes.len() && (#[trigger] q.writes[w]).address == i + 1;
                    assert(p.writes[w].address == i + 1);
                }
            }
        }
        assert forall|w: int, x: int| from <= w < x < q.writes.len() implies (
        #[trigger] q.writes[w]).address != (#[trigger] q.writes[x]).address by {
            if x == last {
                let i = p.writes[w].address - 1;
                assert(p.free.acquired[i]);
            } else {
                assert(p.writes[w].address != p.writes[x].address);
            }
        }
        assert forall|w: int| from <= w < q.writes.len() implies q.store.reserved.start < (
        #[trigger] q.writes[w]).address <= q.store.reserved.end && !before.acquired[q.writes[w].address
            - 1] by {
            if w < last {
                assert(p.writes[w].address == q.writes[w].address);
            } else {
                assert(!p.free.acquired[block]);
            }
        }
        if no_job_failed(p.store.jobs) {
            assert forall|i: int| 0 <= i < q.store.jobs.len() implies (
            #[trigger] q.store.jobs[i]).error is None by {
                assert(p.store.jobs[i].error is None);
            }
        }
    }
}

proof fn lemma_fill_from<E>(before: FreeSetView, from: nat, p: Progress<E>, k: nat)
    requires
        p.store.inv(p.free),
        p.store.provided_for(p.free),
        wrote(before, p.free, p.store.reserved, p.writes, from),
    ensures
        match p.fill_from(k) {
            None => false,
            Some(q) => {
                &&& q.store.inv(q.free)
                &&& q.store.provided_for(q.free)
                &&& q.store.reserved == p.store.reserved
                &&& q.store.slots.len() == p.store.slots.len()
                &&& wrote(before, q.free, q.store.reserved, q.writes, from)
                &&& q.store.to_submit() + q.writes.len() == p.store.to_submit() + p.writes.len()
                &&& q.store.free_blocks(q.free) + q.writes.len() == p.store.free_blocks(p.free)
                    + p.writes.len()
                &&& q.writes.len() >= p.writes.len()
                &&& no_job_failed(p.store.jobs) ==> no_job_failed(q.store.jobs)
            },
        },
    decreases p.store.slots.len() - k,
{
    if k < p.store.slots.len() {
        if p.store.slots[k as int] is Some {
            lemma_fill_from(before, from, p, k + 1);
        } else {
            let start = p.store.next;
            let asked = asked(p);
            lemma_asked(p);
            lemma_fill_slot(before, from, asked, k as int, start);
            match asked.fill_slot(k as int, start) {
                Attempt::Next(q) => {
                    lemma_fill_from(before, from, q, k + 1);
                },
                _ => {},
            }
        }
    }
}

/// The state when the next job is asked for a block.
spec fn asked<E>(p: Progress<E>) -> Progress<E> {
    Progress {
        store: StoreView {
            next: (p.store.next + 1) % (p.store.jobs.len() as int),
            ..p.store
        },
        ..p
    }
}

proof fn lemma_asked<E>(p: Progress<E>)
    requires
        p.store.inv(p.free),
    ensures
        asked(p).store.inv(p.free),
{
    vstd::arithmetic::div_mod::lemma_mod_bound(p.store.next + 1, p.store.jobs.len() as int);
}

proof fn lemma_complete_from<E>(
    p: Progress<E>,
    events: Seq<Option<Result<(), E>>>,
    k: nat,
)
    requires
        p.store.inv(p.free),
        events.len() == p.store.slots.len(),
    ensures
        ({
            let q = p.complete_from(events, k);
            &&& q.store.inv(q.free)
            &&& q.store.reserved == p.store.reserved
            &&& q.store.slots.len() == p.store.slots.len()
            &&& q.store.blocks() == p.store.blocks()
            &&& q.writes == p.writes
            &&& q.free == (FreeSetView { released: q.free.released, ..p.free })
            &&& q.store.to_submit() <= p.store.to_submit()
            &&& no_error(events) ==> q.store.to_submit() == p.store.to_submit()
            &&& no_error(events) && no_job_failed(p.store.jobs) ==> no_job_failed(q.store.jobs)
            &&& forall|l: int|
                0 <= l < k && l < q.store.slots.len() ==> #[trigger] q.store.slots[l]
                    == p.store.slots[l]
            &&& forall|l: int|
                k <= l < q.store.slots.len() && (p.store.slots[l] is None || events[l] is Some)
                    ==> (#[trigger] q.store.slots[l]) is None
        }),
    decreases events.len() - k,
{
    if k < events.len() {
        match (p.store.slots[k as int], events[k as int]) {
            (Some(slot), Some(outcome)) => {
                let q = p.complete_slot(k as int, outcome);
                let job = p.store.jobs[slot.job];
                p.lemma_complete(k as int, outcome);
                blob::lemma_busy_update(p.store.slots, k as int, None, p.store.slots.len());
                lemma_complete_counts(job, outcome);
                lemma_to_submit_update(
                    p.store.jobs,
                    slot.job,
                    job.complete(outcome),
                    p.store.jobs.len(),
                );
                if no_error(events) {
                    assert(!(events[k as int] matches Some(Err(_))));
                    if no_job_failed(p.store.jobs) {
                        assert forall|i: int| 0 <= i < q.store.jobs.len() implies (
                        #[trigger] q.store.jobs[i]).error is None by {
                            assert(p.store.jobs[i].error is None);
                        }
                    }
                }
                lemma_complete_from(q, events, k + 1);
            },
            _ => {
                lemma_complete_from(p, events, k + 1);
            },
        }
    }
}

/// Where the reservation holds at least as many free blocks as are still to be
/// handed out, a round of writing never runs out of addresses, and that stays
/// so. The blocks that it acquires are exactly those that are then to be
/// written, each to one of its own. As many fewer are left to be handed out,
/// unless a write failed: then the other blocks of its blob are not handed out.
pub proof fn law_enough_addresses_suffice<E>(
    begin: Progress<E>,
    events: Seq<Option<Result<(), E>>>,
)
    requires
        begin.store.inv(begin.free),
        begin.store.provided_for(begin.free),
        events.len() == begin.store.slots.len(),
    ensures
        match begin.complete_from(events, 0).fill_from(0) {
            None => false,
            Some(end) => {
                &&& end.store.inv(end.free)
                &&& end.store.provided_for(end.free)
                &&& end.store.reserved == begin.store.reserved
                &&& end.store.slots.len() == begin.store.slots.len()
                &&& wrote(
                    begin.free,
                    end.free,
                    begin.store.reserved,
                    end.writes,
                    begin.writes.len(),
                )
                &&& end.store.free_blocks(end.free) + end.writes.len()
                    == begin.store.free_blocks(begin.free) + begin.writes.len()
                &&& end.store.to_submit() + end.writes.len() <= begin.store.to_submit()
                    + begin.writes.len()
                &&& no_error(events) ==> end.store.to_submit() + end.writes.len()
                    == begin.store.to_submit() + begin.writes.len()
                &&& no_error(events) && no_job_failed(begin.store.jobs) ==> no_job_failed(
                    end.store.jobs,
                )
            },
        },
{
    lemma_complete_from(begin, events, 0);
    let p = begin.complete_from(events, 0);
    lemma_fill_from(begin.free, begin.writes.len(), p, 0);
}

pub proof fn lemma_every_job_is_asked<E>(store: StoreView<E>, start: int, j: int)
    requires
        0 <= start < store.jobs.len(),
        0 <= j < store.jobs.len(),
        store.jobs[j].has_next(),
    ensures
        store.next_with_block(start, 0) is Some,
{
    let n = store.jobs.len() as int;
    store.lemma_next_with_block(start, 0);
    let u = if j >= start {
        j - start
    } else {
        j - start + n
    };
    if j >= start {
        vstd::arithmetic::div_mod::lemma_small_mod(j as nat, n as nat);
    } else {
        vstd::arithmetic::div_mod::lemma_small_mod(j as nat, n as nat);
        vstd::arithmetic::div_mod::lemma_mod_add_multiples_vanish(j, n);
    }
    assert((start + u) % n == j);
}

/// Where all writes that were asked for are over, the next round asks for
/// another one, unless all blobs are complete. So writing comes to an end: each
/// write leaves one block less to be handed out.
pub proof fn law_rounds_come_to_an_end<E>(
    begin: Progress<E>,
    events: Seq<Option<Result<(), E>>>,
)
    requires
        begin.store.inv(begin.free),
        begin.store.provided_for(begin.free),
        begin.store.blocks() > 0,
        events.len() == begin.store.slots.len(),
        forall|k: int|
            0 <= k < events.len() && begin.store.slots[k] is Some ==> (
            #[trigger] events[k]) is Some,
    ensures
        begin.complete_from(events, 0).fill_from(0) matches Some(end) ==> {
            end.store.all_complete() || end.writes.len() > begin.writes.len()
        },
{
    lemma_complete_from(begin, events, 0);
    let p = begin.complete_from(events, 0);
    assert forall|k: int| 0 <= k < p.store.slots.len() implies (
    #[trigger] p.store.slots[k]) is None by {
        assert(begin.store.slots[k] is None || events[k] is Some);
    }
    blob::lemma_idle(p.store.slots, p.store.slots.len());
    if exists|j: int| 0 <= j < p.store.jobs.len() && (#[trigger] p.store.jobs[j]).has_next() {
        let j = choose|j: int|
            0 <= j < p.store.jobs.len() && (#[trigger] p.store.jobs[j]).has_next();
        let start = p.store.next;
        let asked = asked(p);
        lemma_asked(p);
        lemma_every_job_is_asked(asked.store, start, j);
        lemma_fill_slot(begin.free, begin.writes.len(), asked, 0, start);
        let q = asked.fill_slot(0, start)->Next_0;
        lemma_fill_from(begin.free, begin.writes.len(), q, 1);
    } else {
        assert forall|k: nat| k <= p.store.slots.len() implies (
        #[trigger] p.fill_from(k)) matches Some(end) ==> end.store.jobs == p.store.jobs by {
            lemma_nothing_to_fill(p, k);
        }
        let end = p.fill_from(0)->0;
        assert forall|j: int| 0 <= j < p.store.jobs.len() implies (
        #[trigger] p.store.jobs[j]).is_complete() by {
            blob::lemma_idle_job(p.store.slots, j, p.store.slots.len());
            assert(!p.store.jobs[j].has_next());
            assert(p.store.jobs[j].wf());
        }
    }
}

proof fn lemma_nothing_to_fill<E>(p: Progress<E>, k: nat)
    requires
        p.store.jobs.len() > 0,
        forall|j: int| 0 <= j < p.store.jobs.len() ==> !(#[trigger] p.store.jobs[j]).has_next(),
    ensures
        p.fill_from(k) matches Some(end) ==> end.store.jobs == p.store.jobs,
    decreases p.store.slots.len() - k,
{
    if k < p.store.slots.len() {
        if p.store.slots[k as int] is Some {
            lemma_nothing_to_fill(p, k + 1);
        } else {
            let asked = asked(p);
            asked.store.lemma_next_with_block(p.store.next, 0);
            lemma_nothing_to_fill(asked, k + 1);
        }
    }
}

/// The state after several rounds of writing, given what was known of the
/// writes in each.
pub open spec fn after_rounds<E>(
    store: StoreView<E>,
    free: FreeSetView,
    events: Seq<Seq<Option<Result<(), E>>>>,
) -> Option<(StoreView<E>, FreeSetView)>
    decreases events.len(),
{
    if events.len() == 0 {
        Some((store, free))
    } else {
        match after_rounds(store, free, events.drop_last()) {
            None => None,
            Some((store, free)) => {
                let begin = Progress { store, free, writes: Seq::empty(), made: false };
                match begin.complete_from(events.last(), 0).fill_from(0) {
                    None => None,
                    Some(end) => Some((end.store, end.free)),
                }
            },
        }
    }
}

/// Where the reservation holds at least as many free blocks as the blobs take,
/// and no write fails, all rounds succeed, whenever the writes are over. When
/// all blobs are complete none of them has an error, and as many blocks of the
/// reservation were acquired as the blobs take.
pub proof fn law_blobs_are_written_to_the_end<E>(
    store: StoreView<E>,
    free: FreeSetView,
    events: Seq<Seq<Option<Result<(), E>>>>,
)
    requires
        store.inv(free),
        store.provided_for(free),
        no_job_failed(store.jobs),
        forall|i: int|
            0 <= i < events.len() ==> (#[trigger] events[i]).len() == store.slots.len()
                && no_error(events[i]),
    ensures
        match after_rounds(store, free, events) {
            None => false,
            Some((s, f)) => {
                &&& s.inv(f)
                &&& s.provided_for(f)
                &&& no_job_failed(s.jobs)
                &&& s.slots.len() == store.slots.len()
                &&& s.reserved == store.reserved
                &&& store.free_blocks(free) - s.free_blocks(f) == store.to_submit() - s.to_submit()
                &&& s.all_complete() ==> store.free_blocks(free) - s.free_blocks(f)
                    == store.to_submit()
            },
        },
    decreases events.len(),
{
    if events.len() > 0 {
        let front = events.drop_last();
        assert forall|i: int| 0 <= i < front.len() implies (#[trigger] front[i]).len()
            == store.slots.len() && no_error(front[i]) by {
            assert(events[i].len() == store.slots.len());
        }
        law_blobs_are_written_to_the_end(store, free, front);
        let (s, f) = after_rounds(store, free, front)->0;
        let begin = Progress { store: s, free: f, writes: Seq::empty(), made: false };
        assert(events[events.len() - 1].len() == store.slots.len());
        law_enough_addresses_suffice(begin, events.last());
    }
    let (s, f) = after_rounds(store, free, events)->0;
    if s.all_complete() {
        lemma_complete_needs_nothing(s, s.jobs.len());
    }
}

proof fn lemma_complete_needs_nothing<E>(store: StoreView<E>, n: nat)
    requires
        store.all_complete(),
        n <= store.jobs.len(),
    ensures
        blob::to_submit_of(store.jobs, n) == 0,
    decreases n,
{
    if n > 0 {
        lemma_complete_needs_nothing(store, (n - 1) as nat);
        assert(store.jobs[n - 1].is_complete());
    }
}

/// Before anything is handed out, all blocks of the blobs are still to be.
pub proof fn law_all_blocks_are_to_be_handed_out<E>(jobs: Seq<PendingBlob<'_, E>>, n: nat)
    requires
        n <= jobs.len(),
        forall|j: int|
            0 <= j < jobs.len() ==> (#[trigger] jobs[j])@ == JobView::<E>::start(jobs[j]@.data),
    ensures
        blob::to_submit_of(blob::jobs_view(jobs), n) == blob::blocks_needed(jobs, n),
    decreases n,
{
    if n > 0 {
        law_all_blocks_are_to_be_handed_out(jobs, (n - 1) as nat);
        assert(jobs[n - 1]@ == JobView::<E>::start(jobs[n - 1]@.data));
    }
}

} // verus!

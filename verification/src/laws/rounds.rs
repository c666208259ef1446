//! What is promised of the rounds in which blobs are written.

use vstd::prelude::*;

use crate::checksum::blake3_hash;
use crate::free_set;
use crate::free_set::FreeSet;
use crate::grid::blob;
use crate::grid::blob::{
    Attempt, InsufficientAddresses, JobView, Progress, Round, SlotView, SlotWrite, StoreBlobs,
    StoreView, WriteEvent, WriteView,
};
use crate::grid::supply;

verus! {

/// What is known of the writes that slots wait for.
pub open spec fn outcomes<E>(events: Seq<WriteEvent<E>>) -> Seq<Option<Result<(), E>>> {
    Seq::new(
        events.len(),
        |k: int|
            match events[k] {
                None => None,
                Some(Ok(_)) => Some(Ok(())),
                Some(Err(e)) => Some(Err(e.error)),
            },
    )
}

/// Whether the write that a slot waits for is over.
pub open spec fn is_over<E>(
    slots: Seq<Option<SlotView>>,
    seen: Seq<Option<Result<(), E>>>,
    k: int,
) -> bool {
    slots[k] is Some && seen[k] is Some
}

/// The number of the slots from `k` on whose write is over.
pub open spec fn over_from<E>(
    slots: Seq<Option<SlotView>>,
    seen: Seq<Option<Result<(), E>>>,
    k: nat,
) -> int
    decreases slots.len() - k,
{
    if k >= slots.len() {
        0
    } else {
        over_from(slots, seen, k + 1) + if is_over(slots, seen, k as int) {
            1int
        } else {
            0
        }
    }
}

/// The number of the slots from `k` on whose write is one of job `j` and over.
pub open spec fn over_of<E>(
    slots: Seq<Option<SlotView>>,
    seen: Seq<Option<Result<(), E>>>,
    j: int,
    k: nat,
) -> int
    decreases slots.len() - k,
{
    if k >= slots.len() {
        0
    } else {
        over_of(slots, seen, j, k + 1) + if is_over(slots, seen, k as int) && slots[k as int]->0.job
            == j {
            1int
        } else {
            0
        }
    }
}

/// Whether the write that a slot waits for is one of job `j` and failed.
pub open spec fn fails<E>(
    slots: Seq<Option<SlotView>>,
    seen: Seq<Option<Result<(), E>>>,
    j: int,
    k: int,
) -> bool {
    is_over(slots, seen, k) && slots[k]->0.job == j && seen[k]->0 is Err
}

/// Whether slot `l` is the first from `k` on whose write is one of job `j` and
/// failed.
pub open spec fn fails_first<E>(
    slots: Seq<Option<SlotView>>,
    seen: Seq<Option<Result<(), E>>>,
    j: int,
    k: int,
    l: int,
) -> bool {
    &&& k <= l < slots.len()
    &&& fails(slots, seen, j, l)
    &&& forall|m: int| k <= m < l ==> !#[trigger] fails(slots, seen, j, m)
}

/// Whether `b` is job `a` after its writes from slot `k` on that are over were
/// taken note of: they are counted, and its first error is kept.
pub open spec fn job_took_note<E>(
    a: JobView<E>,
    b: JobView<E>,
    slots: Seq<Option<SlotView>>,
    seen: Seq<Option<Result<(), E>>>,
    j: int,
    k: nat,
) -> bool {
    &&& b.data == a.data
    &&& b.offset == a.offset
    &&& b.head == a.head
    &&& b.submitted == a.submitted
    &&& b.completed == a.completed + over_of(slots, seen, j, k)
    &&& a.error is Some ==> b.error == a.error
    &&& a.error is None ==> match b.error {
        None => forall|l: int| k <= l < slots.len() ==> !#[trigger] fails(slots, seen, j, l),
        Some(e) => exists|l: int| #[trigger]
            fails_first(slots, seen, j, k as int, l) && seen[l]->0->Err_0 == e,
    }
}

/// Whether `t` is what becomes of `s` when the writes from slot `k` on that are
/// over are taken note of: their slots are free, and their memory is there again.
pub open spec fn store_took_note<E>(
    s: StoreView<E>,
    t: StoreView<E>,
    slots: Seq<Option<SlotView>>,
    seen: Seq<Option<Result<(), E>>>,
    k: nat,
) -> bool {
    &&& t.slots.len() == s.slots.len()
    &&& t.jobs.len() == s.jobs.len()
    &&& t.next == s.next
    &&& t.reserved == s.reserved
    &&& t.memory == s.memory + over_from(slots, seen, k)
    &&& forall|l: int|
        0 <= l < s.slots.len() ==> #[trigger] t.slots[l] == if l >= k && is_over(slots, seen, l) {
            None
        } else {
            s.slots[l]
        }
    &&& forall|j: int|
        0 <= j < s.jobs.len() ==> job_took_note(
            s.jobs[j],
            #[trigger] t.jobs[j],
            slots,
            seen,
            j,
            k,
        )
}

proof fn lemma_took_note<E>(
    p: Progress<E>,
    slots: Seq<Option<SlotView>>,
    seen: Seq<Option<Result<(), E>>>,
    k: nat,
)
    requires
        k <= slots.len(),
        p.store.slots.len() == slots.len(),
        seen.len() == slots.len(),
        forall|l: int| k <= l < slots.len() ==> #[trigger] p.store.slots[l] == slots[l],
        forall|l: int|
            0 <= l < slots.len() && (#[trigger] slots[l]) is Some ==> 0 <= slots[l]->0.job
                < p.store.jobs.len(),
    ensures
        store_took_note(p.store, p.complete_from(seen, k).store, slots, seen, k),
        p.complete_from(seen, k).writes == p.writes,
        p.complete_from(seen, k).free.acquired == p.free.acquired,
        p.complete_from(seen, k).made <==> p.made || over_from(slots, seen, k) > 0,
        over_from(slots, seen, k) >= 0,
    decreases slots.len() - k,
{
    let q = p.complete_from(seen, k);
    if k < slots.len() {
        let i = k as int;
        assert(p.store.slots[i] == slots[i]);
        if is_over(slots, seen, i) {
            let outcome = seen[i]->0;
            let m = p.complete_slot(i, outcome);
            lemma_took_note(m, slots, seen, k + 1);
            assert forall|j: int| 0 <= j < p.store.jobs.len() implies job_took_note(
                p.store.jobs[j],
                #[trigger] q.store.jobs[j],
                slots,
                seen,
                j,
                k,
            ) by {
                let (a, c, b) = (p.store.jobs[j], m.store.jobs[j], q.store.jobs[j]);
                assert(job_took_note(c, b, slots, seen, j, k + 1));
                if a.error is None {
                    if fails(slots, seen, j, i) {
                        assert(c.error == Some(outcome->Err_0));
                        assert(fails_first(slots, seen, j, i, i));
                    } else {
                        assert(c.error is None);
                        if b.error is Some {
                            let l = choose|l: int| #[trigger]
                                fails_first(slots, seen, j, i + 1, l) && seen[l]->0->Err_0
                                    == b.error->0;
                            assert(fails_first(slots, seen, j, i, l));
                        }
                    }
                }
            }
        } else {
            lemma_took_note(p, slots, seen, k + 1);
            assert forall|j: int| 0 <= j < p.store.jobs.len() implies job_took_note(
                p.store.jobs[j],
                #[trigger] q.store.jobs[j],
                slots,
                seen,
                j,
                k,
            ) by {
                let (a, b) = (p.store.jobs[j], q.store.jobs[j]);
                assert(job_took_note(a, b, slots, seen, j, k + 1));
                assert(!fails(slots, seen, j, i));
                if a.error is None && b.error is Some {
                    let l = choose|l: int| #[trigger]
                        fails_first(slots, seen, j, i + 1, l) && seen[l]->0->Err_0 == b.error->0;
                    assert(fails_first(slots, seen, j, i, l));
                }
            }
        }
    } else {
        assert forall|j: int| 0 <= j < p.store.jobs.len() implies job_took_note(
            p.store.jobs[j],
            #[trigger] q.store.jobs[j],
            slots,
            seen,
            j,
            k,
        ) by {}
    }
}

/// Writes that are over are taken note of, all of them: their slots are free, and
/// their memory is there again. The jobs count them, and keep their first errors.
pub proof fn law_writes_are_taken_note_of<'a, E>(events: Vec<WriteEvent<E>>, made: bool)
    ensures
        forall|store: &mut StoreBlobs<'a, E>, free: &mut FreeSet|
            #![trigger call_ensures(StoreBlobs::<'a, E>::poll_completions, (store, free, events), made)]
            (*store)@.inv((*free)@) && events@.len() == (*store)@.slots.len() && call_ensures(
                StoreBlobs::<'a, E>::poll_completions,
                (store, free, events),
                made,
            ) ==> {
                let (s, t) = ((*store)@, (*final(store))@);
                let seen = outcomes(events@);
                &&& store_took_note(s, t, s.slots, seen, 0)
                &&& (*final(free))@.acquired == (*free)@.acquired
                &&& made <==> over_from(s.slots, seen, 0) > 0
            },
{
    assert forall|store: &mut StoreBlobs<'a, E>, free: &mut FreeSet|
        #![trigger call_ensures(StoreBlobs::<'a, E>::poll_completions, (store, free, events), made)]
        (*store)@.inv((*free)@) && events@.len() == (*store)@.slots.len() && call_ensures(
            StoreBlobs::<'a, E>::poll_completions,
            (store, free, events),
            made,
        ) implies ({
        let (s, t) = ((*store)@, (*final(store))@);
        let seen = outcomes(events@);
        &&& store_took_note(s, t, s.slots, seen, 0)
        &&& (*final(free))@.acquired == (*free)@.acquired
        &&& made <==> over_from(s.slots, seen, 0) > 0
    }) by {
        let s = (*store)@;
        let seen = outcomes(events@);
        assert(seen =~= blob::events_view(events@));
        let begin = Progress { store: s, free: (*free)@, writes: Seq::empty(), made: false };
        lemma_took_note(begin, s.slots, seen, 0);
    }
}

/// Whether a job has a block to be written.
pub open spec fn has_block<E>(job: JobView<E>) -> bool {
    job.offset < job.data.len() && job.error is None
}

/// Whether there is nothing that could be written: no memory, no free slot from
/// `k` on, or no job with a block.
pub open spec fn is_exhausted<E>(t: StoreView<E>, k: int) -> bool {
    ||| t.memory == 0
    ||| forall|l: int| k <= l < t.slots.len() ==> (#[trigger] t.slots[l]) is Some
    ||| forall|j: int| 0 <= j < t.jobs.len() ==> !has_block(#[trigger] t.jobs[j])
}

/// The number of the writes from the `n`-th up to the `x`-th that are of job `j`,
/// by the slots that wait for them.
pub open spec fn blocks_of(
    slots: Seq<Option<SlotView>>,
    writes: Seq<WriteView>,
    j: int,
    n: int,
    x: int,
) -> int
    decreases x - n,
{
    if x <= n {
        0
    } else {
        blocks_of(slots, writes, j, n, x - 1) + if slots[writes[x - 1].slot]->0.job == j {
            1int
        } else {
            0
        }
    }
}

/// Whether `part` is what a block holds of `data` from `at` on, followed by zeros.
pub open spec fn is_part(part: Seq<u8>, data: Seq<u8>, at: int) -> bool {
    &&& part.len() == 65488
    &&& 0 <= at < data.len()
    &&& forall|i: int|
        0 <= i < 65488 ==> #[trigger] part[i] == if at + i < data.len() {
            data[at + i]
        } else {
            0
        }
}

/// Where the data of a job ends that `n` blocks hold, of which it starts at `at`.
pub open spec fn end_of(data: Seq<u8>, at: int, n: int) -> int {
    if at + 65488 * n < data.len() {
        at + 65488 * n
    } else if n == 0 {
        at
    } else {
        data.len() as int
    }
}

/// Whether `b` is job `a` after `n` more blocks of it were handed out.
pub open spec fn is_handed_out<E>(a: JobView<E>, b: JobView<E>, n: int) -> bool {
    &&& b.data == a.data
    &&& b.completed == a.completed
    &&& b.error == a.error
    &&& b.submitted == a.submitted + n
    &&& b.offset == end_of(a.data, a.offset, n)
    &&& n > 0 ==> has_block(a)
    &&& n == 0 ==> b == a
    &&& n >= 0
}

/// Whether a write fills a slot that was free, and holds the part of a job that
/// follows those that were handed out before.
pub open spec fn fills_slot<E>(
    s: StoreView<E>,
    t: StoreView<E>,
    writes: Seq<WriteView>,
    n: int,
    k: int,
    x: int,
) -> bool {
    let w = writes[x];
    let j = t.slots[w.slot]->0.job;
    &&& k <= w.slot < s.slots.len()
    &&& s.slots[w.slot] is None
    &&& t.slots[w.slot] is Some
    &&& t.slots[w.slot]->0.address == w.address
    &&& 0 <= j < t.jobs.len()
    &&& is_part(
        w.data,
        s.jobs[j].data,
        s.jobs[j].offset + 65488 * blocks_of(t.slots, writes, j, n, x),
    )
}

/// Whether `t` is what becomes of `s` when free slots from `k` on are filled with
/// the writes from the `n`-th on.
pub open spec fn is_filled<E>(
    s: StoreView<E>,
    t: StoreView<E>,
    writes: Seq<WriteView>,
    n: int,
    k: int,
) -> bool {
    &&& n <= writes.len()
    &&& t.slots.len() == s.slots.len()
    &&& t.jobs.len() == s.jobs.len()
    &&& t.reserved == s.reserved
    &&& 0 <= t.next < t.jobs.len()
    &&& t.memory == s.memory - (writes.len() - n)
    &&& forall|x: int| n <= x < writes.len() ==> #[trigger] fills_slot(s, t, writes, n, k, x)
    &&& forall|x: int, y: int|
        n <= x < y < writes.len() ==> (#[trigger] writes[x]).slot < (#[trigger] writes[y]).slot
    &&& forall|l: int|
        0 <= l < s.slots.len() && #[trigger] t.slots[l] != s.slots[l] ==> exists|x: int|
            n <= x < writes.len() && (#[trigger] writes[x]).slot == l
    &&& forall|j: int|
        0 <= j < s.jobs.len() ==> is_handed_out(
            s.jobs[j],
            #[trigger] t.jobs[j],
            blocks_of(t.slots, writes, j, n, writes.len() as int),
        )
}

proof fn lemma_filled<E>(p: Progress<E>, k: nat)
    requires
        k <= p.store.slots.len(),
        0 <= p.store.next < p.store.jobs.len(),
        forall|j: int| 0 <= j < p.store.jobs.len() ==> (#[trigger] p.store.jobs[j]).offset >= 0,
    ensures
        p.fill_from(k) matches Some(q) ==> {
            &&& is_filled(p.store, q.store, q.writes, p.writes.len() as int, k as int)
            &&& is_exhausted(q.store, k as int)
            &&& q.made <==> p.made || q.writes.len() > p.writes.len()
            &&& forall|x: int| 0 <= x < p.writes.len() ==> #[trigger] q.writes[x] == p.writes[x]
        },
    decreases p.store.slots.len() - k,
{
    if k < p.store.slots.len() {
        let i = k as int;
        if p.store.slots[i] is Some {
            lemma_filled(p, k + 1);
            if let Some(q) = p.fill_from(k) {
                let n = p.writes.len() as int;
                assert(q.store.slots[i] is Some) by {
                    if q.store.slots[i] != p.store.slots[i] {
                        let x = choose|x: int|
                            n <= x < q.writes.len() && (#[trigger] q.writes[x]).slot == i;
                        assert(fills_slot(p.store, q.store, q.writes, n, i + 1, x));
                    }
                }
                assert forall|x: int| n <= x < q.writes.len() implies #[trigger] fills_slot(
                    p.store,
                    q.store,
                    q.writes,
                    n,
                    i,
                    x,
                ) by {
                    assert(fills_slot(p.store, q.store, q.writes, n, i + 1, x));
                }
            }
        } else {
            let start = p.store.next;
            let n = p.store.jobs.len() as int;
            let asked = Progress {
                store: StoreView { next: (start + 1) % n, ..p.store },
                ..p
            };
            vstd::arithmetic::div_mod::lemma_mod_bound(start + 1, n);
            asked.store.lemma_next_with_block(start, 0);
            match asked.fill_slot(i, start) {
                Attempt::Next(m) => {
                    lemma_filled(m, k + 1);
                    if let Some(q) = m.fill_from(k + 1) {
                        if asked.store.next_with_block(start, 0) is None {
                            lemma_none_filled(p, asked.store, q, k);
                        } else {
                            let j = asked.store.next_with_block(start, 0)->0;
                            lemma_slot_filled(p, m, j, k);
                            lemma_one_filled(p, m, q, k);
                        }
                    }
                },
                _ => {},
            }
        }
    }
}

/// Where no job has a block, nothing is filled.
proof fn lemma_none_filled<E>(p: Progress<E>, asked: StoreView<E>, q: Progress<E>, k: nat)
    requires
        k < p.store.slots.len(),
        0 <= p.store.next < p.store.jobs.len(),
        asked == (StoreView::<E> { next: asked.next, ..p.store }),
        asked.next_with_block(p.store.next, 0) is None,
        is_filled(asked, q.store, q.writes, p.writes.len() as int, k as int + 1),
    ensures
        is_filled(p.store, q.store, q.writes, p.writes.len() as int, k as int),
        is_exhausted(q.store, k as int),
{
    let n = p.writes.len() as int;
    assert forall|j: int| 0 <= j < q.store.jobs.len() implies !has_block(
        #[trigger] q.store.jobs[j],
    ) by {
        if p.store.jobs[j].has_next() {
            supply::lemma_every_job_is_asked(asked, p.store.next, j);
        }
        assert(is_handed_out(
            asked.jobs[j],
            q.store.jobs[j],
            blocks_of(q.store.slots, q.writes, j, n, q.writes.len() as int),
        ));
    }
    assert forall|x: int| n <= x < q.writes.len() implies #[trigger] fills_slot(
        p.store,
        q.store,
        q.writes,
        n,
        k as int,
        x,
    ) by {
        assert(fills_slot(asked, q.store, q.writes, n, k as int + 1, x));
    }
}

/// A slot is filled with the next part of a job.
proof fn lemma_slot_filled<E>(p: Progress<E>, m: Progress<E>, j: int, k: nat)
    requires
        k < p.store.slots.len(),
        p.store.slots[k as int] is None,
        0 <= p.store.next < p.store.jobs.len(),
        0 <= j < p.store.jobs.len(),
        p.store.jobs[j].has_next(),
        p.store.jobs[j].offset >= 0,
        ({
            let start = p.store.next;
            let asked = Progress {
                store: StoreView {
                    next: (start + 1) % (p.store.jobs.len() as int),
                    ..p.store
                },
                ..p
            };
            &&& asked.store.next_with_block(start, 0) == Some(j)
            &&& asked.fill_slot(k as int, start) == Attempt::Next(m)
        }),
    ensures
        is_filled(p.store, m.store, m.writes, p.writes.len() as int, k as int),
        m.writes.len() == p.writes.len() + 1,
        m.writes.take(p.writes.len() as int) == p.writes,
        m.writes.last().slot == k,
        m.store.slots[k as int] is Some,
{
    let n = p.writes.len() as int;
    let i = k as int;
    let job = p.store.jobs[j];
    vstd::arithmetic::div_mod::lemma_mod_bound(p.store.next + 1, p.store.jobs.len() as int);
    assert(m.writes.take(n) =~= p.writes);
    let w = m.writes[n];
    assert(w.slot == k && m.store.slots[i] == Some(SlotView { job: j, address: w.address }));
    assert(w.data == blob::chunk(job.data, job.offset));
    assert(is_part(w.data, job.data, job.offset));
    assert(blocks_of(m.store.slots, m.writes, j, n, n) == 0);
    assert(fills_slot(p.store, m.store, m.writes, n, i, n));
    assert forall|l: int|
        0 <= l < p.store.slots.len() && #[trigger] m.store.slots[l] != p.store.slots[l] implies exists|
        x: int,
    |
        n <= x < m.writes.len() && (#[trigger] m.writes[x]).slot == l by {
        assert(m.writes[n].slot == i);
    }
    assert forall|h: int| 0 <= h < p.store.jobs.len() implies is_handed_out(
        p.store.jobs[h],
        #[trigger] m.store.jobs[h],
        blocks_of(m.store.slots, m.writes, h, n, m.writes.len() as int),
    ) by {
        assert(blocks_of(m.store.slots, m.writes, h, n, n) == 0);
        assert(blocks_of(m.store.slots, m.writes, h, n, n + 1) == if h == j {
            1int
        } else {
            0
        });
    }
}

proof fn lemma_blocks_of(
    slots: Seq<Option<SlotView>>,
    earlier: Seq<Option<SlotView>>,
    writes: Seq<WriteView>,
    fewer: Seq<WriteView>,
    j: int,
    n: int,
    x: int,
)
    requires
        n + 1 == fewer.len(),
        n < x <= writes.len(),
        0 <= n,
        writes[n] == fewer[n],
        slots[writes[n].slot] == earlier[fewer[n].slot],
    ensures
        blocks_of(slots, writes, j, n, x) == blocks_of(slots, writes, j, n + 1, x) + blocks_of(
            earlier,
            fewer,
            j,
            n,
            n + 1,
        ),
    decreases x,
{
    assert(blocks_of(earlier, fewer, j, n, n) == 0);
    assert(blocks_of(slots, writes, j, n, n) == 0);
    if x == n + 1 {
        assert(blocks_of(slots, writes, j, n + 1, x) == 0);
    } else {
        lemma_blocks_of(slots, earlier, writes, fewer, j, n, x - 1);
    }
}

/// A slot was filled, and then those behind it.
proof fn lemma_one_filled<E>(p: Progress<E>, m: Progress<E>, q: Progress<E>, k: nat)
    requires
        k < p.store.slots.len(),
        m.writes.len() == p.writes.len() + 1,
        m.writes.take(p.writes.len() as int) == p.writes,
        m.writes.last().slot == k,
        m.store.slots[k as int] is Some,
        is_filled(m.store, q.store, q.writes, m.writes.len() as int, k as int + 1),
        is_exhausted(q.store, k as int + 1),
        forall|x: int| 0 <= x < m.writes.len() ==> #[trigger] q.writes[x] == m.writes[x],
        is_filled(p.store, m.store, m.writes, p.writes.len() as int, k as int),
    ensures
        is_filled(p.store, q.store, q.writes, p.writes.len() as int, k as int),
        is_exhausted(q.store, k as int),
        forall|x: int| 0 <= x < p.writes.len() ==> #[trigger] q.writes[x] == p.writes[x],
{
    let n = p.writes.len() as int;
    let i = k as int;
    assert(m.writes[n].slot == k);
    assert(q.writes[n] == m.writes[n]);
    assert(fills_slot(p.store, m.store, m.writes, n, i, n));
    assert(q.store.slots[i] == m.store.slots[i]) by {
        if q.store.slots[i] != m.store.slots[i] {
            let x = choose|x: int|
                n + 1 <= x < q.writes.len() && (#[trigger] q.writes[x]).slot == i;
            assert(fills_slot(m.store, q.store, q.writes, n + 1, i + 1, x));
        }
    }
    assert forall|x: int| 0 <= x < n implies #[trigger] q.writes[x] == p.writes[x] by {
        assert(q.writes[x] == m.writes[x]);
        assert(m.writes.take(n)[x] == m.writes[x]);
    }
    assert forall|x: int| n <= x < q.writes.len() implies #[trigger] fills_slot(
        p.store,
        q.store,
        q.writes,
        n,
        i,
        x,
    ) by {
        let l = q.writes[x].slot;
        let j = q.store.slots[l]->0.job;
        if x > n {
            assert(fills_slot(m.store, q.store, q.writes, n + 1, i + 1, x));
            if m.store.slots[l] != p.store.slots[l] {
                let y = choose|y: int|
                    n <= y < m.writes.len() && (#[trigger] m.writes[y]).slot == l;
                assert(y == n);
            }
            lemma_blocks_of(q.store.slots, m.store.slots, q.writes, m.writes, j, n, x);
            assert(is_handed_out(
                p.store.jobs[j],
                m.store.jobs[j],
                blocks_of(m.store.slots, m.writes, j, n, n + 1),
            ));
            lemma_blocks_not_negative(q.store.slots, q.writes, j, n + 1, x);
        } else {
            assert(blocks_of(q.store.slots, q.writes, j, n, n) == 0);
            assert(blocks_of(m.store.slots, m.writes, j, n, n) == 0);
        }
    }
    assert forall|x: int, y: int| n <= x < y < q.writes.len() implies (
    #[trigger] q.writes[x]).slot < (#[trigger] q.writes[y]).slot by {
        assert(fills_slot(m.store, q.store, q.writes, n + 1, i + 1, y));
    }
    assert forall|l: int|
        0 <= l < p.store.slots.len() && #[trigger] q.store.slots[l] != p.store.slots[l] implies exists|
        x: int,
    |
        n <= x < q.writes.len() && (#[trigger] q.writes[x]).slot == l by {
        if q.store.slots[l] != m.store.slots[l] {
            let x = choose|x: int|
                n + 1 <= x < q.writes.len() && (#[trigger] q.writes[x]).slot == l;
            assert(q.writes[x].slot == l);
        } else {
            assert(m.store.slots[l] != p.store.slots[l]);
            let x = choose|x: int| n <= x < m.writes.len() && (#[trigger] m.writes[x]).slot == l;
            assert(q.writes[x].slot == l);
        }
    }
    assert forall|j: int| 0 <= j < p.store.jobs.len() implies is_handed_out(
        p.store.jobs[j],
        #[trigger] q.store.jobs[j],
        blocks_of(q.store.slots, q.writes, j, n, q.writes.len() as int),
    ) by {
        let c = m.store.jobs[j];
        lemma_blocks_of(
            q.store.slots,
            m.store.slots,
            q.writes,
            m.writes,
            j,
            n,
            q.writes.len() as int,
        );
        assert(is_handed_out(
            c,
            q.store.jobs[j],
            blocks_of(q.store.slots, q.writes, j, n + 1, q.writes.len() as int),
        ));
        assert(is_handed_out(
            p.store.jobs[j],
            c,
            blocks_of(m.store.slots, m.writes, j, n, n + 1),
        ));
    }
}

proof fn lemma_blocks_not_negative(
    slots: Seq<Option<SlotView>>,
    writes: Seq<WriteView>,
    j: int,
    n: int,
    x: int,
)
    ensures
        blocks_of(slots, writes, j, n, x) >= 0,
    decreases x - n,
{
    if x > n {
        lemma_blocks_not_negative(slots, writes, j, n, x - 1);
    }
}

/// Free slots are filled until there is no memory, no free slot or no job with a
/// block left. Each job hands out its data in order, part by part.
pub proof fn law_slots_are_filled<'a, E>(
    before: bool,
    made: bool,
    writes: Vec<SlotWrite>,
)
    ensures
        forall|store: &mut StoreBlobs<'a, E>, free: &mut FreeSet|
            #![trigger call_ensures(StoreBlobs::<'a, E>::schedule_jobs, (store, free, before), Ok::<(bool, Vec<SlotWrite>), InsufficientAddresses>((made, writes)))]
            (*store)@.inv((*free)@) && call_ensures(
                StoreBlobs::<'a, E>::schedule_jobs,
                (store, free, before),
                Ok::<(bool, Vec<SlotWrite>), InsufficientAddresses>((made, writes)),
            ) ==> {
                let (s, t) = ((*store)@, (*final(store))@);
                &&& is_filled(s, t, Seq::new(writes@.len(), |x: int| writes@[x]@), 0, 0)
                &&& is_exhausted(t, 0)
                &&& made <==> before || writes@.len() > 0
            },
{
    assert forall|store: &mut StoreBlobs<'a, E>, free: &mut FreeSet|
        #![trigger call_ensures(StoreBlobs::<'a, E>::schedule_jobs, (store, free, before), Ok::<(bool, Vec<SlotWrite>), InsufficientAddresses>((made, writes)))]
        (*store)@.inv((*free)@) && call_ensures(
            StoreBlobs::<'a, E>::schedule_jobs,
            (store, free, before),
            Ok::<(bool, Vec<SlotWrite>), InsufficientAddresses>((made, writes)),
        ) implies ({
        let (s, t) = ((*store)@, (*final(store))@);
        &&& is_filled(s, t, Seq::new(writes@.len(), |x: int| writes@[x]@), 0, 0)
        &&& is_exhausted(t, 0)
        &&& made <==> before || writes@.len() > 0
    }) by {
        let s = (*store)@;
        let begin = Progress { store: s, free: (*free)@, writes: Seq::empty(), made: before };
        lemma_filled(begin, 0);
        assert(Seq::new(writes@.len(), |x: int| writes@[x]@) =~= blob::writes_view(writes@));
    }
}

/// Whether job `j` is the first with a block to be written, in turn from the one
/// that is next.
pub open spec fn is_its_turn<E>(s: StoreView<E>, j: int) -> bool {
    let n = s.jobs.len() as int;
    &&& 0 <= j < n
    &&& has_block(s.jobs[j])
    &&& forall|i: int|
        0 <= i < n && has_block(#[trigger] s.jobs[i]) ==> distance(s.next, j, n) <= distance(
            s.next,
            i,
            n,
        )
}

/// How far it is from `a` to `b` where `0` follows `n - 1`.
pub open spec fn distance(a: int, b: int, n: int) -> int {
    if a <= b {
        b - a
    } else {
        b - a + n
    }
}

proof fn lemma_turn<E>(s: StoreView<E>, start: int, t: nat)
    requires
        0 <= start < s.jobs.len(),
        t <= s.jobs.len(),
        s.next_with_block(start, t) is Some,
        forall|i: int|
            0 <= i < s.jobs.len() && has_block(#[trigger] s.jobs[i]) ==> distance(
                start,
                i,
                s.jobs.len() as int,
            ) >= t,
    ensures
        is_its_turn(StoreView { next: start, ..s }, s.next_with_block(start, t)->0),
    decreases s.jobs.len() - t,
{
    let n = s.jobs.len() as int;
    let j = (start + t) % n;
    if t < n {
        if start + t < n {
            vstd::arithmetic::div_mod::lemma_small_mod((start + t) as nat, n as nat);
        } else {
            vstd::arithmetic::div_mod::lemma_small_mod((start + t - n) as nat, n as nat);
            vstd::arithmetic::div_mod::lemma_mod_add_multiples_vanish(start + t - n, n);
        }
        assert(distance(start, j, n) == t);
        if !s.jobs[j].has_next() {
            assert forall|i: int|
                0 <= i < n && has_block(#[trigger] s.jobs[i]) implies distance(start, i, n) >= t
                + 1 by {
                if distance(start, i, n) == t {
                    assert(i == j);
                }
            }
            lemma_turn(s, start, t + 1);
        }
    }
}

proof fn lemma_all_busy<E>(p: Progress<E>, k: nat)
    requires
        p.store.jobs.len() > 0,
        forall|l: int| k <= l < p.store.slots.len() ==> (#[trigger] p.store.slots[l]) is Some,
    ensures
        p.fill_from(k) == Some(p),
    decreases p.store.slots.len() - k,
{
    if k < p.store.slots.len() {
        assert(p.store.slots[k as int] is Some);
        lemma_all_busy(p, k + 1);
    }
}

/// Whether the first of the writes from the `n`-th on goes to the first free slot
/// from `k` on, and is of the job whose turn it is.
pub open spec fn is_first_write<E>(
    s: StoreView<E>,
    t: StoreView<E>,
    writes: Seq<WriteView>,
    n: int,
    k: int,
) -> bool {
    let w = writes[n];
    let j = t.slots[w.slot]->0.job;
    &&& forall|l: int| k <= l < w.slot ==> (#[trigger] s.slots[l]) is Some
    &&& is_its_turn(s, j)
    &&& w.parent == s.jobs[j].head
    &&& (forall|l: int| w.slot < l < s.slots.len() ==> (#[trigger] s.slots[l]) is Some) ==> {
        &&& writes.len() == n + 1
        &&& t.next == (s.next + 1) % (s.jobs.len() as int)
        &&& t.jobs[j].head.address == w.address
        &&& t.jobs[j].head.padding == 0
        &&& t.jobs[j].head.checksum == blake3_hash(w.parent.bytes() + w.data)
    }
}

proof fn lemma_first_write<E>(p: Progress<E>, k: nat)
    requires
        k <= p.store.slots.len(),
        0 <= p.store.next < p.store.jobs.len(),
        forall|j: int| 0 <= j < p.store.jobs.len() ==> (#[trigger] p.store.jobs[j]).offset >= 0,
    ensures
        p.fill_from(k) matches Some(q) ==> (q.writes.len() > p.writes.len() ==> is_first_write(
            p.store,
            q.store,
            q.writes,
            p.writes.len() as int,
            k as int,
        )),
    decreases p.store.slots.len() - k,
{
    if k < p.store.slots.len() {
        let i = k as int;
        if p.store.slots[i] is Some {
            lemma_first_write(p, k + 1);
        } else {
            let start = p.store.next;
            let n = p.store.jobs.len() as int;
            let asked = Progress {
                store: StoreView { next: (start + 1) % n, ..p.store },
                ..p
            };
            vstd::arithmetic::div_mod::lemma_mod_bound(start + 1, n);
            asked.store.lemma_next_with_block(start, 0);
            match asked.fill_slot(i, start) {
                Attempt::Next(m) => {
                    lemma_filled(m, k + 1);
                    if let Some(q) = m.fill_from(k + 1) {
                        if asked.store.next_with_block(start, 0) is None {
                            lemma_none_filled(p, asked.store, q, k);
                            if q.writes.len() > p.writes.len() {
                                let x = p.writes.len() as int;
                                assert(fills_slot(p.store, q.store, q.writes, x, i, x));
                                let j = q.store.slots[q.writes[x].slot]->0.job;
                                lemma_blocks_not_negative(q.store.slots, q.writes, j, x, x);
                                lemma_some_blocks(q.store.slots, q.writes, j, x, q.writes.len() as int);
                                assert(is_handed_out(
                                    p.store.jobs[j],
                                    q.store.jobs[j],
                                    blocks_of(
                                        q.store.slots,
                                        q.writes,
                                        j,
                                        x,
                                        q.writes.len() as int,
                                    ),
                                ));
                                supply::lemma_every_job_is_asked(asked.store, start, j);
                            }
                        } else {
                            let j = asked.store.next_with_block(start, 0)->0;
                            let x = p.writes.len() as int;
                            lemma_slot_filled(p, m, j, k);
                            lemma_one_filled(p, m, q, k);
                            lemma_turn(asked.store, start, 0);
                            assert((StoreView { next: start, ..asked.store }) == p.store);
                            assert(q.writes[x] == m.writes[x]);
                            assert(fills_slot(p.store, q.store, q.writes, x, i, x));
                            assert(q.store.slots[i] == m.store.slots[i]) by {
                                if q.store.slots[i] != m.store.slots[i] {
                                    let y = choose|y: int|
                                        x + 1 <= y < q.writes.len() && (
                                        #[trigger] q.writes[y]).slot == i;
                                    assert(fills_slot(
                                        m.store,
                                        q.store,
                                        q.writes,
                                        x + 1,
                                        i + 1,
                                        y,
                                    ));
                                }
                            }
                            if forall|l: int|
                                i < l < p.store.slots.len() ==> (
                                #[trigger] p.store.slots[l]) is Some {
                                assert forall|l: int|
                                    k + 1 <= l < m.store.slots.len() implies (
                                #[trigger] m.store.slots[l]) is Some by {
                                    assert(p.store.slots[l] is Some);
                                }
                                lemma_all_busy(m, k + 1);
                            }
                        }
                    }
                },
                _ => {},
            }
        }
    }
}

proof fn lemma_some_blocks(
    slots: Seq<Option<SlotView>>,
    writes: Seq<WriteView>,
    j: int,
    n: int,
    x: int,
)
    requires
        n < x,
        slots[writes[n].slot]->0.job == j,
    ensures
        blocks_of(slots, writes, j, n, x) > 0,
    decreases x - n,
{
    if x == n + 1 {
        assert(blocks_of(slots, writes, j, n, n) == 0);
    } else {
        lemma_some_blocks(slots, writes, j, n, x - 1);
    }
}

/// The first free slot is filled with a block of the job whose turn it is. The
/// block refers to the last one of the job before it, and the job to the block.
/// Then it is the turn of the next job.
pub proof fn law_jobs_take_turns<'a, E>(before: bool, made: bool, writes: Vec<SlotWrite>)
    ensures
        forall|store: &mut StoreBlobs<'a, E>, free: &mut FreeSet|
            #![trigger call_ensures(StoreBlobs::<'a, E>::schedule_jobs, (store, free, before), Ok::<(bool, Vec<SlotWrite>), InsufficientAddresses>((made, writes)))]
            (*store)@.inv((*free)@) && writes@.len() > 0 && call_ensures(
                StoreBlobs::<'a, E>::schedule_jobs,
                (store, free, before),
                Ok::<(bool, Vec<SlotWrite>), InsufficientAddresses>((made, writes)),
            ) ==> is_first_write(
                (*store)@,
                (*final(store))@,
                Seq::new(writes@.len(), |x: int| writes@[x]@),
                0,
                0,
            ),
{
    assert forall|store: &mut StoreBlobs<'a, E>, free: &mut FreeSet|
        #![trigger call_ensures(StoreBlobs::<'a, E>::schedule_jobs, (store, free, before), Ok::<(bool, Vec<SlotWrite>), InsufficientAddresses>((made, writes)))]
        (*store)@.inv((*free)@) && writes@.len() > 0 && call_ensures(
            StoreBlobs::<'a, E>::schedule_jobs,
            (store, free, before),
            Ok::<(bool, Vec<SlotWrite>), InsufficientAddresses>((made, writes)),
        ) implies is_first_write(
        (*store)@,
        (*final(store))@,
        Seq::new(writes@.len(), |x: int| writes@[x]@),
        0,
        0,
    ) by {
        let s = (*store)@;
        let begin = Progress { store: s, free: (*free)@, writes: Seq::empty(), made: before };
        lemma_first_write(begin, 0);
        assert(Seq::new(writes@.len(), |x: int| writes@[x]@) =~= blob::writes_view(writes@));
    }
}

/// Whether each job has no write that is not over, and either had an error or was
/// handed out to its end.
pub open spec fn all_jobs_complete<E>(t: StoreView<E>) -> bool {
    forall|j: int|
        0 <= j < t.jobs.len() ==> {
            let job = #[trigger] t.jobs[j];
            &&& job.submitted == job.completed
            &&& job.error is Some || job.offset == job.data.len()
        }
}

proof fn lemma_all_complete<E>(t: StoreView<E>)
    ensures
        t.all_complete() <==> all_jobs_complete(t),
{
    if t.all_complete() {
        assert forall|j: int| 0 <= j < t.jobs.len() implies {
            let job = #[trigger] t.jobs[j];
            &&& job.submitted == job.completed
            &&& job.error is Some || job.offset == job.data.len()
        } by {
            assert(t.jobs[j].is_complete());
        }
    }
}

/// Writing is over when all jobs are complete.
pub proof fn law_writing_is_over<'a, E>(store: StoreBlobs<'a, E>, r: bool)
    requires
        call_ensures(StoreBlobs::<'a, E>::is_done, (&store,), r),
    ensures
        r <==> all_jobs_complete(store@),
{
    lemma_all_complete(store@);
}

/// A round takes note of all writes that are over, and then fills free slots.
pub proof fn law_round_is_both<'a, E>(
    events: Vec<WriteEvent<E>>,
    round: Round,
    writes: Vec<SlotWrite>,
)
    ensures
        forall|store: &mut StoreBlobs<'a, E>, free: &mut FreeSet|
            #![trigger call_ensures(StoreBlobs::<'a, E>::poll, (store, free, events), Ok::<(Round, Vec<SlotWrite>), InsufficientAddresses>((round, writes)))]
            (*store)@.inv((*free)@) && events@.len() == (*store)@.slots.len() && call_ensures(
                StoreBlobs::<'a, E>::poll,
                (store, free, events),
                Ok::<(Round, Vec<SlotWrite>), InsufficientAddresses>((round, writes)),
            ) ==> {
                let (s, t) = ((*store)@, (*final(store))@);
                let seen = outcomes(events@);
                let all = Seq::new(writes@.len(), |x: int| writes@[x]@);
                &&& exists|mid: StoreView<E>|
                    {
                        &&& #[trigger] store_took_note(s, mid, s.slots, seen, 0)
                        &&& is_filled(mid, t, all, 0, 0)
                        &&& writes@.len() > 0 ==> is_first_write(mid, t, all, 0, 0)
                    }
                &&& is_exhausted(t, 0)
                &&& round == if all_jobs_complete(t) {
                    Round::Ready
                } else if writes@.len() > 0 || over_from(s.slots, seen, 0) > 0 {
                    Round::Again
                } else {
                    Round::Pending
                }
            },
{
    assert forall|store: &mut StoreBlobs<'a, E>, free: &mut FreeSet|
        #![trigger call_ensures(StoreBlobs::<'a, E>::poll, (store, free, events), Ok::<(Round, Vec<SlotWrite>), InsufficientAddresses>((round, writes)))]
        (*store)@.inv((*free)@) && events@.len() == (*store)@.slots.len() && call_ensures(
            StoreBlobs::<'a, E>::poll,
            (store, free, events),
            Ok::<(Round, Vec<SlotWrite>), InsufficientAddresses>((round, writes)),
        ) implies ({
        let (s, t) = ((*store)@, (*final(store))@);
        let seen = outcomes(events@);
        let all = Seq::new(writes@.len(), |x: int| writes@[x]@);
        &&& exists|mid: StoreView<E>|
            {
                &&& #[trigger] store_took_note(s, mid, s.slots, seen, 0)
                &&& is_filled(mid, t, all, 0, 0)
                &&& writes@.len() > 0 ==> is_first_write(mid, t, all, 0, 0)
            }
        &&& is_exhausted(t, 0)
        &&& round == if all_jobs_complete(t) {
            Round::Ready
        } else if writes@.len() > 0 || over_from(s.slots, seen, 0) > 0 {
            Round::Again
        } else {
            Round::Pending
        }
    }) by {
        let (s, t) = ((*store)@, (*final(store))@);
        let seen = outcomes(events@);
        assert(seen =~= blob::events_view(events@));
        let all = Seq::new(writes@.len(), |x: int| writes@[x]@);
        assert(all =~= blob::writes_view(writes@));
        let begin = Progress { store: s, free: (*free)@, writes: Seq::empty(), made: false };
        lemma_took_note(begin, s.slots, seen, 0);
        let mid = begin.complete_from(seen, 0);
        assert forall|j: int| 0 <= j < mid.store.jobs.len() implies (
        #[trigger] mid.store.jobs[j]).offset >= 0 by {
            assert(s.jobs[j].wf());
            assert(job_took_note(s.jobs[j], mid.store.jobs[j], s.slots, seen, j, 0));
        }
        lemma_filled(mid, 0);
        lemma_first_write(mid, 0);
        lemma_all_complete(t);
        assert(store_took_note(s, mid.store, s.slots, seen, 0));
    }
}

/// The number of free blocks from `start` up to `end`.
pub open spec fn free_blocks(acquired: Seq<bool>, start: int, end: int) -> int
    decreases end - start,
{
    if start >= end {
        0
    } else {
        free_blocks(acquired, start, end - 1) + if acquired[end - 1] {
            0int
        } else {
            1
        }
    }
}

proof fn lemma_free_blocks(acquired: Seq<bool>, start: int, end: int)
    ensures
        free_blocks(acquired, start, end) == free_set::count_false(acquired, start, end),
    decreases end - start,
{
    if start < end {
        lemma_free_blocks(acquired, start, end - 1);
        free_set::lemma_count_false_split(acquired, start, end - 1, end);
        assert(free_set::count_false(acquired, end, end) == 0);
    }
}

proof fn lemma_no_address<E>(p: Progress<E>, k: nat)
    requires
        p.free.wf(),
        p.free.holds(p.store.reserved),
        p.store.jobs.len() > 0,
        p.store.memory >= 0,
    ensures
        p.fill_from(k) is None ==> free_set::count_false(
            p.free.acquired,
            p.store.reserved.start,
            p.store.reserved.end,
        ) < p.store.memory,
    decreases p.store.slots.len() - k,
{
    if k < p.store.slots.len() {
        if p.store.slots[k as int] is Some {
            lemma_no_address(p, k + 1);
        } else {
            let start = p.store.next;
            let asked = Progress {
                store: StoreView {
                    next: (start + 1) % (p.store.jobs.len() as int),
                    ..p.store
                },
                ..p
            };
            asked.store.lemma_next_with_block(start, 0);
            free_set::law_every_reserved_block_can_be_acquired(p.free, p.store.reserved);
            match asked.fill_slot(k as int, start) {
                Attempt::Next(m) => {
                    lemma_no_address(m, k + 1);
                },
                _ => {},
            }
        }
    }
}

/// Addresses are missing only where the reservation holds fewer free blocks than
/// there is memory for blocks to be written.
pub proof fn law_missing_addresses<'a, E>(
    before: bool,
    events: Vec<WriteEvent<E>>,
    a: InsufficientAddresses,
)
    ensures
        forall|store: &mut StoreBlobs<'a, E>, free: &mut FreeSet|
            #![trigger call_ensures(StoreBlobs::<'a, E>::schedule_jobs, (store, free, before), Err::<(bool, Vec<SlotWrite>), InsufficientAddresses>(a))]
            (*store)@.inv((*free)@) && call_ensures(
                StoreBlobs::<'a, E>::schedule_jobs,
                (store, free, before),
                Err::<(bool, Vec<SlotWrite>), InsufficientAddresses>(a),
            ) ==> free_blocks(
                (*free)@.acquired,
                (*store)@.reserved.start,
                (*store)@.reserved.end,
            ) < (*store)@.memory,
        forall|store: &mut StoreBlobs<'a, E>, free: &mut FreeSet|
            #![trigger call_ensures(StoreBlobs::<'a, E>::poll, (store, free, events), Err::<(Round, Vec<SlotWrite>), InsufficientAddresses>(a))]
            (*store)@.inv((*free)@) && events@.len() == (*store)@.slots.len() && call_ensures(
                StoreBlobs::<'a, E>::poll,
                (store, free, events),
                Err::<(Round, Vec<SlotWrite>), InsufficientAddresses>(a),
            ) ==> free_blocks(
                (*free)@.acquired,
                (*store)@.reserved.start,
                (*store)@.reserved.end,
            ) < (*store)@.memory + over_from((*store)@.slots, outcomes(events@), 0),
{
    assert forall|store: &mut StoreBlobs<'a, E>, free: &mut FreeSet|
        #![trigger call_ensures(StoreBlobs::<'a, E>::schedule_jobs, (store, free, before), Err::<(bool, Vec<SlotWrite>), InsufficientAddresses>(a))]
        (*store)@.inv((*free)@) && call_ensures(
            StoreBlobs::<'a, E>::schedule_jobs,
            (store, free, before),
            Err::<(bool, Vec<SlotWrite>), InsufficientAddresses>(a),
        ) implies free_blocks(
        (*free)@.acquired,
        (*store)@.reserved.start,
        (*store)@.reserved.end,
    ) < (*store)@.memory by {
        let s = (*store)@;
        let begin = Progress { store: s, free: (*free)@, writes: Seq::empty(), made: before };
        lemma_no_address(begin, 0);
        lemma_free_blocks((*free)@.acquired, s.reserved.start, s.reserved.end);
    }
    assert forall|store: &mut StoreBlobs<'a, E>, free: &mut FreeSet|
        #![trigger call_ensures(StoreBlobs::<'a, E>::poll, (store, free, events), Err::<(Round, Vec<SlotWrite>), InsufficientAddresses>(a))]
        (*store)@.inv((*free)@) && events@.len() == (*store)@.slots.len() && call_ensures(
            StoreBlobs::<'a, E>::poll,
            (store, free, events),
            Err::<(Round, Vec<SlotWrite>), InsufficientAddresses>(a),
        ) implies free_blocks(
        (*free)@.acquired,
        (*store)@.reserved.start,
        (*store)@.reserved.end,
    ) < (*store)@.memory + over_from((*store)@.slots, outcomes(events@), 0) by {
        let s = (*store)@;
        let seen = outcomes(events@);
        assert(seen =~= blob::events_view(events@));
        let begin = Progress { store: s, free: (*free)@, writes: Seq::empty(), made: false };
        lemma_took_note(begin, s.slots, seen, 0);
        blob::law_outcomes_are_taken_note_of(begin, seen, 0);
        lemma_no_address(begin.complete_from(seen, 0), 0);
        lemma_free_blocks((*free)@.acquired, s.reserved.start, s.reserved.end);
    }
}

/// Whether exactly the blocks of the writes from the `n`-th on were acquired. They
/// were free and reserved, and no two are the same.
pub open spec fn are_acquired(
    before: Seq<bool>,
    after: Seq<bool>,
    writes: Seq<WriteView>,
    n: int,
    start: int,
    end: int,
) -> bool {
    &&& after.len() == before.len()
    &&& forall|x: int|
        n <= x < writes.len() ==> {
            let block = (#[trigger] writes[x]).address - 1;
            start <= block < end && !before[block] && after[block]
        }
    &&& forall|x: int, y: int|
        n <= x < y < writes.len() ==> (#[trigger] writes[x]).address != (
        #[trigger] writes[y]).address
    &&& forall|i: int|
        0 <= i < before.len() && #[trigger] after[i] != before[i] ==> exists|x: int|
            n <= x < writes.len() && (#[trigger] writes[x]).address == i + 1
}

proof fn lemma_acquired<E>(p: Progress<E>, k: nat)
    requires
        p.free.wf(),
        p.free.holds(p.store.reserved),
        p.store.jobs.len() > 0,
        p.free.acquired.len() < u64::MAX,
    ensures
        p.fill_from(k) matches Some(q) ==> {
            &&& q.writes.len() >= p.writes.len()
            &&& forall|x: int| 0 <= x < p.writes.len() ==> #[trigger] q.writes[x] == p.writes[x]
            &&& q.free.released == p.free.released
            &&& are_acquired(
                p.free.acquired,
                q.free.acquired,
                q.writes,
                p.writes.len() as int,
                p.store.reserved.start,
                p.store.reserved.end,
            )
        },
    decreases p.store.slots.len() - k,
{
    if k < p.store.slots.len() {
        if p.store.slots[k as int] is Some {
            lemma_acquired(p, k + 1);
        } else {
            let start = p.store.next;
            let asked = Progress {
                store: StoreView {
                    next: (start + 1) % (p.store.jobs.len() as int),
                    ..p.store
                },
                ..p
            };
            asked.store.lemma_next_with_block(start, 0);
            free_set::law_every_reserved_block_can_be_acquired(p.free, p.store.reserved);
            match asked.fill_slot(k as int, start) {
                Attempt::Next(m) => {
                    lemma_acquired(m, k + 1);
                    if let Some(q) = m.fill_from(k + 1) {
                        if asked.store.next_with_block(start, 0) is Some {
                            let n = p.writes.len() as int;
                            let block = p.free.reserved_block(p.store.reserved)->0;
                            assert(m.writes[n].address == block + 1);
                            assert(q.writes[n] == m.writes[n]);
                            assert(m.free.acquired == p.free.acquired.update(block, true));
                            lemma_one_acquired(p, m, q, block);
                        }
                    }
                },
                _ => {},
            }
        }
    }
}

proof fn lemma_one_acquired<E>(p: Progress<E>, m: Progress<E>, q: Progress<E>, block: int)
    requires
        p.store.reserved.start <= block < p.store.reserved.end <= p.free.acquired.len(),
        0 <= p.store.reserved.start,
        !p.free.acquired[block],
        m.free.acquired == p.free.acquired.update(block, true),
        m.writes.len() == p.writes.len() + 1,
        q.writes.len() >= m.writes.len(),
        q.writes[p.writes.len() as int].address == block + 1,
        are_acquired(
            m.free.acquired,
            q.free.acquired,
            q.writes,
            m.writes.len() as int,
            p.store.reserved.start,
            p.store.reserved.end,
        ),
    ensures
        are_acquired(
            p.free.acquired,
            q.free.acquired,
            q.writes,
            p.writes.len() as int,
            p.store.reserved.start,
            p.store.reserved.end,
        ),
{
    let n = p.writes.len() as int;
    assert(q.free.acquired[block]) by {
        if q.free.acquired[block] != m.free.acquired[block] {
            let x = choose|x: int|
                n + 1 <= x < q.writes.len() && (#[trigger] q.writes[x]).address == block + 1;
            assert(!m.free.acquired[q.writes[x].address - 1]);
        }
    }
    assert forall|x: int| n <= x < q.writes.len() implies {
        let b = (#[trigger] q.writes[x]).address - 1;
        p.store.reserved.start <= b < p.store.reserved.end && !p.free.acquired[b]
            && q.free.acquired[b]
    } by {
        if x > n {
            let b = q.writes[x].address - 1;
            assert(!m.free.acquired[b]);
        }
    }
    assert forall|x: int, y: int| n <= x < y < q.writes.len() implies (
    #[trigger] q.writes[x]).address != (#[trigger] q.writes[y]).address by {
        if x == n {
            assert(!m.free.acquired[q.writes[y].address - 1]);
        }
    }
    assert forall|i: int|
        0 <= i < p.free.acquired.len() && #[trigger] q.free.acquired[i]
            != p.free.acquired[i] implies exists|x: int|
        n <= x < q.writes.len() && (#[trigger] q.writes[x]).address == i + 1 by {
        if i == block {
            assert(q.writes[n].address == i + 1);
        } else {
            assert(m.free.acquired[i] == p.free.acquired[i]);
            let x = choose|x: int|
                n + 1 <= x < q.writes.len() && (#[trigger] q.writes[x]).address == i + 1;
            assert(q.writes[x].address == i + 1);
        }
    }
}

/// A round acquires the blocks that it writes, and no others. It releases those
/// whose writes failed, and no others.
pub proof fn law_blocks_of_a_round<'a, E>(
    events: Vec<WriteEvent<E>>,
    round: Round,
    writes: Vec<SlotWrite>,
)
    ensures
        forall|store: &mut StoreBlobs<'a, E>, free: &mut FreeSet|
            #![trigger call_ensures(StoreBlobs::<'a, E>::poll, (store, free, events), Ok::<(Round, Vec<SlotWrite>), InsufficientAddresses>((round, writes)))]
            (*store)@.inv((*free)@) && (*free)@.acquired.len() < u64::MAX && events@.len() == (
            *store)@.slots.len() && call_ensures(
                StoreBlobs::<'a, E>::poll,
                (store, free, events),
                Ok::<(Round, Vec<SlotWrite>), InsufficientAddresses>((round, writes)),
            ) ==> {
                let (s, v, w) = ((*store)@, (*free)@, (*final(free))@);
                &&& are_acquired(
                    v.acquired,
                    w.acquired,
                    Seq::new(writes@.len(), |x: int| writes@[x]@),
                    0,
                    s.reserved.start,
                    s.reserved.end,
                )
                &&& w.released.len() == v.released.len()
                &&& forall|i: int|
                    0 <= i < v.released.len() ==> (#[trigger] w.released[i] <==> v.released[i]
                        || exists|k: int|
                        0 <= k < s.slots.len() && #[trigger] is_over(s.slots, outcomes(events@), k)
                            && outcomes(events@)[k]->0 is Err && s.slots[k]->0.address == i + 1)
            },
{
    assert forall|store: &mut StoreBlobs<'a, E>, free: &mut FreeSet|
        #![trigger call_ensures(StoreBlobs::<'a, E>::poll, (store, free, events), Ok::<(Round, Vec<SlotWrite>), InsufficientAddresses>((round, writes)))]
        (*store)@.inv((*free)@) && (*free)@.acquired.len() < u64::MAX && events@.len() == (
        *store)@.slots.len() && call_ensures(
            StoreBlobs::<'a, E>::poll,
            (store, free, events),
            Ok::<(Round, Vec<SlotWrite>), InsufficientAddresses>((round, writes)),
        ) implies ({
        let (s, v, w) = ((*store)@, (*free)@, (*final(free))@);
        &&& are_acquired(
            v.acquired,
            w.acquired,
            Seq::new(writes@.len(), |x: int| writes@[x]@),
            0,
            s.reserved.start,
            s.reserved.end,
        )
        &&& w.released.len() == v.released.len()
        &&& forall|i: int|
            0 <= i < v.released.len() ==> (#[trigger] w.released[i] <==> v.released[i] || exists|
                k: int,
            |
                0 <= k < s.slots.len() && #[trigger] is_over(s.slots, outcomes(events@), k)
                    && outcomes(events@)[k]->0 is Err && s.slots[k]->0.address == i + 1)
    }) by {
        let (s, v, w) = ((*store)@, (*free)@, (*final(free))@);
        let seen = outcomes(events@);
        assert(seen =~= blob::events_view(events@));
        assert(Seq::new(writes@.len(), |x: int| writes@[x]@) =~= blob::writes_view(writes@));
        let begin = Progress { store: s, free: v, writes: Seq::empty(), made: false };
        lemma_took_note(begin, s.slots, seen, 0);
        blob::law_outcomes_are_taken_note_of(begin, seen, 0);
        lemma_acquired(begin.complete_from(seen, 0), 0);
        assert forall|i: int| 0 <= i < v.released.len() implies (
        #[trigger] w.released[i] <==> v.released[i] || exists|k: int|
            0 <= k < s.slots.len() && #[trigger] is_over(s.slots, seen, k) && seen[k]->0 is Err
                && s.slots[k]->0.address == i + 1) by {
            if exists|k: int|
                0 <= k < seen.len() && #[trigger] blob::failed(s.slots, seen, k)
                    && s.slots[k]->0.address == i + 1 {
                let k = choose|k: int|
                    0 <= k < seen.len() && #[trigger] blob::failed(s.slots, seen, k)
                        && s.slots[k]->0.address == i + 1;
                assert(is_over(s.slots, seen, k));
            }
            if exists|k: int|
                0 <= k < s.slots.len() && #[trigger] is_over(s.slots, seen, k) && seen[k]->0 is Err
                    && s.slots[k]->0.address == i + 1 {
                let k = choose|k: int|
                    0 <= k < s.slots.len() && #[trigger] is_over(s.slots, seen, k)
                        && seen[k]->0 is Err && s.slots[k]->0.address == i + 1;
                assert(blob::failed(s.slots, seen, k));
            }
        }
    }
}

} // verus!

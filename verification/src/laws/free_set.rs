//! What is promised of the free set.

use vstd::prelude::*;

use crate::bitset;
use crate::bitset::Bitset;
use crate::free_set;
use crate::free_set::{
    AcquiredAddress, FreeSet, FreeSetStorage, FreeSetView, ReadError, Reservation,
};
use crate::grid::blob::ReadError as BlobReadError;
use crate::laws::bitset::{bit_of, lemma_loaded_bit};

verus! {

/// Whether the reservations of `v` are those of `w`.
pub open spec fn keeps_reservations(v: FreeSetView, w: FreeSetView) -> bool {
    &&& w.reserved_end == v.reserved_end
    &&& w.reservations == v.reservations
    &&& w.forfeiting == v.forfeiting
    &&& w.session == v.session
}

/// A free set that is loaded has the acquired blocks of the one blob and the
/// released blocks of the other. A shard is marked as full if and only if all
/// its blocks are acquired, and there are no reservations. What cannot be read
/// is an error that says which.
pub proof fn law_both_sets_are_loaded<E>(
    acquired: Result<Vec<u8>, BlobReadError<E>>,
    released: Result<Vec<u8>, BlobReadError<E>>,
    storage: FreeSetStorage,
    r: Result<FreeSet, ReadError<E>>,
)
    requires
        storage.acquired@.len() == storage.released@.len(),
        storage.acquired@.len() % 4096 == 0,
        acquired matches Ok(data) ==> data@.len() <= 8 * storage.acquired@.len(),
        released matches Ok(data) ==> data@.len() <= 8 * storage.released@.len(),
        call_ensures(FreeSet::load::<E>, (acquired, released, storage), r),
    ensures
        match (acquired, released) {
            (Err(e), _) => r == Err::<FreeSet, ReadError<E>>(ReadError::ReadAcquired(e)),
            (Ok(_), Err(e)) => r == Err::<FreeSet, ReadError<E>>(ReadError::ReadReleased(e)),
            (Ok(a), Ok(b)) => {
                let n = storage.acquired@.len();
                &&& r matches Ok(set)
                &&& set@.acquired.len() == n
                &&& set@.released.len() == n
                &&& forall|i: int| 0 <= i < n ==> #[trigger] set@.acquired[i] == bit_of(a@, i)
                &&& forall|i: int| 0 <= i < n ==> #[trigger] set@.released[i] == bit_of(b@, i)
                &&& set@.index.len() == n / 4096
                &&& forall|s: int|
                    0 <= s < n / 4096 ==> (#[trigger] set@.index[s] <==> forall|i: int|
                        4096 * s <= i < 4096 * (s + 1) ==> #[trigger] set@.acquired[i])
                &&& set@.reservations == 0
                &&& set@.reserved_end == 0
                &&& !set@.forfeiting
            },
        },
{
    if let (Ok(a), Ok(b)) = (acquired, released) {
        let set = r->Ok_0;
        let n = storage.acquired@.len();
        assert(set@.acquired.len() == n && set@.released.len() == n);
        assert forall|i: int| 0 <= i < n implies #[trigger] set@.acquired[i] == bit_of(a@, i) by {
            lemma_loaded_bit(a@, n, i);
        }
        assert forall|i: int| 0 <= i < n implies #[trigger] set@.released[i] == bit_of(b@, i) by {
            lemma_loaded_bit(b@, n, i);
        }
        assert forall|s: int| 0 <= s < n / 4096 implies (
        #[trigger] set@.index[s] <==> forall|i: int|
            4096 * s <= i < 4096 * (s + 1) ==> #[trigger] set@.acquired[i]) by {
            assert(set@.index[s] == FreeSetView::shard_full(set@.acquired, s));
        }
    }
}

/// Loading the bytes of the sets of acquired and of released blocks gives back
/// both, so that the same blocks are in use.
pub proof fn law_stored_free_set_is_loaded<E>(
    acquired: Bitset,
    released: Bitset,
    a: Vec<u8>,
    b: Vec<u8>,
    storage: FreeSetStorage,
    r: Result<FreeSet, ReadError<E>>,
    address: u64,
    in_use: bool,
)
    requires
        acquired.wf(),
        released.wf(),
        acquired@.len() == released@.len(),
        acquired@.len() % 4096 == 0,
        acquired@.len() <= u64::MAX,
        storage.acquired@.len() == acquired@.len(),
        storage.released@.len() == acquired@.len(),
        call_ensures(Bitset::as_bytes, (&acquired,), a),
        call_ensures(Bitset::as_bytes, (&released,), b),
        call_ensures(
            FreeSet::load::<E>,
            (
                Ok::<Vec<u8>, BlobReadError<E>>(a),
                Ok::<Vec<u8>, BlobReadError<E>>(b),
                storage,
            ),
            r,
        ),
        r is Ok,
        call_ensures(FreeSet::is_in_use, (&r->Ok_0, address), in_use),
    ensures
        r->Ok_0@.acquired == acquired@,
        r->Ok_0@.released == released@,
        in_use <==> 0 < address <= acquired@.len() && acquired@[address - 1] && !released@[address
            - 1],
{
    acquired.lemma_view_of_words();
    released.lemma_view_of_words();
    bitset::law_load_gives_back_stored_set(acquired);
    bitset::law_load_gives_back_stored_set(released);
}

/// A reservation starts where the one before ends, or with the first block. It
/// holds, behind the shards that are marked as full, as many free blocks as were
/// asked for, the last of which is its last block. There is no reservation only
/// if there are not so many. Nothing but the reservations changes.
pub proof fn law_reserved_blocks_are_free(num_blocks: usize, r: Option<Reservation>)
    requires
        num_blocks > 0,
    ensures
        forall|set: &mut FreeSet|
            #![trigger call_ensures(FreeSet::reserve, (set, num_blocks), r)]
            set.wf() && call_ensures(FreeSet::reserve, (set, num_blocks), r) ==> {
                let (v, w) = ((*set)@, (*final(set))@);
                &&& w.acquired == v.acquired && w.released == v.released && w.index == v.index
                    && w.session == v.session && w.forfeiting == v.forfeiting
                &&& match r {
                    Some(res) => {
                        &&& res@.start == v.reserved_end
                        &&& res@.start < res@.end <= v.acquired.len()
                        &&& res@.session == v.session
                        &&& w.reserved_end == res@.end
                        &&& w.reservations == v.reservations + 1
                        &&& !v.acquired[res@.end - 1]
                        &&& free_set::count_false(v.acquired, res@.start, res@.end) >= num_blocks
                        &&& exists|from: int|
                            {
                                &&& res@.start <= from < res@.end
                                &&& #[trigger] free_set::count_false(
                                    v.acquired,
                                    from,
                                    res@.end,
                                ) == num_blocks
                                &&& forall|s: int|
                                    res@.start / 4096 <= s && 4096 * s + 4095 < from
                                        ==> #[trigger] v.index[s]
                                &&& from == res@.start || from % 4096 == 0
                                &&& !v.index[from / 4096]
                            }
                    },
                    None => {
                        &&& w.reserved_end == v.reserved_end
                        &&& w.reservations == v.reservations
                        &&& forall|s: int, from: int|
                            #![trigger v.index[s], free_set::count_false(v.acquired, from, v.acquired.len() as int)]
                            v.reserved_end / 4096 <= s < v.index.len() && !v.index[s] && (from
                                == 4096 * s || from == v.reserved_end) && from >= 4096 * s && from
                                >= v.reserved_end && from < 4096 * (s + 1)
                                ==> free_set::count_false(
                                v.acquired,
                                from,
                                v.acquired.len() as int,
                            ) < num_blocks
                    },
                }
            },
{
    assert forall|set: &mut FreeSet|
        #![trigger call_ensures(FreeSet::reserve, (set, num_blocks), r)]
        set.wf() && call_ensures(FreeSet::reserve, (set, num_blocks), r) implies ({
        let (v, w) = ((*set)@, (*final(set))@);
        &&& w.acquired == v.acquired && w.released == v.released && w.index == v.index && w.session
            == v.session && w.forfeiting == v.forfeiting
        &&& match r {
            Some(res) => {
                &&& res@.start == v.reserved_end
                &&& res@.start < res@.end <= v.acquired.len()
                &&& res@.session == v.session
                &&& w.reserved_end == res@.end
                &&& w.reservations == v.reservations + 1
                &&& !v.acquired[res@.end - 1]
                &&& free_set::count_false(v.acquired, res@.start, res@.end) >= num_blocks
                &&& exists|from: int|
                    {
                        &&& res@.start <= from < res@.end
                        &&& #[trigger] free_set::count_false(v.acquired, from, res@.end)
                            == num_blocks
                        &&& forall|s: int|
                            res@.start / 4096 <= s && 4096 * s + 4095 < from
                                ==> #[trigger] v.index[s]
                        &&& from == res@.start || from % 4096 == 0
                        &&& !v.index[from / 4096]
                    }
            },
            None => {
                &&& w.reserved_end == v.reserved_end
                &&& w.reservations == v.reservations
                &&& forall|s: int, from: int|
                    #![trigger v.index[s], free_set::count_false(v.acquired, from, v.acquired.len() as int)]
                    v.reserved_end / 4096 <= s < v.index.len() && !v.index[s] && (from == 4096 * s
                        || from == v.reserved_end) && from >= 4096 * s && from >= v.reserved_end
                        && from < 4096 * (s + 1) ==> free_set::count_false(
                        v.acquired,
                        from,
                        v.acquired.len() as int,
                    ) < num_blocks
            },
        }
    }) by {
        let v = (*set)@;
        set.lemma_wf();
        let first = v.reserved_end / 4096;
        bitset::lemma_lowest_false(v.index, first, v.index.len() as int);
        let found = bitset::lowest_false(v.index, first, v.index.len() as int);
        if let Some(shard) = found {
            let from = free_set::max(shard * 4096, v.reserved_end);
            free_set::lemma_after_nth_false(v.acquired, from, num_blocks as nat);
            if r is Some {
                free_set::law_reservation_holds_free_blocks(v, num_blocks as nat);
                assert(from / 4096 == shard);
                assert(free_set::count_false(v.acquired, from, r->0@.end) == num_blocks);
            } else {
                assert forall|s: int, f: int|
                    #![trigger v.index[s], free_set::count_false(v.acquired, f, v.acquired.len() as int)]
                    v.reserved_end / 4096 <= s < v.index.len() && !v.index[s] && (f == 4096 * s || f
                        == v.reserved_end) && f >= 4096 * s && f >= v.reserved_end && f < 4096 * (s
                        + 1) implies free_set::count_false(
                    v.acquired,
                    f,
                    v.acquired.len() as int,
                ) < num_blocks by {
                    assert(s >= shard);
                    free_set::lemma_count_false_split(
                        v.acquired,
                        from,
                        f,
                        v.acquired.len() as int,
                    );
                }
            }
        }
    }
}

/// `acquire` takes the lowest free block of the reservation in the first of its
/// shards that is not marked as full, and that block only.
pub proof fn law_acquired_block_was_free(reservation: Reservation, r: Option<AcquiredAddress>)
    ensures
        forall|set: &mut FreeSet|
            #![trigger call_ensures(FreeSet::acquire, (set, &reservation), r)]
            set.wf() && (*set)@.holds(reservation@) && call_ensures(
                FreeSet::acquire,
                (set, &reservation),
                r,
            ) ==> {
                let (v, w) = ((*set)@, (*final(set))@);
                let (start, end) = (reservation@.start, reservation@.end);
                &&& w.released == v.released
                &&& keeps_reservations(v, w)
                &&& w.index.len() == v.index.len()
                &&& match r {
                    Some(address) => {
                        let block = address@ - 1;
                        let shard = block / 4096;
                        &&& start <= block < end
                        &&& !v.acquired[block]
                        &&& !v.index[shard]
                        &&& w.acquired == v.acquired.update(block, true)
                        &&& forall|s: int|
                            start / 4096 <= s < shard ==> #[trigger] v.index[s]
                        &&& forall|i: int|
                            start <= i < block && i >= 4096 * shard ==> #[trigger] v.acquired[i]
                        &&& forall|s: int|
                            0 <= s < v.index.len() && s != shard ==> #[trigger] w.index[s]
                                == v.index[s]
                        &&& w.index[shard] <==> forall|i: int|
                            start / 4096 <= i < (end + 4095) / 4096 ==> #[trigger] w.acquired[i]
                    },
                    None => {
                        &&& w == v
                        &&& forall|s: int|
                            start / 4096 <= s < (end + 4095) / 4096 && (forall|t: int|
                                start / 4096 <= t < s ==> #[trigger] v.index[t])
                                && !#[trigger] v.index[s] ==> forall|i: int|
                                start <= i < end && 4096 * s <= i < 4096 * (s + 1)
                                    ==> #[trigger] v.acquired[i]
                    },
                }
            },
{
    assert forall|set: &mut FreeSet|
        #![trigger call_ensures(FreeSet::acquire, (set, &reservation), r)]
        set.wf() && (*set)@.holds(reservation@) && call_ensures(
            FreeSet::acquire,
            (set, &reservation),
            r,
        ) implies ({
        let (v, w) = ((*set)@, (*final(set))@);
        let (start, end) = (reservation@.start, reservation@.end);
        &&& w.released == v.released
        &&& keeps_reservations(v, w)
        &&& w.index.len() == v.index.len()
        &&& match r {
            Some(address) => {
                let block = address@ - 1;
                let shard = block / 4096;
                &&& start <= block < end
                &&& !v.acquired[block]
                &&& !v.index[shard]
                &&& w.acquired == v.acquired.update(block, true)
                &&& forall|s: int| start / 4096 <= s < shard ==> #[trigger] v.index[s]
                &&& forall|i: int|
                    start <= i < block && i >= 4096 * shard ==> #[trigger] v.acquired[i]
                &&& forall|s: int|
                    0 <= s < v.index.len() && s != shard ==> #[trigger] w.index[s] == v.index[s]
                &&& w.index[shard] <==> forall|i: int|
                    start / 4096 <= i < (end + 4095) / 4096 ==> #[trigger] w.acquired[i]
            },
            None => {
                &&& w == v
                &&& forall|s: int|
                    start / 4096 <= s < (end + 4095) / 4096 && (forall|t: int|
                        start / 4096 <= t < s ==> #[trigger] v.index[t]) && !#[trigger] v.index[s]
                        ==> forall|i: int|
                        start <= i < end && 4096 * s <= i < 4096 * (s + 1)
                            ==> #[trigger] v.acquired[i]
            },
        }
    }) by {
        let (v, w) = ((*set)@, (*final(set))@);
        let (start, end) = (reservation@.start, reservation@.end);
        set.lemma_wf();
        let (a, b) = (start / 4096, (end + 4095) / 4096);
        bitset::lemma_lowest_false(v.index, a, b);
        if let Some(shard) = bitset::lowest_false(v.index, a, b) {
            bitset::lemma_lowest_false(
                v.acquired,
                free_set::max(shard * 4096, start),
                free_set::min((shard + 1) * 4096, end),
            );
            if r is Some {
                let block = r->0@ - 1;
                assert(block / 4096 == shard);
                bitset::lemma_lowest_false(w.acquired, a, b);
            } else {
                assert forall|s: int|
                    a <= s < b && (forall|t: int| a <= t < s ==> #[trigger] v.index[t])
                        && !#[trigger] v.index[s] implies forall|i: int|
                    start <= i < end && 4096 * s <= i < 4096 * (s + 1) ==> #[trigger] v.acquired[i] by {
                    if s < shard {
                        assert(v.index[s]);
                    } else if shard < s {
                        assert(v.index[shard]);
                    }
                }
            }
        }
    }
}

/// As long as the reservation holds a free block, `acquire_reserved` takes one of
/// its free blocks, and that block only.
pub proof fn law_reserved_block_was_free(reservation: Reservation, r: Option<AcquiredAddress>)
    ensures
        forall|set: &mut FreeSet|
            #![trigger call_ensures(FreeSet::acquire_reserved, (set, &reservation), r)]
            set.wf() && (*set)@.holds(reservation@) && call_ensures(
                FreeSet::acquire_reserved,
                (set, &reservation),
                r,
            ) ==> {
                let (v, w) = ((*set)@, (*final(set))@);
                let (start, end) = (reservation@.start, reservation@.end);
                &&& w.released == v.released
                &&& keeps_reservations(v, w)
                &&& match r {
                    Some(address) => {
                        let block = address@ - 1;
                        &&& start <= block < end
                        &&& !v.acquired[block]
                        &&& w.acquired == v.acquired.update(block, true)
                    },
                    None => {
                        &&& w.acquired == v.acquired
                        &&& forall|i: int| start <= i < end ==> #[trigger] v.acquired[i]
                    },
                }
            },
{
    assert forall|set: &mut FreeSet|
        #![trigger call_ensures(FreeSet::acquire_reserved, (set, &reservation), r)]
        set.wf() && (*set)@.holds(reservation@) && call_ensures(
            FreeSet::acquire_reserved,
            (set, &reservation),
            r,
        ) implies ({
        let (v, w) = ((*set)@, (*final(set))@);
        let (start, end) = (reservation@.start, reservation@.end);
        &&& w.released == v.released
        &&& keeps_reservations(v, w)
        &&& match r {
            Some(address) => {
                let block = address@ - 1;
                &&& start <= block < end
                &&& !v.acquired[block]
                &&& w.acquired == v.acquired.update(block, true)
            },
            None => {
                &&& w.acquired == v.acquired
                &&& forall|i: int| start <= i < end ==> #[trigger] v.acquired[i]
            },
        }
    }) by {
        let v = (*set)@;
        set.lemma_wf();
        free_set::law_every_reserved_block_can_be_acquired(v, reservation@);
        bitset::lemma_lowest_false(v.acquired, reservation@.start, reservation@.end);
    }
}

/// `acquire_reserved` takes the block that `acquire` would take. Where that takes
/// none, it takes the lowest free block of the reservation, and marks the shard of
/// the block if all of it is acquired then.
pub proof fn law_reserved_block_is_the_lowest(
    reservation: Reservation,
    a: Option<AcquiredAddress>,
    r: Option<AcquiredAddress>,
)
    ensures
        forall|set: &mut FreeSet, other: &mut FreeSet|
            set.wf() && (*set)@.holds(reservation@) && *other == *set && #[trigger] call_ensures(
                FreeSet::acquire,
                (other, &reservation),
                a,
            ) && #[trigger] call_ensures(FreeSet::acquire_reserved, (set, &reservation), r) ==> {
                let (v, w, o) = ((*set)@, (*final(set))@, (*final(other))@);
                match (a, r) {
                    (Some(x), Some(y)) => y@ == x@ && w == o,
                    (None, Some(y)) => {
                        let block = y@ - 1;
                        let shard = block / 4096;
                        &&& forall|i: int|
                            reservation@.start <= i < block ==> #[trigger] v.acquired[i]
                        &&& w.index.len() == v.index.len()
                        &&& forall|s: int|
                            0 <= s < v.index.len() && s != shard ==> #[trigger] w.index[s]
                                == v.index[s]
                        &&& w.index[shard] <==> v.index[shard] || forall|i: int|
                            4096 * shard <= i < 4096 * (shard + 1) ==> #[trigger] w.acquired[i]
                    },
                    (Some(_), None) => false,
                    (None, None) => w == v,
                }
            },
{
    assert forall|set: &mut FreeSet, other: &mut FreeSet|
        set.wf() && (*set)@.holds(reservation@) && *other == *set && #[trigger] call_ensures(
            FreeSet::acquire,
            (other, &reservation),
            a,
        ) && #[trigger] call_ensures(FreeSet::acquire_reserved, (set, &reservation), r) implies ({
        let (v, w, o) = ((*set)@, (*final(set))@, (*final(other))@);
        match (a, r) {
            (Some(x), Some(y)) => y@ == x@ && w == o,
            (None, Some(y)) => {
                let block = y@ - 1;
                let shard = block / 4096;
                &&& forall|i: int| reservation@.start <= i < block ==> #[trigger] v.acquired[i]
                &&& w.index.len() == v.index.len()
                &&& forall|s: int|
                    0 <= s < v.index.len() && s != shard ==> #[trigger] w.index[s] == v.index[s]
                &&& w.index[shard] <==> v.index[shard] || forall|i: int|
                    4096 * shard <= i < 4096 * (shard + 1) ==> #[trigger] w.acquired[i]
            },
            (Some(_), None) => false,
            (None, None) => w == v,
        }
    }) by {
        let (v, w) = ((*set)@, (*final(set))@);
        set.lemma_wf();
        bitset::lemma_lowest_false(v.acquired, reservation@.start, reservation@.end);
        if let (None, Some(y)) = (a, r) {
            let block = y@ - 1;
            let shard = block / 4096;
            assert(0 <= shard < v.index.len());
            assert(FreeSetView::shard_full(w.acquired, shard) == forall|i: int|
                4096 * shard <= i < 4096 * (shard + 1) ==> #[trigger] w.acquired[i]);
        }
    }
}

/// Releasing marks the block at the address, and nothing else changes.
pub proof fn law_released_block_is_marked(address: u64)
    ensures
        forall|set: &mut FreeSet|
            #![trigger call_ensures(FreeSet::release, (set, address), ())]
            call_ensures(FreeSet::release, (set, address), ()) && 0 < address
                <= (*set)@.released.len() ==> {
                let (v, w) = ((*set)@, (*final(set))@);
                &&& w.acquired == v.acquired && w.index == v.index && keeps_reservations(v, w)
                &&& w.released.len() == v.released.len()
                &&& forall|i: int|
                    0 <= i < v.released.len() ==> #[trigger] w.released[i] == (v.released[i] || i
                        == address - 1)
            },
{
}

/// Forfeiting gives up one reservation. With the last one the session ends, and
/// reservations start with the first block again. As long as others are held, no
/// reservation can be made.
pub proof fn law_forfeit_gives_up_one_reservation(
    reservation: Reservation,
    reserving: bool,
    idle: bool,
)
    ensures
        forall|set: &mut FreeSet|
            #![trigger call_ensures(FreeSet::forfeit, (set, reservation), ())]
            call_ensures(FreeSet::forfeit, (set, reservation), ()) && (*set)@.reservations > 0
                && 0 <= (*set)@.session <= usize::MAX && call_ensures(
                FreeSet::is_reserving,
                (&*final(set),),
                reserving,
            ) && call_ensures(FreeSet::is_idle, (&*final(set),), idle) ==> {
                let (v, w) = ((*set)@, (*final(set))@);
                &&& w.acquired == v.acquired && w.released == v.released && w.index == v.index
                &&& w.reservations == v.reservations - 1
                &&& idle <==> v.reservations == 1
                &&& reserving <==> idle
                &&& idle ==> w.reserved_end == 0 && w.session != v.session && (w.session
                    == v.session + 1 || w.session == 0 && v.session == usize::MAX)
                &&& !idle ==> w.reserved_end == v.reserved_end && w.session == v.session
            },
{
}

/// A block stays acquired through `free_released` if and only if it is released;
/// nothing is released or forgotten by it. A shard stays marked as full only if
/// all its blocks are released.
pub proof fn law_released_blocks_stay()
    ensures
        forall|set: &mut FreeSet|
            #![trigger call_ensures(FreeSet::free_released, (set,), ())]
            set.wf() && call_ensures(FreeSet::free_released, (set,), ()) ==> {
                let (v, w) = ((*set)@, (*final(set))@);
                &&& keeps_reservations(v, w)
                &&& w.released == v.released
                &&& w.acquired.len() == v.acquired.len()
                &&& forall|i: int|
                    0 <= i < v.acquired.len() ==> #[trigger] w.acquired[i] == (v.acquired[i]
                        && v.released[i])
                &&& w.index.len() == v.index.len()
                &&& forall|s: int|
                    0 <= s < v.index.len() ==> (#[trigger] w.index[s] <==> v.index[s] && forall|
                        i: int,
                    |
                        4096 * s <= i < 4096 * (s + 1) ==> #[trigger] v.released[i])
            },
{
    assert forall|set: &mut FreeSet|
        #![trigger call_ensures(FreeSet::free_released, (set,), ())]
        set.wf() && call_ensures(FreeSet::free_released, (set,), ()) implies ({
        let (v, w) = ((*set)@, (*final(set))@);
        forall|s: int|
            0 <= s < v.index.len() ==> (#[trigger] w.index[s] <==> v.index[s] && forall|i: int|
                4096 * s <= i < 4096 * (s + 1) ==> #[trigger] v.released[i])
    }) by {
        let (v, w) = ((*set)@, (*final(set))@);
        assert forall|s: int| 0 <= s < v.index.len() implies (
        #[trigger] w.index[s] <==> v.index[s] && forall|i: int|
            4096 * s <= i < 4096 * (s + 1) ==> #[trigger] v.released[i]) by {
            assert(w.index[s] == (v.index[s] && FreeSetView::shard_full(v.released, s)));
        }
    }
}

/// What a reservation says of itself.
pub proof fn law_range_of_reservation(
    reservation: Reservation,
    count: usize,
    range: core::ops::Range<usize>,
)
    requires
        call_ensures(Reservation::block_count, (&reservation,), count),
        call_ensures(Reservation::block_range, (&reservation,), range),
    ensures
        range.start == reservation@.start,
        range.end == reservation@.end,
        count == range.end - range.start,
{
}

/// A reservation is held if it was made in this session, lies within what is
/// reserved, and not all reservations were forfeited.
pub proof fn law_held_reservation(set: FreeSet, reservation: Reservation, r: bool)
    requires
        call_ensures(FreeSet::is_held, (&set, &reservation), r),
        0 <= reservation@.start <= reservation@.end,
    ensures
        r <==> set@.reservations > 0 && reservation@.session == set@.session && reservation@.end
            <= set@.reserved_end,
{
}

/// The set is consistent if and only if no block is released that is not
/// acquired.
pub proof fn law_consistent_set(set: FreeSet, r: bool)
    requires
        set@.acquired.len() == set@.released.len(),
        call_ensures(FreeSet::is_consistent, (&set,), r),
    ensures
        r <==> forall|i: int|
            0 <= i < set@.acquired.len() ==> !(#[trigger] set@.released[i] && !set@.acquired[i]),
{
    if r {
        assert forall|i: int| 0 <= i < set@.acquired.len() implies !(
        #[trigger] set@.released[i] && !set@.acquired[i]) by {}
    } else {
        let i = choose|i: int|
            0 <= i < set@.released.len() && set@.released[i] && !#[trigger] set@.acquired[i];
        assert(set@.released[i]);
    }
}

/// A new free set has the given blocks, and no reservations.
pub proof fn law_new_free_set(
    acquired: Bitset,
    released: Bitset,
    index: Bitset,
    set: FreeSet,
    idle: bool,
    reserving: bool,
    address: AcquiredAddress,
    number: u64,
)
    ensures
        call_ensures(FreeSet::new, (acquired, released, index), set) ==> {
            &&& set@.acquired == acquired@
            &&& set@.released == released@
            &&& set@.index == index@
            &&& set@.reservations == 0
            &&& set@.reserved_end == 0
            &&& !set@.forfeiting
            &&& set@.session == 1
        },
        call_ensures(FreeSet::is_idle, (&set,), idle) ==> (idle <==> set@.reservations == 0),
        call_ensures(FreeSet::is_reserving, (&set,), reserving) ==> (reserving
            <==> !set@.forfeiting),
        call_ensures(AcquiredAddress::get, (&address,), number) ==> number == address@ && number
            > 0,
{
}

/// A block is in use if it is acquired and not released.
pub proof fn law_block_in_use(set: FreeSet, address: u64, r: bool)
    requires
        call_ensures(FreeSet::is_in_use, (&set, address), r),
    ensures
        r <==> 0 < address <= set@.acquired.len() && set@.acquired[address - 1]
            && !set@.released[address - 1],
{
}

} // verus!

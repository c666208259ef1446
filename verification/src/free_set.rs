//! Which blocks of the data file are in use.
//!
//! Blocks are first reserved, in ranges that hold enough free blocks, and then
//! acquired one by one out of a reservation.

use std::ops::Range;

use vstd::prelude::*;

use crate::bitset;
use crate::bitset::{Bitset, Bound};
use crate::checksum::Checksum;
use crate::grid::blob::ReadError as BlobReadError;
use crate::grid::block::BlockRef;
use crate::le;

verus! {

/// The number of blocks that one bit of the index stands for.
pub const SHARD_BITS: usize = 4096;

/// A free set could not be read.
#[derive(Debug)]
pub enum ReadError<E> {
    ReadAcquired(BlobReadError<E>),
    ReadReleased(BlobReadError<E>),
}

/// A reference to a stored free set.
#[derive(Debug)]
pub struct FreeSetRef {
    pub checksum: Checksum,
    pub len: u32,
    pub block: BlockRef,
}

impl FreeSetRef {
    /// The stored form: the fields in order.
    pub open spec fn bytes(self) -> Seq<u8> {
        self.checksum@ + le::le_bytes(self.len as nat, 4) + self.block.bytes()
    }
}

/// The stored form of a reference to a free set takes 84 bytes.
pub proof fn law_size_of_free_set_ref(r: FreeSetRef)
    ensures
        r.bytes().len() == 84,
{
    le::lemma_le_bytes_len(r.len as nat, 4);
    r.block.lemma_bytes_len();
    Checksum::lemma_view(r.checksum, r.checksum);
}

/// A range of blocks out of which blocks can be acquired.
pub struct Reservation {
    block_base: usize,
    block_count: usize,
    session: usize,
}

/// The blocks `start..end`, reserved in the session `session`.
pub struct ReservationView {
    pub start: int,
    pub end: int,
    pub session: int,
}

impl View for Reservation {
    type V = ReservationView;

    closed spec fn view(&self) -> ReservationView {
        ReservationView {
            start: self.block_base as int,
            end: self.block_base + self.block_count,
            session: self.session as int,
        }
    }
}

impl Reservation {
    pub open spec fn wf(self) -> bool {
        0 <= self@.start <= self@.end <= usize::MAX
    }

    pub fn block_count(&self) -> (r: usize)
        ensures
            r == self@.end - self@.start,
    {
        self.block_count
    }

    pub fn block_range(&self) -> (r: Range<usize>)
        requires
            self.wf(),
        ensures
            r.start == self@.start,
            r.end == self@.end,
    {
        Range { start: self.block_base, end: self.block_base + self.block_count }
    }
}

#[derive(Clone, Copy, Debug, PartialEq, Eq, Structural)]
enum ReservationState {
    Reserving,
    Forfeiting,
}

/// The address of a block that was acquired. It is never zero.
#[derive(Debug)]
pub struct AcquiredAddress(u64);

impl View for AcquiredAddress {
    type V = u64;

    closed spec fn view(&self) -> u64 {
        self.0
    }
}

impl AcquiredAddress {
    #[verifier::type_invariant]
    spec fn nonzero(self) -> bool {
        self.0 > 0
    }

    pub(crate) fn duplicate(&self) -> (r: Self)
        ensures
            r == *self,
    {
        proof {
            use_type_invariant(self);
        }
        AcquiredAddress(self.0)
    }

    pub fn get(&self) -> (r: u64)
        ensures
            r == self@,
            r > 0,
    {
        proof {
            use_type_invariant(self);
        }
        self.0
    }
}

/// The memory in which a free set is kept.
pub struct FreeSetStorage {
    pub acquired: Vec<u64>,
    pub released: Vec<u64>,
    pub index: Vec<u64>,
}

pub struct FreeSet {
    acquired: Bitset,
    released: Bitset,
    index: Bitset,
    reservation_blocks: usize,
    reservation_count: usize,
    reservation_state: ReservationState,
    reservation_session: usize,
}

/// What a free set stands for.
#[verifier::ext_equal]
pub struct FreeSetView {
    /// The blocks that were acquired.
    pub acquired: Seq<bool>,
    /// The blocks that were released again.
    pub released: Seq<bool>,
    /// The shards that are taken to hold no free block.
    pub index: Seq<bool>,
    /// The end of the last reservation of this session.
    pub reserved_end: int,
    /// The number of reservations that were not forfeited.
    pub reservations: int,
    /// Whether a reservation was forfeited while others are still held.
    pub forfeiting: bool,
    /// The current session.
    pub session: int,
}

/// One past the position of the `n`-th `false` from `from` on.
pub open spec fn after_nth_false(s: Seq<bool>, from: int, n: nat) -> Option<int>
    decreases n,
{
    if n == 0 {
        Some(from)
    } else {
        match bitset::lowest_false(s, from, s.len() as int) {
            Some(i) => after_nth_false(s, i + 1, (n - 1) as nat),
            None => None,
        }
    }
}

/// The number of elements in `start..end` that are `false`.
pub open spec fn count_false(s: Seq<bool>, start: int, end: int) -> nat
    decreases end - start,
{
    if start >= end {
        0
    } else {
        (if s[start] {
            0nat
        } else {
            1nat
        }) + count_false(s, start + 1, end)
    }
}

pub open spec fn div_ceil(a: int, b: int) -> int {
    (a + b - 1) / b
}

pub open spec fn max(a: int, b: int) -> int {
    if a < b {
        b
    } else {
        a
    }
}

pub open spec fn min(a: int, b: int) -> int {
    if a < b {
        a
    } else {
        b
    }
}

impl FreeSetView {
    /// There is a bit in `released` for each in `acquired`, and one in `index`
    /// for each shard; reservations lie within the blocks, and each holds at
    /// least one. Where there are none, the next one starts at the first block.
    pub open spec fn wf(self) -> bool {
        &&& self.acquired.len() == self.released.len()
        &&& self.acquired.len() % SHARD_BITS as nat == 0
        &&& self.index.len() == self.acquired.len() / SHARD_BITS as nat
        &&& self.acquired.len() <= usize::MAX
        &&& 0 <= self.reservations <= self.reserved_end <= self.acquired.len()
        &&& self.reservations == 0 ==> self.reserved_end == 0
        &&& 0 <= self.session <= usize::MAX
    }

    /// Only blocks that are acquired are released.
    pub open spec fn consistent(self) -> bool {
        forall|i: int|
            0 <= i < self.released.len() && self.released[i] ==> #[trigger] self.acquired[i]
    }

    /// The state after loading: a shard is marked as full if and only if all its
    /// blocks are acquired.
    pub open spec fn loaded(acquired: Seq<bool>, released: Seq<bool>) -> Self {
        FreeSetView {
            acquired,
            released,
            index: Seq::new(
                acquired.len() / SHARD_BITS as nat,
                |s: int| Self::shard_full(acquired, s),
            ),
            reserved_end: 0,
            reservations: 0,
            forfeiting: false,
            session: 0,
        }
    }

    /// The end of the reservation that `reserve` makes for `n` blocks.
    pub open spec fn reserve_end(self, n: nat) -> Option<int> {
        match bitset::lowest_false(
            self.index,
            self.reserved_end / SHARD_BITS as int,
            self.index.len() as int,
        ) {
            Some(shard) => after_nth_false(
                self.acquired,
                max(shard * SHARD_BITS, self.reserved_end),
                n,
            ),
            None => None,
        }
    }

    /// The reservation that `reserve` makes for `n` blocks.
    pub open spec fn reservation(self, n: nat) -> ReservationView {
        ReservationView {
            start: self.reserved_end,
            end: self.reserve_end(n)->0,
            session: self.session,
        }
    }

    /// Whether the two states have the same reservations, as they do where
    /// blocks are acquired or released in between.
    pub open spec fn same_reservations(self, other: Self) -> bool {
        &&& self.reserved_end == other.reserved_end
        &&& self.reservations == other.reservations
        &&& self.forfeiting == other.forfeiting
        &&& self.session == other.session
    }

    /// The state after `reserve` made a reservation that ends at `end`.
    pub open spec fn reserved(self, end: int) -> Self {
        FreeSetView { reserved_end: end, reservations: self.reservations + 1, ..self }
    }

    /// Whether `r` is a reservation that this free set gave out and still holds.
    pub open spec fn holds(self, r: ReservationView) -> bool {
        &&& self.reservations > 0
        &&& r.session == self.session
        &&& 0 <= r.start <= r.end <= self.reserved_end
    }

    /// The shards that `r` reaches into.
    pub open spec fn first_shard(r: ReservationView) -> int {
        r.start / SHARD_BITS as int
    }

    pub open spec fn past_last_shard(r: ReservationView) -> int {
        div_ceil(r.end, SHARD_BITS as int)
    }

    /// The first shard of `r` that is not taken to be full.
    pub open spec fn acquire_shard(self, r: ReservationView) -> Option<int> {
        bitset::lowest_false(self.index, Self::first_shard(r), Self::past_last_shard(r))
    }

    /// The block that `acquire` takes: the lowest free block of `r` in that
    /// shard.
    pub open spec fn acquire_block(self, r: ReservationView) -> Option<int> {
        match self.acquire_shard(r) {
            Some(shard) => bitset::lowest_false(
                self.acquired,
                max(shard * SHARD_BITS, r.start),
                min((shard + 1) * SHARD_BITS, r.end),
            ),
            None => None,
        }
    }

    /// The state after `acquire` took a block of `r`. The shard is then marked
    /// in the index if the bits of `acquired` at the positions from
    /// `first_shard(r)` to `past_last_shard(r)` are all set.
    pub open spec fn acquired_from(self, r: ReservationView) -> Self {
        match (self.acquire_shard(r), self.acquire_block(r)) {
            (Some(shard), Some(block)) => {
                let acquired = self.acquired.update(block, true);
                let marked = bitset::lowest_false(
                    acquired,
                    Self::first_shard(r),
                    Self::past_last_shard(r),
                ) is None;
                FreeSetView {
                    acquired,
                    index: if marked {
                        self.index.update(shard, true)
                    } else {
                        self.index
                    },
                    ..self
                }
            },
            _ => self,
        }
    }

    /// The lowest free block of `r`.
    pub open spec fn lowest_free(self, r: ReservationView) -> Option<int> {
        bitset::lowest_false(self.acquired, r.start, r.end)
    }

    /// The state after the lowest free block of `r` was taken. Its shard is then
    /// marked as full if it is.
    pub open spec fn lowest_acquired(self, r: ReservationView) -> Self {
        match self.lowest_free(r) {
            Some(block) => {
                let acquired = self.acquired.update(block, true);
                let shard = block / SHARD_BITS as int;
                FreeSetView {
                    acquired,
                    index: if Self::shard_full(acquired, shard) {
                        self.index.update(shard, true)
                    } else {
                        self.index
                    },
                    ..self
                }
            },
            None => self,
        }
    }

    /// The block that `acquire_reserved` takes: that which `acquire` takes, or
    /// else the lowest free block of `r`.
    pub open spec fn reserved_block(self, r: ReservationView) -> Option<int> {
        match self.acquire_block(r) {
            Some(block) => Some(block),
            None => self.lowest_free(r),
        }
    }

    /// The state after `acquire_reserved` took a block of `r`.
    pub open spec fn reserved_acquired(self, r: ReservationView) -> Self {
        if self.acquire_block(r) is Some {
            self.acquired_from(r)
        } else {
            self.lowest_acquired(r)
        }
    }

    /// The state after a reservation was forfeited. The last one ends the
    /// session.
    pub open spec fn forfeited(self) -> Self {
        if self.reservations == 1 {
            FreeSetView {
                reserved_end: 0,
                reservations: 0,
                forfeiting: false,
                session: if self.session == usize::MAX {
                    0
                } else {
                    self.session + 1
                },
                ..self
            }
        } else {
            FreeSetView { reservations: self.reservations - 1, forfeiting: true, ..self }
        }
    }

    /// Whether all blocks of `shard` are set in `s`.
    pub open spec fn shard_full(s: Seq<bool>, shard: int) -> bool {
        forall|i: int| shard * SHARD_BITS <= i < (shard + 1) * SHARD_BITS ==> #[trigger] s[i]
    }

    /// The state after `free_released`: a block stays acquired if it is
    /// released, and all shards with a block that is not released are marked
    /// as holding free blocks.
    pub open spec fn freed(self) -> Self {
        FreeSetView {
            acquired: Seq::new(
                self.acquired.len(),
                |i: int| self.acquired[i] && self.released[i],
            ),
            index: Seq::new(
                self.index.len(),
                |s: int| self.index[s] && Self::shard_full(self.released, s),
            ),
            ..self
        }
    }
}

impl View for FreeSet {
    type V = FreeSetView;

    closed spec fn view(&self) -> FreeSetView {
        FreeSetView {
            acquired: self.acquired@,
            released: self.released@,
            index: self.index@,
            reserved_end: self.reservation_blocks as int,
            reservations: self.reservation_count as int,
            forfeiting: self.reservation_state == ReservationState::Forfeiting,
            session: self.reservation_session as int,
        }
    }
}

impl FreeSet {
    pub closed spec fn wf(self) -> bool {
        &&& self.acquired.wf()
        &&& self.released.wf()
        &&& self.index.wf()
        &&& self@.wf()
    }

    /// The state of a free set is well-formed.
    pub proof fn lemma_wf(self)
        requires
            self.wf(),
        ensures
            self@.wf(),
    {
    }

    pub fn new(acquired: Bitset, released: Bitset, index: Bitset) -> (r: Self)
        requires
            acquired.wf(),
            released.wf(),
            index.wf(),
            acquired@.len() == released@.len(),
            acquired@.len() % SHARD_BITS as nat == 0,
            index@.len() == acquired@.len() / SHARD_BITS as nat,
        ensures
            r.wf(),
            r@ == (FreeSetView {
                acquired: acquired@,
                released: released@,
                index: index@,
                reserved_end: 0,
                reservations: 0,
                forfeiting: false,
                session: 1,
            }),
    {
        let len = acquired.len();
        Self {
            acquired,
            released,
            index,
            reservation_blocks: 0,
            reservation_count: 0,
            reservation_state: ReservationState::Reserving,
            reservation_session: 1,
        }
    }

    /// The free set whose blocks are given by the contents of the two blobs, with
    /// the index worked out anew. It cannot be loaded if one of the blobs could
    /// not be read.
    pub fn load<E>(
        acquired: Result<Vec<u8>, BlobReadError<E>>,
        released: Result<Vec<u8>, BlobReadError<E>>,
        storage: FreeSetStorage,
    ) -> (r: Result<Self, ReadError<E>>)
        requires
            storage.acquired@.len() == storage.released@.len(),
            storage.acquired@.len() % SHARD_BITS as nat == 0,
            storage.index@.len() == storage.acquired@.len() / SHARD_BITS as nat,
            acquired matches Ok(data) ==> data@.len() <= 8 * storage.acquired@.len(),
            released matches Ok(data) ==> data@.len() <= 8 * storage.released@.len(),
        ensures
            match (acquired, released) {
                (Err(e), _) => r == Err::<Self, ReadError<E>>(ReadError::ReadAcquired(e)),
                (Ok(_), Err(e)) => r == Err::<Self, ReadError<E>>(ReadError::ReadReleased(e)),
                (Ok(a), Ok(b)) => {
                    &&& r matches Ok(set)
                    &&& set.wf()
                    &&& set@ == FreeSetView::loaded(
                        Bitset::loaded(a@, storage.acquired@.len()),
                        Bitset::loaded(b@, storage.released@.len()),
                    )
                },
            },
    {
        let acquired_data = match acquired {
            Ok(data) => data,
            Err(e) => {
                return Err(ReadError::ReadAcquired(e));
            },
        };
        let released_data = match released {
            Ok(data) => data,
            Err(e) => {
                return Err(ReadError::ReadReleased(e));
            },
        };
        let FreeSetStorage { acquired, released, index } = storage;
        let acquired = Bitset::load(acquired_data.as_slice(), acquired);
        let released = Bitset::load(released_data.as_slice(), released);
        let mut index = Bitset::from_bits(index);
        let shards = index.len();
        let total = acquired.len();
        let mut shard: usize = 0;
        while shard < shards
            invariant
                acquired.wf(),
                index.wf(),
                total == acquired@.len(),
                shards == index@.len(),
                shards * SHARD_BITS == total,
                shard <= shards,
                forall|s: int|
                    0 <= s < shard ==> #[trigger] index@[s] == FreeSetView::shard_full(
                        acquired@,
                        s,
                    ),
            decreases shards - shard,
        {
            let start = shard * SHARD_BITS;
            let end = start + SHARD_BITS;
            if acquired.all_set(Bound::Included(start), Bound::Excluded(end)) {
                index.set(shard);
            } else {
                index.unset(shard);
            }
            shard += 1;
        }
        proof {
            let v = FreeSetView::loaded(acquired@, released@);
            assert(index@ =~= v.index);
        }
        Ok(
            Self {
                acquired,
                released,
                index,
                reservation_blocks: 0,
                reservation_count: 0,
                reservation_state: ReservationState::Reserving,
                reservation_session: 0,
            },
        )
    }

    /// Whether reservations can be made: none was forfeited while others are
    /// still held.
    pub fn is_reserving(&self) -> (r: bool)
        ensures
            r == !self@.forfeiting,
    {
        self.reservation_state == ReservationState::Reserving
    }

    /// Whether no reservation is held.
    pub fn is_idle(&self) -> (r: bool)
        ensures
            r == (self@.reservations == 0),
    {
        self.reservation_count == 0
    }

    /// Whether `reservation` was made in this session and is still held.
    pub fn is_held(&self, reservation: &Reservation) -> (r: bool)
        ensures
            r == self@.holds(reservation@),
    {
        self.reservation_count > 0 && reservation.session == self.reservation_session
            && reservation.block_count <= self.reservation_blocks && reservation.block_base
            <= self.reservation_blocks - reservation.block_count
    }

    /// Whether the block at `address` is acquired and not released.
    pub fn is_in_use(&self, address: u64) -> (r: bool)
        requires
            self.wf(),
        ensures
            r == (0 < address <= self@.acquired.len() && self@.acquired[address - 1]
                && !self@.released[address - 1]),
    {
        let total = self.acquired.len();
        if address == 0 || address > total as u64 {
            return false;
        }
        let block = (address - 1) as usize;
        self.acquired.is_set(block) && !self.released.is_set(block)
    }

    /// Whether only acquired blocks are released.
    pub fn is_consistent(&self) -> (r: bool)
        requires
            self.wf(),
        ensures
            r == self@.consistent(),
    {
        let total = self.acquired.len();
        let mut i: usize = 0;
        while i < total
            invariant
                self.wf(),
                total == self@.acquired.len(),
                i <= total,
                forall|j: int|
                    0 <= j < i && self@.released[j] ==> #[trigger] self@.acquired[j],
            decreases total - i,
        {
            if self.released.is_set(i) && !self.acquired.is_set(i) {
                return false;
            }
            i += 1;
        }
        true
    }

    /// Reserves a range that holds `num_blocks` free blocks and lies behind all
    /// other reservations of the session.
    pub fn reserve(&mut self, num_blocks: usize) -> (r: Option<Reservation>)
        requires
            old(self).wf(),
            !old(self)@.forfeiting,
            num_blocks > 0,
        ensures
            final(self).wf(),
            match old(self)@.reserve_end(num_blocks as nat) {
                Some(end) => {
                    &&& r matches Some(res)
                    &&& res.wf()
                    &&& res@ == (ReservationView {
                        start: old(self)@.reserved_end,
                        end,
                        session: old(self)@.session,
                    })
                    &&& final(self)@ == old(self)@.reserved(end)
                    &&& final(self)@.holds(res@)
                },
                None => r is None && final(self)@ == old(self)@,
            },
    {
        let shard_start = self.reservation_blocks / SHARD_BITS;
        let shards = self.index.len();
        let total = self.acquired.len();
        let first_non_full_shard = match self.index.first_unset(
            Bound::Included(shard_start),
            Bound::Unbounded,
        ) {
            Some(shard) => shard,
            None => {
                return None;
            },
        };
        proof {
            bitset::lemma_lowest_false(self@.index, shard_start as int, shards as int);
        }
        let shard_base = first_non_full_shard * SHARD_BITS;
        let mut cursor: usize = if shard_base < self.reservation_blocks {
            self.reservation_blocks
        } else {
            shard_base
        };
        let ghost from = cursor as int;
        let ghost end = self@.reserve_end(num_blocks as nat);

        let mut k: usize = 0;
        while k < num_blocks
            invariant
                *self == *old(self),
                self.wf(),
                total == self@.acquired.len(),
                self.reservation_blocks <= cursor <= total,
                k <= num_blocks,
                k > 0 ==> cursor > self.reservation_blocks,
                end == old(self)@.reserve_end(num_blocks as nat),
                end == after_nth_false(self@.acquired, cursor as int, (num_blocks - k) as nat),
            decreases num_blocks - k,
        {
            let free = match self.acquired.first_unset_in(cursor, total) {
                Some(free) => free,
                None => {
                    return None;
                },
            };
            proof {
                bitset::lemma_lowest_false(self@.acquired, cursor as int, total as int);
            }
            cursor = free + 1;
            k += 1;
        }
        let reservation = Reservation {
            block_base: self.reservation_blocks,
            block_count: cursor - self.reservation_blocks,
            session: self.reservation_session,
        };
        self.reservation_blocks = cursor;
        self.reservation_count = self.reservation_count + 1;
        Some(reservation)
    }

    /// Takes the lowest free block of `reservation` in the first of its shards
    /// that is not marked as full. That there is none does not mean that there is
    /// none in the reservation, see [Self::acquire_reserved].
    pub fn acquire(&mut self, reservation: &Reservation) -> (r: Option<AcquiredAddress>)
        requires
            old(self).wf(),
            old(self)@.holds(reservation@),
            old(self)@.acquire_block(reservation@) matches Some(block)
                ==> !old(self)@.released[block],
        ensures
            final(self).wf(),
            final(self)@ == old(self)@.acquired_from(reservation@),
            match old(self)@.acquire_block(reservation@) {
                Some(block) => {
                    &&& r matches Some(address)
                    &&& address@ == block + 1
                    &&& reservation@.start <= block < reservation@.end
                    &&& !old(self)@.acquired[block]
                },
                None => r is None,
            },
    {
        let start = reservation.block_base;
        let end = reservation.block_base + reservation.block_count;
        let shard_start = start / SHARD_BITS;
        let shard_end = if end % SHARD_BITS == 0 {
            end / SHARD_BITS
        } else {
            end / SHARD_BITS + 1
        };
        assert(shard_end == FreeSetView::past_last_shard(reservation@));
        let shard = match self.index.first_unset_in(shard_start, shard_end) {
            Some(shard) => shard,
            None => {
                return None;
            },
        };
        proof {
            bitset::lemma_lowest_false(self@.index, shard_start as int, shard_end as int);
        }
        let shard_base = shard * SHARD_BITS;
        let block_start = if shard_base < start {
            start
        } else {
            shard_base
        };
        let block_end = if shard_base + SHARD_BITS < end {
            shard_base + SHARD_BITS
        } else {
            end
        };
        let block = match self.acquired.first_unset_in(block_start, block_end) {
            Some(block) => block,
            None => {
                return None;
            },
        };
        proof {
            bitset::lemma_lowest_false(self@.acquired, block_start as int, block_end as int);
        }
        self.acquired.set(block);
        if self.acquired.first_unset_in(shard_start, shard_end).is_none() {
            self.index.set(shard);
        }
        Some(AcquiredAddress(block as u64 + 1))
    }

    /// Takes a free block of `reservation`: that of [Self::acquire], or else the
    /// lowest one. All blocks that were reserved can be acquired in this way, as
    /// [crate::grid::blob::StoreBlobs] needs them.
    pub fn acquire_reserved(&mut self, reservation: &Reservation) -> (r: Option<AcquiredAddress>)
        requires
            old(self).wf(),
            old(self)@.holds(reservation@),
            old(self)@.reserved_block(reservation@) matches Some(block)
                ==> !old(self)@.released[block],
        ensures
            final(self).wf(),
            final(self)@ == old(self)@.reserved_acquired(reservation@),
            match old(self)@.reserved_block(reservation@) {
                Some(block) => {
                    &&& r matches Some(address)
                    &&& address@ == block + 1
                    &&& reservation@.start <= block < reservation@.end
                    &&& !old(self)@.acquired[block]
                },
                None => r is None,
            },
    {
        match self.acquire(reservation) {
            Some(address) => Some(address),
            None => self.acquire_lowest(reservation),
        }
    }

    /// Takes the lowest free block of `reservation`.
    fn acquire_lowest(&mut self, reservation: &Reservation) -> (r: Option<AcquiredAddress>)
        requires
            old(self).wf(),
            old(self)@.holds(reservation@),
        ensures
            final(self).wf(),
            final(self)@ == old(self)@.lowest_acquired(reservation@),
            match old(self)@.lowest_free(reservation@) {
                Some(block) => {
                    &&& r matches Some(address)
                    &&& address@ == block + 1
                    &&& reservation@.start <= block < reservation@.end
                    &&& !old(self)@.acquired[block]
                },
                None => r is None,
            },
    {
        let start = reservation.block_base;
        let end = reservation.block_base + reservation.block_count;
        let block = match self.acquired.first_unset_in(start, end) {
            Some(block) => block,
            None => {
                return None;
            },
        };
        proof {
            bitset::lemma_lowest_false(self@.acquired, start as int, end as int);
        }
        let shard = block / SHARD_BITS;
        let shard_base = shard * SHARD_BITS;
        self.acquired.set(block);
        if self.acquired.all_set(
            Bound::Included(shard_base),
            Bound::Excluded(shard_base + SHARD_BITS),
        ) {
            self.index.set(shard);
        }
        assert(self@ =~= old(self)@.lowest_acquired(reservation@));
        Some(AcquiredAddress(block as u64 + 1))
    }

    /// Marks the block at `address` as released.
    pub fn release(&mut self, address: u64)
        requires
            old(self).wf(),
            0 < address <= old(self)@.acquired.len(),
            old(self)@.acquired[address - 1],
            !old(self)@.released[address - 1],
        ensures
            final(self).wf(),
            final(self)@ == (FreeSetView {
                released: old(self)@.released.update(address - 1, true),
                ..old(self)@
            }),
    {
        let block = address as usize - 1;
        self.released.set(block);
    }

    /// Gives up a reservation.
    pub fn forfeit(&mut self, reservation: Reservation)
        requires
            old(self).wf(),
            reservation@.session == old(self)@.session,
            old(self)@.reservations > 0,
        ensures
            final(self).wf(),
            final(self)@ == old(self)@.forfeited(),
    {
        self.reservation_count = self.reservation_count - 1;
        if self.reservation_count == 0 {
            self.reservation_blocks = 0;
            self.reservation_session = self.reservation_session.wrapping_add(1);
            self.reservation_state = ReservationState::Reserving;
        } else {
            self.reservation_state = ReservationState::Forfeiting;
        }
    }

    /// Takes back all blocks that are not marked as released.
    pub fn free_released(&mut self)
        requires
            old(self).wf(),
            old(self)@.reservations == 0,
        ensures
            final(self).wf(),
            final(self)@ == old(self)@.freed(),
    {
        let total = self.acquired.len();
        let mut cursor: usize = 0;
        loop
            invariant
                self.wf(),
                total == old(self)@.acquired.len(),
                cursor <= total,
                self@ == (FreeSetView {
                    acquired: self@.acquired,
                    index: self@.index,
                    ..old(self)@
                }),
                self@.acquired.len() == total,
                self@.index.len() == old(self)@.index.len(),
                forall|i: int|
                    0 <= i < total ==> #[trigger] self@.acquired[i] == (old(self)@.acquired[i] && (i
                        >= cursor || old(self)@.released[i])),
                forall|s: int|
                    0 <= s < self@.index.len() ==> #[trigger] self@.index[s] == (
                    old(self)@.index[s] && forall|i: int|
                        s * SHARD_BITS <= i < (s + 1) * SHARD_BITS && i < cursor
                            ==> #[trigger] old(self)@.released[i]),
            ensures
                self@ == old(self)@.freed(),
            decreases total - cursor,
        {
            let ghost before = self@;
            match self.released.first_unset_in(cursor, total) {
                Some(block) => {
                    proof {
                        bitset::lemma_lowest_false(
                            self@.released,
                            cursor as int,
                            total as int,
                        );
                    }
                    self.released.unset(block);
                    assert(self.released@ =~= before.released);
                    self.acquired.unset(block);
                    let shard = block / SHARD_BITS;
                    self.index.unset(shard);
                    cursor = block + 1;
                },
                None => {
                    proof {
                        bitset::lemma_lowest_false(
                            self@.released,
                            cursor as int,
                            total as int,
                        );
                        assert(self@.acquired =~= old(self)@.freed().acquired);
                        assert(self@.index =~= old(self)@.freed().index);
                    }
                    break ;
                },
            }
        }
    }
}

pub proof fn lemma_count_false_split(s: Seq<bool>, start: int, mid: int, end: int)
    requires
        start <= mid <= end,
    ensures
        count_false(s, start, end) == count_false(s, start, mid) + count_false(s, mid, end),
    decreases mid - start,
{
    if start < mid {
        lemma_count_false_split(s, start + 1, mid, end);
    }
}

proof fn lemma_count_false_until_lowest(s: Seq<bool>, start: int, end: int)
    ensures
        match bitset::lowest_false(s, start, end) {
            Some(i) => count_false(s, start, i) == 0,
            None => count_false(s, start, end) == 0,
        },
    decreases end - start,
{
    if start < end && s[start] {
        lemma_count_false_until_lowest(s, start + 1, end);
        bitset::lemma_lowest_false(s, start + 1, end);
    }
}

/// The range up to behind the `n`-th free block holds `n` free blocks; there is
/// no such range if and only if there are fewer than `n` free blocks.
pub proof fn lemma_after_nth_false(s: Seq<bool>, from: int, n: nat)
    requires
        0 <= from <= s.len(),
    ensures
        match after_nth_false(s, from, n) {
            Some(end) => {
                &&& from <= end <= s.len()
                &&& count_false(s, from, end) == n
                &&& n > 0 ==> from < end && !s[end - 1]
            },
            None => count_false(s, from, s.len() as int) < n,
        },
    decreases n,
{
    bitset::lemma_lowest_false(s, from, s.len() as int);
    lemma_count_false_until_lowest(s, from, s.len() as int);
    if n > 0 {
        match bitset::lowest_false(s, from, s.len() as int) {
            Some(i) => {
                lemma_after_nth_false(s, i + 1, (n - 1) as nat);
                assert(count_false(s, i + 1, i + 1) == 0);
                assert(count_false(s, i, i + 1) == 1);
                match after_nth_false(s, i + 1, (n - 1) as nat) {
                    Some(end) => {
                        lemma_count_false_split(s, from, i, end);
                        lemma_count_false_split(s, i, i + 1, end);
                        if n == 1 {
                            assert(end == i + 1);
                        }
                    },
                    None => {
                        lemma_count_false_split(s, from, i, s.len() as int);
                        lemma_count_false_split(s, i, i + 1, s.len() as int);
                    },
                }
            },
            None => {},
        }
    }
}

/// A reservation for `n` blocks lies behind all reservations made before it in
/// the session, within the blocks of the set, and holds at least `n` free
/// blocks, the last of which is its last block.
pub proof fn law_reservation_holds_free_blocks(v: FreeSetView, n: nat)
    requires
        v.wf(),
        n > 0,
        v.reserve_end(n) is Some,
    ensures
        v.reserved_end < v.reserve_end(n)->0 <= v.acquired.len(),
        count_false(v.acquired, v.reserved_end, v.reserve_end(n)->0) >= n,
        !v.acquired[v.reserve_end(n)->0 - 1],
{
    let shards = v.index.len() as int;
    let first = v.reserved_end / SHARD_BITS as int;
    bitset::lemma_lowest_false(v.index, first, shards);
    let shard = bitset::lowest_false(v.index, first, shards)->0;
    let from = max(shard * SHARD_BITS, v.reserved_end);
    lemma_after_nth_false(v.acquired, from, n);
    lemma_count_false_split(v.acquired, v.reserved_end, from, v.reserve_end(n)->0);
}

/// Two reservations of one session have no block in common, whatever was
/// acquired and released in between.
pub proof fn law_reservations_are_disjoint(
    v: FreeSetView,
    n: nat,
    w: FreeSetView,
    m: nat,
    block: int,
)
    requires
        v.wf(),
        n > 0,
        m > 0,
        v.reserve_end(n) is Some,
        w.wf(),
        w.reserved_end >= v.reserved(v.reserve_end(n)->0).reserved_end,
        w.reserve_end(m) is Some,
    ensures
        !(v.reserved_end <= block < v.reserve_end(n)->0 && w.reserved_end <= block
            < w.reserve_end(m)->0),
{
    law_reservation_holds_free_blocks(v, n);
    law_reservation_holds_free_blocks(w, m);
}

/// As long as no reservation is forfeited, the end of the reserved blocks never
/// moves back.
pub proof fn law_reserved_end_grows(v: FreeSetView, n: nat, r: ReservationView)
    requires
        v.wf(),
        n > 0,
    ensures
        v.reserve_end(n) matches Some(end) ==> v.reserved(end).reserved_end > v.reserved_end,
        v.acquired_from(r).reserved_end == v.reserved_end,
{
    if v.reserve_end(n) is Some {
        law_reservation_holds_free_blocks(v, n);
    }
}

/// While no reservation is held, the next one starts at the first block. Each
/// further one starts where the one before ends, whatever was acquired and
/// released in between. So they leave no gap and have no block in common, and
/// each spans at least as many blocks as were asked for.
pub proof fn law_reservations_leave_no_gap(states: Seq<FreeSetView>, counts: Seq<nat>)
    requires
        states.len() == counts.len() > 0,
        states[0].reservations == 0,
        forall|j: int|
            0 <= j < states.len() ==> (#[trigger] states[j]).wf() && counts[j] > 0
                && states[j].reserve_end(counts[j]) is Some,
        forall|i: int, j: int|
            0 <= i && i + 1 == j && j < states.len() ==> (
            #[trigger] states[j]).same_reservations(
                (#[trigger] states[i]).reserved(states[i].reserve_end(counts[i])->0),
            ),
    ensures
        states[0].reservation(counts[0]).start == 0,
        forall|i: int, j: int|
            0 <= i && i + 1 == j && j < states.len() ==> (#[trigger] states[j]).reservation(
                counts[j],
            ).start == (#[trigger] states[i]).reservation(counts[i]).end,
        forall|i: int, j: int|
            0 <= i < j < states.len() ==> (#[trigger] states[i]).reservation(counts[i]).end <= (
            #[trigger] states[j]).reservation(counts[j]).start,
        forall|j: int|
            0 <= j < states.len() ==> {
                let r = (#[trigger] states[j]).reservation(counts[j]);
                r.end - r.start >= counts[j]
            },
{
    assert forall|j: int| 0 <= j < states.len() implies ({
        let r = (#[trigger] states[j]).reservation(counts[j]);
        r.end - r.start >= counts[j]
    }) by {
        let r = states[j].reservation(counts[j]);
        law_reservation_holds_free_blocks(states[j], counts[j]);
        lemma_count_false_bound(states[j].acquired, r.start, r.end);
    }
    assert forall|i: int, j: int| 0 <= i < j < states.len() implies (
    #[trigger] states[i]).reservation(counts[i]).end <= (#[trigger] states[j]).reservation(
        counts[j],
    ).start by {
        lemma_reserved_in_turn(states, counts, i, j);
    }
}

proof fn lemma_reserved_in_turn(states: Seq<FreeSetView>, counts: Seq<nat>, i: int, j: int)
    requires
        states.len() == counts.len(),
        0 <= i < j < states.len(),
        forall|k: int|
            0 <= k < states.len() ==> (#[trigger] states[k]).wf() && counts[k] > 0
                && states[k].reserve_end(counts[k]) is Some,
        forall|k: int, l: int|
            0 <= k && k + 1 == l && l < states.len() ==> (
            #[trigger] states[l]).same_reservations(
                (#[trigger] states[k]).reserved(states[k].reserve_end(counts[k])->0),
            ),
    ensures
        states[i].reserve_end(counts[i])->0 <= states[j].reserved_end,
    decreases j - i,
{
    let k = j - 1;
    assert(states[j].same_reservations(
        states[k].reserved(states[k].reserve_end(counts[k])->0),
    ));
    if i < k {
        lemma_reserved_in_turn(states, counts, i, k);
        law_reservation_holds_free_blocks(states[k], counts[k]);
    }
}

proof fn lemma_count_false_bound(s: Seq<bool>, start: int, end: int)
    requires
        start <= end,
    ensures
        count_false(s, start, end) <= end - start,
    decreases end - start,
{
    if start < end {
        lemma_count_false_bound(s, start + 1, end);
    }
}

proof fn lemma_count_false_update(s: Seq<bool>, start: int, end: int, i: int)
    requires
        0 <= start <= i < end <= s.len(),
        !s[i],
    ensures
        count_false(s.update(i, true), start, end) == count_false(s, start, end) - 1,
    decreases end - start,
{
    if start < i {
        lemma_count_false_update(s, start + 1, end, i);
    } else {
        lemma_count_false_same(s, s.update(i, true), start + 1, end);
    }
}

proof fn lemma_count_false_same(s: Seq<bool>, t: Seq<bool>, start: int, end: int)
    requires
        forall|i: int| start <= i < end ==> s[i] == t[i],
    ensures
        count_false(s, start, end) == count_false(t, start, end),
    decreases end - start,
{
    if start < end {
        lemma_count_false_same(s, t, start + 1, end);
    }
}

/// Where only acquired blocks are released, that stays so, whatever is done; and
/// the block that is acquired next is then never released.
pub proof fn law_released_blocks_are_acquired(
    v: FreeSetView,
    end: int,
    r: ReservationView,
    block: int,
)
    requires
        v.wf(),
        v.consistent(),
    ensures
        v.reserved(end).consistent(),
        v.holds(r) ==> v.acquired_from(r).consistent(),
        v.holds(r) ==> (v.acquire_block(r) matches Some(b) ==> !v.released[b]),
        v.holds(r) ==> v.reserved_acquired(r).consistent(),
        v.holds(r) ==> (v.reserved_block(r) matches Some(b) ==> !v.released[b]),
        0 <= block < v.acquired.len() && v.acquired[block] ==> (FreeSetView {
            released: v.released.update(block, true),
            ..v
        }).consistent(),
        v.forfeited().consistent(),
        v.freed().consistent(),
{
    bitset::lemma_lowest_false(v.acquired, r.start, r.end);
    match v.acquire_shard(r) {
        Some(shard) => {
            bitset::lemma_lowest_false(
                v.index,
                FreeSetView::first_shard(r),
                FreeSetView::past_last_shard(r),
            );
            bitset::lemma_lowest_false(
                v.acquired,
                max(shard * SHARD_BITS, r.start),
                min((shard + 1) * SHARD_BITS, r.end),
            );
        },
        None => {},
    }
}

/// `acquire_reserved` finds a block as long as the reservation holds a free one.
/// The block lies in the reservation, was free, and is the only one whose state
/// changes; so no block is handed out twice without being freed in between, and
/// there is one free block less.
pub proof fn law_every_reserved_block_can_be_acquired(v: FreeSetView, r: ReservationView)
    requires
        v.wf(),
        v.holds(r),
    ensures
        v.reserved_block(r) is Some <==> count_false(v.acquired, r.start, r.end) > 0,
        v.reserved_acquired(r).wf(),
        v.reserved_acquired(r).holds(r),
        v.reserved_acquired(r).released == v.released,
        v.reserved_block(r) matches Some(block) ==> {
            &&& r.start <= block < r.end
            &&& !v.acquired[block]
            &&& v.reserved_acquired(r).acquired == v.acquired.update(block, true)
            &&& v.reserved_acquired(r).reserved_block(r) != Some(block)
            &&& count_false(v.reserved_acquired(r).acquired, r.start, r.end) == count_false(
                v.acquired,
                r.start,
                r.end,
            ) - 1
        },
{
    let w = v.reserved_acquired(r);
    bitset::lemma_lowest_false(v.acquired, r.start, r.end);
    bitset::lemma_lowest_false(w.acquired, r.start, r.end);
    lemma_count_false_until_lowest(v.acquired, r.start, r.end);
    lemma_acquire_block(v, r);
    lemma_acquire_block(w, r);
    if let Some(block) = v.reserved_block(r) {
        lemma_count_false_update(v.acquired, r.start, r.end, block);
    }
}

/// Where the block that `acquire` takes lies.
proof fn lemma_acquire_block(v: FreeSetView, r: ReservationView)
    requires
        0 <= r.start <= r.end <= v.acquired.len(),
        v.acquired.len() % SHARD_BITS as nat == 0,
        v.index.len() == v.acquired.len() / SHARD_BITS as nat,
    ensures
        v.acquire_block(r) matches Some(block) ==> {
            &&& r.start <= block < r.end
            &&& !v.acquired[block]
            &&& v.acquire_shard(r) matches Some(shard) && 0 <= shard < v.index.len()
        },
{
    let a = FreeSetView::first_shard(r);
    let b = FreeSetView::past_last_shard(r);
    bitset::lemma_lowest_false(v.index, a, b);
    if let Some(shard) = v.acquire_shard(r) {
        bitset::lemma_lowest_false(
            v.acquired,
            max(shard * SHARD_BITS, r.start),
            min((shard + 1) * SHARD_BITS, r.end),
        );
    }
}

/// The block that `acquire` takes lies in the reservation, was free, and is the
/// only one whose state changes; so no block is handed out twice without being
/// freed in between.
pub proof fn law_acquire_takes_a_free_block(v: FreeSetView, r: ReservationView)
    requires
        v.wf(),
        v.holds(r),
        v.acquire_block(r) is Some,
    ensures
        r.start <= v.acquire_block(r)->0 < r.end,
        !v.acquired[v.acquire_block(r)->0],
        v.acquired_from(r).acquired == v.acquired.update(v.acquire_block(r)->0, true),
        v.acquired_from(r).released == v.released,
        v.acquired_from(r).acquire_block(r) != v.acquire_block(r),
{
    let a = FreeSetView::first_shard(r);
    let b = FreeSetView::past_last_shard(r);
    bitset::lemma_lowest_false(v.index, a, b);
    let shard = v.acquire_shard(r)->0;
    bitset::lemma_lowest_false(
        v.acquired,
        max(shard * SHARD_BITS, r.start),
        min((shard + 1) * SHARD_BITS, r.end),
    );
    let w = v.acquired_from(r);
    bitset::lemma_lowest_false(w.index, a, b);
    if let Some(t) = w.acquire_shard(r) {
        bitset::lemma_lowest_false(
            w.acquired,
            max(t * SHARD_BITS, r.start),
            min((t + 1) * SHARD_BITS, r.end),
        );
    }
}

/// When the last reservation is forfeited the session ends: reservations can be
/// made again from the first block on, and one of the old session is no longer
/// held.
pub proof fn law_last_forfeit_ends_session(v: FreeSetView, r: ReservationView)
    requires
        v.wf(),
        v.holds(r),
        v.reservations == 1,
    ensures
        v.forfeited().reserved_end == 0,
        v.forfeited().reservations == 0,
        !v.forfeited().forfeiting,
        v.forfeited().session != r.session,
        !v.forfeited().holds(r),
{
}

/// After loading, the first block that is acquired out of the first reservation
/// is the lowest free block of all.
pub proof fn law_first_acquire_after_load(acquired: Seq<bool>, released: Seq<bool>, n: nat)
    requires
        FreeSetView::loaded(acquired, released).wf(),
        n > 0,
        FreeSetView::loaded(acquired, released).reserve_end(n) is Some,
    ensures
        ({
            let v = FreeSetView::loaded(acquired, released);
            let end = v.reserve_end(n)->0;
            let r = ReservationView { start: 0, end, session: 0 };
            &&& v.reserved(end).acquire_block(r) is Some
            &&& v.reserved(end).acquire_block(r) == bitset::lowest_false(
                acquired,
                0,
                acquired.len() as int,
            )
        }),
{
    let v = FreeSetView::loaded(acquired, released);
    let shards = v.index.len() as int;
    let end = v.reserve_end(n)->0;
    let r = ReservationView { start: 0, end, session: 0 };
    bitset::lemma_lowest_false(v.index, 0, shards);
    let shard = bitset::lowest_false(v.index, 0, shards)->0;
    assert(!FreeSetView::shard_full(acquired, shard));
    let from = shard * SHARD_BITS;
    let p = choose|i: int| from <= i < from + SHARD_BITS && !#[trigger] acquired[i];
    bitset::lemma_lowest_false(acquired, from, acquired.len() as int);
    let q = bitset::lowest_false(acquired, from, acquired.len() as int)->0;
    assert(q <= p);
    // All blocks before the shard are acquired.
    assert forall|j: int| 0 <= j < q implies #[trigger] acquired[j] by {
        if j < from {
            let s = j / SHARD_BITS as int;
            assert(v.index[s]);
            assert(FreeSetView::shard_full(acquired, s));
        }
    }
    bitset::lemma_lowest_false_is(acquired, 0, acquired.len() as int, q);
    lemma_after_nth_false(acquired, q + 1, (n - 1) as nat);
    assert(end > q);
    let last = FreeSetView::past_last_shard(r);
    assert(shard < last);
    bitset::lemma_lowest_false_is(v.index, 0, last, shard);
    bitset::lemma_lowest_false_is(acquired, from, min((shard + 1) * SHARD_BITS, end), q);
}

} // verus!

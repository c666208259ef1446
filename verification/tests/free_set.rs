use spacetime_storage::bitset::Bitset;
use spacetime_storage::datafile;
use spacetime_storage::free_set::{FreeSet, FreeSetStorage, ReadError, Reservation, SHARD_BITS};
use spacetime_storage::grid::{BlobReadError, BlockReadError};

fn storage(shards: usize) -> FreeSetStorage {
    FreeSetStorage {
        acquired: vec![0; shards * SHARD_BITS],
        released: vec![0; shards * SHARD_BITS],
        index: vec![0; shards],
    }
}

fn empty(shards: usize) -> FreeSet {
    FreeSet::new(
        Bitset::from_bits(vec![0; shards * SHARD_BITS]),
        Bitset::from_bits(vec![0; shards * SHARD_BITS]),
        Bitset::from_bits(vec![0; shards]),
    )
}

fn range(r: &Reservation) -> (usize, usize) {
    (r.block_range().start, r.block_range().end)
}

#[test]
fn reservations_follow_one_another() {
    let mut set = empty(2);
    let a = set.reserve(10).unwrap();
    let b = set.reserve(5).unwrap();
    assert_eq!(range(&a), (0, 10));
    assert_eq!(range(&b), (10, 15));
    assert_eq!(a.block_count(), 10);
    assert!(set.reserve(2 * SHARD_BITS - 14).is_none());
    assert!(set.reserve(2 * SHARD_BITS - 15).is_some());
}

#[test]
fn acquired_addresses_are_one_based_and_distinct() {
    let mut set = empty(2);
    let r = set.reserve(SHARD_BITS + 1).unwrap();
    assert_eq!(set.acquire(&r).unwrap().get(), 1);
    assert_eq!(set.acquire(&r).unwrap().get(), 2);
    assert_eq!(set.acquire(&r).unwrap().get(), SHARD_BITS as u64 + 1);
    assert!(set.acquire(&r).is_none());
    // The other blocks are still free.
    assert_eq!(set.acquire_reserved(&r).unwrap().get(), 3);
}

#[test]
fn a_reservation_within_one_shard_yields_one_block() {
    let mut set = empty(1);
    let r = set.reserve(2).unwrap();
    assert_eq!(set.acquire(&r).unwrap().get(), 1);
    assert!(set.acquire(&r).is_none());
    assert_eq!(set.acquire_reserved(&r).unwrap().get(), 2);
}

#[test]
fn a_reservation_yields_all_its_blocks() {
    let mut set = empty(1);
    let r = set.reserve(2).unwrap();
    assert_eq!(set.acquire_reserved(&r).unwrap().get(), 1);
    assert_eq!(set.acquire_reserved(&r).unwrap().get(), 2);
    assert!(set.acquire_reserved(&r).is_none());
}

#[test]
fn a_reservation_yields_its_blocks_next_to_free_ones_of_another() {
    let mut set = empty(2);
    let a = set.reserve(1).unwrap();
    let b = set.reserve(SHARD_BITS + 1).unwrap();
    assert_eq!(range(&b), (1, SHARD_BITS + 2));
    for address in 2..=SHARD_BITS as u64 + 2 {
        assert_eq!(set.acquire_reserved(&b).unwrap().get(), address);
    }
    assert!(set.acquire_reserved(&b).is_none());
    assert_eq!(set.acquire_reserved(&a).unwrap().get(), 1);
}

#[test]
fn a_full_shard_is_passed_over() {
    let mut set = empty(2);
    let r = set.reserve(SHARD_BITS).unwrap();
    while set.acquire_reserved(&r).is_some() {}
    set.forfeit(r);
    let r = set.reserve(1).unwrap();
    assert_eq!(range(&r), (0, SHARD_BITS + 1));
    assert_eq!(set.acquire_reserved(&r).unwrap().get(), SHARD_BITS as u64 + 1);
}

#[test]
fn the_last_forfeit_starts_a_new_session() {
    let mut set = empty(1);
    let a = set.reserve(3).unwrap();
    let b = set.reserve(3).unwrap();
    set.forfeit(a);
    set.forfeit(b);
    assert_eq!(range(&set.reserve(1).unwrap()), (0, 1));
}

#[test]
fn loading_finds_full_shards() {
    let mut acquired = Bitset::from_bits(vec![0; 2 * SHARD_BITS]);
    for i in 0..SHARD_BITS + 3 {
        acquired.set(i);
    }
    let released = Bitset::from_bits(vec![0; 2 * SHARD_BITS]);
    let mut set = FreeSet::load::<u8>(
        Ok(acquired.as_bytes()),
        Ok(released.as_bytes()),
        storage(2),
    )
    .unwrap();
    let r = set.reserve(2).unwrap();
    assert_eq!(range(&r), (0, SHARD_BITS + 5));
    assert_eq!(set.acquire(&r).unwrap().get(), SHARD_BITS as u64 + 4);
}

#[test]
fn a_full_set_cannot_be_reserved_from() {
    let full = Bitset::from_bits(vec![u64::MAX; SHARD_BITS]);
    let mut set = FreeSet::load::<u8>(Ok(full.as_bytes()), Ok(Vec::new()), storage(1)).unwrap();
    assert!(set.reserve(1).is_none());
}

#[test]
fn a_free_set_needs_both_blobs() {
    let unreadable = || Err(BlobReadError::Block(BlockReadError::Io(3u8)));
    assert!(matches!(
        FreeSet::load(unreadable(), unreadable(), storage(1)),
        Err(ReadError::ReadAcquired(BlobReadError::Block(BlockReadError::Io(3))))
    ));
    assert!(matches!(
        FreeSet::load(Ok(Vec::new()), unreadable(), storage(1)),
        Err(ReadError::ReadReleased(_))
    ));
}

#[test]
fn the_state_can_be_asked_for() {
    let mut set = empty(1);
    assert!(set.is_idle() && set.is_reserving() && set.is_consistent());
    let a = set.reserve(1).unwrap();
    let b = set.reserve(1).unwrap();
    assert!(set.is_held(&a) && !set.is_idle());
    let address = set.acquire(&a).unwrap().get();
    assert!(set.is_in_use(address));
    assert!(!set.is_in_use(0) && !set.is_in_use(2) && !set.is_in_use(1 << 40));
    set.release(address);
    assert!(!set.is_in_use(address) && set.is_consistent());
    set.forfeit(a);
    assert!(!set.is_reserving());
    let mut other = empty(1);
    let c = other.reserve(3).unwrap();
    assert!(!set.is_held(&c));
    set.forfeit(b);
    assert!(set.is_reserving() && set.is_idle());
}

#[test]
fn only_released_blocks_stay_acquired() {
    let mut set = empty(1);
    let r = set.reserve(SHARD_BITS).unwrap();
    while set.acquire_reserved(&r).is_some() {}
    set.release(1);
    set.release(3);
    set.forfeit(r);
    assert!(set.reserve(1).is_none());
    set.free_released();
    let r = set.reserve(2).unwrap();
    assert_eq!(range(&r), (0, 4));
    assert_eq!(set.acquire_reserved(&r).unwrap().get(), 2);
    assert_eq!(set.acquire_reserved(&r).unwrap().get(), 4);
    assert!(set.acquire_reserved(&r).is_none());
    assert!(!set.is_in_use(1) && set.is_in_use(2) && !set.is_in_use(3) && !set.is_in_use(5));
}

#[test]
fn reservations_leave_no_gap() {
    let mut acquired = Bitset::from_bits(vec![0; 2 * SHARD_BITS]);
    for i in 0..3 {
        acquired.set(i);
    }
    let mut set = FreeSet::load::<u8>(Ok(acquired.as_bytes()), Ok(Vec::new()), storage(2)).unwrap();
    let a = set.reserve(2).unwrap();
    assert_eq!(range(&a), (0, 5));
    let b = set.reserve(3).unwrap();
    assert_eq!(range(&b), (5, 8));
    assert_eq!((a.block_count(), b.block_count()), (5, 3));
    assert_eq!(set.acquire(&a).unwrap().get(), 4);
    let c = set.reserve(2).unwrap();
    assert_eq!(range(&c), (8, SHARD_BITS + 2));
}

#[test]
fn capacity_is_a_multiple_of_the_allocation_size() {
    let mut set = empty(1);
    let a = set.reserve(160).unwrap();
    assert_eq!(datafile::ensure_capacity(&vec![&a]), datafile::ALLOC_SIZE);
    let mut set = empty(1);
    let a = set.reserve(100).unwrap();
    let b = set.reserve(61).unwrap();
    assert_eq!(datafile::ensure_capacity(&vec![&b, &a]), 2 * datafile::ALLOC_SIZE);
}

#[test]
fn superblock_copies_lie_behind_one_another() {
    assert_eq!(datafile::superblock_offset(1), 4096);
    assert_eq!(datafile::superblock_offset(4), 16384);
    assert_eq!(datafile::superblock_offset(65535), 268431360);
}

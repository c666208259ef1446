use std::collections::HashMap;

use spacetime_storage::bitset::Bitset;
use spacetime_storage::checksum::Checksum;
use spacetime_storage::free_set::{FreeSet, SHARD_BITS};
use spacetime_storage::grid::blob::{load_into, PendingBlob, ReadError, Round, StoreBlobs};
use spacetime_storage::grid::block::{
    BlockRef, ChainedBlock, FixedBlock, ReadError as BlockReadError, BLOCK_SIZE, CHAINED_DATA_LEN,
};
use spacetime_storage::io::ErrorWith;
use spacetime_storage::manifest::BlobRef;

type Disk = HashMap<u64, Vec<u8>>;

fn empty(shards: usize) -> FreeSet {
    FreeSet::new(
        Bitset::from_bits(vec![0; shards * SHARD_BITS]),
        Bitset::from_bits(vec![0; shards * SHARD_BITS]),
        Bitset::from_bits(vec![0; shards]),
    )
}

/// Stores the blobs. The write at `broken` fails.
fn store(
    disk: &mut Disk,
    free_set: &mut FreeSet,
    blobs: &[&[u8]],
    memory: usize,
    broken: Option<u64>,
) -> Vec<Result<BlobRef, &'static str>> {
    let blocks: Vec<ChainedBlock> = (0..memory).map(|_| ChainedBlock::zeroed()).collect();
    let jobs: Vec<PendingBlob<'_, &'static str>> = blobs.iter().map(|b| PendingBlob::new(b)).collect();
    let reserved = free_set.reserve(jobs.iter().map(|job| job.required_blocks()).sum()).unwrap();
    let mut writes = StoreBlobs::new(free_set, reserved, blocks, jobs, memory);
    let mut in_flight = Vec::new();
    loop {
        let mut events: Vec<Option<Result<ChainedBlock, ErrorWith<&'static str, ChainedBlock>>>> =
            (0..memory).map(|_| None).collect();
        for w in in_flight.drain(..) {
            let w: spacetime_storage::grid::blob::SlotWrite = w;
            let address = w.write.address.get();
            events[w.slot] = Some(if Some(address) == broken {
                Err(ErrorWith { error: "broken", with: w.write.block })
            } else {
                disk.insert(address, w.write.block.to_bytes());
                Ok(w.write.block)
            });
        }
        let (round, more) = writes.poll(free_set, events).unwrap();
        in_flight.extend(more);
        if round == Round::Ready {
            break;
        }
    }
    assert!(in_flight.is_empty());
    let (results, blocks) = writes.finish(free_set);
    assert_eq!(blocks.len(), memory);
    results
}

fn load(disk: &Disk, ptr: &BlobRef) -> Result<Vec<u8>, ReadError<&'static str>> {
    let mut loader = load_into(ptr, vec![0xee; ptr.len as usize]);
    while let Some(block) = loader.pending() {
        let read = match disk.get(&block.address()) {
            Some(bytes) => Ok(ChainedBlock::from_bytes(bytes)),
            None => Err(ErrorWith { error: "missing", with: ChainedBlock::zeroed() }),
        };
        match loader.accept(read) {
            Ok(_) => {}
            Err(ErrorWith { error, .. }) => return Err(error),
        }
    }
    assert_eq!(loader.missing(), 0);
    loader.finish()?;
    Ok(loader.into_dst())
}

fn data(len: usize) -> Vec<u8> {
    (0..len).map(|i| (i % 251) as u8 + 1).collect()
}

#[test]
fn a_small_blob_is_loaded_as_stored() {
    let mut disk = Disk::new();
    let mut free_set = empty(1);
    let blob = data(1000);
    let ptr = store(&mut disk, &mut free_set, &[&blob], 1, None).remove(0).unwrap();
    assert_eq!(ptr.checksum, Checksum::from_bytes(&blob));
    assert_eq!((ptr.len, ptr.refcount), (1000, 0));
    assert_eq!(ptr.block.address(), 1);
    assert_eq!(load(&disk, &ptr).unwrap(), blob);
}

#[test]
fn a_blob_of_full_blocks_is_loaded_as_stored() {
    let mut disk = Disk::new();
    let mut free_set = empty(1);
    let blob = data(2 * CHAINED_DATA_LEN);
    let ptr = store(&mut disk, &mut free_set, &[&blob], 1, None).remove(0).unwrap();
    assert_eq!(ptr.block.address(), 2);
    assert_eq!(load(&disk, &ptr).unwrap(), blob);
}

#[test]
fn a_blob_with_a_partial_last_block_is_loaded_as_stored() {
    let mut disk = Disk::new();
    let mut free_set = empty(1);
    for len in [CHAINED_DATA_LEN - 1, CHAINED_DATA_LEN + 10, 3 * CHAINED_DATA_LEN - 7] {
        let mut free_set = empty(1);
        let blob = data(len);
        let ptr = store(&mut disk, &mut free_set, &[&blob], 2, None).remove(0).unwrap();
        assert_eq!(load(&disk, &ptr).unwrap(), blob);
    }
    let blob = data(CHAINED_DATA_LEN + 10);
    let mut ptr = store(&mut disk, &mut free_set, &[&blob], 1, None).remove(0).unwrap();
    ptr.checksum = Checksum::zero();
    match load(&disk, &ptr) {
        Err(ReadError::ChecksumMismatch { computed, expected }) => {
            assert_eq!(computed, Checksum::from_bytes(&blob));
            assert_eq!(expected, Checksum::zero());
        }
        _ => panic!("expected a checksum mismatch"),
    }
}

#[test]
fn several_blobs_share_the_memory() {
    let mut disk = Disk::new();
    let mut free_set = empty(1);
    let (a, b) = (data(10), data(20));
    let results = store(&mut disk, &mut free_set, &[&a, &b], 2, None);
    let loaded: Vec<Vec<u8>> = results.iter().map(|r| load(&disk, r.as_ref().unwrap()).unwrap()).collect();
    assert_eq!(loaded, vec![a, b]);
}

#[test]
fn a_failed_write_fails_its_blob_only() {
    let mut disk = Disk::new();
    let mut free_set = empty(1);
    let (a, b) = (data(10), data(20));
    let results = store(&mut disk, &mut free_set, &[&a, &b], 2, Some(1));
    assert!(matches!(results[0], Err("broken")));
    assert_eq!(load(&disk, results[1].as_ref().unwrap()).unwrap(), b);
}

#[test]
fn as_many_blocks_as_needed_suffice() {
    for memory in 1..4 {
        let mut disk = Disk::new();
        let mut free_set = empty(1);
        let (a, b) = (data(3 * CHAINED_DATA_LEN), data(CHAINED_DATA_LEN + 1));
        let results = store(&mut disk, &mut free_set, &[&a, &b], memory, None);
        assert_eq!(load(&disk, results[0].as_ref().unwrap()).unwrap(), a);
        assert_eq!(load(&disk, results[1].as_ref().unwrap()).unwrap(), b);
        // Each block that was acquired was written.
        let mut written: Vec<u64> = disk.keys().copied().collect();
        written.sort();
        assert_eq!(written, [1, 2, 3, 4, 5]);
        assert!((1..=5).all(|address| free_set.is_in_use(address)));
        assert!(!free_set.is_in_use(6));
    }
}

#[test]
fn a_blob_without_blocks_left_takes_no_address() {
    let mut free_set = empty(1);
    let reserved = free_set.reserve(1).unwrap();
    let blob = data(5);
    let jobs: Vec<PendingBlob<'_, u8>> = vec![PendingBlob::new(&blob)];
    let mut writes = StoreBlobs::new(&free_set, reserved, vec![ChainedBlock::zeroed()], jobs, 1);
    let (_, mut asked) = writes.poll(&mut free_set, vec![None]).unwrap();
    let w = asked.remove(0);
    assert_eq!((w.slot, w.write.address.get()), (0, 1));
    let (round, asked) = writes.poll(&mut free_set, vec![Some(Ok(w.write.block))]).unwrap();
    assert_eq!((round, asked.len()), (Round::Ready, 0));
    let (results, _) = writes.finish(&mut free_set);
    assert_eq!(results[0].as_ref().unwrap().block.address(), 1);
}

#[test]
fn addresses_can_run_out() {
    let mut free_set = empty(1);
    let reserved = free_set.reserve(2).unwrap();
    // The block is not there for the blob.
    free_set.acquire(&reserved).unwrap();
    let blob = data(2 * CHAINED_DATA_LEN);
    let jobs: Vec<PendingBlob<'_, u8>> = vec![PendingBlob::new(&blob)];
    assert_eq!(jobs[0].required_blocks(), 2);
    assert!(jobs[0].has_next());
    let memory = vec![ChainedBlock::zeroed(), ChainedBlock::zeroed()];
    let mut writes = StoreBlobs::new(&free_set, reserved, memory, jobs, 2);
    assert!(writes.poll(&mut free_set, vec![None, None]).is_err());
}

#[test]
fn a_round_without_events_waits() {
    let mut free_set = empty(1);
    let reserved = free_set.reserve(1).unwrap();
    let blob = data(5);
    let jobs: Vec<PendingBlob<'_, u8>> = vec![PendingBlob::new(&blob)];
    let mut writes = StoreBlobs::new(&free_set, reserved, vec![ChainedBlock::zeroed()], jobs, 1);
    let (round, asked) = writes.poll(&mut free_set, vec![None]).unwrap();
    assert_eq!((round, asked.len()), (Round::Again, 1));
    let (round, asked) = writes.poll(&mut free_set, vec![None]).unwrap();
    assert_eq!((round, asked.len()), (Round::Pending, 0));
    assert!(!writes.is_done());
}

#[test]
fn a_damaged_block_is_detected() {
    let mut disk = Disk::new();
    let mut free_set = empty(1);
    let blob = data(1000);
    let ptr = store(&mut disk, &mut free_set, &[&blob], 1, None).remove(0).unwrap();
    disk.get_mut(&1).unwrap()[BLOCK_SIZE - 1] = 1;
    match load(&disk, &ptr) {
        Err(ReadError::Block(BlockReadError::ChecksumMismatch { computed, expected })) => {
            assert_eq!(expected, ptr.block.checksum());
            assert_ne!(computed, expected);
        }
        _ => panic!("expected a block checksum mismatch"),
    }
    disk.clear();
    assert!(matches!(load(&disk, &ptr), Err(ReadError::Block(BlockReadError::Io("missing")))));
}

#[test]
fn blocks_keep_their_bytes() {
    let parent = BlockRef::new(Checksum::from_bytes(b"parent"), 0x0102_0304);
    let mut block = ChainedBlock::zeroed();
    block.copy_from_slice(parent, b"data");
    let bytes = block.to_bytes();
    assert_eq!(bytes.len(), BLOCK_SIZE);
    assert_eq!(&bytes[32..40], &[4, 3, 2, 1, 0, 0, 0, 0]);
    assert_eq!(&bytes[48..54], b"data\0\0");
    let read = ChainedBlock::from_bytes(&bytes);
    assert!(read.parent == parent);
    assert_eq!(read.data, block.data);
    assert_eq!(block.checksum(), Checksum::from_bytes(&bytes));
    assert!(BlockRef::zero().is_zero());
    assert!(!parent.is_zero());
}

#[test]
fn blocks_needed_are_rounded_up() {
    assert_eq!(ChainedBlock::num_blocks_for(&[]), None);
    assert_eq!(ChainedBlock::num_blocks_for(&data(1)), Some(1));
    assert_eq!(ChainedBlock::num_blocks_for(&data(CHAINED_DATA_LEN)), Some(1));
    assert_eq!(ChainedBlock::num_blocks_for(&data(CHAINED_DATA_LEN + 1)), Some(2));
}

#[test]
fn a_stored_page_is_loaded() {
    let mut free_set = empty(1);
    let reserved = free_set.reserve(1).unwrap();
    let address = free_set.acquire(&reserved).unwrap();
    let page = FixedBlock { data: vec![7; BLOCK_SIZE] };
    let (page, ptr) = FixedBlock::store::<u8>(Ok(page), address).unwrap();
    assert_eq!(ptr.address(), 1);
    assert_eq!(ptr.checksum(), Checksum::from_bytes(&vec![7; BLOCK_SIZE]));
    let mut page = FixedBlock::load_into::<u8>(&ptr, Ok(page)).unwrap();
    page.data[0] = 0;
    assert!(matches!(
        FixedBlock::load_into::<u8>(&ptr, Ok(page)),
        Err(ErrorWith { error: BlockReadError::ChecksumMismatch { .. }, .. })
    ));
}

#[test]
fn a_failed_write_hands_back_the_address() {
    let mut free_set = empty(1);
    let reserved = free_set.reserve(1).unwrap();
    let address = free_set.acquire(&reserved).unwrap();
    match ChainedBlock::store(Err(ErrorWith { error: 9u8, with: ChainedBlock::zeroed() }), address) {
        Err(ErrorWith { error: 9, with: (block, address) }) => {
            assert_eq!(address.get(), 1);
            let (_, ptr) = ChainedBlock::store::<u8>(Ok(block), address).unwrap();
            assert_eq!(ptr.checksum(), ChainedBlock::zeroed().checksum());
        }
        _ => panic!("expected the error"),
    }
}

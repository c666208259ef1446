use spacetime_storage::checksum::Checksum;
use spacetime_storage::grid::block::BlockRef;
use spacetime_storage::grid::superblock::{
    LoadError, ReadError, Superblock, WriteError, RESERVED_LEN, SUPERBLOCK_LEN,
};
use spacetime_storage::grid::uint::U256;
use spacetime_storage::io::ErrorWith;

fn superblock(sequence: u64, checksum: u8, parent: u8) -> Superblock {
    Superblock {
        checksum: Checksum::from_array([checksum; 32]),
        parent: Checksum::from_array([parent; 32]),
        copy: 1,
        version: 1,
        features: 0x0403_0201,
        sequence,
        database_identity: U256::from_words(5, 6),
        free_set_blocks_acquired: BlockRef::new(Checksum::from_bytes(b"a"), 11),
        free_set_blocks_released: BlockRef::new(Checksum::from_bytes(b"r"), 12),
        sealed_snapshot: Checksum::from_bytes(b"s"),
        reserved: vec![9; RESERVED_LEN],
    }
}

fn no_errors() -> Vec<Option<LoadError<u8>>> {
    vec![None, None, None, None]
}

#[test]
fn stored_superblock_is_read_back() {
    let a = superblock(7, 1, 2);
    let bytes = a.to_bytes();
    assert_eq!(bytes.len(), SUPERBLOCK_LEN);
    assert_eq!(&bytes[64..80], &[1, 0, 1, 0, 1, 2, 3, 4, 7, 0, 0, 0, 0, 0, 0, 0]);
    let b = Superblock::from_bytes(&bytes);
    assert!(a.eq_without_copy(&b));
    assert_eq!(a.copy, b.copy);
    assert_eq!(b.to_bytes(), bytes);
}

#[test]
fn copies_are_numbered_and_placed() {
    let mut copies = vec![superblock(1, 1, 0), superblock(1, 1, 0), superblock(1, 1, 0), superblock(1, 1, 0)];
    let offsets = Superblock::store(&mut copies);
    assert_eq!(offsets, vec![4096, 8192, 12288, 16384]);
    let numbers: Vec<u16> = copies.iter().map(|c| c.copy).collect();
    assert_eq!(numbers, vec![1, 2, 3, 4]);
    assert!(copies[3].eq_without_copy(&copies[0]));
}

#[test]
fn eq_without_copy_looks_at_all_other_fields() {
    let a = superblock(1, 1, 0);
    let mut b = superblock(1, 1, 0);
    b.copy = 3;
    assert!(a.eq_without_copy(&b));
    b.reserved[100] = 0;
    assert!(!a.eq_without_copy(&b));
    let mut c = superblock(1, 1, 0);
    c.free_set_blocks_released = BlockRef::zero();
    assert!(!a.eq_without_copy(&c));
    assert!(!a.eq_without_copy(&superblock(2, 1, 0)));
}

#[test]
fn a_copy_is_checked_when_loaded() {
    let mut a = superblock(3, 0, 0);
    a.checksum = a.compute_checksum();
    let expected = a.checksum;
    let loaded = Superblock::load_copy_into::<u8>(1, Ok(a)).unwrap();
    assert_eq!(loaded.checksum, expected);

    match Superblock::load_copy_into::<u8>(2, Ok(loaded)) {
        Err(ErrorWith { error: LoadError::MisdirectedCopy { expected_copy: 2, actual_copy: 1 }, with }) => {
            let mut b = with;
            b.sequence = 4;
            match Superblock::load_copy_into::<u8>(1, Ok(b)) {
                Err(ErrorWith { error: LoadError::ChecksumMismatch { computed, expected: e }, with }) => {
                    assert_eq!(computed, with.compute_checksum());
                    assert_eq!(e, expected);
                }
                _ => panic!("expected a checksum mismatch"),
            }
        }
        _ => panic!("expected a misdirected copy"),
    }
    match Superblock::load_copy_into::<u8>(1, Err(ErrorWith { error: 5, with: superblock(1, 1, 1) })) {
        Err(ErrorWith { error: LoadError::Io(5), with }) => assert_eq!(with.sequence, 1),
        _ => panic!("expected an io error"),
    }
}

#[test]
fn agreeing_copies_are_chosen() {
    let copies = vec![superblock(4, 1, 0), superblock(5, 2, 1), superblock(4, 1, 0), superblock(3, 9, 9)];
    assert_eq!(Superblock::load_into(&copies, no_errors()).unwrap(), 0);
}

#[test]
fn the_higher_of_two_chained_quorums_is_chosen() {
    let copies = vec![superblock(4, 1, 0), superblock(5, 2, 1), superblock(4, 1, 0), superblock(5, 2, 1)];
    assert_eq!(Superblock::load_into(&copies, no_errors()).unwrap(), 1);
}

#[test]
fn quorums_must_be_chained() {
    let copies = vec![superblock(4, 1, 0), superblock(5, 2, 7), superblock(4, 1, 0), superblock(5, 2, 7)];
    match Superblock::load_into(&copies, no_errors()) {
        Err(ReadError::HashChainBroken { parent, head }) => {
            assert_eq!(parent, Checksum::from_array([1; 32]));
            assert_eq!(head, Checksum::from_array([2; 32]));
        }
        _ => panic!("expected a broken chain"),
    }
}

#[test]
fn two_readable_copies_are_a_read_quorum() {
    let copies = vec![superblock(4, 1, 0), superblock(9, 2, 1), superblock(4, 1, 0), superblock(9, 2, 1)];
    let errors = vec![None, Some(LoadError::Io(1u8)), None, Some(LoadError::Io(1u8))];
    assert_eq!(Superblock::load_into(&copies, errors).unwrap(), 0);
}

#[test]
fn too_few_readable_copies() {
    let copies = vec![superblock(4, 1, 0), superblock(4, 1, 0), superblock(4, 1, 0), superblock(4, 1, 0)];
    let errors = vec![Some(LoadError::Io(1u8)), Some(LoadError::Io(2)), None, Some(LoadError::Io(3))];
    match Superblock::load_into(&copies, errors) {
        Err(ReadError::InsufficientCopies { errors }) => {
            assert!(matches!(errors[1], Some(LoadError::Io(2))));
            assert!(errors[2].is_none());
        }
        _ => panic!("expected insufficient copies"),
    }
}

#[test]
fn disagreeing_copies_are_no_quorum() {
    let copies = vec![superblock(4, 1, 0), superblock(4, 2, 0), superblock(4, 3, 0), superblock(5, 1, 0)];
    match Superblock::load_into(&copies, no_errors()) {
        Err(ReadError::NoReadQuorum { required: 2 }) => {}
        _ => panic!("expected no quorum"),
    }
}

#[test]
fn a_write_quorum_takes_three_copies() {
    let copies = vec![superblock(4, 1, 0), superblock(4, 1, 0), superblock(4, 1, 0), superblock(3, 8, 0)];
    assert_eq!(Superblock::verify_stored(&copies, no_errors()).unwrap(), 0);
    assert_eq!(Superblock::load_into(&copies, no_errors()).unwrap(), 0);
    let mut errors = no_errors();
    errors[0] = Some(LoadError::Io(1));
    assert_eq!(Superblock::load_into(&copies, errors).unwrap(), 1);
    let mut errors = no_errors();
    errors[0] = Some(LoadError::Io(1));
    match Superblock::verify_stored(&copies, errors) {
        Err(WriteError::NoWriteQuorum { required: 3, source: ReadError::NoReadQuorum { required: 3 } }) => {}
        _ => panic!("expected no write quorum"),
    }
}

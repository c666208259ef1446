use spacetime_storage::bitset::{Bitset, Bound};

#[test]
fn set_unset() {
    let bits = vec![0u64; 64];
    let mut bitmap = Bitset::from_bits(bits);
    for i in 0..bitmap.len() {
        assert!(!bitmap.is_set(i));
        bitmap.set(i);
        assert!(bitmap.is_set(i));
        bitmap.unset(i);
        assert!(!bitmap.is_set(i));
    }
}

#[test]
fn first_unset() {
    let bits = vec![0u64; 512];
    let mut bitmap = Bitset::from_bits(bits);

    bitmap.set(12);
    assert_eq!(bitmap.first_unset(Bound::Unbounded, Bound::Unbounded), Some(0));
    assert_eq!(bitmap.first_unset(Bound::Included(12), Bound::Unbounded), Some(13));

    bitmap.set(0);
    assert_eq!(bitmap.first_unset(Bound::Unbounded, Bound::Unbounded), Some(1));

    for i in 0..bitmap.len() {
        bitmap.set(i);
    }
    assert_eq!(bitmap.first_unset(Bound::Unbounded, Bound::Unbounded), None);
}

#[test]
fn first_unset_respects_bounds() {
    let mut bitmap = Bitset::from_bits(vec![0u64; 200]);
    for i in 60..70 {
        bitmap.set(i);
    }
    assert_eq!(bitmap.first_unset(Bound::Included(60), Bound::Excluded(70)), None);
    assert_eq!(bitmap.first_unset(Bound::Included(60), Bound::Included(70)), Some(70));
    assert_eq!(bitmap.first_unset(Bound::Excluded(69), Bound::Unbounded), Some(70));
    assert_eq!(bitmap.first_unset(Bound::Included(5), Bound::Excluded(5)), None);
    assert_eq!(bitmap.first_unset(Bound::Excluded(usize::MAX), Bound::Unbounded), None);
    assert_eq!(bitmap.first_unset(Bound::Unbounded, Bound::Included(usize::MAX)), None);
    assert_eq!(bitmap.first_unset_in(61, 200), Some(70));
}

#[test]
fn all_set_looks_at_the_range_only() {
    let mut bitmap = Bitset::from_bits(vec![0u64; 130]);
    for i in 3..128 {
        bitmap.set(i);
    }
    assert!(bitmap.all_set(Bound::Included(3), Bound::Excluded(128)));
    assert!(!bitmap.all_set(Bound::Included(2), Bound::Excluded(128)));
    assert!(!bitmap.all_set(Bound::Included(3), Bound::Included(128)));
    assert!(bitmap.all_set(Bound::Included(7), Bound::Excluded(7)));
}

#[test]
fn there_is_one_bit_for_each_word() {
    let bitmap = Bitset::from_bits(vec![0b101, 0, u64::MAX]);
    assert_eq!(bitmap.len(), 3);
    assert!(!bitmap.is_empty());
    assert!(bitmap.is_set(0));
    assert!(!bitmap.is_set(1));
    assert!(bitmap.is_set(2));
    assert!(Bitset::from_bits(Vec::new()).is_empty());
}

#[test]
fn stored_bits_are_loaded() {
    let mut bitmap = Bitset::from_bits(vec![0u64; 100]);
    for i in [0, 1, 17, 63, 64, 99] {
        bitmap.set(i);
    }
    let bytes = bitmap.as_bytes();
    assert_eq!(bytes.len(), 800);
    assert_eq!(&bytes[..8], &[0b11, 0, 0b10, 0, 0, 0, 0, 0b1000_0000]);
    let loaded = Bitset::load(&bytes, vec![7u64; 100]);
    for i in 0..100 {
        assert_eq!(loaded.is_set(i), bitmap.is_set(i));
    }
}

#[test]
fn loading_clears_what_the_data_does_not_reach() {
    let loaded = Bitset::load(&[0xff, 0xff, 0xff], vec![u64::MAX; 40]);
    assert_eq!(loaded.first_unset_in(0, 40), Some(24));
    assert_eq!(&loaded.as_bytes()[..4], &[0xff, 0xff, 0xff, 0]);
}

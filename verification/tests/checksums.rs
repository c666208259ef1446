use spacetime_storage::checksum::Checksum;
use spacetime_storage::grid::uint::U256;

#[test]
fn hash_of_nothing() {
    assert_eq!(
        Checksum::from_bytes(&[]).to_hex(),
        "af1349b9f5f9a1a6a0404dea36dcc9499bcb25c9adc112b7cc9a93cae41f3262"
    );
}

#[test]
fn hash_differs_from_the_input() {
    let input = [3u8; 32];
    assert_ne!(Checksum::from_bytes(&input).as_bytes(), &input[..]);
}

#[test]
fn incremental_hash_is_the_hash_of_the_whole() {
    let mut parts = Checksum::incremental();
    parts.update(b"hello ");
    parts.update(b"");
    parts.update(b"world");
    assert_eq!(parts.finalize(), Checksum::from_bytes(b"hello world"));
    assert_eq!(Checksum::incremental().finalize(), Checksum::from_bytes(b""));
}

#[test]
fn hex_has_two_digits_per_byte() {
    let mut bytes = [0u8; 32];
    bytes[0] = 0x1f;
    bytes[31] = 0xa0;
    let hex = Checksum::from_array(bytes).to_hex();
    assert_eq!(hex.len(), 64);
    assert!(hex.starts_with("1f00"));
    assert!(hex.ends_with("00a0"));
    assert_eq!(Checksum::zero().to_hex(), "0".repeat(64));
}

#[test]
fn checksums_compare_by_their_bytes() {
    let a = Checksum::from_array([1; 32]);
    let b = Checksum::from_array([2; 32]);
    assert_eq!(a, Checksum::from_array([1; 32]));
    assert_ne!(a, b);
    assert!(a < b);
}

#[test]
fn wide_integers_keep_their_words() {
    let hi = 0x0102_0304_0506_0708_090a_0b0c_0d0e_0f10u128;
    let lo = u128::MAX - 5;
    let n = U256::from_words(hi, lo);
    assert_eq!(n.as_bytes()[0], 0xfa);
    assert_eq!(n.as_bytes()[16], 0x10);
    assert_eq!(n.as_bytes()[31], 0x01);
    assert_eq!(n.into_words(), (hi, lo));
    assert!(U256::from_words(0, 1) == U256::from_array({
        let mut b = [0u8; 32];
        b[0] = 1;
        b
    }));
    assert!(U256::from_words(1, 0) != U256::from_words(0, 1));
}

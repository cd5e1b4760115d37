use itx::crypto::PrivateKey;

const ORDER: [u8; 32] = [
    0xFF, 0xFF, 0xFF, 0xFF, 0xFF, 0xFF, 0xFF, 0xFF, 0xFF, 0xFF, 0xFF, 0xFF, 0xFF, 0xFF, 0xFF, 0xFE,
    0xBA, 0xAE, 0xDC, 0xE6, 0xAF, 0x48, 0xA0, 0x3B, 0xBF, 0xD2, 0x5E, 0x8C, 0xD0, 0x36, 0x41, 0x41,
];

#[test]
fn a_secret_is_a_nonzero_scalar_below_the_order_in_24_to_32_bytes() {
    assert!(PrivateKey::from_fixed_bytes(&[1u8; 32]).is_some());
    assert!(PrivateKey::from_fixed_bytes(&[1u8; 24]).is_some());
    assert!(PrivateKey::from_fixed_bytes(&[1u8; 23]).is_none());
    assert!(PrivateKey::from_fixed_bytes(&[1u8; 33]).is_none());
    assert!(PrivateKey::from_fixed_bytes(&[0u8; 32]).is_none());
    assert!(PrivateKey::from_fixed_bytes(&ORDER).is_none());
    let mut below = ORDER;
    below[31] -= 1;
    assert!(PrivateKey::from_fixed_bytes(&below).is_some());
}

#[test]
fn a_short_secret_names_the_same_key_as_its_zero_padded_form() {
    let short = [7u8; 24];
    let mut padded = [0u8; 32];
    padded[8..].copy_from_slice(&short);
    let a = PrivateKey::from_fixed_bytes(&short).unwrap();
    let b = PrivateKey::from_fixed_bytes(&padded).unwrap();
    assert_eq!(a.public_key(), b.public_key());
}

use particle_sim::utils::bytes_to_u32;

#[test]
fn bytes_to_u32_reads_native_words() {
    let mut bytes: Vec<u8> = Vec::new();
    bytes.extend_from_slice(&1u32.to_ne_bytes());
    bytes.extend_from_slice(&0xdead_beefu32.to_ne_bytes());
    bytes.extend_from_slice(&u32::MAX.to_ne_bytes());
    assert_eq!(bytes_to_u32(&bytes), vec![1, 0xdead_beef, u32::MAX]);
}

#[test]
fn bytes_to_u32_ignores_trailing_bytes() {
    let mut bytes: Vec<u8> = Vec::new();
    bytes.extend_from_slice(&7u32.to_ne_bytes());
    bytes.extend_from_slice(&[1, 2, 3]);
    assert_eq!(bytes_to_u32(&bytes), vec![7]);
    assert_eq!(bytes_to_u32(&[1, 2, 3]), Vec::<u32>::new());
    assert_eq!(bytes_to_u32(&[]), Vec::<u32>::new());
}

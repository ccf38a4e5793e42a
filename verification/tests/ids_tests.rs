use rchat::ids::{new_short_id, short_id_from_bytes};

#[test]
fn short_id_is_the_uuid_prefix() {
    let bytes: [u8; 16] = [
        0x01, 0x23, 0xab, 0xcd, 0xef, 0x45, 0x67, 0x89, 0x0a, 0xbc, 0xde, 0xf0, 0x12, 0x34, 0x56, 0x78,
    ];
    assert_eq!(short_id_from_bytes(bytes), "0123abcd");
    let full = uuid::Uuid::from_bytes(bytes).to_string();
    assert_eq!(short_id_from_bytes(bytes), full[..8].to_string());
}

#[test]
fn short_id_of_zero_and_max_bytes() {
    assert_eq!(short_id_from_bytes([0u8; 16]), "00000000");
    assert_eq!(short_id_from_bytes([0xffu8; 16]), "ffffffff");
}

#[test]
fn new_short_ids_are_eight_lowercase_hex_digits() {
    for _ in 0..100 {
        let id = new_short_id();
        assert_eq!(id.len(), 8);
        assert!(id.chars().all(|c| c.is_ascii_digit() || ('a'..='f').contains(&c)), "{id}");
    }
    assert_ne!(new_short_id(), new_short_id());
}

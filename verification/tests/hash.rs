use tidemark::hash::{format_digest, hash_bytes};

#[test]
fn same_content_same_hash() {
    assert_eq!(hash_bytes(b"hello"), hash_bytes(b"hello"));
}

#[test]
fn different_content_different_hash() {
    assert_ne!(hash_bytes(b"hello"), hash_bytes(b"world"));
}

#[test]
fn hash_has_prefix() {
    assert!(hash_bytes(b"x").starts_with("blake3:"));
}

// --- further cases ---

#[test]
fn hash_of_empty_input_is_the_known_digest() {
    assert_eq!(
        hash_bytes(b""),
        "blake3:af1349b9f5f9a1a6a0404dea36dcc9499bcb25c9adc112b7cc9a93cae41f3262"
    );
}

#[test]
fn hash_text_has_sixty_four_lowercase_hex_digits() {
    let h = hash_bytes(b"abc");
    let hex = &h["blake3:".len()..];
    assert_eq!(hex.len(), 64);
    assert!(hex.chars().all(|c| c.is_ascii_digit() || ('a'..='f').contains(&c)));
}

#[test]
fn digest_text_is_prefix_and_lowercase_hex() {
    assert_eq!(format_digest(&[0x00, 0xab, 0xff, 0x10]), "blake3:00abff10");
    assert_eq!(format_digest(&[]), "blake3:");
}

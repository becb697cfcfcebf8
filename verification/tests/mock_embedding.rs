use chat_search::mock_embedding::embedding_bytes;

#[test]
fn deterministic_same_text_same_embedding() {
    let a = embedding_bytes("hello", 16);
    let b = embedding_bytes("hello", 16);
    assert_eq!(a, b);
}

#[test]
fn different_text_different_embedding() {
    let a = embedding_bytes("hello", 16);
    let b = embedding_bytes("world", 16);
    assert_ne!(a, b);
}

#[test]
fn length_matches_dim() {
    assert_eq!(embedding_bytes("x", 1024).len(), 1024);
}

#[test]
fn first_bytes_are_the_digest_of_the_text() {
    // SHA-256("hello") = 2cf24dba5fb0a30e26e83b2ac5b9e29e1b161e5c1fa7425e73043362938b9824
    let b = embedding_bytes("hello", 4);
    assert_eq!(b, vec![0x2c, 0xf2, 0x4d, 0xba]);
}

#[test]
fn later_blocks_hash_the_counter_and_text() {
    let b = embedding_bytes("hello", 40);
    assert_eq!(b[..32], embedding_bytes("hello", 32)[..]);
    assert_ne!(b[32..40], b[0..8]);
}

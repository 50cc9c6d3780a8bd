use intelligent_file_deduplicator::hashing::{hash_bytes, hash_content, to_hex, ContentHasher};
use intelligent_file_deduplicator::file_compare::compare_files;

#[test]
fn test_hash_consistency() {
    let content = b"HashLaser\n";

    let hash1 = hash_content(content);
    let hash2 = hash_content(content);

    assert_eq!(hash1, hash2);
}

#[test]
fn test_known_digest() {
    // The SHA-256 digest of "hello", as any standard implementation gives it.
    assert_eq!(
        hash_content(b"hello"),
        "2cf24dba5fb0a30e26e83b2ac5b9e29e1b161e5c1fa7425e73043362938b9824"
    );
}

#[test]
fn test_digest_is_32_bytes() {
    assert_eq!(hash_bytes(b"").len(), 32);
    assert_eq!(hash_content(b"").len(), 64);
}

#[test]
fn test_equal_bytes_equal_digest() {
    // Identical content hashes alike no matter where it came from.
    let a = b"same content".to_vec();
    let b = b"same content".to_vec();
    assert_eq!(hash_content(&a), hash_content(&b));
}

#[test]
fn test_different_bytes_different_digest() {
    assert_ne!(hash_content(b"hello"), hash_content(b"hellp"));
    assert_ne!(hash_content(b"hello"), hash_content(b"hello "));
}

#[test]
fn test_chunking_boundary() {
    // Content spanning several hash chunks still hashes consistently.
    let mut big = Vec::new();
    let mut i = 0u64;
    while big.len() < 5000 {
        big.push((i % 251) as u8);
        i += 1;
    }
    let once = hash_content(&big);
    let again = hash_content(&big);
    assert_eq!(once, again);
    assert_eq!(once.len(), 64);
}

#[test]
fn test_incremental_hasher_ignores_chunking() {
    // Feeding the stream in different splits gives the same digest as one
    // whole-buffer pass.
    let mut split = ContentHasher::new();
    split.update(b"he");
    split.update(b"l");
    split.update(b"lo");
    assert_eq!(
        split.finish_hex(),
        "2cf24dba5fb0a30e26e83b2ac5b9e29e1b161e5c1fa7425e73043362938b9824"
    );

    let mut whole = ContentHasher::new();
    whole.update(b"hello");
    assert_eq!(whole.finish(), hash_bytes(b"hello"));
}

#[test]
fn test_to_hex() {
    assert_eq!(to_hex(&[0xbe, 0xef]), "beef");
    assert_eq!(to_hex(&[0x00, 0x0f, 0xa0]), "000fa0");
    assert_eq!(to_hex(&[]), "");
}

#[test]
fn test_compare_files_equal() {
    assert!(compare_files(b"twin", b"twin"));
}

#[test]
fn test_compare_files_different() {
    assert!(!compare_files(b"twin", b"twins"));
    assert!(!compare_files(b"", b"x"));
}

use markdownai::index::{compute_hash, hash_hex, link_is_broken, lookup_path};

#[test]
fn test_compute_hash() {
    let h = compute_hash(b"hello world");
    assert_eq!(h.len(), 16);
    assert_eq!(h, compute_hash(b"hello world"));
    assert_ne!(h, compute_hash(b"hello universe"));
}

#[test]
fn hash_matches_xxh3_hex() {
    for data in [&b""[..], b"hello world", b"# Title\n"] {
        let expected = format!("{:016x}", xxhash_rust::xxh3::xxh3_64(data));
        assert_eq!(compute_hash(data), expected);
    }
    assert_eq!(hash_hex(0xab), "00000000000000ab");
    assert_eq!(hash_hex(u64::MAX), "ffffffffffffffff");
}

#[test]
fn link_lookup_paths() {
    assert_eq!(lookup_path("docs/a.md", "b.md"), "docs/b.md");
    assert_eq!(lookup_path("a.md", "b.md"), "b.md");
    assert_eq!(lookup_path("x/y/z.md", "../q.md"), "x/y/../q.md");
    assert!(link_is_broken(true, None));
    assert!(!link_is_broken(false, None));
    assert!(!link_is_broken(true, Some(4)));
}

#[test]
fn test_compute_hash_deterministic() {
    let content = b"The quick brown fox jumps over the lazy dog";
    let hash1 = compute_hash(content);
    let hash2 = compute_hash(content);
    let hash3 = compute_hash(content);
    assert_eq!(hash1, hash2);
    assert_eq!(hash2, hash3);
    assert_eq!(hash1.len(), 16);
}

#[test]
fn test_compute_hash_different_content() {
    let hash_a = compute_hash(b"content A");
    let hash_b = compute_hash(b"content B");
    let hash_empty = compute_hash(b"");
    assert_ne!(hash_a, hash_b);
    assert_ne!(hash_a, hash_empty);
    assert_ne!(hash_b, hash_empty);
    let hash1 = compute_hash(b"hello");
    let hash2 = compute_hash(b"hello!");
    assert_ne!(hash1, hash2);
}

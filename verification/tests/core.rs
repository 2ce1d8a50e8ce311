use dupfind::hasher::ContentHasher;
use dupfind::index::DuplicateIndex;
use dupfind::walk::{is_eligible, FileEntry};

const HELLO_SHA256: &str = "2cf24dba5fb0a30e26e83b2ac5b9e29e1b161e5c1fa7425e73043362938b9824";
const EMPTY_SHA256: &str = "e3b0c44298fc1c149afbf4c8996fb92427ae41e4649b934ca495991b7852b855";

fn hash_one(content: &[u8]) -> String {
    let mut h = ContentHasher::new();
    h.update(content);
    h.finalize_hex()
}

#[test]
fn fingerprint_exact_value() {
    let fp = hash_one(b"hello");
    assert_eq!(fp, HELLO_SHA256);
    assert_eq!(fp.len(), 64);
}

#[test]
fn fingerprint_empty_content() {
    let fp = hash_one(b"");
    assert_eq!(fp, EMPTY_SHA256);
}

#[test]
fn fingerprint_chunking_invariance() {
    // One file read in a single gulp, the other in bounded chunks
    // spanning several buffer reads: byte-identical content, same
    // fingerprint.
    let content = vec![0x61u8; 10_000];
    let whole = hash_one(&content);

    let mut h = ContentHasher::new();
    for chunk in content.chunks(4096) {
        h.update(chunk);
    }
    assert_eq!(h.finalize_hex(), whole);

    let mut h = ContentHasher::new();
    h.update(b"he");
    h.update(b"llo");
    assert_eq!(h.finalize_hex(), HELLO_SHA256);
}

#[test]
fn fingerprint_distinct_contents() {
    // A single differing byte must change the fingerprint.
    assert_ne!(hash_one(b"hello"), hash_one(b"hellp"));
    assert_ne!(hash_one(b"hello"), hash_one(b"hello "));
    assert_ne!(hash_one(b""), hash_one(b"\0"));
}

#[test]
fn index_groups_by_fingerprint() {
    let mut index = DuplicateIndex::new();
    index.record(String::from("/r/a.txt"), String::from(HELLO_SHA256));
    index.record(String::from("/r/c.txt"), String::from(EMPTY_SHA256));
    index.record(String::from("/r/b.txt"), String::from(HELLO_SHA256));
    index.record(String::from("/r/sub/d.txt"), String::from(HELLO_SHA256));
    assert_eq!(index.unique_count(), 2);
    let groups = index.finalize();
    assert_eq!(groups.len(), 2);
    assert_eq!(groups[0].fingerprint, HELLO_SHA256);
    assert_eq!(groups[0].paths, vec!["/r/a.txt", "/r/b.txt", "/r/sub/d.txt"]);
    assert_eq!(groups[1].fingerprint, EMPTY_SHA256);
    assert_eq!(groups[1].paths, vec!["/r/c.txt"]);
}

#[test]
fn index_single_group_for_identical_contents() {
    // N files of identical content: one key, N paths, discovery order.
    let mut index = DuplicateIndex::new();
    let paths = ["/r/1", "/r/2", "/r/3", "/r/4"];
    for p in paths {
        index.record(String::from(p), String::from(HELLO_SHA256));
    }
    assert_eq!(index.unique_count(), 1);
    let groups = index.finalize();
    assert_eq!(groups.len(), 1);
    assert_eq!(groups[0].paths, paths.to_vec());
}

#[test]
fn duplicate_groups_selects_only_groups_over_one() {
    let mut index = DuplicateIndex::new();
    index.record(String::from("/r/a.txt"), String::from(HELLO_SHA256));
    index.record(String::from("/r/c.txt"), String::from(EMPTY_SHA256));
    index.record(String::from("/r/b.txt"), String::from(HELLO_SHA256));
    let dups = index.duplicate_groups();
    assert_eq!(dups.len(), 1);
    assert_eq!(dups[0].fingerprint, HELLO_SHA256);
    assert_eq!(dups[0].paths, vec!["/r/a.txt", "/r/b.txt"]);

    let mut index = DuplicateIndex::new();
    index.record(String::from("/r/a.txt"), String::from(HELLO_SHA256));
    assert!(index.duplicate_groups().is_empty());
}

#[test]
fn eligibility_filter() {
    let plain = FileEntry { path: String::from("/r/a"), is_dir: false, hidden: false };
    let hidden = FileEntry { path: String::from("/r/.a"), is_dir: false, hidden: true };
    assert!(is_eligible(&plain, false));
    assert!(is_eligible(&plain, true));
    assert!(!is_eligible(&hidden, false));
    assert!(is_eligible(&hidden, true));
}

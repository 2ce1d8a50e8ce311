use dupfind::hasher::ContentHasher;
use dupfind::index::Group;
use dupfind::traverse::Traversal;
use dupfind::walk::{FileEntry, RunConfig};

// A small in-memory directory tree:
//
//   /r
//     a.txt        = "hello"
//     b.txt        = "hello"
//     c.txt        = "world"
//     sub/         d.txt = "hello"
//                  deep/  e.txt = "world"
//     bad/         (listing fails: unreadable)
//     .hidden.txt  = "secret"      (hidden)
//     .hdir/       h.txt = "secret" (hidden directory)

fn entry(path: &str, is_dir: bool, hidden: bool) -> FileEntry {
    FileEntry { path: String::from(path), is_dir, hidden }
}

fn listing_for(dir: &str) -> Option<Vec<FileEntry>> {
    match dir {
        "/r" => Some(vec![
            entry("/r/a.txt", false, false),
            entry("/r/b.txt", false, false),
            entry("/r/c.txt", false, false),
            entry("/r/sub", true, false),
            entry("/r/bad", true, false),
            entry("/r/.hidden.txt", false, true),
            entry("/r/.hdir", true, true),
        ]),
        "/r/sub" => Some(vec![
            entry("/r/sub/d.txt", false, false),
            entry("/r/sub/deep", true, false),
        ]),
        "/r/sub/deep" => Some(vec![entry("/r/sub/deep/e.txt", false, false)]),
        "/r/.hdir" => Some(vec![entry("/r/.hdir/h.txt", false, false)]),
        "/r/bad" => None, // permission denied
        _ => None,
    }
}

fn content_for(path: &str) -> &'static [u8] {
    match path {
        "/r/a.txt" | "/r/b.txt" | "/r/sub/d.txt" => b"hello",
        "/r/c.txt" | "/r/sub/deep/e.txt" => b"world",
        "/r/.hidden.txt" | "/r/.hdir/h.txt" => b"secret",
        _ => panic!("no such file"),
    }
}

/// Drives the traversal state machine over the in-memory tree the way
/// the binary drives it over a real filesystem.
fn run(recurse: bool, include_hidden: bool) -> Vec<Group> {
    let config = RunConfig { recurse, include_hidden };
    let mut t = Traversal::start(config, String::from("/r"));
    while let Some(dir) = t.next_directory() {
        match listing_for(&dir) {
            Some(entries) => {
                let files = t.process_listing(&entries);
                for path in files {
                    let mut h = ContentHasher::new();
                    h.update(content_for(&path));
                    let fp = h.finalize_hex();
                    t.record_file(path, fp);
                }
            }
            None => {
                // Unreadable directory: worth a diagnostic in the
                // binary; the traversal simply goes on.
            }
        }
    }
    t.finish().finalize()
}

fn group_paths<'a>(groups: &'a [Group], fingerprint: &str) -> Option<&'a Vec<String>> {
    groups.iter().find(|g| g.fingerprint == fingerprint).map(|g| &g.paths)
}

fn fingerprint_of_bytes(content: &[u8]) -> String {
    let mut h = ContentHasher::new();
    h.update(content);
    h.finalize_hex()
}

#[test]
fn scenario_flat() {
    // recurse=false: exactly the eligible files immediately inside
    // the root, two fingerprints.
    let groups = run(false, false);
    assert_eq!(groups.len(), 2);
    assert_eq!(groups[0].fingerprint, fingerprint_of_bytes(b"hello"));
    assert_eq!(groups[0].paths, vec!["/r/a.txt", "/r/b.txt"]);
    assert_eq!(groups[1].fingerprint, fingerprint_of_bytes(b"world"));
    assert_eq!(groups[1].paths, vec!["/r/c.txt"]);
}

#[test]
fn scenario_recursive() {
    // recurse=true: the duplicate group grows by the copy below sub/.
    let groups = run(true, false);
    let hello = group_paths(&groups, &fingerprint_of_bytes(b"hello")).unwrap();
    assert_eq!(hello, &vec!["/r/a.txt", "/r/b.txt", "/r/sub/d.txt"]);
    let world = group_paths(&groups, &fingerprint_of_bytes(b"world")).unwrap();
    assert_eq!(world, &vec!["/r/c.txt", "/r/sub/deep/e.txt"]);
}

#[test]
fn idempotent_runs() {
    // Two runs over the unmodified tree: identical groups, identical
    // intra-group order.
    for &(recurse, include_hidden) in
        &[(false, false), (true, false), (true, true), (false, true)]
    {
        let first = run(recurse, include_hidden);
        let second = run(recurse, include_hidden);
        assert_eq!(first.len(), second.len());
        for (a, b) in first.iter().zip(second.iter()) {
            assert_eq!(a.fingerprint, b.fingerprint);
            assert_eq!(a.paths, b.paths);
        }
    }
}

#[test]
fn non_recursive_ignores_all_depths() {
    // Nothing from sub/ nor sub/deep/ shows up without recursion.
    let groups = run(false, false);
    for g in &groups {
        for p in &g.paths {
            assert!(!p.contains("/sub"));
        }
    }
}

#[test]
fn recursive_reaches_all_depths() {
    let groups = run(true, false);
    let all: Vec<&String> = groups.iter().flat_map(|g| g.paths.iter()).collect();
    assert!(all.iter().any(|p| *p == "/r/sub/d.txt"));
    assert!(all.iter().any(|p| *p == "/r/sub/deep/e.txt"));
}

#[test]
fn hidden_entries_filtered() {
    // Hidden file and hidden directory are absent without the flag...
    let groups = run(true, false);
    let all: Vec<&String> = groups.iter().flat_map(|g| g.paths.iter()).collect();
    assert!(!all.iter().any(|p| p.contains(".hidden.txt")));
    assert!(!all.iter().any(|p| p.contains(".hdir")));

    // ...and present with it, grouped by their shared content.
    let groups = run(true, true);
    let secret = group_paths(&groups, &fingerprint_of_bytes(b"secret")).unwrap();
    assert_eq!(secret, &vec!["/r/.hidden.txt", "/r/.hdir/h.txt"]);
}

#[test]
fn resilience_to_unreadable_subdirectory() {
    // bad/ cannot be listed; every file in sibling and deeper
    // directories is still hashed and recorded, and the run ends
    // normally.
    let groups = run(true, false);
    let all: Vec<&String> = groups.iter().flat_map(|g| g.paths.iter()).collect();
    assert_eq!(all.len(), 5);
    assert!(all.iter().any(|p| *p == "/r/sub/d.txt"));
    assert!(all.iter().any(|p| *p == "/r/sub/deep/e.txt"));
}

#[test]
fn root_walked_without_recursion_even_with_empty_queue_after() {
    // The root itself is always walked once; afterwards the queue is
    // never refilled when recurse is off.
    let config = RunConfig { recurse: false, include_hidden: false };
    let mut t = Traversal::start(config, String::from("/r"));
    let first = t.next_directory();
    assert_eq!(first.as_deref(), Some("/r"));
    let entries = listing_for("/r").unwrap();
    let files = t.process_listing(&entries);
    assert_eq!(files, vec!["/r/a.txt", "/r/b.txt", "/r/c.txt"]);
    assert!(t.next_directory().is_none());
}

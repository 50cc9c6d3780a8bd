use intelligent_file_deduplicator::hashing::hash_content;
use intelligent_file_deduplicator::report::actionable_groups;
use intelligent_file_deduplicator::safe_delete::plan_deletions;
use intelligent_file_deduplicator::scanner::{build_index, HashedFile};

fn entry(path: &str, content: &[u8]) -> HashedFile {
    HashedFile {
        digest: hash_content(content),
        path: path.to_string(),
    }
}

#[test]
fn test_scan_groups_identical_content() {
    // a.txt and b.txt hold "hello"; c.txt holds "world". One actionable
    // group forms, keyed by the digest of "hello", and c.txt is in no
    // actionable group.
    let entries = vec![
        entry("a.txt", b"hello"),
        entry("b.txt", b"hello"),
        entry("c.txt", b"world"),
    ];
    let index = build_index(&entries);
    assert_eq!(index.groups.len(), 2);

    let actionable = actionable_groups(&index);
    assert_eq!(actionable.len(), 1);
    assert_eq!(actionable[0].digest, hash_content(b"hello"));
    assert_eq!(
        actionable[0].members,
        vec!["a.txt".to_string(), "b.txt".to_string()]
    );
    for group in &actionable {
        for member in &group.members {
            assert_ne!(member, "c.txt");
        }
    }

    // Deletion keeps a.txt (alphabetically first) and removes b.txt.
    let plans = plan_deletions(&index);
    assert_eq!(plans.len(), 1);
    assert_eq!(plans[0].survivor, "a.txt");
    assert_eq!(plans[0].to_delete, vec!["b.txt".to_string()]);
}

#[test]
fn test_index_keyed_by_content_digest() {
    let entries = vec![entry("x.bin", b"payload"), entry("y.bin", b"payload")];
    let index = build_index(&entries);
    assert_eq!(index.groups.len(), 1);
    assert_eq!(index.groups[0].digest, hash_content(b"payload"));
    assert_eq!(index.groups[0].members.len(), 2);
}

#[test]
fn test_rescan_same_groups_whatever_the_order() {
    // The same files, hashed in another completion order, key the same
    // digests and fill the groups with the same members.
    let first = vec![
        entry("a", b"one"),
        entry("b", b"two"),
        entry("c", b"one"),
    ];
    let second = vec![
        entry("c", b"one"),
        entry("a", b"one"),
        entry("b", b"two"),
    ];
    let i1 = build_index(&first);
    let i2 = build_index(&second);
    let p1 = plan_deletions(&i1);
    let p2 = plan_deletions(&i2);
    assert_eq!(p1.len(), p2.len());
    assert_eq!(p1[0].survivor, p2[0].survivor);
    assert_eq!(p1[0].to_delete, p2[0].to_delete);
}

#[test]
fn test_empty_scan() {
    let entries: Vec<HashedFile> = Vec::new();
    let index = build_index(&entries);
    assert!(index.is_empty());
    assert_eq!(actionable_groups(&index).len(), 0);
    assert_eq!(plan_deletions(&index).len(), 0);
}

#[test]
fn test_unreadable_file_excluded() {
    // A file whose hash failed never reaches the index: the scan hands over
    // only the successful hashes.
    let entries = vec![entry("ok.txt", b"data")];
    let index = build_index(&entries);
    assert_eq!(index.groups.len(), 1);
    assert_eq!(actionable_groups(&index).len(), 0);
}

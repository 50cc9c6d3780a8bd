use intelligent_file_deduplicator::hashing::hash_content;
use intelligent_file_deduplicator::safe_delete::{partition_outcomes, plan_deletions, sort_paths};
use intelligent_file_deduplicator::scanner::{build_index, HashedFile};
use intelligent_file_deduplicator::text::{split_trim, str_leq, trim_of};

fn owned(list: &[&str]) -> Vec<String> {
    let mut v = Vec::new();
    for a in list {
        v.push(a.to_string());
    }
    v
}

#[test]
fn test_sort_paths() {
    let sorted = sort_paths(owned(&["b/z.txt", "a.txt", "b/a.txt", "a.txt"]));
    assert_eq!(sorted, owned(&["a.txt", "a.txt", "b/a.txt", "b/z.txt"]));
}

#[test]
fn test_str_leq() {
    assert!(str_leq("a.txt", "b.txt"));
    assert!(!str_leq("b.txt", "a.txt"));
    assert!(str_leq("abc", "abcd"));
    assert!(str_leq("same", "same"));
}

#[test]
fn test_plan_keeps_least_member() {
    let entries = vec![
        HashedFile { digest: hash_content(b"dup"), path: "c/file".to_string() },
        HashedFile { digest: hash_content(b"dup"), path: "a/file".to_string() },
        HashedFile { digest: hash_content(b"dup"), path: "b/file".to_string() },
        HashedFile { digest: hash_content(b"lone"), path: "only".to_string() },
    ];
    let index = build_index(&entries);
    let plans = plan_deletions(&index);
    // One plan for the actionable group; the single-member group is left alone.
    assert_eq!(plans.len(), 1);
    assert_eq!(plans[0].digest, hash_content(b"dup"));
    assert_eq!(plans[0].survivor, "a/file");
    assert_eq!(plans[0].to_delete, owned(&["b/file", "c/file"]));
}

#[test]
fn test_plan_is_same_for_dry_run_and_live() {
    // The decision is pure: the dry-run switch only changes whether the
    // caller performs the plan, never what the plan says.
    let entries = vec![
        HashedFile { digest: hash_content(b"d"), path: "2".to_string() },
        HashedFile { digest: hash_content(b"d"), path: "1".to_string() },
    ];
    let index = build_index(&entries);
    let once = plan_deletions(&index);
    let again = plan_deletions(&index);
    assert_eq!(once.len(), again.len());
    assert_eq!(once[0].survivor, again[0].survivor);
    assert_eq!(once[0].to_delete, again[0].to_delete);
}

#[test]
fn test_partition_outcomes() {
    let candidates = owned(&["x", "y", "z"]);
    let outcomes = vec![true, false, true];
    let (removed, failed) = partition_outcomes(&candidates, &outcomes);
    assert_eq!(removed, owned(&["x", "z"]));
    assert_eq!(failed, owned(&["y"]));
}

#[test]
fn test_partition_outcomes_all_fail() {
    let candidates = owned(&["p", "q"]);
    let outcomes = vec![false, false];
    let (removed, failed) = partition_outcomes(&candidates, &outcomes);
    assert_eq!(removed.len(), 0);
    assert_eq!(failed, owned(&["p", "q"]));
}

#[test]
fn test_trim_and_split() {
    assert_eq!(trim_of("  spaced\t"), "spaced");
    assert_eq!(trim_of(""), "");
    assert_eq!(split_trim("txt, csv ,md"), owned(&["txt", "csv", "md"]));
    assert_eq!(split_trim("one"), owned(&["one"]));
    assert_eq!(split_trim("a,,b"), owned(&["a", "", "b"]));
}

use intelligent_file_deduplicator::filter::{parse_filter_options, parse_u64, FilterOptions};

fn args(list: &[&str]) -> Vec<String> {
    let mut v = Vec::new();
    for a in list {
        v.push(a.to_string());
    }
    v
}

#[test]
fn test_size_gate_bounds() {
    // A 5-byte file fails min_size=10; a 20-byte file passes.
    let options = FilterOptions {
        min_size: Some(10),
        max_size: None,
        extensions: None,
        regex: None,
    };
    assert!(!options.matches("small.bin", Some(5)));
    assert!(options.matches("large.bin", Some(20)));

    let bounded = FilterOptions {
        min_size: Some(10),
        max_size: Some(15),
        extensions: None,
        regex: None,
    };
    assert!(bounded.matches("mid.bin", Some(12)));
    assert!(!bounded.matches("big.bin", Some(20)));
}

#[test]
fn test_size_gate_fails_open() {
    // An unreadable size passes the size gate.
    let options = FilterOptions {
        min_size: Some(10),
        max_size: Some(15),
        extensions: None,
        regex: None,
    };
    assert!(options.matches("ghost.bin", None));
}

#[test]
fn test_extension_gate() {
    let options = FilterOptions {
        min_size: None,
        max_size: None,
        extensions: Some(vec!["txt".to_string(), "csv".to_string()]),
        regex: None,
    };
    assert!(options.matches("notes.txt", Some(1)));
    assert!(options.matches("data.csv", Some(1)));
    // Case-insensitive match.
    assert!(options.matches("LOUD.TXT", Some(1)));
    // Wrong extension, and no extension at all, both fail.
    assert!(!options.matches("image.png", Some(1)));
    assert!(!options.matches("Makefile", Some(1)));
    // The extension is taken from the file name, not from a directory.
    assert!(options.matches("dir.png/file.txt", Some(1)));
}

#[test]
fn test_pattern_gate() {
    let options = parse_filter_options(&args(&["--regex", "^report_[0-9]+"]));
    assert!(options.matches("logs/report_42.txt", Some(1)));
    // The pattern sees the bare file name, not the directory part.
    assert!(!options.matches("report_7/other.txt", Some(1)));
    assert!(!options.matches("summary.txt", Some(1)));
}

#[test]
fn test_unset_gates_pass_everything() {
    let options = FilterOptions {
        min_size: None,
        max_size: None,
        extensions: None,
        regex: None,
    };
    assert!(options.matches("anything.at.all", Some(0)));
    assert!(options.matches("", None));
}

#[test]
fn test_parse_filter_options_full() {
    let parsed = parse_filter_options(&args(&[
        "--min", "10", "--max", "100", "--ext", "txt, csv", "--regex", "^a",
    ]));
    assert_eq!(parsed.min_size, Some(10));
    assert_eq!(parsed.max_size, Some(100));
    assert_eq!(
        parsed.extensions,
        Some(vec!["txt".to_string(), "csv".to_string()])
    );
    assert!(parsed.regex.is_some());
    assert!(parsed.matches("apple.txt", Some(50)));
    assert!(!parsed.matches("banana.txt", Some(50)));
}

#[test]
fn test_parse_filter_options_malformed_values() {
    // A malformed value leaves its field unset rather than erroring.
    let parsed = parse_filter_options(&args(&["--min", "abc", "--regex", "("]));
    assert_eq!(parsed.min_size, None);
    assert!(parsed.regex.is_none());
    assert!(parsed.matches("anything", Some(1)));
}

#[test]
fn test_parse_filter_options_missing_value_and_unknown_args() {
    let parsed = parse_filter_options(&args(&["--verbose", "--max"]));
    assert_eq!(parsed.min_size, None);
    assert_eq!(parsed.max_size, None);
    assert_eq!(parsed.extensions, None);
    assert!(parsed.regex.is_none());
}

#[test]
fn test_parse_filter_options_later_flag_wins() {
    let parsed = parse_filter_options(&args(&["--min", "5", "--min", "oops"]));
    assert_eq!(parsed.min_size, None);
    let parsed2 = parse_filter_options(&args(&["--min", "5", "--min", "7"]));
    assert_eq!(parsed2.min_size, Some(7));
}

#[test]
fn test_parse_u64_values() {
    assert_eq!(parse_u64("0"), Some(0));
    assert_eq!(parse_u64("1024"), Some(1024));
    assert_eq!(parse_u64("18446744073709551615"), Some(u64::MAX));
    assert_eq!(parse_u64("18446744073709551616"), None);
    assert_eq!(parse_u64(""), None);
    assert_eq!(parse_u64("12x"), None);
    assert_eq!(parse_u64("-3"), None);
}

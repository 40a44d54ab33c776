use dirstat::entry::EntryMetadata;
use dirstat::scan::{FileSystem, WalkEvent};
use dirstat::summary::{record_extension, sorted_by_count, ExtensionSummary};
use std::time::SystemTime;

fn entry(path: &str, is_dir: bool, is_file: bool, len: u64) -> WalkEvent {
    WalkEvent::Entry {
        path: path.to_string(),
        metadata: EntryMetadata { is_dir, is_file, len, modified: SystemTime::UNIX_EPOCH },
    }
}

fn scanned(events: Vec<WalkEvent>) -> FileSystem {
    let mut fs = FileSystem::new("root");
    assert!(fs.scan_directory(events).is_ok());
    fs
}

fn group(extension: &str, count: usize, total_size: u64) -> ExtensionSummary {
    ExtensionSummary { extension: extension.to_string(), count, total_size }
}

fn mixed_tree() -> Vec<WalkEvent> {
    vec![
        entry("root", true, false, 4096),
        entry("root/a.rs", false, true, 10),
        entry("root/B.RS", false, true, 20),
        entry("root/Makefile", false, true, 5),
        entry("root/docs.d", true, false, 4096),
        entry("root/docs.d/guide.md", false, true, 1000),
        entry("root/docs.d/.hidden", false, true, 1),
        entry("root/docs.d/pipe.rs", false, false, 999),
        entry("root/docs.d/c.Rs", false, true, 30),
        entry("root/archive.tar.gz", false, true, 7),
        entry("root/empty.md", false, true, 0),
    ]
}

#[test]
fn record_extension_adds_a_new_group_at_the_end() {
    let mut summary = vec![group("rs", 2, 30)];
    record_extension(&mut summary, "md".to_string(), 8);
    assert_eq!(summary, vec![group("rs", 2, 30), group("md", 1, 8)]);
}

#[test]
fn record_extension_starts_an_empty_summary() {
    let mut summary = Vec::new();
    record_extension(&mut summary, "no_extension".to_string(), 0);
    assert_eq!(summary, vec![group("no_extension", 1, 0)]);
}

#[test]
fn record_extension_counts_into_the_group_of_the_key() {
    let mut summary = vec![group("rs", 2, 30), group("md", 1, 8), group("", 4, 1)];
    record_extension(&mut summary, "md".to_string(), 100);
    assert_eq!(summary, vec![group("rs", 2, 30), group("md", 2, 108), group("", 4, 1)]);
    record_extension(&mut summary, String::new(), 9);
    assert_eq!(summary, vec![group("rs", 2, 30), group("md", 2, 108), group("", 5, 10)]);
}

#[test]
fn record_extension_counts_into_the_first_of_two_groups() {
    let mut summary = vec![group("x", 1, 1), group("y", 1, 1), group("x", 5, 5)];
    record_extension(&mut summary, "x".to_string(), 2);
    assert_eq!(summary, vec![group("x", 2, 3), group("y", 1, 1), group("x", 5, 5)]);
}

#[test]
fn record_extension_tells_keys_apart_by_case() {
    let mut summary = vec![group("rs", 1, 1)];
    record_extension(&mut summary, "RS".to_string(), 2);
    assert_eq!(summary, vec![group("rs", 1, 1), group("RS", 1, 2)]);
}

#[test]
fn record_extension_reaches_the_limits() {
    let mut summary = vec![group("big", usize::MAX - 1, u64::MAX - 5)];
    record_extension(&mut summary, "big".to_string(), 5);
    assert_eq!(summary, vec![group("big", usize::MAX, u64::MAX)]);
}

#[test]
fn summary_groups_files_by_lowercase_extension() {
    let fs = scanned(mixed_tree());
    let summary = fs.get_file_types_summary();
    assert_eq!(
        summary,
        vec![
            group("rs", 3, 60),
            group("no_extension", 2, 6),
            group("md", 2, 1000),
            group("gz", 1, 7),
        ]
    );
}

#[test]
fn summary_sizes_add_up_to_the_directory_size() {
    let fs = scanned(mixed_tree());
    let summary = fs.get_file_types_summary();
    let bytes: u64 = summary.iter().map(|g| g.total_size).sum();
    assert_eq!(bytes, 1073);
    assert_eq!(bytes, fs.get_directory_size());
}

#[test]
fn summary_counts_add_up_to_the_number_of_files() {
    let mut fs = FileSystem::new("root");
    let scan = fs.scan_directory(mixed_tree()).unwrap();
    let summary = fs.get_file_types_summary();
    let files: usize = summary.iter().map(|g| g.count).sum();
    assert_eq!(files, 8);
    assert_eq!(files, scan.file_count);
}

#[test]
fn summary_lists_each_key_once() {
    let fs = scanned(mixed_tree());
    let summary = fs.get_file_types_summary();
    for (i, one) in summary.iter().enumerate() {
        for other in summary.iter().skip(i + 1) {
            assert_ne!(one.extension, other.extension);
        }
    }
}

#[test]
fn summary_leaves_directories_and_others_out() {
    let fs = scanned(vec![
        entry("root.d", true, false, 4096),
        entry("root.d/link.lnk", false, false, 12),
        entry("root.d/dev.sock", false, false, 0),
    ]);
    assert!(fs.get_file_types_summary().is_empty());
    assert_eq!(fs.get_directory_size(), 0);
}

#[test]
fn summary_merges_extension_named_like_the_sentinel() {
    let fs = scanned(vec![
        entry("README", false, true, 1),
        entry("odd.NO_EXTENSION", false, true, 2),
    ]);
    assert_eq!(fs.get_file_types_summary(), vec![group("no_extension", 2, 3)]);
}

#[test]
fn summary_of_a_file_as_root() {
    let fs = scanned(vec![entry("./notes.TXT", false, true, 42)]);
    assert_eq!(fs.get_file_types_summary(), vec![group("txt", 1, 42)]);
}

#[test]
fn listing_goes_from_the_most_files_down() {
    let summary = vec![group("a", 2, 9), group("b", 7, 1), group("c", 1, 50), group("d", 4, 0)];
    let listing = sorted_by_count(&summary);
    let keys: Vec<&str> = listing.iter().map(|g| g.extension.as_str()).collect();
    assert_eq!(keys, vec!["b", "d", "a", "c"]);
    assert_eq!(*listing[0], group("b", 7, 1));
    assert_eq!(*listing[3], group("c", 1, 50));
}

#[test]
fn listing_keeps_the_order_of_equal_counts() {
    let summary = vec![
        group("a", 1, 0),
        group("b", 3, 0),
        group("c", 1, 0),
        group("d", 3, 0),
        group("e", 1, 0),
        group("f", 2, 0),
    ];
    let listing = sorted_by_count(&summary);
    let keys: Vec<&str> = listing.iter().map(|g| g.extension.as_str()).collect();
    assert_eq!(keys, vec!["b", "d", "f", "a", "c", "e"]);
}

#[test]
fn listing_of_nothing_and_of_one() {
    let nothing: Vec<ExtensionSummary> = Vec::new();
    assert!(sorted_by_count(&nothing).is_empty());
    let one = vec![group("only", 0, 0)];
    let listing = sorted_by_count(&one);
    assert_eq!(listing.len(), 1);
    assert_eq!(*listing[0], group("only", 0, 0));
}

#[test]
fn listing_agrees_with_a_stable_sort() {
    let mut summary: Vec<ExtensionSummary> = Vec::new();
    let mut seed: u64 = 99;
    for i in 0..200 {
        seed = seed.wrapping_mul(6364136223846793005).wrapping_add(1442695040888963407);
        summary.push(group(&format!("e{}", i), ((seed >> 40) % 12) as usize, seed >> 20));
    }
    let mut expected: Vec<&ExtensionSummary> = summary.iter().collect();
    expected.sort_by(|a, b| b.count.cmp(&a.count));
    assert_eq!(sorted_by_count(&summary), expected);
}

#[test]
fn listing_of_a_scan() {
    let fs = scanned(mixed_tree());
    let summary = fs.get_file_types_summary();
    let listing = sorted_by_count(&summary);
    let keys: Vec<&str> = listing.iter().map(|g| g.extension.as_str()).collect();
    assert_eq!(keys, vec!["rs", "no_extension", "md", "gz"]);
}

use std::path::PathBuf;
use sysquery::items::{FileInfo, ProcessInfo};
use sysquery::scan::{FileRecord, ScanError, WalkEvent};
use sysquery::topk::TopK;
use sysquery::utils::{find_largest_files, processes};

fn record(name: &str, is_file: bool, size: Option<u64>) -> FileRecord {
    FileRecord { path: PathBuf::from(name), is_file, size }
}

fn entry(name: &str, is_file: bool, size: Option<u64>) -> WalkEvent {
    WalkEvent::Entry(record(name, is_file, size))
}

fn listing(sizes: &[u64]) -> Vec<WalkEvent> {
    sizes.iter().enumerate().map(|(i, &s)| entry(&format!("f{}", i), true, Some(s))).collect()
}

fn sizes(files: &[FileInfo]) -> Vec<u64> {
    files.iter().map(|f| f.size).collect()
}

fn names(files: &[FileInfo]) -> Vec<String> {
    files.iter().map(|f| f.path.to_string_lossy().into_owned()).collect()
}

fn process(name: &str, memory: u64) -> ProcessInfo<'_> {
    ProcessInfo {
        name,
        read_bytes: memory / 2,
        written_bytes: memory / 4,
        memory,
        status: String::from("Sleep"),
    }
}

#[test]
fn largest_files_of_five() {
    let got = find_largest_files(listing(&[10, 3, 7, 1, 9]), 3).unwrap();
    assert_eq!(sizes(&got), vec![10, 9, 7]);
    assert_eq!(names(&got), vec!["f0", "f4", "f2"]);
}

#[test]
fn largest_files_of_an_empty_listing() {
    let got = find_largest_files(Vec::new(), 5);
    assert!(matches!(got, Ok(ref files) if files.is_empty()));
}

#[test]
fn largest_files_with_zero_count() {
    let got = find_largest_files(listing(&[10, 3, 7]), 0).unwrap();
    assert!(got.is_empty());
}

#[test]
fn largest_files_with_count_above_listing_size() {
    let got = find_largest_files(listing(&[3, 10, 7]), 200).unwrap();
    assert_eq!(sizes(&got), vec![10, 7, 3]);
}

#[test]
fn largest_files_with_ties() {
    let got = find_largest_files(listing(&[5, 5, 3]), 2).unwrap();
    assert_eq!(sizes(&got), vec![5, 5]);
    let mut kept = names(&got);
    kept.sort();
    assert_eq!(kept, vec!["f0", "f1"]);
}

#[test]
fn unreadable_size_is_passed_over() {
    let events = vec![
        entry("a", true, Some(40)),
        entry("b", true, Some(10)),
        entry("gone", true, None),
        entry("c", true, Some(30)),
        entry("d", true, Some(20)),
    ];
    let got = find_largest_files(events, 5).unwrap();
    assert_eq!(sizes(&got), vec![40, 30, 20, 10]);
    assert_eq!(names(&got), vec!["a", "c", "d", "b"]);
}

#[test]
fn unreadable_size_does_not_take_a_place() {
    let events = vec![
        entry("a", true, Some(40)),
        entry("gone", true, None),
        entry("b", true, Some(10)),
        entry("c", true, Some(30)),
    ];
    let got = find_largest_files(events, 2).unwrap();
    assert_eq!(names(&got), vec!["a", "c"]);
}

#[test]
fn directories_are_passed_over() {
    let events = vec![
        entry("dir", false, Some(4096)),
        entry("a", true, Some(7)),
        entry("link", false, None),
        entry("b", true, Some(9)),
    ];
    let got = find_largest_files(events, 3).unwrap();
    assert_eq!(names(&got), vec!["b", "a"]);
    assert_eq!(sizes(&got), vec![9, 7]);
}

#[test]
fn listing_of_only_passed_over_entries_is_empty_not_an_error() {
    let events = vec![
        entry("dir", false, Some(1)),
        entry("gone", true, None),
        WalkEvent::Failure { depth: 2 },
    ];
    let got = find_largest_files(events, 3);
    assert!(matches!(got, Ok(ref files) if files.is_empty()));
}

#[test]
fn failure_at_the_root_is_an_error() {
    let got = find_largest_files(vec![WalkEvent::Failure { depth: 0 }], 3);
    assert!(matches!(got, Err(ScanError::Unreachable)));
    let got = find_largest_files(vec![WalkEvent::Failure { depth: 0 }], 0);
    assert!(matches!(got, Err(ScanError::Unreachable)));
}

#[test]
fn failure_at_the_root_is_an_error_wherever_it_comes() {
    let events = vec![
        entry("root", false, None),
        entry("a", true, Some(7)),
        WalkEvent::Failure { depth: 0 },
        entry("b", true, Some(9)),
    ];
    assert!(matches!(find_largest_files(events, 3), Err(ScanError::Unreachable)));
}

#[test]
fn failure_below_the_root_costs_nothing_else() {
    let events = vec![
        entry("a", true, Some(40)),
        WalkEvent::Failure { depth: 1 },
        entry("b", true, Some(10)),
        WalkEvent::Failure { depth: 7 },
        entry("c", true, Some(30)),
        WalkEvent::Failure { depth: usize::MAX },
    ];
    let got = find_largest_files(events, 5).unwrap();
    assert_eq!(names(&got), vec!["a", "c", "b"]);
}

#[test]
fn observing_a_walk_step_by_step() {
    let mut collector = TopK::new(2);
    assert_eq!(collector.observe(entry("a", true, Some(5))), Ok(()));
    assert_eq!(collector.len(), 1);
    assert_eq!(collector.observe(entry("dir", false, Some(4096))), Ok(()));
    assert_eq!(collector.len(), 1);
    assert_eq!(collector.observe(entry("gone", true, None)), Ok(()));
    assert_eq!(collector.len(), 1);
    assert_eq!(collector.observe(WalkEvent::Failure { depth: 3 }), Ok(()));
    assert_eq!(collector.len(), 1);
    assert_eq!(collector.observe(entry("b", true, Some(9))), Ok(()));
    assert_eq!(collector.len(), 2);
    assert_eq!(collector.observe(entry("c", true, Some(7))), Ok(()));
    assert_eq!(collector.len(), 2);
    assert_eq!(collector.observe(WalkEvent::Failure { depth: 0 }), Err(ScanError::Unreachable));
    assert_eq!(collector.len(), 2);
    assert_eq!(names(&collector.into_sorted_vec()), vec!["b", "c"]);
}

#[test]
fn record_of_a_regular_file_with_a_size_is_ranked() {
    let file = record("a", true, Some(12)).into_file_info().unwrap();
    assert_eq!(file.path, PathBuf::from("a"));
    assert_eq!(file.size, 12);
    let empty = record("e", true, Some(0)).into_file_info().unwrap();
    assert_eq!(empty.size, 0);
}

#[test]
fn record_without_size_or_of_no_file_is_not_ranked() {
    assert!(record("a", true, None).into_file_info().is_none());
    assert!(record("a", false, Some(12)).into_file_info().is_none());
    assert!(record("a", false, None).into_file_info().is_none());
}

#[test]
fn greediest_processes_first() {
    let list = vec![
        process("init", 10),
        process("shell", 3),
        process("editor", 7),
        process("cron", 1),
        process("browser", 9),
    ];
    let got = processes(list, 3);
    let names: Vec<&str> = got.iter().map(|p| p.name).collect();
    assert_eq!(names, vec!["init", "browser", "editor"]);
    assert_eq!(got[1].memory, 9);
    assert_eq!(got[1].read_bytes, 4);
    assert_eq!(got[1].written_bytes, 2);
    assert_eq!(got[1].status, "Sleep");
}

#[test]
fn processes_with_zero_count_or_none_running() {
    assert!(processes(vec![process("a", 1)], 0).is_empty());
    assert!(processes(Vec::new(), 10).is_empty());
}

#[test]
fn processes_with_count_above_their_number() {
    let got = processes(vec![process("a", 1), process("b", 2)], 10);
    let names: Vec<&str> = got.iter().map(|p| p.name).collect();
    assert_eq!(names, vec!["b", "a"]);
}

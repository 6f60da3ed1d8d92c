use disk_census::errors::CommandError;
use disk_census::histogram::FileTypeHistogram;
use disk_census::models::ScannedFile;
use disk_census::models::ScannedFolder;
use disk_census::paths::ScanPath;
use disk_census::results::ScanResults;
use disk_census::results::ThreadScanResult;
use disk_census::session::cancel_scan;
use disk_census::session::finish_scan;
use disk_census::session::is_cancelled;
use disk_census::session::start_scan;

fn path(parts: &[&str]) -> ScanPath {
    ScanPath::new("/".to_string(), parts.iter().map(|p| p.to_string()).collect())
}

fn one_part() -> Vec<ThreadScanResult> {
    let p = path(&["s", "big.bin"]);
    let mut histogram = FileTypeHistogram::new();
    histogram.add("Other", 250_000);
    vec![ThreadScanResult {
        files: vec![ScannedFile {
            name: p.file_name(),
            path: p,
            size: 250_000,
            file_type: "Other".to_string(),
            extension: "bin".to_string(),
        }],
        folders: vec![ScannedFolder {
            name: "s".to_string(),
            path: path(&["s"]),
            size: 250_000,
            file_count: 1,
        }],
        file_type_distribution: histogram,
    }]
}

#[test]
fn a_scan_of_a_missing_path_is_refused() {
    let mut state = ScanResults::default();
    state.total_files = 7;
    match start_scan(&mut state, "/nowhere", false, false, false) {
        Err(CommandError::PathDoesNotExist(p)) => assert_eq!(p, "/nowhere"),
        other => panic!("unexpected: {:?}", other),
    }
    assert_eq!(state.total_files, 7);
}

#[test]
fn a_scan_of_a_file_is_refused() {
    let mut state = ScanResults::default();
    match start_scan(&mut state, "/etc/hosts", false, true, false) {
        Err(CommandError::PathIsNotDirectory(p)) => assert_eq!(p, "/etc/hosts"),
        other => panic!("unexpected: {:?}", other),
    }
}

#[test]
fn starting_a_scan_empties_the_snapshot() {
    let mut state = ScanResults::default();
    start_scan(&mut state, "/s", false, true, true).expect("started");
    finish_scan(&mut state, one_part(), true, 5, 1_000_000, 20).outcome.expect("finished");
    assert_eq!(state.total_files, 1);
    cancel_scan(&mut state);
    start_scan(&mut state, "/t", false, true, true).expect("started again");
    assert_eq!((state.total_files, state.total_size, state.total_folders), (0, 0, 0));
    assert!(state.largest_files.is_empty());
    assert!(state.all_folders.is_empty());
    assert_eq!(state.scan_path, "/t");
    assert!(!is_cancelled(&state));
}

#[test]
fn a_finished_scan_fills_the_snapshot_and_reports_completion() {
    let mut state = ScanResults::default();
    start_scan(&mut state, "/s", false, true, true).expect("started");
    let ended = finish_scan(&mut state, one_part(), true, 42, 1_000_000, 20);
    ended.outcome.expect("finished");
    let event = ended.event.expect("event");
    assert_eq!(event.files_analyzed, 1);
    assert_eq!(event.total_size, 250_000);
    assert_eq!(event.folders_analyzed, 1);
    assert_eq!(event.current_path, "Scan completed!");
    assert_eq!(event.progress_permille, 1000);
    assert_eq!(event.estimated_total_size, 1_000_000);
    assert_eq!(state.scan_path, "/s");
    assert_eq!(state.scan_time_millis, 42);
    assert_eq!(state.total_size, 250_000);
    assert_eq!(state.largest_files.len(), 1);
}

#[test]
fn a_cancelled_scan_leaves_the_snapshot_as_it_was() {
    let mut state = ScanResults::default();
    start_scan(&mut state, "/s", false, true, true).expect("started");
    cancel_scan(&mut state);
    cancel_scan(&mut state);
    assert!(is_cancelled(&state));
    let ended = finish_scan(&mut state, one_part(), true, 42, 1_000_000, 20);
    ended.outcome.expect("no failure");
    assert!(ended.event.is_none());
    assert_eq!((state.total_files, state.total_size, state.total_folders), (0, 0, 0));
    assert!(state.largest_files.is_empty());
    assert!(state.folders.is_empty());
    assert!(state.all_folders.is_empty());
    assert!(state.file_type_distribution.entries.is_empty());
    assert_eq!(state.scan_path, "/s");
    assert_eq!(state.scan_time_millis, 0);
    assert!(state.cancellation_flag);
}

#[test]
fn a_failed_scan_leaves_the_snapshot_as_it_was() {
    let mut state = ScanResults::default();
    start_scan(&mut state, "/s", false, true, true).expect("started");
    let mut too_much = one_part();
    too_much[0].file_type_distribution.credit("Other", u64::MAX - 250_000, 1);
    let mut more = one_part();
    too_much.append(&mut more);
    let ended = finish_scan(&mut state, too_much, true, 42, 1_000_000, 20);
    assert!(matches!(ended.outcome, Err(CommandError::ScanFailed(_))));
    let event = ended.event.expect("the closing event");
    assert_eq!(event.current_path, "Scan failed!");
    assert_eq!((event.files_analyzed, event.total_size, event.folders_analyzed), (0, 0, 0));
    assert_eq!(event.progress_permille, 0);
    assert_eq!(event.estimated_total_size, 1_000_000);
    assert_eq!((state.total_files, state.total_size, state.total_folders), (0, 0, 0));
    assert_eq!(state.scan_path, "/s");
}

#[test]
fn a_scan_whose_root_cannot_be_listed_fails() {
    let mut state = ScanResults::default();
    start_scan(&mut state, "/locked", false, true, true).expect("started");
    let ended = finish_scan(&mut state, Vec::new(), false, 3, 1_000_000, 20);
    match ended.outcome {
        Err(CommandError::CannotReadDirectory(p)) => assert_eq!(p, "/locked"),
        other => panic!("unexpected: {:?}", other),
    }
    let event = ended.event.expect("the closing event");
    assert_eq!(event.current_path, "Scan failed!");
    assert_eq!((event.files_analyzed, event.total_size, event.folders_analyzed), (0, 0, 0));
    assert_eq!(event.progress_permille, 0);
    assert_eq!(event.estimated_total_size, 1_000_000);
    assert_eq!((state.total_files, state.total_size, state.total_folders), (0, 0, 0));
    assert!(state.largest_files.is_empty());
    assert!(state.all_folders.is_empty());
    assert_eq!(state.scan_path, "/locked");
    assert_eq!(state.scan_time_millis, 0);
}

#[test]
fn what_the_workers_gathered_does_not_mend_an_unreadable_root() {
    let mut state = ScanResults::default();
    start_scan(&mut state, "/s", false, true, true).expect("started");
    let ended = finish_scan(&mut state, one_part(), false, 3, 1_000_000, 20);
    assert!(matches!(ended.outcome, Err(CommandError::CannotReadDirectory(_))));
    assert_eq!((state.total_files, state.total_size, state.total_folders), (0, 0, 0));
    assert!(state.largest_files.is_empty());
}

#[test]
fn a_cancelled_scan_of_an_unreadable_root_has_not_failed() {
    let mut state = ScanResults::default();
    start_scan(&mut state, "/locked", false, true, true).expect("started");
    cancel_scan(&mut state);
    let ended = finish_scan(&mut state, Vec::new(), false, 3, 1_000_000, 20);
    ended.outcome.expect("no failure");
    assert!(ended.event.is_none());
    assert!(state.cancellation_flag);
}

#[test]
fn a_second_scan_is_refused_while_one_is_under_way() {
    let mut state = ScanResults::default();
    start_scan(&mut state, "/s", false, true, true).expect("started");
    finish_scan(&mut state, one_part(), true, 5, 1_000_000, 20).outcome.expect("finished");
    match start_scan(&mut state, "/t", true, true, true) {
        Err(CommandError::InternalError(text)) => assert_eq!(text, "a scan is already running"),
        other => panic!("unexpected: {:?}", other),
    }
    assert_eq!(state.scan_path, "/s");
    assert_eq!(state.total_files, 1);
    assert!(matches!(
        start_scan(&mut state, "/nowhere", true, false, false),
        Err(CommandError::InternalError(_))
    ));
}

use disk_census::counters::AtomicCounters;
use disk_census::errors::CommandError;
use disk_census::histogram::FileTypeHistogram;
use disk_census::models::ScannedFile;
use disk_census::models::ScannedFolder;
use disk_census::paths::ScanPath;
use disk_census::results::consolidate;
use disk_census::results::ScanResults;
use disk_census::results::ThreadScanResult;
use disk_census::scan::DirectoryEntry;
use disk_census::worker::worker_thread_optimized;
use disk_census::worker::DirectoryListing;

fn path(parts: &[&str]) -> ScanPath {
    ScanPath::new("/".to_string(), parts.iter().map(|p| p.to_string()).collect())
}

fn kept(parts: &[&str], size: u64) -> ScannedFile {
    let p = path(parts);
    ScannedFile {
        name: p.file_name(),
        path: p,
        size,
        file_type: "Other".to_string(),
        extension: String::new(),
    }
}

fn folder(parts: &[&str], size: u64, file_count: u32) -> ScannedFolder {
    let p = path(parts);
    ScannedFolder { name: p.file_name(), path: p, size, file_count }
}

fn part(
    files: Vec<ScannedFile>,
    folders: Vec<ScannedFolder>,
    shares: &[(&str, u64, u32)],
) -> ThreadScanResult {
    let mut histogram = FileTypeHistogram::new();
    for (category, size, count) in shares {
        histogram.credit(category, *size, *count);
    }
    ThreadScanResult { files, folders, file_type_distribution: histogram }
}

fn file(name: &str, extension: &str, size: u64) -> DirectoryEntry {
    DirectoryEntry {
        name: name.to_string(),
        extension: extension.to_string(),
        is_file: true,
        is_dir: false,
        size: Some(size),
    }
}

fn listing(parts: &[&str], entries: Vec<DirectoryEntry>) -> DirectoryListing {
    DirectoryListing { path: path(parts), entries: Some(entries) }
}

fn tree() -> Vec<DirectoryListing> {
    vec![
        listing(&["a"], vec![file("root.bin", "bin", 400)]),
        listing(&["a", "b"], vec![file("one.jpg", "jpg", 100), file("two.JPG", "JPG", 200)]),
        listing(&["a", "c"], vec![file("three.mp3", "mp3", 300)]),
        listing(&["a", "b", "d"], vec![file("four.pdf", "pdf", 50)]),
        listing(&["a", "e"], vec![]),
        listing(&["a", "f"], vec![file("large.iso", "iso", 5_000_000)]),
        listing(&["a", "g"], vec![file("larger.mkv", "mkv", 7_000_000)]),
        listing(&["a", "h"], vec![file("small.txt", "txt", 1)]),
    ]
}

fn scan_with(workers: usize, limit: u32) -> ScanResults {
    let mut shares: Vec<Vec<DirectoryListing>> = (0..workers).map(|_| Vec::new()).collect();
    for (i, l) in tree().into_iter().enumerate() {
        shares[i % workers].push(l);
    }
    let mut counters = AtomicCounters::new();
    let mut parts = Vec::new();
    for share in &shares {
        let (result, _events) =
            worker_thread_optimized(share, &mut counters, 1_000_000).expect("the share fits");
        parts.push(result);
    }
    consolidate(parts, "/a", 12, limit).expect("the parts fit")
}

#[test]
fn parts_merge_into_one_snapshot() {
    let parts = vec![
        part(
            vec![kept(&["a", "x.bin"], 500_000), kept(&["a", "b", "y.bin"], 900_000)],
            vec![folder(&["a"], 500_010, 2), folder(&["a", "b"], 900_000, 1)],
            &[("Other", 1_400_000, 2), ("Documents", 10, 1)],
        ),
        part(
            vec![kept(&["a", "c", "z.bin"], 700_000)],
            vec![folder(&["a", "c"], 700_005, 2)],
            &[("Documents", 5, 1), ("Other", 700_000, 1)],
        ),
    ];
    let results = consolidate(parts, "/a", 1500, 20).expect("the parts fit");
    assert_eq!(results.total_files, 5);
    assert_eq!(results.total_size, 2_100_015);
    assert_eq!(results.total_folders, 3);
    assert_eq!(results.scan_time_millis, 1500);
    assert_eq!(results.scan_path, "/a");
    assert!(!results.cancellation_flag);
    let sizes: Vec<u64> = results.largest_files.iter().map(|f| f.size).collect();
    assert_eq!(sizes, vec![900_000, 700_000, 500_000]);
    let totals: Vec<(String, u64, u32)> =
        results.all_folders.iter().map(|f| (f.path.to_text(), f.size, f.file_count)).collect();
    assert_eq!(
        totals,
        vec![
            ("/a".to_string(), 2_100_015, 5),
            ("/a/b".to_string(), 900_000, 1),
            ("/a/c".to_string(), 700_005, 2),
        ]
    );
    let shown: Vec<(String, u64, u32)> =
        results.folders.iter().map(|f| (f.path.to_text(), f.size, f.file_count)).collect();
    assert_eq!(shown, totals);
    assert_eq!(results.file_type_distribution.get("Other"), (2_100_000, 3));
    assert_eq!(results.file_type_distribution.get("Documents"), (15, 2));
}

#[test]
fn only_the_largest_files_are_kept() {
    let files: Vec<ScannedFile> =
        (1..=30u64).map(|i| kept(&["d", &format!("f{}", i)], 100_000 + i)).collect();
    let parts = vec![part(files, vec![], &[("Other", 3_000_465, 30)])];
    let results = consolidate(parts, "/d", 0, 20).expect("the parts fit");
    assert_eq!(results.largest_files.len(), 20);
    let sizes: Vec<u64> = results.largest_files.iter().map(|f| f.size).collect();
    let expected: Vec<u64> = (11..=30u64).rev().map(|i| 100_000 + i).collect();
    assert_eq!(sizes, expected);
    for pair in sizes.windows(2) {
        assert!(pair[0] > pair[1]);
    }
}

#[test]
fn files_of_equal_size_keep_their_order() {
    let parts = vec![
        part(vec![kept(&["first"], 5), kept(&["big"], 9)], vec![], &[("Other", 14, 2)]),
        part(vec![kept(&["second"], 5)], vec![], &[("Other", 5, 1)]),
    ];
    let results = consolidate(parts, "/", 0, 10).expect("the parts fit");
    let names: Vec<String> = results.largest_files.iter().map(|f| f.name.clone()).collect();
    assert_eq!(names, vec!["big".to_string(), "first".to_string(), "second".to_string()]);
}

#[test]
fn a_limit_of_zero_keeps_no_file() {
    let parts = vec![part(vec![kept(&["x"], 5)], vec![], &[("Other", 5, 1)])];
    let results = consolidate(parts, "/", 0, 0).expect("the parts fit");
    assert!(results.largest_files.is_empty());
    assert_eq!(results.total_files, 1);
}

#[test]
fn no_parts_give_an_empty_snapshot() {
    let results = consolidate(Vec::new(), "/nowhere", 3, 20).expect("nothing to fit");
    assert_eq!((results.total_files, results.total_size, results.total_folders), (0, 0, 0));
    assert!(results.largest_files.is_empty());
    assert!(results.all_folders.is_empty());
    assert_eq!(results.scan_path, "/nowhere");
}

#[test]
fn totals_out_of_range_fail_the_scan() {
    let parts = vec![
        part(vec![], vec![], &[("Other", u64::MAX, 1)]),
        part(vec![], vec![], &[("Other", 1, 1)]),
    ];
    assert!(matches!(consolidate(parts, "/", 0, 20), Err(CommandError::ScanFailed(_))));
    let counts = vec![
        part(vec![], vec![], &[("Other", 1, u32::MAX)]),
        part(vec![], vec![], &[("Images", 1, 1)]),
    ];
    assert!(matches!(consolidate(counts, "/", 0, 20), Err(CommandError::ScanFailed(_))));
    let folders = vec![part(
        vec![],
        vec![folder(&["a"], u64::MAX, 1), folder(&["b"], 1, 1)],
        &[("Other", 1, 1)],
    )];
    assert!(matches!(consolidate(folders, "/", 0, 20), Err(CommandError::ScanFailed(_))));
}

#[test]
fn the_totals_do_not_depend_on_the_number_of_workers() {
    let one = scan_with(1, 20);
    let eight = scan_with(8, 20);
    let three = scan_with(3, 20);
    assert_eq!((one.total_files, one.total_size, one.total_folders), (8, 12_001_051, 8));
    for other in [&eight, &three] {
        assert_eq!(other.total_files, one.total_files);
        assert_eq!(other.total_size, one.total_size);
        assert_eq!(other.total_folders, one.total_folders);
        for category in ["Images", "Audio Files", "Documents", "Other", "Video Files"] {
            assert_eq!(
                other.file_type_distribution.get(category),
                one.file_type_distribution.get(category)
            );
        }
        let a: Vec<(String, u64, u32)> =
            one.all_folders.iter().map(|f| (f.path.to_text(), f.size, f.file_count)).collect();
        let b: Vec<(String, u64, u32)> =
            other.all_folders.iter().map(|f| (f.path.to_text(), f.size, f.file_count)).collect();
        assert_eq!(a, b);
    }
}

#[test]
fn a_scanned_tree_has_the_totals_of_its_subtrees() {
    let results = scan_with(4, 20);
    let totals: Vec<(String, u64, u32)> =
        results.all_folders.iter().map(|f| (f.path.to_text(), f.size, f.file_count)).collect();
    assert_eq!(
        totals,
        vec![
            ("/a".to_string(), 12_001_051, 8),
            ("/a/b".to_string(), 350, 3),
            ("/a/b/d".to_string(), 50, 1),
            ("/a/c".to_string(), 300, 1),
            ("/a/e".to_string(), 0, 0),
            ("/a/f".to_string(), 5_000_000, 1),
            ("/a/g".to_string(), 7_000_000, 1),
            ("/a/h".to_string(), 1, 1),
        ]
    );
    let names: Vec<String> = results.largest_files.iter().map(|f| f.name.clone()).collect();
    assert_eq!(names, vec!["larger.mkv".to_string(), "large.iso".to_string()]);
}

#[test]
fn the_categories_add_up_to_the_total_size() {
    let results = scan_with(3, 20);
    let by_category: u64 = results.file_type_distribution.entries.iter().map(|e| e.size).sum();
    let files: u32 = results.file_type_distribution.entries.iter().map(|e| e.count).sum();
    assert_eq!(by_category, results.total_size);
    assert_eq!(files, results.total_files);
    assert_eq!(results.file_type_distribution.get("Images"), (300, 2));
    assert_eq!(results.file_type_distribution.get("Video Files"), (7_000_000, 1));
}

#[test]
fn the_default_snapshot_is_empty() {
    let results = ScanResults::default();
    assert_eq!((results.total_files, results.total_size, results.total_folders), (0, 0, 0));
    assert_eq!(results.scan_time_millis, 0);
    assert_eq!(results.scan_path, "");
    assert!(results.largest_files.is_empty());
    assert!(results.folders.is_empty());
    assert!(results.all_folders.is_empty());
    assert!(results.file_type_distribution.entries.is_empty());
    assert!(!results.cancellation_flag);
}

use disk_census::discovery::worker_count;
use disk_census::discovery::DirectoryWalker;
use disk_census::estimator::SizeEstimator;
use disk_census::estimator::MIN_ESTIMATE;
use disk_census::paths::ScanPath;
use disk_census::scan::DirectoryEntry;

fn path(parts: &[&str]) -> ScanPath {
    ScanPath::new("/".to_string(), parts.iter().map(|p| p.to_string()).collect())
}

fn file(name: &str, size: Option<u64>) -> DirectoryEntry {
    DirectoryEntry {
        name: name.to_string(),
        extension: String::new(),
        is_file: true,
        is_dir: false,
        size,
    }
}

fn subdir(name: &str) -> DirectoryEntry {
    DirectoryEntry {
        name: name.to_string(),
        extension: String::new(),
        is_file: false,
        is_dir: true,
        size: None,
    }
}

fn entries_of(dir: &ScanPath) -> Option<Vec<DirectoryEntry>> {
    match dir.to_text().as_str() {
        "/r" => Some(vec![file("top.txt", Some(4)), subdir("a"), subdir("b"), subdir("locked")]),
        "/r/a" => Some(vec![subdir("x"), file("x.bin", None)]),
        "/r/b" => Some(vec![subdir("y"), file("notes", Some(1)), subdir("z")]),
        "/r/locked" => None,
        _ => Some(vec![]),
    }
}

#[test]
fn the_walk_visits_each_directory_once() {
    let mut walker = DirectoryWalker::new(path(&["r"]));
    let mut visited = Vec::new();
    while let Some(dir) = walker.next_directory(false) {
        if let Some(entries) = entries_of(&dir) {
            walker.take_listing(&dir, &entries);
        }
        visited.push(dir.to_text());
    }
    assert_eq!(visited, vec!["/r", "/r/locked", "/r/b", "/r/b/z", "/r/b/y", "/r/a", "/r/a/x"]);
    assert_eq!(walker.pending(), 0);
}

#[test]
fn the_walk_takes_the_directories_of_a_listing_and_nothing_else() {
    let mut walker = DirectoryWalker::new(path(&["r"]));
    let root = walker.next_directory(false).expect("the root");
    let listing = vec![
        file("a.txt", Some(1)),
        subdir("one"),
        DirectoryEntry {
            name: "socket".to_string(),
            extension: String::new(),
            is_file: false,
            is_dir: false,
            size: None,
        },
        subdir("two"),
        file("b.txt", None),
    ];
    walker.take_listing(&root, &listing);
    let waiting: Vec<String> = walker.stack.iter().map(|p| p.to_text()).collect();
    assert_eq!(waiting, vec!["/r/one", "/r/two"]);
    walker.take_listing(&path(&["r", "one"]), &vec![file("only", Some(3))]);
    assert_eq!(walker.pending(), 2);
}

#[test]
fn a_cancelled_walk_is_over_at_once() {
    let mut walker = DirectoryWalker::new(path(&["r"]));
    let root = walker.next_directory(false).expect("the root");
    walker.take_listing(&root, &entries_of(&root).expect("readable"));
    assert_eq!(walker.pending(), 3);
    assert!(walker.next_directory(true).is_none());
    assert_eq!(walker.pending(), 0);
    assert!(walker.next_directory(false).is_none());
}

#[test]
fn the_number_of_workers_is_between_two_and_eight() {
    assert_eq!(worker_count(None), 4);
    assert_eq!(worker_count(Some(0)), 2);
    assert_eq!(worker_count(Some(1)), 2);
    assert_eq!(worker_count(Some(2)), 2);
    assert_eq!(worker_count(Some(6)), 6);
    assert_eq!(worker_count(Some(8)), 8);
    assert_eq!(worker_count(Some(64)), 8);
}

#[test]
fn the_estimate_is_never_below_its_floor() {
    let mut estimator = SizeEstimator::new(path(&["r"]));
    assert_eq!(estimator.estimate(), MIN_ESTIMATE);
    let dir = estimator.next_directory().expect("the root");
    estimator.record_sample(&dir, &vec![file("a", Some(10)), file("b", None)]);
    assert_eq!(estimator.total_size, 10);
    assert_eq!(estimator.estimate(), 1_000_000);
    assert!(estimator.next_directory().is_none());
}

#[test]
fn a_dense_directory_counts_three_times() {
    let mut estimator = SizeEstimator::new(path(&["r"]));
    let dir = estimator.next_directory().expect("the root");
    let eleven: Vec<DirectoryEntry> =
        (0..11).map(|i| file(&format!("f{}", i), Some(100_000))).collect();
    estimator.record_sample(&dir, &eleven);
    assert_eq!(estimator.total_size, 3_300_000);
    assert_eq!(estimator.estimate(), 3_300_000);
    let ten: Vec<DirectoryEntry> = (0..10).map(|i| file(&format!("g{}", i), Some(100_000))).collect();
    estimator.record_sample(&dir, &ten);
    assert_eq!(estimator.total_size, 4_300_000);
    assert_eq!(estimator.dirs_sampled, 2);
}

#[test]
fn only_the_first_fifty_entries_are_sampled() {
    let mut estimator = SizeEstimator::new(path(&["r"]));
    let dir = estimator.next_directory().expect("the root");
    let mut entries: Vec<DirectoryEntry> = (0..50).map(|i| file(&format!("f{}", i), Some(1))).collect();
    entries.push(file("late", Some(1_000_000)));
    entries.push(subdir("late-dir"));
    estimator.record_sample(&dir, &entries);
    assert_eq!(estimator.total_size, 150);
    assert!(estimator.queue.is_empty());
}

#[test]
fn subdirectories_are_sampled_breadth_first() {
    let mut estimator = SizeEstimator::new(path(&["r"]));
    let root = estimator.next_directory().expect("the root");
    estimator.record_sample(&root, &vec![subdir("a"), file("f", Some(5)), subdir("b")]);
    let a = estimator.next_directory().expect("a");
    assert_eq!(a.to_text(), "/r/a");
    estimator.record_sample(&a, &vec![subdir("deep")]);
    let b = estimator.next_directory().expect("b");
    assert_eq!(b.to_text(), "/r/b");
    estimator.record_sample(&b, &vec![]);
    assert_eq!(estimator.next_directory().expect("deep").to_text(), "/r/a/deep");
    assert_eq!(estimator.total_size, 5);
}

#[test]
fn sampling_stops_after_twenty_directories() {
    let mut estimator = SizeEstimator::new(path(&["r"]));
    let mut sampled = 0;
    while let Some(dir) = estimator.next_directory() {
        estimator.record_sample(&dir, &vec![subdir("a"), subdir("b"), file("f", Some(1))]);
        sampled += 1;
    }
    assert_eq!(sampled, 20);
    assert_eq!(estimator.total_size, 20);
    assert_eq!(estimator.queue.len(), 21);
}

#[test]
fn the_queue_holds_at_most_a_hundred() {
    let mut estimator = SizeEstimator::new(path(&["r"]));
    let root = estimator.next_directory().expect("the root");
    let many: Vec<DirectoryEntry> = (0..50).map(|i| subdir(&format!("d{}", i))).collect();
    estimator.record_sample(&root, &many);
    assert_eq!(estimator.queue.len(), 50);
    let first = estimator.next_directory().expect("first");
    estimator.record_sample(&first, &many);
    assert_eq!(estimator.queue.len(), 99);
    let second = estimator.next_directory().expect("second");
    estimator.record_sample(&second, &many);
    assert_eq!(estimator.queue.len(), 100);
}

#[test]
fn a_huge_sample_stops_at_the_top() {
    let mut estimator = SizeEstimator::new(path(&["r"]));
    let dir = estimator.next_directory().expect("the root");
    let eleven: Vec<DirectoryEntry> =
        (0..11).map(|i| file(&format!("f{}", i), Some(u64::MAX / 4))).collect();
    estimator.record_sample(&dir, &eleven);
    assert_eq!(estimator.total_size, u64::MAX);
    assert_eq!(estimator.estimate(), u64::MAX);
}

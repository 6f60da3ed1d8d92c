use disk_census::counters::AtomicCounters;
use disk_census::errors::CommandError;
use disk_census::folders::calculate_recursive_folder_data;
use disk_census::paths::ScanPath;
use disk_census::scan::DirectoryEntry;
use disk_census::worker::entry_step;
use disk_census::worker::measure_census;
use disk_census::worker::next_step;
use disk_census::worker::worker_thread_optimized;
use disk_census::worker::DirectoryListing;
use disk_census::worker::WorkerStep;

fn path(parts: &[&str]) -> ScanPath {
    ScanPath::new("/".to_string(), parts.iter().map(|p| p.to_string()).collect())
}

fn file(name: &str, extension: &str, size: u64) -> DirectoryEntry {
    DirectoryEntry {
        name: name.to_string(),
        extension: extension.to_string(),
        is_file: true,
        is_dir: false,
        size: Some(size),
    }
}

fn listing(parts: &[&str], entries: Vec<DirectoryEntry>) -> DirectoryListing {
    DirectoryListing { path: path(parts), entries: Some(entries) }
}

fn locked(parts: &[&str]) -> DirectoryListing {
    DirectoryListing { path: path(parts), entries: None }
}

fn siblings(with_locked: bool) -> Vec<DirectoryListing> {
    let mut all = vec![
        listing(&["r"], vec![file("top.txt", "txt", 7)]),
        listing(&["r", "left"], vec![file("l.png", "png", 200_000), file("l2.png", "png", 1)]),
    ];
    if with_locked {
        all.push(locked(&["r", "secret"]));
    }
    all.push(listing(&["r", "right"], vec![file("r.zip", "zip", 300_000)]));
    all
}

fn folder_totals(listings: &Vec<DirectoryListing>) -> Vec<(String, u64, u32)> {
    let mut counters = AtomicCounters::new();
    let (result, _) = worker_thread_optimized(listings, &mut counters, 0).expect("fits");
    calculate_recursive_folder_data(result.folders)
        .iter()
        .map(|f| (f.path.to_text(), f.size, f.file_count))
        .collect()
}

#[test]
fn a_worker_gathers_its_directories() {
    let mut counters = AtomicCounters::new();
    let (result, events) =
        worker_thread_optimized(&siblings(false), &mut counters, 0).expect("fits");
    assert_eq!(counters.get_values(), (4, 500_008, 3));
    assert_eq!(counters.current_path, "/r/right");
    let kept: Vec<(String, u64, String)> =
        result.files.iter().map(|f| (f.path.to_text(), f.size, f.file_type.clone())).collect();
    assert_eq!(
        kept,
        vec![
            ("/r/left/l.png".to_string(), 200_000, "Images".to_string()),
            ("/r/right/r.zip".to_string(), 300_000, "Archives".to_string()),
        ]
    );
    let records: Vec<(String, u64, u32)> =
        result.folders.iter().map(|f| (f.path.to_text(), f.size, f.file_count)).collect();
    assert_eq!(
        records,
        vec![
            ("/r".to_string(), 7, 1),
            ("/r/left".to_string(), 200_001, 2),
            ("/r/right".to_string(), 300_000, 1),
        ]
    );
    assert_eq!(result.file_type_distribution.get("Images"), (200_001, 2));
    assert_eq!(result.file_type_distribution.get("Documents"), (7, 1));
    assert_eq!(result.file_type_distribution.total_size(), 500_008);
    assert!(events.is_empty());
}

#[test]
fn an_unreadable_directory_leaves_its_siblings_correct() {
    let mut with = AtomicCounters::new();
    let (locked_result, _) = worker_thread_optimized(&siblings(true), &mut with, 0).expect("fits");
    let mut without = AtomicCounters::new();
    let (open_result, _) =
        worker_thread_optimized(&siblings(false), &mut without, 0).expect("fits");
    assert_eq!(with.get_values(), without.get_values());
    assert_eq!(with.get_values(), (4, 500_008, 3));
    assert_eq!(locked_result.files.len(), open_result.files.len());
    assert_eq!(
        locked_result.file_type_distribution.total_size(),
        open_result.file_type_distribution.total_size()
    );
    let totals = folder_totals(&siblings(true));
    assert_eq!(totals, folder_totals(&siblings(false)));
    assert_eq!(
        totals,
        vec![
            ("/r".to_string(), 500_008, 4),
            ("/r/left".to_string(), 200_001, 2),
            ("/r/right".to_string(), 300_000, 1),
        ]
    );
}

#[test]
fn a_worker_without_directories_gathers_nothing() {
    let mut counters = AtomicCounters::new();
    let (result, events) = worker_thread_optimized(&Vec::new(), &mut counters, 5).expect("fits");
    assert!(result.files.is_empty());
    assert!(result.folders.is_empty());
    assert!(events.is_empty());
    assert_eq!(counters.get_values(), (0, 0, 0));
    assert_eq!(counters.current_path, "Starting...");
}

#[test]
fn a_share_that_does_not_fit_fails_and_leaves_the_counters() {
    let listings = vec![
        listing(&["x"], vec![file("a", "", u64::MAX - 1)]),
        listing(&["y"], vec![file("b", "", 2)]),
    ];
    assert_eq!(measure_census(&listings), None);
    let mut counters = AtomicCounters::new();
    let outcome = worker_thread_optimized(&listings, &mut counters, 0);
    assert!(matches!(outcome, Err(CommandError::ScanFailed(_))));
    assert_eq!(counters.get_values(), (0, 0, 0));
}

#[test]
fn measure_census_adds_up_the_readable_directories() {
    assert_eq!(measure_census(&siblings(true)), Some((500_008, 4)));
    assert_eq!(measure_census(&Vec::new()), Some((0, 0)));
}

#[test]
fn progress_runs_on_from_one_directory_to_the_next() {
    let listings = vec![
        listing(&["p"], vec![file("a", "", 4), file("b", "", 4)]),
        listing(&["p", "q"], vec![file("c", "", 4), file("d", "", 500)]),
    ];
    let mut counters = AtomicCounters::new();
    let (_, events) = worker_thread_optimized(&listings, &mut counters, 1000).expect("fits");
    let seen: Vec<(u32, u64, u32, String, u32)> = events
        .iter()
        .map(|e| {
            (e.files_analyzed, e.total_size, e.folders_analyzed, e.current_path.clone(), e.progress_permille)
        })
        .collect();
    assert_eq!(
        seen,
        vec![(3, 12, 2, "/p/q".to_string(), 12), (4, 512, 2, "/p/q".to_string(), 512)]
    );
}

#[test]
fn a_worker_stops_when_asked_or_when_the_queue_is_closed() {
    let readable = listing(&["r"], vec![file("top.txt", "txt", 7)]);
    let unreadable = locked(&["r", "secret"]);
    assert_eq!(next_step(true, None), WorkerStep::Stop);
    assert_eq!(next_step(true, Some(&readable)), WorkerStep::Stop);
    assert_eq!(next_step(true, Some(&unreadable)), WorkerStep::Stop);
    assert_eq!(next_step(false, None), WorkerStep::Stop);
}

#[test]
fn a_worker_passes_over_what_it_cannot_read_and_scans_the_rest() {
    let readable = listing(&["r"], vec![file("top.txt", "txt", 7)]);
    let empty = listing(&["r", "empty"], vec![]);
    let unreadable = locked(&["r", "secret"]);
    assert_eq!(next_step(false, Some(&unreadable)), WorkerStep::Skip);
    assert_eq!(next_step(false, Some(&readable)), WorkerStep::Scan);
    assert_eq!(next_step(false, Some(&empty)), WorkerStep::Scan);
}

#[test]
fn a_worker_decides_entry_by_entry() {
    assert_eq!(entry_step(true, true), WorkerStep::Stop);
    assert_eq!(entry_step(true, false), WorkerStep::Stop);
    assert_eq!(entry_step(false, false), WorkerStep::Skip);
    assert_eq!(entry_step(false, true), WorkerStep::Scan);
}

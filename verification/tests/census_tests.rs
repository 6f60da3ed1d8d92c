use disk_census::counters::AtomicCounters;
use disk_census::paths::ScanPath;
use disk_census::queries::get_folders;
use disk_census::queries::get_largest_files;
use disk_census::results::ScanResults;
use disk_census::scan::DirectoryEntry;
use disk_census::session::finish_scan;
use disk_census::session::start_scan;
use disk_census::worker::worker_thread_optimized;
use disk_census::worker::DirectoryListing;

fn dir(parts: &[&str]) -> ScanPath {
    ScanPath::new("/".to_string(), parts.iter().map(|p| p.to_string()).collect())
}

fn entry(name: &str, extension: &str, size: u64) -> DirectoryEntry {
    DirectoryEntry {
        name: name.to_string(),
        extension: extension.to_string(),
        is_file: true,
        is_dir: false,
        size: Some(size),
    }
}

fn read(parts: &[&str], entries: Vec<DirectoryEntry>) -> DirectoryListing {
    DirectoryListing { path: dir(parts), entries: Some(entries) }
}

fn unreadable(parts: &[&str]) -> DirectoryListing {
    DirectoryListing { path: dir(parts), entries: None }
}

fn home(with_locked: bool) -> Vec<DirectoryListing> {
    let mut all = vec![
        read(&["home"], vec![entry("notes.txt", "txt", 400)]),
        read(&["home", "b"], vec![entry("one.jpg", "jpg", 100), entry("two.png", "PNG", 200)]),
    ];
    if with_locked {
        all.push(unreadable(&["home", "locked"]));
    }
    all.push(read(&["home", "c"], vec![entry("song.mp3", "mp3", 300)]));
    all.push(read(&["home", "b", "d"], vec![entry("film.mkv", "mkv", 900_000)]));
    all.push(read(&["home", "c", "deep"], vec![entry("disk.iso", "iso", 800_000)]));
    all.push(read(&["home", "c", "deep", "er"], vec![entry("a.zip", "zip", 800_000)]));
    all
}

fn whole_scan(listings: Vec<DirectoryListing>, workers: usize, limit: u32) -> ScanResults {
    let mut state = ScanResults::default();
    start_scan(&mut state, "/home", false, true, true).expect("started");
    let mut shares: Vec<Vec<DirectoryListing>> = (0..workers).map(|_| Vec::new()).collect();
    for (i, listing) in listings.into_iter().enumerate() {
        shares[(i * 5 + 1) % workers].push(listing);
    }
    let mut counters = AtomicCounters::new();
    let mut parts = Vec::new();
    for share in &shares {
        let (part, _) = worker_thread_optimized(share, &mut counters, 2_000_000).expect("fits");
        parts.push(part);
    }
    let ended = finish_scan(&mut state, parts, true, 9, 2_000_000, limit);
    ended.outcome.expect("the scan went through");
    let event = ended.event.expect("the closing event");
    assert_eq!(event.current_path, "Scan completed!");
    assert_eq!(event.progress_permille, 1000);
    assert_eq!(event.total_size, state.total_size);
    assert_eq!(event.files_analyzed, state.total_files);
    assert_eq!(event.folders_analyzed, state.total_folders);
    state
}

fn folders_of(results: &ScanResults) -> Vec<(String, u64, u32)> {
    results.all_folders.iter().map(|f| (f.path.to_text(), f.size, f.file_count)).collect()
}

#[test]
fn every_folder_of_a_scan_has_the_totals_of_its_subtree() {
    for workers in [1, 2, 3, 8] {
        let results = whole_scan(home(false), workers, 20);
        assert_eq!(
            folders_of(&results),
            vec![
                ("/home".to_string(), 2_501_000, 7),
                ("/home/b".to_string(), 900_300, 3),
                ("/home/b/d".to_string(), 900_000, 1),
                ("/home/c".to_string(), 1_600_300, 3),
                ("/home/c/deep".to_string(), 1_600_000, 2),
                ("/home/c/deep/er".to_string(), 800_000, 1),
            ]
        );
        assert_eq!((results.total_files, results.total_size, results.total_folders), (7, 2_501_000, 6));
        assert_eq!(results.scan_path, "/home");
        assert_eq!(results.scan_time_millis, 9);
    }
}

#[test]
fn an_unreadable_directory_takes_nothing_from_the_rest_of_the_scan() {
    for workers in [1, 4] {
        let with = whole_scan(home(true), workers, 20);
        let without = whole_scan(home(false), workers, 20);
        assert_eq!((with.total_files, with.total_size), (7, 2_501_000));
        assert_eq!((with.total_files, with.total_size), (without.total_files, without.total_size));
        assert_eq!(with.total_folders, without.total_folders);
        assert_eq!(folders_of(&with), folders_of(&without));
        for category in ["Images", "Audio Files", "Documents", "Other", "Video Files", "Archives"] {
            assert_eq!(
                with.file_type_distribution.get(category),
                without.file_type_distribution.get(category)
            );
        }
        assert_eq!(with.file_type_distribution.get("Images"), (300, 2));
        assert_eq!(with.file_type_distribution.get("Archives"), (800_000, 1));
    }
}

#[test]
fn the_largest_files_of_a_scan_are_listed_in_falling_order() {
    for workers in [1, 3] {
        let results = whole_scan(home(false), workers, 2);
        let items = get_largest_files(&results).expect("few enough to number");
        let shown: Vec<(u32, String, String, u64)> =
            items.into_iter().map(|i| (i.id, i.name, i.path, i.size)).collect();
        assert_eq!(shown.len(), 2);
        assert_eq!(shown[0], (1, "film.mkv".to_string(), "/home/b/d".to_string(), 900_000));
        assert_eq!(shown[1].0, 2);
        assert_eq!(shown[1].3, 800_000);
        assert!(shown[0].3 >= shown[1].3);
    }
    let all = whole_scan(home(false), 2, 20);
    let sizes: Vec<u64> =
        get_largest_files(&all).expect("few enough to number").iter().map(|i| i.size).collect();
    assert_eq!(sizes, vec![900_000, 800_000, 800_000]);
}

#[test]
fn the_folders_of_a_scan_are_numbered_in_the_order_of_their_paths() {
    let results = whole_scan(home(true), 3, 20);
    let items = get_folders(&results).expect("few enough to number");
    let shown: Vec<(u32, String, String)> = items.into_iter().map(|i| (i.id, i.name, i.path)).collect();
    assert_eq!(
        shown,
        vec![
            (1, "home".to_string(), "/home".to_string()),
            (2, "b".to_string(), "/home/b".to_string()),
            (3, "d".to_string(), "/home/b/d".to_string()),
            (4, "c".to_string(), "/home/c".to_string()),
            (5, "deep".to_string(), "/home/c/deep".to_string()),
            (6, "er".to_string(), "/home/c/deep/er".to_string()),
        ]
    );
}

fn gathered(listings: Vec<DirectoryListing>, workers: usize) -> (Vec<(String, u64, String)>, Vec<String>) {
    let mut shares: Vec<Vec<DirectoryListing>> = (0..workers).map(|_| Vec::new()).collect();
    for (i, listing) in listings.into_iter().enumerate() {
        shares[(i * 3 + 2) % workers].push(listing);
    }
    let mut counters = AtomicCounters::new();
    let mut files = Vec::new();
    let mut folders = Vec::new();
    for share in &shares {
        let (part, _) = worker_thread_optimized(share, &mut counters, 2_000_000).expect("fits");
        for f in part.files {
            files.push((f.path.to_text(), f.size, f.file_type));
        }
        for f in part.folders {
            folders.push(f.path.to_text());
        }
    }
    files.sort();
    (files, folders)
}

#[test]
fn the_workers_keep_the_same_files_however_the_directories_are_shared_out() {
    let (one, _) = gathered(home(true), 1);
    assert_eq!(
        one,
        vec![
            ("/home/b/d/film.mkv".to_string(), 900_000, "Video Files".to_string()),
            ("/home/c/deep/disk.iso".to_string(), 800_000, "Other".to_string()),
            ("/home/c/deep/er/a.zip".to_string(), 800_000, "Archives".to_string()),
        ]
    );
    for workers in [2, 3, 8] {
        let (files, mut folders) = gathered(home(true), workers);
        assert_eq!(files, one);
        let found = folders.len();
        folders.sort();
        folders.dedup();
        assert_eq!(folders.len(), found);
        assert_eq!(found, 6);
    }
}

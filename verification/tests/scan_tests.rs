use disk_census::counters::AtomicCounters;
use disk_census::errors::CommandError;
use disk_census::histogram::FileTypeHistogram;
use disk_census::models::ScannedFile;
use disk_census::models::ScannedFolder;
use disk_census::paths::ScanPath;
use disk_census::progress::ProgressThrottle;
use disk_census::progress::progress_permille;
use disk_census::scan::DirectoryEntry;
use disk_census::scan::MIN_FILE_SIZE_THRESHOLD;
use disk_census::scan::measure_directory;
use disk_census::scan::record_classified_file;
use disk_census::scan::record_file;
use disk_census::scan::scan_entries;
use disk_census::scan::scan_single_directory_optimized;

fn dir(parts: &[&str]) -> ScanPath {
    ScanPath::new("/".to_string(), parts.iter().map(|p| p.to_string()).collect())
}

fn file(name: &str, extension: &str, size: u64) -> DirectoryEntry {
    DirectoryEntry {
        name: name.to_string(),
        extension: extension.to_string(),
        is_file: true,
        is_dir: false,
        size: Some(size),
    }
}

fn subdir(name: &str) -> DirectoryEntry {
    DirectoryEntry {
        name: name.to_string(),
        extension: String::new(),
        is_file: false,
        is_dir: true,
        size: Some(4096),
    }
}

fn unreadable(name: &str) -> DirectoryEntry {
    DirectoryEntry {
        name: name.to_string(),
        extension: "txt".to_string(),
        is_file: true,
        is_dir: false,
        size: None,
    }
}

#[test]
fn a_directory_is_taken_into_the_books() {
    let entries = vec![
        file("movie.MP4", "MP4", 200_000),
        file("notes.txt", "txt", 10),
        subdir("inner"),
        unreadable("gone.txt"),
        file("photo.jpg", "jpg", 100_000),
        file("big.bin", "bin", 100_001),
    ];
    let mut files: Vec<ScannedFile> = Vec::new();
    let mut folders: Vec<ScannedFolder> = Vec::new();
    let mut histogram = FileTypeHistogram::new();
    let mut counters = AtomicCounters::new();
    let mut throttle = ProgressThrottle::new();
    let events = scan_entries(
        &dir(&["data"]),
        &entries,
        &mut files,
        &mut folders,
        &mut histogram,
        &mut counters,
        0,
        &mut throttle,
    )
    .expect("the directory fits");

    assert_eq!(counters.get_values(), (4, 400_011, 1));
    assert_eq!(counters.current_path, "/data");

    assert_eq!(folders.len(), 1);
    assert_eq!(folders[0].name, "data");
    assert_eq!(folders[0].path.to_text(), "/data");
    assert_eq!(folders[0].size, 400_011);
    assert_eq!(folders[0].file_count, 4);

    assert_eq!(files.len(), 2);
    assert_eq!(files[0].name, "movie.MP4");
    assert_eq!(files[0].path.to_text(), "/data/movie.MP4");
    assert_eq!(files[0].size, 200_000);
    assert_eq!(files[0].file_type, "Video Files");
    assert_eq!(files[0].extension, "mp4");
    assert_eq!(files[1].name, "big.bin");
    assert_eq!(files[1].file_type, "Other");

    assert_eq!(histogram.get("Video Files"), (200_000, 1));
    assert_eq!(histogram.get("Documents"), (10, 1));
    assert_eq!(histogram.get("Images"), (100_000, 1));
    assert_eq!(histogram.get("Other"), (100_001, 1));
    assert_eq!(histogram.total_size(), 400_011);
    assert_eq!(histogram.total_count(), 4);

    assert!(events.is_empty());
    assert_eq!(throttle.files_since_emit, 4);
    assert_eq!(throttle.last_emit_permille, 0);
}

#[test]
fn a_file_at_the_threshold_is_counted_and_not_kept() {
    let entries = vec![file("edge.dat", "dat", MIN_FILE_SIZE_THRESHOLD)];
    let mut files: Vec<ScannedFile> = Vec::new();
    let mut folders: Vec<ScannedFolder> = Vec::new();
    let mut histogram = FileTypeHistogram::new();
    let mut counters = AtomicCounters::new();
    let mut throttle = ProgressThrottle::new();
    scan_entries(
        &dir(&["d"]),
        &entries,
        &mut files,
        &mut folders,
        &mut histogram,
        &mut counters,
        0,
        &mut throttle,
    )
    .expect("the directory fits");
    assert!(files.is_empty());
    assert_eq!(histogram.total_size(), 100_000);
    assert_eq!(counters.get_values(), (1, 100_000, 1));
}

#[test]
fn an_empty_directory_still_gets_a_record() {
    let mut files: Vec<ScannedFile> = Vec::new();
    let mut folders: Vec<ScannedFolder> = Vec::new();
    let mut histogram = FileTypeHistogram::new();
    let mut counters = AtomicCounters::new();
    let mut throttle = ProgressThrottle::new();
    scan_entries(
        &dir(&["empty"]),
        &Vec::new(),
        &mut files,
        &mut folders,
        &mut histogram,
        &mut counters,
        1_000_000,
        &mut throttle,
    )
    .expect("the directory fits");
    assert_eq!(folders.len(), 1);
    assert_eq!((folders[0].size, folders[0].file_count), (0, 0));
    assert_eq!(counters.get_values(), (0, 0, 1));
}

#[test]
fn progress_goes_out_when_it_has_moved_by_a_percent() {
    let entries = vec![
        file("a", "", 5),
        file("b", "", 5),
        file("c", "", 85),
        file("d", "", 1),
        file("e", "", 1000),
    ];
    let mut files: Vec<ScannedFile> = Vec::new();
    let mut folders: Vec<ScannedFolder> = Vec::new();
    let mut histogram = FileTypeHistogram::new();
    let mut counters = AtomicCounters::new();
    let mut throttle = ProgressThrottle::new();
    let events = scan_entries(
        &dir(&["p"]),
        &entries,
        &mut files,
        &mut folders,
        &mut histogram,
        &mut counters,
        1000,
        &mut throttle,
    )
    .expect("the directory fits");
    let seen: Vec<(u32, u64, u32, String, u32, u64)> = events
        .iter()
        .map(|e| {
            (
                e.files_analyzed,
                e.total_size,
                e.folders_analyzed,
                e.current_path.clone(),
                e.progress_permille,
                e.estimated_total_size,
            )
        })
        .collect();
    assert_eq!(
        seen,
        vec![
            (2, 10, 1, "/p".to_string(), 10, 1000),
            (3, 95, 1, "/p".to_string(), 95, 1000),
            (5, 1096, 1, "/p".to_string(), 999, 1000),
        ]
    );
    assert_eq!(throttle.files_since_emit, 0);
    assert_eq!(throttle.last_emit_permille, 999);
}

#[test]
fn progress_goes_out_after_five_hundred_files() {
    let entries: Vec<DirectoryEntry> = (0..1001).map(|i| file(&format!("f{}", i), "", 0)).collect();
    let mut files: Vec<ScannedFile> = Vec::new();
    let mut folders: Vec<ScannedFolder> = Vec::new();
    let mut histogram = FileTypeHistogram::new();
    let mut counters = AtomicCounters::new();
    let mut throttle = ProgressThrottle::new();
    let events = scan_entries(
        &dir(&["many"]),
        &entries,
        &mut files,
        &mut folders,
        &mut histogram,
        &mut counters,
        1_000_000,
        &mut throttle,
    )
    .expect("the directory fits");
    let counts: Vec<u32> = events.iter().map(|e| e.files_analyzed).collect();
    assert_eq!(counts, vec![500, 1000]);
    assert_eq!(throttle.files_since_emit, 1);
}

#[test]
fn a_directory_that_does_not_fit_changes_nothing() {
    let mut files: Vec<ScannedFile> = Vec::new();
    let mut folders: Vec<ScannedFolder> = Vec::new();
    let mut histogram = FileTypeHistogram::new();
    histogram.add("Other", u64::MAX - 10);
    let mut counters = AtomicCounters::new();
    let mut throttle = ProgressThrottle::new();
    let outcome = scan_entries(
        &dir(&["huge"]),
        &vec![file("a", "", 6), file("b", "", 5)],
        &mut files,
        &mut folders,
        &mut histogram,
        &mut counters,
        0,
        &mut throttle,
    );
    assert!(matches!(outcome, Err(CommandError::ScanFailed(_))));
    assert!(files.is_empty());
    assert!(folders.is_empty());
    assert_eq!(histogram.total_size(), u64::MAX - 10);
    assert_eq!(histogram.total_count(), 1);
    assert_eq!(counters.get_values(), (0, 0, 0));
    assert_eq!(counters.current_path, "Starting...");
    assert_eq!(throttle, ProgressThrottle::new());
}

#[test]
fn measure_directory_adds_up_the_files() {
    let entries = vec![file("a", "", 6), subdir("s"), unreadable("u"), file("b", "", 5)];
    assert_eq!(measure_directory(&entries), Some((11, 2)));
    assert_eq!(measure_directory(&Vec::new()), Some((0, 0)));
    let too_much = vec![file("a", "", u64::MAX), file("b", "", 1)];
    assert_eq!(measure_directory(&too_much), None);
}

#[test]
fn record_file_reports_when_due() {
    let mut files: Vec<ScannedFile> = Vec::new();
    let mut histogram = FileTypeHistogram::new();
    let mut counters = AtomicCounters::new();
    counters.record_folder();
    let mut throttle = ProgressThrottle::new();
    let quiet = record_file(
        &dir(&["r"]),
        &file("small.txt", "TXT", 5),
        &mut files,
        &mut histogram,
        &mut counters,
        1000,
        &mut throttle,
    );
    assert!(quiet.is_none());
    let event = record_file(
        &dir(&["r"]),
        &file("large.zip", "Zip", 500_000),
        &mut files,
        &mut histogram,
        &mut counters,
        1000,
        &mut throttle,
    )
    .expect("an event");
    assert_eq!(event.files_analyzed, 2);
    assert_eq!(event.total_size, 500_005);
    assert_eq!(event.folders_analyzed, 1);
    assert_eq!(event.current_path, "/r");
    assert_eq!(event.progress_permille, 999);
    assert_eq!(files.len(), 1);
    assert_eq!(files[0].file_type, "Archives");
    assert_eq!(files[0].extension, "zip");
    assert_eq!(histogram.get("Documents"), (5, 1));
    assert_eq!(histogram.get("Archives"), (500_000, 1));
}

#[test]
fn progress_is_a_share_of_the_estimate_below_the_whole() {
    assert_eq!(progress_permille(0, 1000), 0);
    assert_eq!(progress_permille(1, 1000), 1);
    assert_eq!(progress_permille(499, 1000), 499);
    assert_eq!(progress_permille(998, 1000), 998);
    assert_eq!(progress_permille(999, 1000), 999);
    assert_eq!(progress_permille(1000, 1000), 999);
    assert_eq!(progress_permille(u64::MAX, 1), 999);
    assert_eq!(progress_permille(1, 3), 333);
    assert_eq!(progress_permille(5, 0), 0);
}

#[test]
fn the_throttle_counts_files_and_watches_progress() {
    let mut t = ProgressThrottle::new();
    assert!(!t.observe(9));
    assert_eq!((t.files_since_emit, t.last_emit_permille), (1, 0));
    assert!(t.observe(10));
    assert_eq!((t.files_since_emit, t.last_emit_permille), (0, 10));
    assert!(t.observe(0));
    assert_eq!((t.files_since_emit, t.last_emit_permille), (0, 0));
    let mut quiet = ProgressThrottle { files_since_emit: 498, last_emit_permille: 7 };
    assert!(!quiet.observe(7));
    assert!(quiet.observe(7));
    assert_eq!((quiet.files_since_emit, quiet.last_emit_permille), (0, 7));
}

#[test]
fn a_classified_file_goes_under_the_category_of_its_extension() {
    let mut files: Vec<ScannedFile> = Vec::new();
    let mut histogram = FileTypeHistogram::new();
    let mut counters = AtomicCounters::new();
    let mut throttle = ProgressThrottle::new();
    let event = record_classified_file(
        &dir(&["m"]),
        "song.MP3",
        "mp3".to_string(),
        100_001,
        &mut files,
        &mut histogram,
        &mut counters,
        0,
        &mut throttle,
    );
    assert!(event.is_none());
    assert_eq!(files.len(), 1);
    assert_eq!(files[0].name, "song.MP3");
    assert_eq!(files[0].path.to_text(), "/m/song.MP3");
    assert_eq!(files[0].file_type, "Audio Files");
    assert_eq!(files[0].extension, "mp3");
    assert_eq!(histogram.get("Audio Files"), (100_001, 1));
    assert_eq!(counters.get_values(), (1, 100_001, 0));
    let upper = record_classified_file(
        &dir(&["m"]),
        "loud.MP3",
        "MP3".to_string(),
        7,
        &mut files,
        &mut histogram,
        &mut counters,
        0,
        &mut throttle,
    );
    assert!(upper.is_none());
    assert_eq!(histogram.get("Other"), (7, 1));
    assert_eq!(files.len(), 1);
}

fn books() -> (Vec<ScannedFile>, Vec<ScannedFolder>, FileTypeHistogram, AtomicCounters, ProgressThrottle)
{
    let mut files: Vec<ScannedFile> = Vec::new();
    let mut folders: Vec<ScannedFolder> = Vec::new();
    let mut histogram = FileTypeHistogram::new();
    let mut counters = AtomicCounters::new();
    let mut throttle = ProgressThrottle::new();
    scan_entries(
        &dir(&["first"]),
        &vec![file("kept.bin", "bin", 300_000), file("small.txt", "txt", 5)],
        &mut files,
        &mut folders,
        &mut histogram,
        &mut counters,
        1_000_000,
        &mut throttle,
    )
    .expect("the directory fits");
    (files, folders, histogram, counters, throttle)
}

fn state_of(
    files: &Vec<ScannedFile>,
    folders: &Vec<ScannedFolder>,
    histogram: &FileTypeHistogram,
    counters: &AtomicCounters,
    throttle: &ProgressThrottle,
) -> (usize, usize, (u64, u32), (u64, u32), (u32, u64, u32), String, (u32, u32)) {
    (
        files.len(),
        folders.len(),
        histogram.get("Other"),
        histogram.get("Documents"),
        counters.get_values(),
        counters.current_path.clone(),
        (throttle.files_since_emit, throttle.last_emit_permille),
    )
}

#[test]
fn a_directory_that_could_not_be_read_changes_nothing() {
    let (mut files, mut folders, mut histogram, mut counters, mut throttle) = books();
    let before = state_of(&files, &folders, &histogram, &counters, &throttle);
    assert_eq!(before.4, (2, 300_005, 1));
    let events = scan_single_directory_optimized(
        false,
        &dir(&["locked"]),
        None,
        &mut files,
        &mut folders,
        &mut histogram,
        &mut counters,
        1_000_000,
        &mut throttle,
    )
    .expect("no failure");
    assert!(events.is_empty());
    assert_eq!(state_of(&files, &folders, &histogram, &counters, &throttle), before);
    assert_eq!(counters.current_path, "/first");
}

#[test]
fn a_scan_that_was_asked_to_stop_takes_no_further_directory() {
    let (mut files, mut folders, mut histogram, mut counters, mut throttle) = books();
    let before = state_of(&files, &folders, &histogram, &counters, &throttle);
    let entries = vec![file("late.bin", "bin", 900_000)];
    for read in [Some(&entries), None] {
        let events = scan_single_directory_optimized(
            true,
            &dir(&["late"]),
            read,
            &mut files,
            &mut folders,
            &mut histogram,
            &mut counters,
            1_000_000,
            &mut throttle,
        )
        .expect("no failure");
        assert!(events.is_empty());
        assert_eq!(state_of(&files, &folders, &histogram, &counters, &throttle), before);
    }
}

#[test]
fn a_directory_that_was_read_is_taken_into_the_books_of_a_running_scan() {
    let (mut files, mut folders, mut histogram, mut counters, mut throttle) = books();
    let entries = vec![file("late.bin", "bin", 900_000), unreadable("gone.txt"), subdir("in")];
    scan_single_directory_optimized(
        false,
        &dir(&["late"]),
        Some(&entries),
        &mut files,
        &mut folders,
        &mut histogram,
        &mut counters,
        1_000_000,
        &mut throttle,
    )
    .expect("the directory fits");
    assert_eq!(counters.get_values(), (3, 1_200_005, 2));
    assert_eq!(counters.current_path, "/late");
    assert_eq!(files.len(), 2);
    assert_eq!(files[1].path.to_text(), "/late/late.bin");
    let records: Vec<(String, u64, u32)> =
        folders.iter().map(|f| (f.path.to_text(), f.size, f.file_count)).collect();
    assert_eq!(
        records,
        vec![("/first".to_string(), 300_005, 2), ("/late".to_string(), 900_000, 1)]
    );
    assert_eq!(histogram.get("Other"), (1_200_000, 2));
}

#[test]
fn a_directory_without_room_fails_whether_or_not_it_is_the_first() {
    let mut files: Vec<ScannedFile> = Vec::new();
    let mut folders: Vec<ScannedFolder> = Vec::new();
    let mut histogram = FileTypeHistogram::new();
    histogram.credit("Other", u64::MAX - 10, 1);
    let mut counters = AtomicCounters::new();
    let mut throttle = ProgressThrottle::new();
    let entries = vec![file("more.bin", "bin", 11)];
    let outcome = scan_single_directory_optimized(
        false,
        &dir(&["full"]),
        Some(&entries),
        &mut files,
        &mut folders,
        &mut histogram,
        &mut counters,
        0,
        &mut throttle,
    );
    assert!(matches!(outcome, Err(CommandError::ScanFailed(_))));
    assert_eq!(counters.get_values(), (0, 0, 0));
    assert!(folders.is_empty());
    assert_eq!(histogram.get("Other"), (u64::MAX - 10, 1));
}

use disk_census::cleanup::CleanupKind;
use disk_census::cleanup::backup_name;
use disk_census::cleanup::backup_text;
use disk_census::cleanup::cleanup_targets;
use disk_census::cleanup::get_cleanup_suggestions;
use disk_census::cleanup::temp_file;
use disk_census::cleanup::temp_marks;
use disk_census::models::ScannedFile;
use disk_census::models::ScannedFolder;
use disk_census::paths::PathSeparator;
use disk_census::paths::ScanPath;

fn path(parts: &[&str]) -> ScanPath {
    ScanPath::new("/".to_string(), parts.iter().map(|p| p.to_string()).collect())
}

fn kept(parts: &[&str], size: u64, extension: &str) -> ScannedFile {
    let p = path(parts);
    ScannedFile {
        name: p.file_name(),
        path: p,
        size,
        file_type: "Other".to_string(),
        extension: extension.to_string(),
    }
}

fn folder(parts: &[&str], size: u64, file_count: u32) -> ScannedFolder {
    let p = path(parts);
    ScannedFolder { name: p.file_name(), path: p, size, file_count }
}

fn files() -> Vec<ScannedFile> {
    vec![
        kept(&["data", "film.mkv"], 200_000_000, "mkv"),
        kept(&["data", "film-again.mkv"], 200_000_000, "mkv"),
        kept(&["data", "Report.BAK"], 50_000, "bak"),
        kept(&["data", "third.mkv"], 200_000_000, "mkv"),
        kept(&["var", "tmp", "cache.bin"], 70_000, "bin"),
        kept(&["data", "small-a"], 5_000, ""),
        kept(&["data", "small-b"], 5_000, ""),
        kept(&["data", "TMPfile"], 3, ""),
        kept(&["data", "scratch.tmp"], 4, "tmp"),
        kept(&["data", "notes.old"], 9, "old"),
    ]
}

fn folders() -> Vec<ScannedFolder> {
    vec![folder(&["data"], 10, 9), folder(&["data", "void"], 0, 0), folder(&["hollow"], 0, 0)]
}

fn ages() -> Vec<Option<u64>> {
    vec![Some(31_536_001), Some(31_536_000), Some(99_999_999), None]
}

#[test]
fn suggestions_come_with_the_largest_first() {
    let shown: Vec<(String, u64, u32, String)> = get_cleanup_suggestions(&files(), &folders(), &ages())
        .into_iter()
        .map(|s| (s.cleanup_type, s.size, s.count, s.color_class))
        .collect();
    assert_eq!(
        shown,
        vec![
            ("Potential Duplicate Files".to_string(), 400_000_000, 2, "blue".to_string()),
            ("Old Large Files (>1 year)".to_string(), 200_000_000, 1, "red".to_string()),
            ("Temporary Files".to_string(), 70_007, 3, "orange".to_string()),
            ("Backup Files".to_string(), 50_009, 2, "green".to_string()),
            ("Empty Folders".to_string(), 0, 2, "yellow".to_string()),
        ]
    );
}

#[test]
fn kinds_that_stand_for_nothing_are_left_out() {
    let plain = vec![kept(&["a", "one.bin"], 20_000, "bin"), kept(&["a", "two.bin"], 30_000, "bin")];
    let full = vec![folder(&["a"], 50_000, 2)];
    assert!(get_cleanup_suggestions(&plain, &full, &Vec::new()).is_empty());
    assert!(get_cleanup_suggestions(&Vec::new(), &Vec::new(), &Vec::new()).is_empty());
}

#[test]
fn targets_are_the_files_and_folders_a_suggestion_stands_for() {
    let duplicates = cleanup_targets("Potential Duplicate Files", &files(), &folders(), &ages());
    assert_eq!(duplicates.files, vec![1, 3]);
    assert!(duplicates.folders.is_empty());
    let backups = cleanup_targets("Backup Files", &files(), &folders(), &ages());
    assert_eq!(backups.files, vec![2, 9]);
    let empty = cleanup_targets("Empty Folders", &files(), &folders(), &ages());
    assert!(empty.files.is_empty());
    assert_eq!(empty.folders, vec![1, 2]);
    let old = cleanup_targets("Old Large Files (>1 year)", &files(), &folders(), &ages());
    assert_eq!(old.files, vec![0]);
    let temporary = cleanup_targets("Temporary Files", &files(), &folders(), &ages());
    assert_eq!(temporary.files, vec![4, 7, 8]);
    let unknown = cleanup_targets("Something Else", &files(), &folders(), &ages());
    assert!(unknown.files.is_empty());
    assert!(unknown.folders.is_empty());
}

#[test]
fn backup_names_are_told_by_their_marks() {
    assert!(backup_name("My Backup.zip"));
    assert!(backup_name("file.BAK"));
    assert!(backup_name("draft~"));
    assert!(backup_name("letter.OLD"));
    assert!(backup_name("Copy of x"));
    assert!(backup_name("template.doc"));
    assert!(!backup_name("older.txt"));
    assert!(!backup_name("report.pdf"));
    assert!(!backup_name(""));
}

#[test]
fn temporary_files_are_told_by_name_path_and_extension() {
    assert!(temp_file(&kept(&["a", "TMP123"], 1, "")));
    assert!(temp_file(&kept(&["a", "tempest.txt"], 1, "txt")));
    assert!(temp_file(&kept(&["a", "Temp", "x"], 1, "")));
    assert!(temp_file(&kept(&["tmp", "x"], 1, "")));
    assert!(temp_file(&kept(&["a", "x.tmp"], 1, "tmp")));
    assert!(temp_file(&kept(&["a", "x.temp"], 1, "temp")));
    assert!(!temp_file(&kept(&["a", "x.tmp.keep"], 1, "keep")));
    assert!(!temp_file(&kept(&["a", "tmpdir2", "x"], 1, "")));
    assert!(!temp_file(&kept(&["a", "x"], 1, "")));
}

#[test]
fn kinds_are_known_by_their_labels() {
    assert_eq!(CleanupKind::from_label("Potential Duplicate Files"), Some(CleanupKind::Duplicates));
    assert_eq!(CleanupKind::from_label("Backup Files"), Some(CleanupKind::Backups));
    assert_eq!(CleanupKind::from_label("Empty Folders"), Some(CleanupKind::EmptyFolders));
    assert_eq!(CleanupKind::from_label("Old Large Files (>1 year)"), Some(CleanupKind::OldLargeFiles));
    assert_eq!(CleanupKind::from_label("Temporary Files"), Some(CleanupKind::TemporaryFiles));
    assert_eq!(CleanupKind::from_label("backup files"), None);
}

#[test]
fn marks_are_read_off_text_in_lower_case() {
    assert!(backup_text("my backup"));
    assert!(backup_text("x.old"));
    assert!(!backup_text("x.OLD"));
    assert!(!backup_text("Backup"));
    assert!(temp_marks("tmpfile", "/a/tmpfile", ""));
    assert!(temp_marks("x", "/a/temp/x", ""));
    assert!(temp_marks("x", "c:\\tmp\\x", ""));
    assert!(temp_marks("x", "c:\\temp\\x", ""));
    assert!(temp_marks("x", "/a/x", "temp"));
    assert!(!temp_marks("x", "/a/tmp", ""));
    assert!(!temp_marks("x", "/a/x", "TMP"));
}

fn on_windows(parts: &[&str]) -> ScannedFile {
    let p = ScanPath::with_separator(
        "C:\\".to_string(),
        PathSeparator::Backslash,
        parts.iter().map(|p| p.to_string()).collect(),
    );
    ScannedFile {
        name: p.file_name(),
        path: p,
        size: 1,
        file_type: "Other".to_string(),
        extension: String::new(),
    }
}

#[test]
fn a_temporary_directory_is_told_on_a_path_written_with_backslashes() {
    assert!(temp_file(&on_windows(&["data", "Temp", "x"])));
    assert!(temp_file(&on_windows(&["TMP", "x"])));
    assert!(!temp_file(&on_windows(&["data", "tmpdir", "x"])));
    assert!(!temp_file(&on_windows(&["data", "x"])));
    assert!(temp_marks("x", "c:\\data\\temp\\x", ""));
    assert!(!temp_marks("x", "c:\\data/temp\\x", ""));
}

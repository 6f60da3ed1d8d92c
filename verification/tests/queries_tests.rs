use disk_census::errors::CommandError;
use disk_census::histogram::FileTypeHistogram;
use disk_census::models::ScannedFile;
use disk_census::models::ScannedFolder;
use disk_census::paths::ScanPath;
use disk_census::queries::file_by_id;
use disk_census::queries::free_space_for;
use disk_census::queries::get_all_folders;
use disk_census::queries::get_doughnut_data;
use disk_census::queries::get_file_type_distribution;
use disk_census::queries::get_folder_files;
use disk_census::queries::get_folders;
use disk_census::queries::get_growth_data;
use disk_census::queries::get_largest_files;
use disk_census::queries::get_pie_chart_data;
use disk_census::queries::get_trend_data;
use disk_census::queries::trash_info;
use disk_census::queries::DiskInfo;
use disk_census::results::ScanResults;
use disk_census::scan::DirectoryEntry;
use disk_census::worker::DirectoryListing;

fn path(parts: &[&str]) -> ScanPath {
    ScanPath::new("/".to_string(), parts.iter().map(|p| p.to_string()).collect())
}

fn kept(p: ScanPath, size: u64, file_type: &str, extension: &str) -> ScannedFile {
    ScannedFile {
        name: p.file_name(),
        path: p,
        size,
        file_type: file_type.to_string(),
        extension: extension.to_string(),
    }
}

fn with_size(total_size: u64) -> ScanResults {
    let mut results = ScanResults::default();
    results.total_size = total_size;
    results
}

fn with_histogram(shares: &[(&str, u64, u32)]) -> ScanResults {
    let mut histogram = FileTypeHistogram::new();
    for (category, size, count) in shares {
        histogram.credit(category, *size, *count);
    }
    let mut results = ScanResults::default();
    results.file_type_distribution = histogram;
    results
}

fn points(items: Vec<disk_census::models::GrowthDataItem>) -> Vec<(String, u32)> {
    items.into_iter().map(|p| (p.name, p.value)).collect()
}

fn named(values: &[(&str, u32)]) -> Vec<(String, u32)> {
    values.iter().map(|(n, v)| (n.to_string(), *v)).collect()
}

fn disk(mount_point: &str, available_space: u64) -> DiskInfo {
    DiskInfo { mount_point: mount_point.to_string(), available_space }
}

#[test]
fn largest_files_are_numbered_and_show_their_folder() {
    let mut results = ScanResults::default();
    results.largest_files = vec![
        kept(path(&["a", "b", "movie.mkv"]), 900, "Video Files", "mkv"),
        kept(path(&["top.iso"]), 800, "Other", "iso"),
        kept(ScanPath::new(String::new(), vec![]), 1, "Other", ""),
    ];
    let items = get_largest_files(&results).expect("few enough to number");
    let shown: Vec<(u32, String, String, u64, String, String)> = items
        .into_iter()
        .map(|i| (i.id, i.name, i.path, i.size, i.file_type, i.extension))
        .collect();
    assert_eq!(
        shown,
        vec![
            (
                1,
                "movie.mkv".to_string(),
                "/a/b".to_string(),
                900,
                "Video Files".to_string(),
                "mkv".to_string()
            ),
            (2, "top.iso".to_string(), "/".to_string(), 800, "Other".to_string(), "iso".to_string()),
            (3, "".to_string(), "".to_string(), 1, "Other".to_string(), "".to_string()),
        ]
    );
}

#[test]
fn folders_are_numbered_and_show_their_path() {
    let mut results = ScanResults::default();
    let list = || {
        vec![
            ScannedFolder { name: "a".to_string(), path: path(&["a"]), size: 30, file_count: 3 },
            ScannedFolder {
                name: "b".to_string(),
                path: path(&["a", "b"]),
                size: 10,
                file_count: 1,
            },
        ]
    };
    results.folders = list();
    results.all_folders = list();
    for items in [get_folders(&results), get_all_folders(&results)] {
        let shown: Vec<(u32, String, String, u64, u32)> =
            items.expect("few enough to number").into_iter().map(|i| (i.id, i.name, i.path, i.size, i.file_count)).collect();
        assert_eq!(
            shown,
            vec![
                (1, "a".to_string(), "/a".to_string(), 30, 3),
                (2, "b".to_string(), "/a/b".to_string(), 10, 1),
            ]
        );
    }
}

#[test]
fn files_are_found_by_their_number() {
    let mut results = ScanResults::default();
    results.largest_files = vec![
        kept(path(&["one"]), 9, "Other", ""),
        kept(path(&["two"]), 8, "Other", ""),
    ];
    assert_eq!(file_by_id(&results, 1).expect("first").name, "one");
    assert_eq!(file_by_id(&results, 2).expect("second").name, "two");
    match file_by_id(&results, 0) {
        Err(CommandError::InternalError(text)) => assert_eq!(text, "File with ID 0 not found"),
        other => panic!("unexpected: {:?}", other),
    }
    match file_by_id(&results, 3) {
        Err(CommandError::InternalError(text)) => assert_eq!(text, "File with ID 3 not found"),
        other => panic!("unexpected: {:?}", other),
    }
    match file_by_id(&results, 4_294_967_295) {
        Err(CommandError::InternalError(text)) => {
            assert_eq!(text, "File with ID 4294967295 not found")
        }
        other => panic!("unexpected: {:?}", other),
    }
}

#[test]
fn the_distribution_is_sorted_by_size_with_colors_by_place() {
    let results = with_histogram(&[
        ("Images", 10, 1),
        ("Other", 500, 7),
        ("Documents", 20, 2),
        ("Archives", 20, 1),
    ]);
    let shown: Vec<(String, u64, u32, String)> = get_file_type_distribution(&results)
        .into_iter()
        .map(|i| (i.file_type, i.size, i.count, i.color))
        .collect();
    assert_eq!(
        shown,
        vec![
            ("Other".to_string(), 500, 7, "#10b981".to_string()),
            ("Documents".to_string(), 20, 2, "#f59e0b".to_string()),
            ("Archives".to_string(), 20, 1, "#8b5cf6".to_string()),
            ("Images".to_string(), 10, 1, "#3b82f6".to_string()),
        ]
    );
}

#[test]
fn colors_come_round_again_after_eight() {
    let results = with_histogram(&[
        ("c0", 10, 1),
        ("c1", 9, 1),
        ("c2", 8, 1),
        ("c3", 7, 1),
        ("c4", 6, 1),
        ("c5", 5, 1),
        ("c6", 4, 1),
        ("c7", 3, 1),
        ("c8", 2, 1),
    ]);
    let colors: Vec<String> =
        get_file_type_distribution(&results).into_iter().map(|i| i.color).collect();
    assert_eq!(
        colors,
        vec![
            "#3b82f6", "#10b981", "#f59e0b", "#8b5cf6", "#ef4444", "#06b6d4", "#84cc16", "#f97316",
            "#3b82f6"
        ]
    );
}

#[test]
fn the_pie_shows_the_six_largest_categories_with_bytes() {
    let results = with_histogram(&[
        ("a", 1, 1),
        ("empty", 0, 3),
        ("b", 70, 1),
        ("c", 30, 1),
        ("d", 40, 1),
        ("e", 50, 1),
        ("f", 60, 1),
        ("g", 20, 1),
    ]);
    let shown: Vec<(String, u64, String)> =
        get_pie_chart_data(&results).into_iter().map(|i| (i.name, i.value, i.color)).collect();
    assert_eq!(
        shown,
        vec![
            ("b".to_string(), 70, "#f59e0b".to_string()),
            ("f".to_string(), 60, "#84cc16".to_string()),
            ("e".to_string(), 50, "#06b6d4".to_string()),
            ("d".to_string(), 40, "#ef4444".to_string()),
            ("c".to_string(), 30, "#8b5cf6".to_string()),
            ("g".to_string(), 20, "#f97316".to_string()),
        ]
    );
}

#[test]
fn the_doughnut_gathers_the_rest_as_other() {
    let results = with_histogram(&[("a", 1, 1), ("b", 70, 1), ("c", 30, 1), ("d", 40, 1), ("e", 5, 1)]);
    let shown: Vec<(String, u64, String)> =
        get_doughnut_data(&results).into_iter().map(|i| (i.name, i.value, i.color)).collect();
    assert_eq!(
        shown,
        vec![
            ("b".to_string(), 70, "#10b981".to_string()),
            ("d".to_string(), 40, "#8b5cf6".to_string()),
            ("c".to_string(), 30, "#f59e0b".to_string()),
            ("Other".to_string(), 6, "#6b7280".to_string()),
        ]
    );
}

#[test]
fn a_doughnut_of_three_has_no_other() {
    let results = with_histogram(&[("a", 1, 1), ("b", 70, 1), ("none", 0, 0), ("c", 30, 1)]);
    let names: Vec<String> = get_doughnut_data(&results).into_iter().map(|i| i.name).collect();
    assert_eq!(names, vec!["b".to_string(), "c".to_string(), "a".to_string()]);
    assert!(get_doughnut_data(&ScanResults::default()).is_empty());
    assert!(get_pie_chart_data(&ScanResults::default()).is_empty());
}

#[test]
fn the_trend_of_a_week() {
    let results = with_size(250_000_000_000);
    assert_eq!(
        points(get_trend_data(Some("7D".to_string()), &results)),
        named(&[
            ("Mon", 220),
            ("Tue", 225),
            ("Wed", 230),
            ("Thu", 235),
            ("Fri", 240),
            ("Sat", 245),
            ("Sun", 250)
        ])
    );
}

#[test]
fn the_trend_of_a_month_is_the_default() {
    let results = with_size(250_999_999_999);
    let month = named(&[("Week 1", 214), ("Week 2", 226), ("Week 3", 238), ("Week 4", 250)]);
    assert_eq!(points(get_trend_data(Some("30D".to_string()), &results)), month);
    assert_eq!(points(get_trend_data(None, &results)), month);
    assert_eq!(points(get_trend_data(Some("1Y".to_string()), &results)), month);
}

#[test]
fn the_trend_of_a_quarter() {
    let results = with_size(250_000_000_000);
    assert_eq!(
        points(get_trend_data(Some("90D".to_string()), &results)),
        named(&[("Jan", 200), ("Feb", 225), ("Mar", 250)])
    );
}

#[test]
fn a_small_size_never_goes_below_zero() {
    let results = with_size(3_000_000_000);
    assert_eq!(
        points(get_trend_data(Some("7D".to_string()), &results)),
        named(&[
            ("Mon", 0),
            ("Tue", 0),
            ("Wed", 0),
            ("Thu", 0),
            ("Fri", 1),
            ("Sat", 2),
            ("Sun", 3)
        ])
    );
    assert_eq!(
        points(get_growth_data(&results)),
        named(&[
            ("Jan 2025", 0),
            ("Feb 2025", 0),
            ("Mar 2025", 0),
            ("Apr 2025", 0),
            ("May 2025", 0),
            ("Jun 2025", 3)
        ])
    );
    assert_eq!(
        points(get_trend_data(None, &with_size(999_999_999))),
        named(&[("Week 1", 0), ("Week 2", 0), ("Week 3", 0), ("Week 4", 0)])
    );
}

#[test]
fn the_growth_of_half_a_year() {
    assert_eq!(
        points(get_growth_data(&with_size(250_000_000_000))),
        named(&[
            ("Jan 2025", 125),
            ("Feb 2025", 150),
            ("Mar 2025", 175),
            ("Apr 2025", 200),
            ("May 2025", 225),
            ("Jun 2025", 250)
        ])
    );
}

#[test]
fn the_largest_size_stays_in_range() {
    let all = points(get_growth_data(&with_size(u64::MAX)));
    assert_eq!(all[5], ("Jun 2025".to_string(), u32::MAX));
    assert_eq!(all[0], ("Jan 2025".to_string(), u32::MAX - 5 * (u32::MAX / 10)));
}

#[test]
fn free_space_is_that_of_the_volume_of_the_path() {
    let disks = vec![disk("/boot", 1), disk("/home", 50), disk("/", 100), disk("/home/me", 7)];
    assert_eq!(free_space_for("/home/me/docs", &disks), 50);
    assert_eq!(free_space_for("/boot", &disks), 1);
    assert_eq!(free_space_for("/var", &disks), 100);
    assert_eq!(free_space_for("relative", &disks), 100);
    assert_eq!(free_space_for("relative", &vec![disk("/mnt", 3)]), 0);
    assert_eq!(free_space_for("/x", &Vec::new()), 0);
}

#[test]
fn the_files_of_a_folder_are_listed_largest_first() {
    let entry = |name: &str, extension: &str, is_file: bool, size: Option<u64>| DirectoryEntry {
        name: name.to_string(),
        extension: extension.to_string(),
        is_file,
        is_dir: !is_file,
        size,
    };
    let folder = DirectoryListing {
        path: path(&["docs"]),
        entries: Some(vec![
            entry("a.TXT", "TXT", true, Some(5)),
            entry("sub", "", false, Some(4096)),
            entry("b.pdf", "pdf", true, Some(50)),
            entry("c", "", true, Some(5)),
        ]),
    };
    let shown: Vec<(u32, String, String, u64, String, String)> = get_folder_files(&folder)
        .expect("listed")
        .into_iter()
        .map(|i| (i.id, i.name, i.path, i.size, i.file_type, i.extension))
        .collect();
    assert_eq!(
        shown,
        vec![
            (
                2,
                "b.pdf".to_string(),
                "/docs/b.pdf".to_string(),
                50,
                "Documents".to_string(),
                "pdf".to_string()
            ),
            (
                1,
                "a.TXT".to_string(),
                "/docs/a.TXT".to_string(),
                5,
                "Documents".to_string(),
                "txt".to_string()
            ),
            (3, "c".to_string(), "/docs/c".to_string(), 5, "Other".to_string(), "".to_string()),
        ]
    );
}

#[test]
fn a_folder_that_cannot_be_read_is_reported() {
    let folder = DirectoryListing { path: path(&["locked", "away"]), entries: None };
    match get_folder_files(&folder) {
        Err(CommandError::CannotReadDirectory(p)) => assert_eq!(p, "/locked/away"),
        other => panic!("unexpected: {:?}", other.map(|v| v.len())),
    }
}

#[test]
fn a_file_without_metadata_is_reported() {
    let entry = |name: &str, size: Option<u64>| DirectoryEntry {
        name: name.to_string(),
        extension: String::new(),
        is_file: true,
        is_dir: false,
        size,
    };
    let folder = DirectoryListing {
        path: path(&["d"]),
        entries: Some(vec![entry("fine", Some(1)), entry("gone", None), entry("also", None)]),
    };
    match get_folder_files(&folder) {
        Err(CommandError::CannotGetMetadata(name)) => assert_eq!(name, "gone"),
        other => panic!("unexpected: {:?}", other.map(|v| v.len())),
    }
}

#[test]
fn the_trash_adds_up() {
    let info = trash_info(&vec![5, 10, 0, 85]);
    assert_eq!((info.size, info.count), (100, 4));
    let none = trash_info(&Vec::new());
    assert_eq!((none.size, none.count), (0, 0));
}

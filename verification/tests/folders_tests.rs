use disk_census::folders::calculate_recursive_folder_data;
use disk_census::folders::totals_fit;
use disk_census::models::ScannedFolder;
use disk_census::paths::ScanPath;

fn path(parts: &[&str]) -> ScanPath {
    ScanPath::new("/".to_string(), parts.iter().map(|p| p.to_string()).collect())
}

fn folder(parts: &[&str], size: u64, file_count: u32) -> ScannedFolder {
    let p = path(parts);
    ScannedFolder { name: p.file_name(), path: p, size, file_count }
}

fn summary(folders: &[ScannedFolder]) -> Vec<(String, String, u64, u32)> {
    folders.iter().map(|f| (f.path.to_text(), f.name.clone(), f.size, f.file_count)).collect()
}

#[test]
fn totals_cover_the_whole_subtree() {
    let input = vec![
        folder(&["a", "b"], 300, 2),
        folder(&["a", "c"], 300, 1),
        folder(&["a"], 400, 1),
        folder(&["a", "b", "d"], 50, 1),
    ];
    let out = calculate_recursive_folder_data(input);
    assert_eq!(
        summary(&out),
        vec![
            ("/a".to_string(), "a".to_string(), 1050, 5),
            ("/a/b".to_string(), "b".to_string(), 350, 3),
            ("/a/b/d".to_string(), "d".to_string(), 50, 1),
            ("/a/c".to_string(), "c".to_string(), 300, 1),
        ]
    );
}

#[test]
fn totals_reach_across_folders_that_were_not_reported() {
    let input = vec![folder(&["a"], 10, 1), folder(&["a", "x", "y", "z"], 5, 2)];
    let out = calculate_recursive_folder_data(input);
    assert_eq!(
        summary(&out),
        vec![
            ("/a".to_string(), "a".to_string(), 15, 3),
            ("/a/x/y/z".to_string(), "z".to_string(), 5, 2),
        ]
    );
}

#[test]
fn the_last_record_of_a_folder_counts() {
    let input = vec![folder(&["a"], 10, 1), folder(&["a", "b"], 7, 1), folder(&["a"], 100, 4)];
    let out = calculate_recursive_folder_data(input);
    assert_eq!(
        summary(&out),
        vec![
            ("/a".to_string(), "a".to_string(), 107, 5),
            ("/a/b".to_string(), "b".to_string(), 7, 1),
        ]
    );
}

#[test]
fn no_folders_give_no_totals() {
    assert!(calculate_recursive_folder_data(Vec::new()).is_empty());
}

#[test]
fn empty_folders_keep_zero_totals() {
    let input = vec![folder(&["e"], 0, 0), folder(&["f"], 3, 1)];
    let out = calculate_recursive_folder_data(input);
    assert_eq!(
        summary(&out),
        vec![("/e".to_string(), "e".to_string(), 0, 0), ("/f".to_string(), "f".to_string(), 3, 1)]
    );
}

#[test]
fn the_root_gathers_everything() {
    let input = vec![folder(&["b"], 2, 1), folder(&[], 1, 1), folder(&["a"], 4, 2)];
    let out = calculate_recursive_folder_data(input);
    assert_eq!(
        summary(&out),
        vec![
            ("/".to_string(), "/".to_string(), 7, 4),
            ("/a".to_string(), "a".to_string(), 4, 2),
            ("/b".to_string(), "b".to_string(), 2, 1),
        ]
    );
}

#[test]
fn siblings_with_a_common_prefix_stay_apart() {
    let input = vec![folder(&["ab"], 1, 1), folder(&["a"], 2, 1), folder(&["a", "b"], 4, 1)];
    let out = calculate_recursive_folder_data(input);
    assert_eq!(
        summary(&out),
        vec![
            ("/a".to_string(), "a".to_string(), 6, 2),
            ("/a/b".to_string(), "b".to_string(), 4, 1),
            ("/ab".to_string(), "ab".to_string(), 1, 1),
        ]
    );
}

#[test]
fn totals_fit_says_when_the_sums_are_in_range() {
    assert!(totals_fit(&vec![folder(&["a"], u64::MAX - 1, 1), folder(&["b"], 1, u32::MAX - 1)]));
    assert!(!totals_fit(&vec![folder(&["a"], u64::MAX, 1), folder(&["b"], 1, 1)]));
    assert!(!totals_fit(&vec![folder(&["a"], 1, u32::MAX), folder(&["b"], 1, 1)]));
}

#[test]
fn a_large_tree_folds_as_a_plain_count_does() {
    let mut input = Vec::new();
    let mut seed: u64 = 12345;
    let mut next = || {
        seed = seed.wrapping_mul(6364136223846793005).wrapping_add(1442695040888963407);
        (seed >> 33) as usize
    };
    let mut all: Vec<Vec<String>> = vec![vec![]];
    for i in 0..4000 {
        let parent = all[next() % all.len()].clone();
        let mut child = parent;
        child.push(format!("d{}", i % 37));
        all.push(child);
    }
    for (i, parts) in all.iter().enumerate() {
        let refs: Vec<&str> = parts.iter().map(|p| p.as_str()).collect();
        input.push(folder(&refs, (i as u64 % 11) * 3, (i % 5) as u32));
    }
    let mut latest: std::collections::HashMap<String, (u64, u32)> = std::collections::HashMap::new();
    for f in &input {
        latest.insert(f.path.to_text(), (f.size, f.file_count));
    }
    let direct: Vec<(ScanPath, u64, u32)> = latest
        .iter()
        .map(|(_, v)| v)
        .zip(latest.keys())
        .map(|(v, k)| {
            let parts: Vec<String> =
                k.split('/').filter(|p| !p.is_empty()).map(|p| p.to_string()).collect();
            (ScanPath::new("/".to_string(), parts), v.0, v.1)
        })
        .collect();
    let out = calculate_recursive_folder_data(input);
    assert_eq!(out.len(), latest.len());
    for pair in out.windows(2) {
        assert!(pair[0].path.precedes(&pair[1].path));
    }
    for record in out.iter().step_by(97) {
        let mut size = 0u64;
        let mut count = 0u32;
        for (p, s, c) in &direct {
            if p.is_within(&record.path) {
                size += s;
                count += c;
            }
        }
        assert_eq!((record.size, record.file_count), (size, count));
        assert_eq!(record.name, record.path.file_name());
    }
    let root = &out[0];
    assert_eq!(root.path.to_text(), "/");
    let everything: u64 = direct.iter().map(|d| d.1).sum();
    assert_eq!(root.size, everything);
}

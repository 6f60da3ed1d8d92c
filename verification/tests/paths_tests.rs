use disk_census::paths::PathRelation;
use disk_census::paths::PathSeparator;
use disk_census::paths::ScanPath;

fn path(root: &str, parts: &[&str]) -> ScanPath {
    ScanPath::new(root.to_string(), parts.iter().map(|p| p.to_string()).collect())
}

#[test]
fn text_joins_root_and_names() {
    assert_eq!(path("/", &["a", "b"]).to_text(), "/a/b");
    assert_eq!(path("", &["a", "b"]).to_text(), "a/b");
    assert_eq!(path("/", &[]).to_text(), "/");
    assert_eq!(path("", &[]).to_text(), "");
    assert_eq!(path("C:\\", &["Users", "me"]).to_text(), "C:\\Users/me");
}

#[test]
fn parent_drops_the_last_name() {
    let p = path("/", &["a", "b"]);
    let parent = p.parent().expect("a parent");
    assert!(parent.same_as(&path("/", &["a"])));
    let grandparent = parent.parent().expect("a parent");
    assert!(grandparent.same_as(&path("/", &[])));
    assert!(grandparent.parent().is_none());
    assert!(path("", &[]).parent().is_none());
}

#[test]
fn depth_counts_the_names_below_the_root() {
    assert_eq!(path("/", &[]).depth(), 0);
    assert_eq!(path("/", &["a"]).depth(), 1);
    assert_eq!(path("", &["a", "b", "c"]).depth(), 3);
}

#[test]
fn file_name_is_the_last_name_or_the_root() {
    assert_eq!(path("/", &["a", "b.txt"]).file_name(), "b.txt");
    assert_eq!(path("/", &[]).file_name(), "/");
}

#[test]
fn join_adds_a_name() {
    let child = path("/", &["a"]).join("b");
    assert!(child.same_as(&path("/", &["a", "b"])));
    assert_eq!(child.depth(), 2);
}

#[test]
fn within_means_same_or_below() {
    let a = path("/", &["a"]);
    let ab = path("/", &["a", "b"]);
    let abd = path("/", &["a", "b", "d"]);
    let ac = path("/", &["a", "c"]);
    let ab2 = path("/", &["a", "bb"]);
    assert!(a.is_within(&a));
    assert!(ab.is_within(&a));
    assert!(abd.is_within(&a));
    assert!(abd.is_within(&ab));
    assert!(!a.is_within(&ab));
    assert!(!ac.is_within(&ab));
    assert!(!ab2.is_within(&ab));
    assert!(!path("", &["a", "b"]).is_within(&a));
}

#[test]
fn same_as_compares_root_and_names() {
    assert!(path("/", &["a"]).same_as(&path("/", &["a"])));
    assert!(!path("/", &["a"]).same_as(&path("", &["a"])));
    assert!(!path("/", &["a"]).same_as(&path("/", &["a", "b"])));
    assert!(!path("/", &["a"]).same_as(&path("/", &["b"])));
}

#[test]
fn order_goes_name_by_name() {
    let a = path("/", &["a"]);
    let ab = path("/", &["a", "b"]);
    let a_dash = path("/", &["a-b"]);
    let b = path("/", &["b"]);
    assert!(a.precedes(&ab));
    assert!(!ab.precedes(&a));
    assert!(ab.precedes(&a_dash));
    assert!(a_dash.precedes(&b));
    assert!(!a.precedes(&a));
    assert!(path("", &["z"]).precedes(&path("/", &["a"])));
}

#[test]
fn duplicate_is_the_same_path() {
    let p = path("/", &["x", "y"]);
    assert!(p.duplicate().same_as(&p));
}

#[test]
fn relation_tells_before_same_and_after() {
    let a = path("/", &["a"]);
    let ab = path("/", &["a", "b"]);
    let b = path("/", &["b"]);
    assert_eq!(a.relation(&ab), PathRelation::Before);
    assert_eq!(ab.relation(&a), PathRelation::After);
    assert_eq!(a.relation(&path("/", &["a"])), PathRelation::Same);
    assert_eq!(ab.relation(&b), PathRelation::Before);
    assert_eq!(b.relation(&ab), PathRelation::After);
    assert_eq!(path("", &["a"]).relation(&a), PathRelation::Before);
    assert_eq!(a.relation(&path("", &["a"])), PathRelation::After);
}

#[test]
fn a_path_is_written_with_its_own_separator() {
    let names = |parts: &[&str]| parts.iter().map(|p| p.to_string()).collect::<Vec<String>>();
    let windows =
        ScanPath::with_separator("C:\\".to_string(), PathSeparator::Backslash, names(&["Users", "me"]));
    assert_eq!(windows.to_text(), "C:\\Users\\me");
    assert_eq!(windows.join("notes.txt").to_text(), "C:\\Users\\me\\notes.txt");
    assert_eq!(windows.parent().expect("a parent").to_text(), "C:\\Users");
    assert_eq!(windows.duplicate().to_text(), "C:\\Users\\me");
    let relative = ScanPath::with_separator(String::new(), PathSeparator::Backslash, names(&["a", "b"]));
    assert_eq!(relative.to_text(), "a\\b");
    let unix = ScanPath::with_separator("/".to_string(), PathSeparator::Slash, names(&["a", "b"]));
    assert_eq!(unix.to_text(), "/a/b");
    assert!(unix.same_as(&path("/", &["a", "b"])));
}

#[test]
fn paths_that_differ_in_their_separator_are_not_the_same() {
    let names = |parts: &[&str]| parts.iter().map(|p| p.to_string()).collect::<Vec<String>>();
    let slash = ScanPath::with_separator(String::new(), PathSeparator::Slash, names(&["a", "z"]));
    let backslash = ScanPath::with_separator(String::new(), PathSeparator::Backslash, names(&["a"]));
    let below = ScanPath::with_separator(String::new(), PathSeparator::Backslash, names(&["a", "b"]));
    assert!(!slash.same_as(&backslash));
    assert!(!below.is_within(&path("", &["a"])));
    assert!(below.is_within(&backslash));
    assert_eq!(slash.relation(&backslash), PathRelation::Before);
    assert_eq!(backslash.relation(&slash), PathRelation::After);
    assert_eq!(backslash.relation(&below), PathRelation::Before);
    assert!(slash.precedes(&below));
}

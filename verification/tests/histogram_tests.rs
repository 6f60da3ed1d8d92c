use disk_census::histogram::FileTypeHistogram;

#[test]
fn a_new_histogram_is_empty() {
    let h = FileTypeHistogram::new();
    assert_eq!(h.total_size(), 0);
    assert_eq!(h.total_count(), 0);
    assert_eq!(h.get("Images"), (0, 0));
}

#[test]
fn add_counts_one_file_under_its_category() {
    let mut h = FileTypeHistogram::new();
    h.add("Images", 10);
    h.add("Other", 5);
    h.add("Images", 7);
    assert_eq!(h.get("Images"), (17, 2));
    assert_eq!(h.get("Other"), (5, 1));
    assert_eq!(h.get("Documents"), (0, 0));
    assert_eq!(h.total_size(), 22);
    assert_eq!(h.total_count(), 3);
    assert_eq!(h.entries.len(), 2);
    assert_eq!(h.entries[0].category, "Images");
    assert_eq!(h.entries[1].category, "Other");
}

#[test]
fn credit_adds_many_files_at_once() {
    let mut h = FileTypeHistogram::new();
    h.credit("Archives", 1000, 4);
    h.credit("Archives", 1, 1);
    assert_eq!(h.get("Archives"), (1001, 5));
}

#[test]
fn merge_adds_category_by_category() {
    let mut a = FileTypeHistogram::new();
    a.add("Images", 10);
    a.add("Other", 1);
    let mut b = FileTypeHistogram::new();
    b.add("Other", 2);
    b.add("Video Files", 300);
    assert!(a.can_merge(&b));
    a.merge(&b);
    assert_eq!(a.get("Images"), (10, 1));
    assert_eq!(a.get("Other"), (3, 2));
    assert_eq!(a.get("Video Files"), (300, 1));
    assert_eq!(a.total_size(), 313);
    assert_eq!(a.total_count(), 4);
}

#[test]
fn the_sum_of_the_categories_is_the_total() {
    let mut h = FileTypeHistogram::new();
    h.add("Images", 10);
    h.add("Other", 5);
    h.add("Audio Files", 7);
    h.add("Other", 8);
    let by_category: u64 = h.entries.iter().map(|e| e.size).sum();
    assert_eq!(by_category, h.total_size());
    assert_eq!(by_category, 30);
}

#[test]
fn can_merge_refuses_totals_out_of_range() {
    let mut a = FileTypeHistogram::new();
    a.add("Other", u64::MAX - 5);
    let mut b = FileTypeHistogram::new();
    b.add("Other", 6);
    assert!(!a.can_merge(&b));
    let mut c = FileTypeHistogram::new();
    c.add("Other", 5);
    assert!(a.can_merge(&c));
}

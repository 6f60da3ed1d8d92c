use disk_census::counters::AtomicCounters;

#[test]
fn counters_start_at_zero() {
    let counters = AtomicCounters::new();
    assert_eq!(counters.get_values(), (0, 0, 0));
    assert_eq!(counters.current_path, "Starting...");
}

#[test]
fn counters_grow_with_files_and_folders() {
    let mut counters = AtomicCounters::new();
    counters.record_folder();
    counters.record_file(10);
    counters.record_file(0);
    counters.record_file(5);
    counters.record_folder();
    assert_eq!(counters.get_values(), (3, 15, 2));
}

#[test]
fn the_current_path_is_replaced() {
    let mut counters = AtomicCounters::new();
    counters.record_file(1);
    counters.update_current_path("/a/b");
    assert_eq!(counters.current_path, "/a/b");
    counters.update_current_path("");
    assert_eq!(counters.current_path, "");
    assert_eq!(counters.get_values(), (1, 1, 0));
}

#[test]
fn a_full_counter_stays_full() {
    let mut counters = AtomicCounters::new();
    counters.files_analyzed = u32::MAX;
    counters.total_size = u64::MAX - 3;
    counters.folder_count = u32::MAX;
    counters.record_file(10);
    counters.record_folder();
    assert_eq!(counters.get_values(), (u32::MAX, u64::MAX, u32::MAX));
}

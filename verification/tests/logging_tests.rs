use disk_census::logging::ErrorLogger;
use disk_census::logging::MAX_LOGS;

#[test]
fn a_new_log_is_empty_and_starts_at_one() {
    let logger = ErrorLogger::new();
    assert!(logger.get_logs().is_empty());
    assert_eq!(logger.current_id, 1);
}

#[test]
fn entries_are_numbered_as_they_come() {
    let mut logger = ErrorLogger::new();
    logger.record("2024-01-01 00:00:00".to_string(), "INFO", "first", None, None);
    logger.record("2024-01-01 00:00:01".to_string(), "ERROR", "second", Some("/p"), Some("E42"));
    let logs = logger.get_logs();
    assert_eq!(logs.len(), 2);
    assert_eq!(logs[0].id, 1);
    assert_eq!(logs[0].timestamp, "2024-01-01 00:00:00");
    assert_eq!(logs[0].level, "INFO");
    assert_eq!(logs[0].message, "first");
    assert_eq!(logs[0].path, None);
    assert_eq!(logs[0].error_code, None);
    assert_eq!(logs[1].id, 2);
    assert_eq!(logs[1].level, "ERROR");
    assert_eq!(logs[1].path, Some("/p".to_string()));
    assert_eq!(logs[1].error_code, Some("E42".to_string()));
    assert_eq!(logger.current_id, 3);
}

#[test]
fn only_the_newest_entries_are_kept() {
    let mut logger = ErrorLogger::new();
    for i in 0..(MAX_LOGS + 5) {
        logger.record("t".to_string(), "WARN", &format!("m{}", i), None, None);
    }
    let logs = logger.get_logs();
    assert_eq!(logs.len(), 1000);
    assert_eq!(logs[0].id, 6);
    assert_eq!(logs[0].message, "m5");
    assert_eq!(logs[999].id, 1005);
    assert_eq!(logs[999].message, "m1004");
}

#[test]
fn the_levels_are_info_error_and_warn() {
    let mut logger = ErrorLogger::new();
    logger.log_info("started", Some("/root"));
    logger.log_error("failed", None, Some("E1"));
    logger.log_warning("slow", None);
    let logs = logger.get_logs();
    let seen: Vec<(u32, String, String, Option<String>, Option<String>)> = logs
        .iter()
        .map(|l| (l.id, l.level.clone(), l.message.clone(), l.path.clone(), l.error_code.clone()))
        .collect();
    assert_eq!(
        seen,
        vec![
            (1, "INFO".to_string(), "started".to_string(), Some("/root".to_string()), None),
            (2, "ERROR".to_string(), "failed".to_string(), None, Some("E1".to_string())),
            (3, "WARN".to_string(), "slow".to_string(), None, None),
        ]
    );
}

#[test]
fn entries_are_stamped_with_date_and_time() {
    let mut logger = ErrorLogger::new();
    logger.log_info("now", None);
    let stamp = logger.get_logs()[0].timestamp.clone();
    let bytes = stamp.as_bytes();
    assert_eq!(bytes.len(), 19);
    assert_eq!(bytes[4], b'-');
    assert_eq!(bytes[7], b'-');
    assert_eq!(bytes[10], b' ');
    assert_eq!(bytes[13], b':');
    assert_eq!(bytes[16], b':');
    assert!(stamp[0..4].parse::<u32>().expect("a year") >= 2024);
}

#[test]
fn clearing_starts_the_numbers_anew() {
    let mut logger = ErrorLogger::new();
    logger.log_warning("one", None);
    logger.log_warning("two", None);
    logger.clear_logs();
    assert!(logger.get_logs().is_empty());
    assert_eq!(logger.current_id, 1);
    logger.log_info("again", None);
    assert_eq!(logger.get_logs()[0].id, 1);
}

#[test]
fn the_number_after_the_last_is_zero() {
    let mut logger = ErrorLogger::new();
    logger.current_id = u32::MAX;
    logger.record("t".to_string(), "INFO", "last", None, None);
    logger.record("t".to_string(), "INFO", "wrapped", None, None);
    let logs = logger.get_logs();
    assert_eq!(logs[0].id, u32::MAX);
    assert_eq!(logs[1].id, 0);
    assert_eq!(logger.current_id, 1);
}

use disk_census::classify::classify;
use disk_census::classify::get_file_type;
use disk_census::classify::get_file_type_cached;

#[test]
fn video_extensions_are_video_files() {
    assert_eq!(get_file_type("mp4"), "Video Files");
    assert_eq!(get_file_type("webm"), "Video Files");
}

#[test]
fn unknown_and_empty_extensions_are_other() {
    assert_eq!(get_file_type(""), "Other");
    assert_eq!(get_file_type("xyz"), "Other");
    assert_eq!(get_file_type_cached(""), "Other");
}

#[test]
fn classification_ignores_case() {
    assert_eq!(classify("MP4"), "Video Files");
    assert_eq!(classify("mp4"), "Video Files");
    assert_eq!(classify("Mp4"), classify("mP4"));
}

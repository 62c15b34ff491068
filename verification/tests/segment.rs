use wal::segment::find_latest_segment;
use wal::segment::segment_file_name;
use wal::segment::segment_path;

#[test]
fn names_are_zero_padded_to_eight_digits() {
    assert_eq!(segment_file_name(1), "00000001.log".to_string());
    assert_eq!(segment_file_name(42), "00000042.log".to_string());
    assert_eq!(segment_file_name(10_000_000), "10000000.log".to_string());
}

#[test]
fn names_longer_than_eight_digits_are_not_padded() {
    assert_eq!(segment_file_name(123_456_789), "123456789.log".to_string());
}

#[test]
fn path_joins_directory_and_name() {
    assert_eq!(segment_path("dir", 3), "dir/00000003.log".to_string());
    assert_eq!(segment_path("/tmp/walbench", 12), "/tmp/walbench/00000012.log".to_string());
}

#[test]
fn fresh_directory_starts_at_segment_one() {
    // The probe walks upward from 1 while the next name exists; where
    // nothing exists it stays at 1.
    assert_eq!(find_latest_segment("no-such-wal-directory-here"), 1);
}

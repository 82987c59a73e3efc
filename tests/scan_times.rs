use ape::scan_time::{datetime_from_path, interval_between, riegl_datetime_from_path, scan_interval};
use ape::{MissingFileStem, ScanInterval, TimestampError};

#[test]
fn six_hours_between_scans() {
    let i = scan_interval("170101_000000.las", "170101_060000.las").unwrap();
    assert_eq!(i.seconds, 21600);
    assert_eq!(i.datetime, 1483250400);
    // A displacement of 600 units over that interval is 100 units an hour.
    let hours = i.seconds as f64 / 3600.0;
    assert_eq!(600.0 / hours, 100.0);
}

#[test]
fn scan_time_is_read_from_the_file_name() {
    assert_eq!(datetime_from_path("/data/scans/170101_000000.las"), Ok(1483228800));
    assert_eq!(datetime_from_path("170102_123456.las"), Ok(1483360496));
}

#[test]
fn only_the_first_thirteen_characters_of_the_stem_count() {
    assert_eq!(datetime_from_path("/data/170101_000000_a.las"), Ok(1483228800));
    assert_eq!(datetime_from_path("170101_000000.laz"), Ok(1483228800));
    assert_eq!(riegl_datetime_from_path("/scans/170101_060000_second.rxp"), Ok(1483250400));
    assert_eq!(datetime_from_path("170101_0000xx.las"), Err(TimestampError::Unparsed));
    assert_eq!(datetime_from_path("171301_000000_b.las"), Err(TimestampError::Unparsed));
}

#[test]
fn name_outside_the_pattern_is_unparsed() {
    assert_eq!(datetime_from_path("/data/scan.las"), Err(TimestampError::Unparsed));
    assert_eq!(datetime_from_path("1701_000000.las"), Err(TimestampError::Unparsed));
    assert_eq!(datetime_from_path("/"), Err(TimestampError::Unparsed));
    assert_eq!(
        scan_interval("170101_000000.las", "later.las"),
        Err(TimestampError::Unparsed)
    );
}

#[test]
fn equal_scan_times_are_rejected() {
    assert_eq!(interval_between(1000, 1000), Err(TimestampError::NotIncreasing));
    assert_eq!(
        scan_interval("170101_000000.las", "170101_000000.las"),
        Err(TimestampError::NotIncreasing)
    );
}

#[test]
fn earlier_second_scan_is_rejected() {
    assert_eq!(interval_between(1000, 999), Err(TimestampError::NotIncreasing));
    assert_eq!(
        scan_interval("170101_060000.las", "170101_000000.las"),
        Err(TimestampError::NotIncreasing)
    );
}

#[test]
fn interval_spans_the_whole_i64_range() {
    assert_eq!(
        interval_between(i64::MIN, i64::MAX),
        Ok(ScanInterval { datetime: i64::MAX, seconds: u64::MAX })
    );
    assert_eq!(interval_between(-5, 5), Ok(ScanInterval { datetime: 5, seconds: 10 }));
}

#[test]
fn riegl_time_is_read_from_the_file_stem() {
    assert_eq!(riegl_datetime_from_path("/scans/170101_060000.rxp"), Ok(1483250400));
    assert_eq!(riegl_datetime_from_path("170101_060000"), Ok(1483250400));
}

#[test]
fn riegl_path_without_stem_is_missing_file_stem() {
    assert_eq!(
        riegl_datetime_from_path(""),
        Err(TimestampError::MissingFileStem(MissingFileStem { path: String::new() }))
    );
    assert_eq!(
        riegl_datetime_from_path("/scans/.."),
        Err(TimestampError::MissingFileStem(MissingFileStem { path: "/scans/..".to_string() }))
    );
}

#[test]
fn riegl_stem_outside_the_pattern_is_unparsed() {
    assert_eq!(riegl_datetime_from_path("/scans/first.rxp"), Err(TimestampError::Unparsed));
}

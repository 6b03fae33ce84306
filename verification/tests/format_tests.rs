use profiler::timefmt::format_duration;

#[test]
fn formats_seconds() {
    assert_eq!(format_duration(1_500_000_000), "1.5 s");
    assert_eq!(format_duration(2_000_000_000), "2 s");
    // 0.1 s is the smallest value rendered in seconds
    assert_eq!(format_duration(100_000_000), "0.1 s");
    assert_eq!(format_duration(1_234_567_890), "1.23456789 s");
}

#[test]
fn formats_milliseconds() {
    assert_eq!(format_duration(10_000_000), "10 ms");
    assert_eq!(format_duration(99_999_999), "99.999999 ms");
    assert_eq!(format_duration(100_000), "0.1 ms");
    assert_eq!(format_duration(2_500_000), "2.5 ms");
}

#[test]
fn formats_microseconds() {
    assert_eq!(format_duration(12_345), "12.345 us");
    assert_eq!(format_duration(100), "0.1 us");
    assert_eq!(format_duration(99_999), "99.999 us");
    assert_eq!(format_duration(5_000), "5 us");
}

#[test]
fn formats_nanoseconds() {
    assert_eq!(format_duration(0), "0 ns");
    assert_eq!(format_duration(42), "42 ns");
    assert_eq!(format_duration(99), "99 ns");
}

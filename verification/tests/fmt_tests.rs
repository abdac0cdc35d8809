use fast_down::fmt::{display_progress, format_size, format_time, u64_string};
use fast_down::progress::Progress;

#[test]
fn test_display_progress() {
    let progress = vec![Progress::new(0, 10), Progress::new(20, 30)];
    assert_eq!(display_progress(&progress), "0-9,20-29");
}

#[test]
fn test_display_progress_empty() {
    let progress: Vec<Progress> = vec![];
    assert_eq!(display_progress(&progress), "");
}

#[test]
fn test_display_progress_single() {
    let progress = vec![Progress::new(5, 15)];
    assert_eq!(display_progress(&progress), "5-14");
}

#[test]
fn u64_string_renders_decimal() {
    assert_eq!(u64_string(0), "0");
    assert_eq!(u64_string(7), "7");
    assert_eq!(u64_string(12345), "12345");
    assert_eq!(u64_string(u64::MAX), "18446744073709551615");
}

#[test]
fn format_size_uses_binary_units() {
    assert_eq!(format_size(0), "0 B");
    assert_eq!(format_size(1023), "1023 B");
    assert_eq!(format_size(1024), "1.00 KiB");
    assert_eq!(format_size(1536), "1.50 KiB");
    assert_eq!(format_size(1024 * 1024), "1.00 MiB");
    assert_eq!(format_size(5 * 1024 * 1024 * 1024), "5.00 GiB");
}

#[test]
fn format_time_renders_h_m_s() {
    assert_eq!(format_time(0), "0h 0m 0s");
    assert_eq!(format_time(3723), "1h 2m 3s");
    assert_eq!(format_time(59), "0h 0m 59s");
    assert_eq!(format_time(3600 * 25), "25h 0m 0s");
}

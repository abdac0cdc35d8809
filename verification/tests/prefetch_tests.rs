use fast_down::prefetch::{
    accepts_byte_ranges, after_last_slash, get_file_size, get_filename, is_blank, parse_u64,
    url_info_from_probe, url_info_from_ranged, ResponseParts,
};

fn parts(status: u16) -> ResponseParts {
    ResponseParts {
        status,
        final_url: String::from("http://example.test/dir/file.bin"),
        last_path_segment: Some(String::from("file.bin")),
        content_range: None,
        content_length: None,
        accept_ranges: None,
        content_disposition: None,
        etag: None,
        last_modified: None,
    }
}

#[test]
fn parse_u64_accepts_digits_and_plus() {
    assert_eq!(parse_u64("123"), Some(123));
    assert_eq!(parse_u64("+7"), Some(7));
    assert_eq!(parse_u64("0"), Some(0));
    assert_eq!(parse_u64("18446744073709551615"), Some(u64::MAX));
}

#[test]
fn parse_u64_rejects_garbage_and_overflow() {
    assert_eq!(parse_u64(""), None);
    assert_eq!(parse_u64("+"), None);
    assert_eq!(parse_u64("12a"), None);
    assert_eq!(parse_u64("-5"), None);
    assert_eq!(parse_u64("18446744073709551616"), None);
    assert_eq!(parse_u64("99999999999999999999999"), None);
}

#[test]
fn after_last_slash_takes_the_suffix() {
    assert_eq!(after_last_slash("bytes 0-1023/2048"), "2048");
    assert_eq!(after_last_slash("2048"), "2048");
    assert_eq!(after_last_slash("a/b/c"), "c");
    assert_eq!(after_last_slash("a/"), "");
}

#[test]
fn accepts_byte_ranges_splits_on_spaces() {
    assert!(accepts_byte_ranges("bytes"));
    assert!(accepts_byte_ranges("none bytes"));
    assert!(accepts_byte_ranges("bytes none"));
    assert!(!accepts_byte_ranges("none"));
    assert!(!accepts_byte_ranges("xbytes"));
    assert!(!accepts_byte_ranges("bytesx"));
    assert!(!accepts_byte_ranges(""));
}

#[test]
fn is_blank_means_only_whitespace() {
    assert!(is_blank(""));
    assert!(is_blank("   \t\n"));
    assert!(!is_blank(" a "));
}

#[test]
fn file_size_prefers_content_range_on_partial() {
    let range = String::from("bytes 0-1023/2048");
    let length = String::from("1024");
    assert_eq!(get_file_size(206, Some(&range), Some(&length)), 2048);
    assert_eq!(get_file_size(200, Some(&range), Some(&length)), 1024);
    assert_eq!(get_file_size(200, Some(&range), None), 0);
    let garbled = String::from("bytes 0-1023/many");
    assert_eq!(get_file_size(206, Some(&garbled), None), 0);
}

#[test]
fn filename_comes_from_content_disposition() {
    let header = String::from("attachment; filename=\"test.txt\"");
    let segment = String::from("other.bin");
    let url = String::from("http://example.test/other.bin");
    let name = get_filename(Some(&header), Some(&segment), &url);
    assert_eq!(name, "test.txt");
}

#[test]
fn filename_falls_back_to_decoded_url_segment() {
    let segment = String::from("file%20name.txt");
    let url = String::from("http://example.test/file%20name.txt");
    let name = get_filename(None, Some(&segment), &url);
    assert_eq!(name, "file name.txt");
}

#[test]
fn filename_is_sanitized() {
    let header = String::from("attachment; filename=\"bad<>name?.txt\"");
    let url = String::from("http://example.test/x");
    let name = get_filename(Some(&header), None, &url);
    assert_eq!(name, "bad__name_.txt");
}

#[test]
fn filename_uses_url_when_nothing_else_is_left() {
    let url = String::from("http://example.test/");
    let name = get_filename(None, None, &url);
    // the URL itself, with the illegal characters replaced
    assert_eq!(name, "http___example.test_");
}

#[test]
fn probe_without_accept_ranges_asks_for_fallback() {
    let p = parts(200);
    assert!(url_info_from_probe(p).is_none());
}

#[test]
fn probe_with_byte_ranges_builds_fast_path_info() {
    let mut p = parts(200);
    p.accept_ranges = Some(String::from("bytes"));
    p.content_length = Some(String::from("2048"));
    p.etag = Some(String::from("\"abc\""));
    let info = url_info_from_probe(p).unwrap();
    assert_eq!(info.file_size, 2048);
    assert!(info.supports_range);
    assert!(info.can_fast_download);
    assert_eq!(info.file_name, "file.bin");
    assert_eq!(info.final_url, "http://example.test/dir/file.bin");
    assert_eq!(info.etag.as_deref(), Some("\"abc\""));
}

#[test]
fn probe_with_unknown_size_cannot_fast_download() {
    let mut p = parts(200);
    p.accept_ranges = Some(String::from("bytes"));
    let info = url_info_from_probe(p).unwrap();
    assert_eq!(info.file_size, 0);
    assert!(info.supports_range);
    assert!(!info.can_fast_download);
}

#[test]
fn ranged_request_reads_partial_content() {
    let mut p = parts(206);
    p.content_range = Some(String::from("bytes 0-1023/2048"));
    let info = url_info_from_ranged(p);
    assert_eq!(info.file_size, 2048);
    assert!(info.supports_range);
    assert!(info.can_fast_download);

    let p2 = parts(200);
    let info2 = url_info_from_ranged(p2);
    assert!(!info2.supports_range);
    assert!(!info2.can_fast_download);
}

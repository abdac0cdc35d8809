use fast_down::persist::{decode_record, encode_record, record_matches, ResumeRecord};
use fast_down::progress::{Progress, ProgressEntry};

fn sample_record() -> ResumeRecord {
    let mut progress = ProgressEntry::new();
    progress.merge(Progress::new(0, 1000));
    progress.merge(Progress::new(2000, 2500));
    ResumeRecord {
        progress,
        etag: Some(String::from("\"abc123\"")),
        last_modified: Some(String::from("Mon, 01 Jan 2024 00:00:00 GMT")),
        elapsed_ms: 4200,
    }
}

fn ranges(entry: &ProgressEntry) -> Vec<(u64, u64)> {
    entry.to_ranges().iter().map(|p| (p.start, p.end)).collect()
}

#[test]
fn record_round_trips_through_bytes() {
    let rec = sample_record();
    let bytes = encode_record(&rec);
    let back = decode_record(&bytes).expect("a record's own encoding must decode");
    assert_eq!(ranges(&back.progress), ranges(&rec.progress));
    assert_eq!(back.etag, rec.etag);
    assert_eq!(back.last_modified, rec.last_modified);
    assert_eq!(back.elapsed_ms, rec.elapsed_ms);
}

#[test]
fn reloaded_record_yields_identical_missing_ranges() {
    let rec = sample_record();
    let before = ranges(&rec.progress.invert(5000));
    let bytes = encode_record(&rec);
    let back = decode_record(&bytes).unwrap();
    let after = ranges(&back.progress.invert(5000));
    assert_eq!(before, after);
    assert_eq!(after, vec![(1000, 2000), (2500, 5000)]);
}

#[test]
fn record_without_tokens_round_trips() {
    let rec = ResumeRecord {
        progress: ProgressEntry::new(),
        etag: None,
        last_modified: None,
        elapsed_ms: 0,
    };
    let bytes = encode_record(&rec);
    let back = decode_record(&bytes).unwrap();
    assert_eq!(back.etag, None);
    assert_eq!(back.last_modified, None);
    assert_eq!(back.elapsed_ms, 0);
    assert_eq!(ranges(&back.progress), vec![]);
}

#[test]
fn garbled_bytes_read_as_absent() {
    assert!(decode_record(&[]).is_none());
    assert!(decode_record(&[1, 2, 3]).is_none());
    let rec = sample_record();
    let mut bytes = encode_record(&rec);
    // truncated record
    bytes.pop();
    assert!(decode_record(&bytes).is_none());
    // trailing garbage
    let mut bytes2 = encode_record(&rec);
    bytes2.push(0);
    assert!(decode_record(&bytes2).is_none());
}

#[test]
fn record_matches_compares_both_tokens() {
    let rec = sample_record();
    let etag = Some(String::from("\"abc123\""));
    let lm = Some(String::from("Mon, 01 Jan 2024 00:00:00 GMT"));
    assert!(record_matches(&rec, &etag, &lm));
    let other = Some(String::from("\"zzz\""));
    assert!(!record_matches(&rec, &other, &lm));
    assert!(!record_matches(&rec, &etag, &None));
    assert!(!record_matches(&rec, &None, &lm));
}

use fast_down::engine::{fair_share, plan_transfer, WorkPool, Worker, WorkerAction};
use fast_down::persist::ResumeRecord;
use fast_down::progress::{Progress, ProgressEntry};

fn ranges(entry: &ProgressEntry) -> Vec<(u64, u64)> {
    entry.to_ranges().iter().map(|p| (p.start, p.end)).collect()
}

fn prior_record() -> ResumeRecord {
    let mut progress = ProgressEntry::new();
    progress.merge(Progress::new(0, 1000));
    ResumeRecord {
        progress,
        etag: Some(String::from("\"abc\"")),
        last_modified: None,
        elapsed_ms: 700,
    }
}

#[test]
fn resume_with_matching_etag_fetches_only_the_gap() {
    let rec = prior_record();
    let etag = Some(String::from("\"abc\""));
    let plan = plan_transfer(8, true, 5000, Some(&rec), &etag, &None);
    assert!(plan.used_record);
    assert_eq!(plan.threads, 8);
    assert_eq!(ranges(&plan.chunks), vec![(1000, 5000)]);
    assert_eq!(ranges(&plan.init_progress), vec![(0, 1000)]);
    assert_eq!(plan.elapsed_ms, 700);
}

#[test]
fn resume_with_mismatched_etag_discards_the_record() {
    let rec = prior_record();
    let etag = Some(String::from("\"different\""));
    let plan = plan_transfer(8, true, 5000, Some(&rec), &etag, &None);
    assert!(!plan.used_record);
    assert_eq!(ranges(&plan.chunks), vec![(0, 5000)]);
    assert_eq!(ranges(&plan.init_progress), vec![]);
    assert_eq!(plan.elapsed_ms, 0);
}

#[test]
fn no_fast_path_forces_one_worker() {
    let plan = plan_transfer(8, false, 0, None, &None, &None);
    assert_eq!(plan.threads, 1);
    assert!(!plan.used_record);
    // unknown total: no ranges to split
    assert_eq!(ranges(&plan.chunks), vec![]);
}

#[test]
fn record_beyond_file_size_is_discarded() {
    let mut progress = ProgressEntry::new();
    progress.merge(Progress::new(0, 9000));
    let rec = ResumeRecord { progress, etag: None, last_modified: None, elapsed_ms: 1 };
    let plan = plan_transfer(4, true, 5000, Some(&rec), &None, &None);
    assert!(!plan.used_record);
    assert_eq!(ranges(&plan.chunks), vec![(0, 5000)]);
}

#[test]
fn fair_share_covers_the_remaining_bytes() {
    assert_eq!(fair_share(100, 4), 25);
    assert_eq!(fair_share(101, 4), 26);
    assert_eq!(fair_share(0, 3), 0);
    assert_eq!(fair_share(1, 8), 1);
}

#[test]
fn pool_hands_out_the_largest_range_first() {
    let mut e = ProgressEntry::new();
    e.merge(Progress::new(0, 10));
    e.merge(Progress::new(20, 100));
    let mut pool = WorkPool::from_entry(&e);
    let g = pool.claim(1000).unwrap();
    assert_eq!((g.start, g.end), (20, 100));
    let g2 = pool.claim(1000).unwrap();
    assert_eq!((g2.start, g2.end), (0, 10));
    assert!(pool.claim(1000).is_none());
}

#[test]
fn pool_splits_a_range_larger_than_the_cap() {
    let mut e = ProgressEntry::new();
    e.merge(Progress::new(0, 100));
    let mut pool = WorkPool::from_entry(&e);
    let g = pool.claim(30).unwrap();
    assert_eq!((g.start, g.end), (0, 30));
    let g2 = pool.claim(30).unwrap();
    assert_eq!((g2.start, g2.end), (30, 60));
    let g3 = pool.claim(40).unwrap();
    assert_eq!((g3.start, g3.end), (60, 100));
    assert!(pool.is_empty());
}

#[test]
fn worker_emits_absolute_ranges_and_never_refetches() {
    let mut w = Worker::start(Progress::new(1000, 2000), 3);
    assert!(!w.is_done());
    let ev = w.on_write(300);
    assert_eq!((ev.start, ev.end), (1000, 1300));
    // transient failure: retry resumes at the write cursor, not the claim start
    let retry = w.on_failure().unwrap();
    assert_eq!((retry.start, retry.end), (1300, 2000));
    let ev2 = w.on_write(700);
    assert_eq!((ev2.start, ev2.end), (1300, 2000));
    assert!(w.is_done());
}

#[test]
fn worker_fails_for_good_when_retries_are_exhausted() {
    let mut w = Worker::start(Progress::new(0, 10), 1);
    w.on_write(4);
    assert!(w.on_failure().is_some());
    assert!(w.on_failure().is_none());
}

#[test]
fn cancelled_worker_exits_without_another_fetch() {
    let mut w = Worker::start(Progress::new(0, 100), 3);
    w.on_write(10);
    // mid-transfer, work remains; once the flag is observed the worker exits
    assert_eq!(w.next_action(false), WorkerAction::Fetch(Progress::new(10, 100)));
    assert_eq!(w.next_action(true), WorkerAction::Exit);
    w.on_write(90);
    assert_eq!(w.next_action(false), WorkerAction::Exit);
}

use fast_down::progress::{Progress, ProgressEntry, Spliceable};

#[test]
fn test_new() {
    let progress = Progress::new(0, 100);
    assert_eq!(progress.start, 0);
    assert_eq!(progress.end, 100);

    let progress = Progress::new(0, 1);
    assert_eq!(progress.start, 0);
    assert_eq!(progress.end, 1);
}

#[test]
fn test_can_merge_adjacent() {
    let a = Progress::new(0, 5);
    let b = Progress::new(5, 10);
    assert!(a.can_splice(&b));
    assert!(b.can_splice(&a));
}

#[test]
fn test_cannot_merge_non_adjacent_non_overlapping() {
    let a = Progress::new(0, 5);
    let b = Progress::new(7, 10);
    assert!(!a.can_splice(&b));
    assert!(!b.can_splice(&a));
}

#[test]
fn test_cannot_merge_disjoint() {
    let a = Progress::new(0, 5);
    let b = Progress::new(6, 15);
    assert!(!a.can_splice(&b));
    assert!(!b.can_splice(&a));
}

fn ranges(entry: &ProgressEntry) -> Vec<(u64, u64)> {
    entry.to_ranges().iter().map(|p| (p.start, p.end)).collect()
}

#[test]
fn merge_coalesces_adjacent_and_overlapping() {
    let mut e = ProgressEntry::new();
    e.merge(Progress::new(0, 10));
    e.merge(Progress::new(20, 30));
    assert_eq!(ranges(&e), vec![(0, 10), (20, 30)]);
    // adjacent on the left, overlapping on the right: all collapse into one
    e.merge(Progress::new(10, 25));
    assert_eq!(ranges(&e), vec![(0, 30)]);
}

#[test]
fn merge_collapses_several_ranges_at_once() {
    let mut e = ProgressEntry::new();
    e.merge(Progress::new(0, 2));
    e.merge(Progress::new(4, 6));
    e.merge(Progress::new(8, 10));
    e.merge(Progress::new(1, 9));
    assert_eq!(ranges(&e), vec![(0, 10)]);
}

#[test]
fn merge_keeps_order_for_out_of_order_events() {
    let mut e = ProgressEntry::new();
    e.merge(Progress::new(50, 60));
    e.merge(Progress::new(0, 10));
    e.merge(Progress::new(30, 40));
    assert_eq!(ranges(&e), vec![(0, 10), (30, 40), (50, 60)]);
}

#[test]
fn merge_is_commutative_concrete() {
    let mut ab = ProgressEntry::new();
    ab.merge(Progress::new(0, 10));
    ab.merge(Progress::new(5, 20));
    let mut ba = ProgressEntry::new();
    ba.merge(Progress::new(5, 20));
    ba.merge(Progress::new(0, 10));
    assert_eq!(ranges(&ab), ranges(&ba));
    assert_eq!(ranges(&ab), vec![(0, 20)]);
}

#[test]
fn merge_is_idempotent_concrete() {
    let mut once = ProgressEntry::new();
    once.merge(Progress::new(3, 9));
    once.merge(Progress::new(12, 20));
    let before = ranges(&once);
    once.merge(Progress::new(3, 9));
    assert_eq!(ranges(&once), before);
}

#[test]
fn total_counts_overlaps_once() {
    let mut e = ProgressEntry::new();
    e.merge(Progress::new(0, 10));
    e.merge(Progress::new(5, 15));
    assert_eq!(e.total(), 15);
    e.merge(Progress::new(20, 21));
    assert_eq!(e.total(), 16);
}

#[test]
fn invert_of_empty_is_whole_file() {
    let e = ProgressEntry::new();
    let gaps = e.invert(5000);
    assert_eq!(ranges(&gaps), vec![(0, 5000)]);
}

#[test]
fn invert_of_full_is_empty() {
    let mut e = ProgressEntry::new();
    e.merge(Progress::new(0, 5000));
    let gaps = e.invert(5000);
    assert_eq!(ranges(&gaps), Vec::<(u64, u64)>::new());
}

#[test]
fn invert_returns_gaps_in_order() {
    let mut e = ProgressEntry::new();
    e.merge(Progress::new(10, 20));
    e.merge(Progress::new(40, 50));
    let gaps = e.invert(100);
    assert_eq!(ranges(&gaps), vec![(0, 10), (20, 40), (50, 100)]);
}

#[test]
fn invert_and_entry_partition_the_file() {
    let mut e = ProgressEntry::new();
    e.merge(Progress::new(0, 7));
    e.merge(Progress::new(30, 41));
    e.merge(Progress::new(90, 100));
    let gaps = e.invert(100);
    // no byte is in both; every byte is in one
    let done = ranges(&e);
    let missing = ranges(&gaps);
    for b in 0..100u64 {
        let in_done = done.iter().any(|&(s, t)| s <= b && b < t);
        let in_missing = missing.iter().any(|&(s, t)| s <= b && b < t);
        assert!(in_done != in_missing);
    }
    assert_eq!(e.total() + gaps.total(), 100);
}

#[test]
fn add_blank_tiles_the_whole_file() {
    let mut e = ProgressEntry::new();
    e.merge(Progress::new(20, 30));
    let tiles = e.add_blank(100);
    let seen: Vec<(u64, u64, bool)> =
        tiles.iter().map(|d| (d.range.start, d.range.end, d.filled)).collect();
    assert_eq!(seen, vec![(0, 20, false), (20, 30, true), (30, 100, false)]);
}

#[test]
fn add_blank_of_unknown_total_is_empty() {
    let e = ProgressEntry::new();
    let tiles = e.add_blank(0);
    assert_eq!(tiles.len(), 0);
}

#[test]
fn from_ranges_accepts_only_well_formed() {
    let good = vec![Progress::new(0, 5), Progress::new(7, 9)];
    assert!(ProgressEntry::from_ranges(good).is_some());
    let empty_range = vec![Progress::new(5, 5)];
    assert!(ProgressEntry::from_ranges(empty_range).is_none());
    let adjacent = vec![Progress::new(0, 5), Progress::new(5, 9)];
    assert!(ProgressEntry::from_ranges(adjacent).is_none());
    let unordered = vec![Progress::new(7, 9), Progress::new(0, 5)];
    assert!(ProgressEntry::from_ranges(unordered).is_none());
}

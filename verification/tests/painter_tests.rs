use fast_down::painter::{bar_values, Painter};
use fast_down::progress::{Progress, ProgressEntry};

#[test]
fn half_complete_bar_fills_the_first_half() {
    // total 100, width 10, completed [0, 50): the first 5 buckets are full,
    // the remaining 5 are empty
    let mut e = ProgressEntry::new();
    e.merge(Progress::new(0, 50));
    let fills = bar_values(&e, 100, 10);
    assert_eq!(fills, vec![10, 10, 10, 10, 10, 0, 0, 0, 0, 0]);

    let mut p = Painter::new(e, 100, 10, 9, 10);
    let out = p.update(0, 0);
    let bar: String = out.chars().take(12).collect();
    assert_eq!(bar, "|\u{2588}\u{2588}\u{2588}\u{2588}\u{2588}     |");
}

#[test]
fn full_and_empty_buckets_render_extreme_glyphs() {
    let mut e = ProgressEntry::new();
    e.merge(Progress::new(0, 100));
    let mut p = Painter::new(e, 100, 4, 9, 10);
    let out = p.update(0, 0);
    assert!(out.starts_with("|\u{2588}\u{2588}\u{2588}\u{2588}|"));

    let mut p2 = Painter::new(ProgressEntry::new(), 100, 4, 9, 10);
    let out2 = p2.update(0, 0);
    assert!(out2.starts_with("|    |"));
}

#[test]
fn rendered_text_shows_percent_sizes_and_times() {
    let mut e = ProgressEntry::new();
    e.merge(Progress::new(0, 50));
    let mut p = Painter::new(e, 100, 10, 9, 10);
    let out = p.update(0, 3723);
    assert_eq!(
        out,
        "|\u{2588}\u{2588}\u{2588}\u{2588}\u{2588}     | 50.00% (50 B/100 B)\nElapsed: 1h 2m 3s | Speed: 0 B/s | Remaining: Unknown\n"
    );
}

#[test]
fn unknown_total_reports_unknown_percent_and_eta() {
    let mut p = Painter::new(ProgressEntry::new(), 0, 10, 9, 10);
    p.add(Progress::new(0, 512));
    let out = p.update(0, 5);
    assert_eq!(
        out,
        "|          | Unknown% (512 B/Unknown)\nElapsed: 0h 0m 5s | Speed: 0 B/s | Remaining: Unknown\n"
    );
}

#[test]
fn speed_is_smoothed_and_eta_derived() {
    let mut p = Painter::new(ProgressEntry::new(), 10000, 10, 0, 1);
    // alpha 0/1: the average equals the instantaneous speed
    p.add(Progress::new(0, 1000));
    let out = p.update(1000, 1);
    // 1000 bytes in 1000 ms: 1000 B/s; remaining 9000 bytes: 9 seconds
    assert!(out.contains("Speed: 1000 B/s"));
    assert!(out.contains("Remaining: 0h 0m 9s"));
}

#[test]
fn duplicate_events_do_not_inflate_the_counter() {
    let mut p = Painter::new(ProgressEntry::new(), 100, 10, 9, 10);
    p.add(Progress::new(0, 30));
    p.add(Progress::new(0, 30));
    let out = p.update(0, 0);
    assert!(out.contains("(30 B/100 B)"));
}

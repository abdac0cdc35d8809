//! Live progress rendering: a fixed-width bar of sub-character fill glyphs,
//! a percentage, and a smoothed throughput / ETA line.
//!
//! Everything here is pure computation on the interval set; the terminal
//! writes and the redraw clock live outside the library.

use vstd::prelude::*;
use vstd::set_lib::{lemma_int_range, lemma_len_subset, set_int_range};
use crate::fmt::{dec_rep, format_size, format_time, size_rep, time_rep, two_digit_rep, u64_string};
use crate::fmt::two_digit_string;
use crate::progress::{
    covered, lemma_covered_bounds, lemma_sum_is_covered_len, sum_len, Progress, ProgressEntry,
};

verus! {

/// How many bytes of `[lo, hi)` the range covers.
pub open spec fn overlap_len(g: Progress, lo: int, hi: int) -> int {
    let s = if g.start > lo {
        g.start as int
    } else {
        lo
    };
    let e = if g.end < hi {
        g.end as int
    } else {
        hi
    };
    if s < e {
        e - s
    } else {
        0
    }
}

/// How many bytes of `[lo, hi)` the ranges cover together.
pub open spec fn sum_overlap(rs: Seq<Progress>, lo: int, hi: int) -> int
    decreases rs.len(),
{
    if rs.len() == 0 {
        0
    } else {
        sum_overlap(rs.drop_last(), lo, hi) + overlap_len(rs.last(), lo, hi)
    }
}

/// The discretized fill level of a bucket: its fill ratio rounded onto the
/// nine-step glyph scale, 0 for empty through 8 for full.
pub open spec fn glyph_level(fill: int, bucket_len: int) -> int {
    if bucket_len <= 0 {
        0
    } else {
        let rounded = (16 * fill + bucket_len) / (2 * bucket_len);
        if rounded > 8 {
            8
        } else {
            rounded
        }
    }
}

/// A fully covered bucket renders the maximum glyph; an untouched bucket
/// renders the minimum glyph; every level stays on the scale.
pub proof fn lemma_glyph_level_bounds(fill: int, bucket_len: int)
    requires
        0 <= fill <= bucket_len,
        bucket_len > 0,
    ensures
        0 <= glyph_level(fill, bucket_len) <= 8,
        fill == bucket_len ==> glyph_level(fill, bucket_len) == 8,
        fill == 0 ==> glyph_level(fill, bucket_len) == 0,
{
    if fill == bucket_len {
        assert((16 * fill + bucket_len) / (2 * bucket_len) == 8) by (nonlinear_arith)
            requires
                bucket_len > 0,
                fill == bucket_len,
        ;
    }
    if fill == 0 {
        assert((16 * fill + bucket_len) / (2 * bucket_len) == 0) by (nonlinear_arith)
            requires
                bucket_len > 0,
                fill == 0,
        ;
    }
    assert((16 * fill + bucket_len) / (2 * bucket_len) >= 0) by (nonlinear_arith)
        requires
            bucket_len > 0,
            fill >= 0,
    ;
}

/// The glyph for one fill level.
pub open spec fn block_char(level: int) -> char {
    if level <= 0 {
        ' '
    } else if level == 1 {
        '\u{258f}'
    } else if level == 2 {
        '\u{258e}'
    } else if level == 3 {
        '\u{258d}'
    } else if level == 4 {
        '\u{258c}'
    } else if level == 5 {
        '\u{258b}'
    } else if level == 6 {
        '\u{258a}'
    } else if level == 7 {
        '\u{2589}'
    } else {
        '\u{2588}'
    }
}

fn block_str(level: u64) -> (r: &'static str)
    ensures
        r@ == seq![block_char(level as int)],
{
    proof {
        reveal_strlit(" ");
        reveal_strlit("\u{258f}");
        reveal_strlit("\u{258e}");
        reveal_strlit("\u{258d}");
        reveal_strlit("\u{258c}");
        reveal_strlit("\u{258b}");
        reveal_strlit("\u{258a}");
        reveal_strlit("\u{2589}");
        reveal_strlit("\u{2588}");
    }
    let r = if level == 0 {
        " "
    } else if level == 1 {
        "\u{258f}"
    } else if level == 2 {
        "\u{258e}"
    } else if level == 3 {
        "\u{258d}"
    } else if level == 4 {
        "\u{258c}"
    } else if level == 5 {
        "\u{258b}"
    } else if level == 6 {
        "\u{258a}"
    } else if level == 7 {
        "\u{2589}"
    } else {
        "\u{2588}"
    };
    proof {
        assert(r@ =~= seq![block_char(level as int)]);
    }
    r
}

/// The start of bucket `k` when `[0, total)` is split into `width` buckets.
pub open spec fn bucket_lo(total: int, width: int, k: int) -> int {
    k * total / width
}

/// The number of bytes every completed range contributes to bucket `k`.
pub open spec fn bucket_fill(rs: Seq<Progress>, total: int, width: int, k: int) -> int {
    sum_overlap(rs, bucket_lo(total, width, k), bucket_lo(total, width, k + 1))
}

/// Computes each bucket's fill: the sum of overlap between the completed
/// ranges and the bucket's span.
pub fn bar_values(entry: &ProgressEntry, total: u64, width: u16) -> (r: Vec<u64>)
    requires
        entry.wf(),
        width >= 1,
        total >= 1,
        entry@.len() > 0 ==> entry@.last().end <= total,
    ensures
        r@.len() == width,
        forall|k: int|
            0 <= k < width ==> r@[k] == bucket_fill(entry@, total as int, width as int, k),
{
    let mut r: Vec<u64> = Vec::new();
    let w = width as u64;
    let mut k: u64 = 0;
    while k < w
        invariant
            entry.wf(),
            w == width,
            width >= 1,
            total >= 1,
            0 <= k <= w,
            r@.len() == k,
            forall|j: int|
                0 <= j < k ==> r@[j] == bucket_fill(entry@, total as int, width as int, j),
        decreases w - k,
    {
        proof {
            assert((k as int) * (total as int) >= 0) by (nonlinear_arith)
                requires
                    k >= 0,
                    total >= 0,
            ;
            assert((k as int) * (total as int) <= ((k + 1) as int) * (total as int)) by (
            nonlinear_arith)
                requires
                    total >= 0,
            ;
            assert(((k + 1) as int) * (total as int) <= (w as int) * (total as int)) by (
            nonlinear_arith)
                requires
                    k + 1 <= w,
                    total >= 0,
            ;
            vstd::arithmetic::div_mod::lemma_div_is_ordered(
                (k as int) * (total as int),
                (w as int) * (total as int),
                w as int,
            );
            vstd::arithmetic::div_mod::lemma_div_is_ordered(
                ((k + 1) as int) * (total as int),
                (w as int) * (total as int),
                w as int,
            );
            vstd::arithmetic::div_mod::lemma_div_multiples_vanish(total as int, w as int);
            assert((w as int) * (total as int) == (total as int) * (w as int)) by (nonlinear_arith);
            vstd::arithmetic::div_mod::lemma_div_is_ordered(
                (k as int) * (total as int),
                ((k + 1) as int) * (total as int),
                w as int,
            );
        }
        let lo = mul_div(k, total, w);
        let hi = mul_div(k + 1, total, w);
        let fill = overlap_total(entry, lo, hi);
        r.push(fill);
        k = k + 1;
    }
    r
}

/// `a * b / c` without intermediate overflow.
fn mul_div(a: u64, b: u64, c: u64) -> (r: u64)
    requires
        c >= 1,
        a as int * b as int / c as int <= u64::MAX,
    ensures
        r == a as int * b as int / c as int,
{
    proof {
        assert(a as int * b as int <= u128::MAX) by (nonlinear_arith)
            requires
                a <= u64::MAX,
                b <= u64::MAX,
        ;
    }
    (((a as u128) * (b as u128)) / (c as u128)) as u64
}

/// Sums the overlap of the completed ranges with `[lo, hi)`.
fn overlap_total(entry: &ProgressEntry, lo: u64, hi: u64) -> (r: u64)
    requires
        entry.wf(),
        lo <= hi,
    ensures
        r == sum_overlap(entry@, lo as int, hi as int),
{
    let n = entry.count();
    let mut acc: u64 = 0;
    let mut i: usize = 0;
    while i < n
        invariant
            entry.wf(),
            lo <= hi,
            n == entry@.len(),
            0 <= i <= n,
            acc == sum_overlap(entry@.subrange(0, i as int), lo as int, hi as int),
            acc <= hi - lo,
        decreases n - i,
    {
        proof {
            lemma_sum_overlap_bound(entry@.subrange(0, i as int), lo as int, hi as int);
        }
        let g = entry.get(i);
        let s = if g.start > lo {
            g.start
        } else {
            lo
        };
        let e = if g.end < hi {
            g.end
        } else {
            hi
        };
        let piece = if s < e {
            e - s
        } else {
            0
        };
        proof {
            let sub1 = entry@.subrange(0, i + 1 as int);
            assert(sub1.drop_last() =~= entry@.subrange(0, i as int));
            assert(sub1.last() == g);
            lemma_sum_overlap_bound(sub1, lo as int, hi as int);
        }
        acc = acc + piece;
        i = i + 1;
    }
    proof {
        assert(entry@.subrange(0, n as int) =~= entry@);
    }
    acc
}

/// For a well-formed entry the summed overlap with a span is exactly the
/// number of covered offsets inside the span: each byte counts once, so the
/// total fill across buckets matches the completed byte count.
pub proof fn lemma_sum_overlap_is_covered(rs: Seq<Progress>, lo: int, hi: int)
    requires
        crate::progress::ranges_wf(rs),
        lo <= hi,
    ensures
        covered(rs).intersect(set_int_range(lo, hi)).finite(),
        sum_overlap(rs, lo, hi) == covered(rs).intersect(set_int_range(lo, hi)).len(),
    decreases rs.len(),
{
    lemma_int_range(lo, hi);
    if rs.len() == 0 {
        assert(covered(rs).intersect(set_int_range(lo, hi)) =~= Set::<int>::empty());
    } else {
        let rest = rs.drop_last();
        let last = rs.last();
        assert(crate::progress::ranges_wf(rest));
        lemma_sum_overlap_is_covered(rest, lo, hi);
        assert(rs =~= rest.push(last));
        crate::progress::lemma_covered_push(rest, last);
        let w = set_int_range(lo, hi);
        let a = covered(rest).intersect(w);
        let s = if last.start as int > lo {
            last.start as int
        } else {
            lo
        };
        let e = if (last.end as int) < hi {
            last.end as int
        } else {
            hi
        };
        let b = last.byte_set().intersect(w);
        if s < e {
            assert(b =~= set_int_range(s, e));
            lemma_int_range(s, e);
        } else {
            assert(b =~= Set::<int>::empty());
        }
        assert(covered(rs).intersect(w) =~= a.union(b));
        assert forall|i: int| a.contains(i) implies !b.contains(i) by {
            let k = choose|k: int|
                0 <= k < rest.len() && (#[trigger] rest[k]).start <= i < rest[k].end;
            assert(rest[k] == rs[k]);
            crate::progress::lemma_wf_ordered(rs, k, rs.len() - 1);
        }
        assert(a.disjoint(b));
        crate::progress::lemma_disjoint_union_len(a, b);
    }
}

/// The fill of a span never exceeds its width.
pub proof fn lemma_sum_overlap_bound(rs: Seq<Progress>, lo: int, hi: int)
    requires
        crate::progress::ranges_wf(rs),
        lo <= hi,
    ensures
        0 <= sum_overlap(rs, lo, hi) <= hi - lo,
{
    lemma_sum_overlap_is_covered(rs, lo, hi);
    lemma_int_range(lo, hi);
    let w = set_int_range(lo, hi);
    lemma_len_subset(covered(rs).intersect(w), w);
}


/// Overlap with a span splits at any point inside it.
proof fn lemma_sum_overlap_split(rs: Seq<Progress>, lo: int, mid: int, hi: int)
    requires
        lo <= mid <= hi,
    ensures
        sum_overlap(rs, lo, hi) == sum_overlap(rs, lo, mid) + sum_overlap(rs, mid, hi),
    decreases rs.len(),
{
    if rs.len() > 0 {
        lemma_sum_overlap_split(rs.drop_last(), lo, mid, hi);
    }
}

/// The total fill of the first `k` buckets.
pub open spec fn sum_fills(rs: Seq<Progress>, total: int, width: int, k: int) -> int
    decreases k,
{
    if k <= 0 {
        0
    } else {
        sum_fills(rs, total, width, k - 1) + bucket_fill(rs, total, width, k - 1)
    }
}

/// The fills summed across all buckets equal the completed byte count: the
/// bar as a whole shows exactly `total(entry)` bytes.
pub proof fn lemma_bar_total(rs: Seq<Progress>, total: int, width: int)
    requires
        crate::progress::ranges_wf(rs),
        width >= 1,
        total >= 1,
        rs.len() > 0 ==> rs.last().end <= total,
    ensures
        sum_fills(rs, total, width, width) == covered(rs).len(),
{
    lemma_sum_fills_prefix(rs, total, width, width);
    vstd::arithmetic::div_mod::lemma_div_multiples_vanish(total, width);
    assert(width * total == total * width) by (nonlinear_arith);
    assert(bucket_lo(total, width, width) == total);
    lemma_sum_overlap_is_covered(rs, 0, total);
    if rs.len() > 0 {
        lemma_covered_bounds(rs);
    }
    assert(covered(rs).intersect(set_int_range(0, total)) =~= covered(rs));
}

/// The first `k` buckets together span `[0, bucket_lo(k))`.
proof fn lemma_sum_fills_prefix(rs: Seq<Progress>, total: int, width: int, k: int)
    requires
        width >= 1,
        total >= 0,
        0 <= k <= width,
    ensures
        bucket_lo(total, width, k) >= 0,
        sum_fills(rs, total, width, k) == sum_overlap(rs, 0, bucket_lo(total, width, k)),
    decreases k,
{
    if k == 0 {
        assert(bucket_lo(total, width, 0) == 0) by {
            assert(0 * total == 0) by (nonlinear_arith);
        }
        lemma_sum_overlap_split(rs, 0, 0, 0);
        assert(sum_overlap(rs, 0, 0) == 0);
    } else {
        lemma_sum_fills_prefix(rs, total, width, k - 1);
        assert((k - 1) * total <= k * total) by (nonlinear_arith)
            requires
                total >= 0,
        ;
        assert((k - 1) * total >= 0) by (nonlinear_arith)
            requires
                k >= 1,
                total >= 0,
        ;
        vstd::arithmetic::div_mod::lemma_div_is_ordered((k - 1) * total, k * total, width);
        let lo1 = bucket_lo(total, width, k - 1);
        let lo2 = bucket_lo(total, width, k);
        lemma_sum_overlap_split(rs, 0, lo1, lo2);
        assert(sum_overlap(rs, 0, lo2) == sum_overlap(rs, 0, lo1) + sum_overlap(rs, lo1, lo2));
        assert(bucket_lo(total, width, (k - 1) + 1) == lo2);
        assert(bucket_fill(rs, total, width, k - 1) == sum_overlap(rs, lo1, lo2));
        assert(sum_fills(rs, total, width, k) == sum_fills(rs, total, width, k - 1) + bucket_fill(
            rs,
            total,
            width,
            k - 1,
        ));
    }
}

// ---------------------------------------------------------------------------
// The rendered text.
// ---------------------------------------------------------------------------

/// The token shown when the total or the ETA is unknown.
pub open spec fn unknown_rep() -> Seq<char> {
    seq!['U', 'n', 'k', 'n', 'o', 'w', 'n']
}

pub open spec fn spaces(n: int) -> Seq<char>
    decreases n,
{
    if n <= 0 {
        Seq::empty()
    } else {
        spaces(n - 1).push(' ')
    }
}

/// The bar: one glyph per bucket, the bucket's fill rounded onto the
/// nine-level scale.
pub open spec fn bar_rep(rs: Seq<Progress>, total: int, width: int, k: int) -> Seq<char>
    decreases k,
{
    if k <= 0 {
        Seq::empty()
    } else {
        bar_rep(rs, total, width, k - 1).push(
            block_char(
                glyph_level(
                    bucket_fill(rs, total, width, k - 1),
                    bucket_lo(total, width, k) - bucket_lo(total, width, k - 1),
                ),
            ),
        )
    }
}

/// The percentage with two decimals.
pub open spec fn percent_rep(curr: int, total: int) -> Seq<char> {
    let pc = curr * 10000 / total;
    dec_rep(pc / 100) + seq!['.'] + two_digit_rep(pc % 100)
}

/// The ETA: remaining bytes over the smoothed speed, unknown when the
/// average is still zero.
pub open spec fn eta_rep(curr: int, total: int, avg: int) -> Seq<char> {
    if avg <= 0 {
        unknown_rep()
    } else {
        time_rep((total - curr) / avg)
    }
}

/// The two-line progress block: `|bar| percent% (done/total)` and
/// `Elapsed: .. | Speed: ../s | Remaining: ..`.  With an unknown total the
/// bar stays empty and percentage and ETA read `Unknown`.
pub open spec fn render_rep(
    rs: Seq<Progress>,
    total: int,
    width: int,
    curr: int,
    avg: int,
    secs: int,
) -> Seq<char> {
    let head = if total == 0 {
        seq!['|'] + spaces(width) + seq!['|', ' '] + unknown_rep() + seq!['%', ' ', '('] + size_rep(
            curr,
        ) + seq!['/'] + unknown_rep() + seq![')', '\n']
    } else {
        seq!['|'] + bar_rep(rs, total, width, width) + seq!['|', ' '] + percent_rep(curr, total)
            + seq!['%', ' ', '('] + size_rep(curr) + seq!['/'] + size_rep(total) + seq![')', '\n']
    };
    let eta = if total == 0 {
        unknown_rep()
    } else {
        eta_rep(curr, total, avg)
    };
    head + seq!['E', 'l', 'a', 'p', 's', 'e', 'd', ':', ' '] + time_rep(secs) + seq![
        ' ',
        '|',
        ' ',
        'S',
        'p',
        'e',
        'e',
        'd',
        ':',
        ' ',
    ] + size_rep(avg) + seq!['/', 's', ' ', '|', ' ', 'R', 'e', 'm', 'a', 'i', 'n', 'i', 'n', 'g', ':', ' ']
        + eta + seq!['\n']
}

/// The instantaneous speed of one tick: the byte delta scaled to one
/// second, clamped to the representable range; zero when the tick rounds to
/// no elapsed time.
pub open spec fn inst_speed_rep(delta: int, elapsed_ms: int) -> int {
    if elapsed_ms > 0 {
        let v = delta * 1000 / elapsed_ms;
        if v > u64::MAX {
            u64::MAX as int
        } else {
            v
        }
    } else {
        0
    }
}

/// The exponential moving average with rational weight `num/den`:
/// `avg * alpha + sample * (1 - alpha)`.
pub open spec fn ema_rep(avg: int, sample: int, num: int, den: int) -> int {
    (avg * num + sample * (den - num)) / den
}

/// Renders live progress: owns the interval set, the byte counters of the
/// current and the previous tick, and the smoothed speed.
pub struct Painter {
    pub progress: ProgressEntry,
    pub total: u64,
    pub width: u16,
    pub alpha_num: u64,
    pub alpha_den: u64,
    pub prev_size: u64,
    pub curr_size: u64,
    pub avg_speed: u64,
}

impl Painter {
    /// The running counter always equals the merged total, every range lies
    /// within a known total, and the smoothing weight is a proper fraction.
    pub open spec fn wf(&self) -> bool {
        &&& self.progress.wf()
        &&& self.width >= 1
        &&& 1 <= self.alpha_den
        &&& self.alpha_num <= self.alpha_den
        &&& self.curr_size == sum_len(self.progress@)
        &&& self.prev_size <= self.curr_size
        &&& (self.total > 0 && self.progress@.len() > 0 ==> self.progress@.last().end
            <= self.total)
    }

    pub fn new(
        init_progress: ProgressEntry,
        total: u64,
        progress_width: u16,
        alpha_num: u64,
        alpha_den: u64,
    ) -> (r: Painter)
        requires
            init_progress.wf(),
            progress_width >= 1,
            1 <= alpha_den,
            alpha_num <= alpha_den,
            total > 0 && init_progress@.len() > 0 ==> init_progress@.last().end <= total,
        ensures
            r.wf(),
            r.progress@ == init_progress@,
            r.total == total,
            r.width == progress_width,
            r.alpha_num == alpha_num,
            r.alpha_den == alpha_den,
            r.prev_size == sum_len(init_progress@),
            r.curr_size == sum_len(init_progress@),
            r.avg_speed == 0,
    {
        let init_size = init_progress.total();
        Painter {
            progress: init_progress,
            total,
            width: progress_width,
            alpha_num,
            alpha_den,
            prev_size: init_size,
            curr_size: init_size,
            avg_speed: 0,
        }
    }

    /// Merges a freshly completed range and advances the running byte
    /// counter — to exactly the merged total, so re-delivered ranges are
    /// never counted twice.
    pub fn add(&mut self, p: Progress)
        requires
            old(self).wf(),
            p.is_range(),
            old(self).total > 0 ==> p.end <= old(self).total,
        ensures
            final(self).wf(),
            covered(final(self).progress@) == covered(old(self).progress@).union(p.byte_set()),
            final(self).curr_size == covered(final(self).progress@).len(),
            final(self).total == old(self).total,
            final(self).width == old(self).width,
            final(self).alpha_num == old(self).alpha_num,
            final(self).alpha_den == old(self).alpha_den,
            final(self).avg_speed == old(self).avg_speed,
            final(self).prev_size == old(self).prev_size,
    {
        proof {
            lemma_sum_is_covered_len(self.progress@);
        }
        self.progress.merge(p);
        proof {
            lemma_sum_is_covered_len(self.progress@);
            lemma_int_range(p.start as int, p.end as int);
            crate::progress::lemma_disjoint_union_len(
                covered(old(self).progress@),
                p.byte_set().difference(covered(old(self).progress@)),
            );
            assert(covered(self.progress@) =~= covered(old(self).progress@).union(
                p.byte_set().difference(covered(old(self).progress@)),
            ));
            vstd::set_lib::lemma_len_subset(
                p.byte_set().difference(covered(old(self).progress@)),
                p.byte_set(),
            );
            vstd::set_lib::lemma_len_subset(
                covered(old(self).progress@),
                covered(self.progress@),
            );
            // the merged ranges still lie within a known total
            if self.total > 0 && self.progress@.len() > 0 {
                lemma_covered_bounds(self.progress@);
                let last = self.progress@.last();
                assert(covered(self.progress@).contains(last.end - 1)) by {
                    assert(self.progress@[self.progress@.len() - 1].start <= last.end - 1
                        < self.progress@[self.progress@.len() - 1].end);
                }
                if old(self).progress@.len() > 0 {
                    lemma_covered_bounds(old(self).progress@);
                }
            }
        }
        self.curr_size = self.progress.total();
    }

    /// One redraw tick: folds this tick's byte delta into the smoothed
    /// speed, remembers the counter for the next tick, and returns the
    /// rendered two-line block.
    pub fn update(&mut self, elapsed_ms: u64, total_elapsed_secs: u64) -> (out: String)
        requires
            old(self).wf(),
        ensures
            final(self).wf(),
            final(self).progress@ == old(self).progress@,
            final(self).total == old(self).total,
            final(self).width == old(self).width,
            final(self).alpha_num == old(self).alpha_num,
            final(self).alpha_den == old(self).alpha_den,
            final(self).curr_size == old(self).curr_size,
            final(self).prev_size == old(self).curr_size,
            final(self).avg_speed == ema_rep(
                old(self).avg_speed as int,
                inst_speed_rep(
                    old(self).curr_size - old(self).prev_size,
                    elapsed_ms as int,
                ),
                old(self).alpha_num as int,
                old(self).alpha_den as int,
            ),
            out@ == render_rep(
                old(self).progress@,
                old(self).total as int,
                old(self).width as int,
                old(self).curr_size as int,
                final(self).avg_speed as int,
                total_elapsed_secs as int,
            ),
    {
        let delta = self.curr_size - self.prev_size;
        let inst: u64 = if elapsed_ms > 0 {
            let v = ((delta as u128) * 1000) / (elapsed_ms as u128);
            if v > u64::MAX as u128 {
                u64::MAX
            } else {
                v as u64
            }
        } else {
            0
        };
        let num = self.alpha_num;
        let den = self.alpha_den;
        proof {
            let hi = if self.avg_speed >= inst {
                self.avg_speed as int
            } else {
                inst as int
            };
            assert((self.avg_speed as int) * (num as int) + (inst as int) * ((den - num) as int)
                <= hi * (den as int)) by (nonlinear_arith)
                requires
                    0 <= num <= den,
                    0 <= self.avg_speed <= hi,
                    0 <= inst <= hi,
            ;
            vstd::arithmetic::div_mod::lemma_div_is_ordered(
                (self.avg_speed as int) * (num as int) + (inst as int) * ((den - num) as int),
                hi * (den as int),
                den as int,
            );
            vstd::arithmetic::div_mod::lemma_div_multiples_vanish(hi, den as int);
            assert(hi * (den as int) == (den as int) * hi) by (nonlinear_arith);
            assert((self.avg_speed as int) * (num as int) + (inst as int) * ((den - num) as int)
                >= 0) by (nonlinear_arith)
                requires
                    0 <= num <= den,
                    0 <= self.avg_speed,
                    0 <= inst,
            ;
            assert(hi * (den as int) <= u128::MAX) by (nonlinear_arith)
                requires
                    0 <= hi <= u64::MAX,
                    0 <= den <= u64::MAX,
            ;
        }
        let mixed = ((self.avg_speed as u128) * (num as u128) + (inst as u128) * ((den
            - num) as u128)) / (den as u128);
        self.avg_speed = mixed as u64;
        self.prev_size = self.curr_size;
        self.render(total_elapsed_secs)
    }

    /// Renders the two-line progress block from the current state.
    #[verifier::rlimit(100)]
    fn render(&self, secs: u64) -> (out: String)
        requires
            self.wf(),
        ensures
            out@ == render_rep(
                self.progress@,
                self.total as int,
                self.width as int,
                self.curr_size as int,
                self.avg_speed as int,
                secs as int,
            ),
    {
        proof {
            reveal_strlit("|");
            reveal_strlit(" ");
            reveal_strlit("| ");
            reveal_strlit("% (");
            reveal_strlit("/");
            reveal_strlit(")\n");
            reveal_strlit("Unknown");
            reveal_strlit("Elapsed: ");
            reveal_strlit(" | Speed: ");
            reveal_strlit("/s | Remaining: ");
            reveal_strlit("\n");
            reveal_strlit(".");
            assert("Unknown"@ =~= unknown_rep());
        }
        let mut s = String::new();
        s.append("|");
        if self.total == 0 {
            let w = self.width as u64;
            let mut k: u64 = 0;
            proof {
                assert(s@ =~= seq!['|'] + spaces(0));
            }
            while k < w
                invariant
                    0 <= k <= w,
                    s@ == seq!['|'] + spaces(k as int),
                    " "@ == seq![' '],
                decreases w - k,
            {
                s.append(" ");
                proof {
                    assert(s@ =~= seq!['|'] + spaces(k + 1 as int));
                }
                k = k + 1;
            }
            s.append("| ");
            s.append("Unknown");
            s.append("% (");
            s.append(format_size(self.curr_size).as_str());
            s.append("/");
            s.append("Unknown");
            s.append(")\n");
        } else {
            let bar = self.render_bar();
            s.append(bar.as_str());
            s.append("| ");
            s.append(self.render_percent().as_str());
            s.append("% (");
            s.append(format_size(self.curr_size).as_str());
            s.append("/");
            s.append(format_size(self.total).as_str());
            s.append(")\n");
        }
        s.append("Elapsed: ");
        s.append(format_time(secs).as_str());
        s.append(" | Speed: ");
        s.append(format_size(self.avg_speed).as_str());
        s.append("/s | Remaining: ");
        if self.total == 0 || self.avg_speed == 0 {
            s.append("Unknown");
        } else {
            proof {
                lemma_curr_le_total(self.progress@, self.total as int);
                assert(self.curr_size <= self.total);
            }
            s.append(format_time((self.total - self.curr_size) / self.avg_speed).as_str());
        }
        s.append("\n");
        proof {
            assert(s@ =~= render_rep(
                self.progress@,
                self.total as int,
                self.width as int,
                self.curr_size as int,
                self.avg_speed as int,
                secs as int,
            ));
        }
        s
    }

    /// The glyphs of the bar, one per bucket.
    fn render_bar(&self) -> (out: String)
        requires
            self.wf(),
            self.total >= 1,
        ensures
            out@ == bar_rep(
                self.progress@,
                self.total as int,
                self.width as int,
                self.width as int,
            ),
    {
        let fills = bar_values(&self.progress, self.total, self.width);
        let w = self.width as u64;
        let total = self.total;
        let mut s = String::new();
        let mut k: usize = 0;
        while k < self.width as usize
            invariant
                self.wf(),
                total == self.total,
                total >= 1,
                w == self.width,
                fills@.len() == w,
                forall|j: int|
                    0 <= j < w ==> fills@[j] == bucket_fill(
                        self.progress@,
                        total as int,
                        w as int,
                        j,
                    ),
                0 <= k <= w,
                s@ == bar_rep(self.progress@, total as int, w as int, k as int),
            decreases w - k,
        {
            proof {
                assert((k as int) * (total as int) <= ((k + 1) as int) * (total as int)) by (
                nonlinear_arith)
                    requires
                        total >= 0,
                ;
                assert(((k + 1) as int) * (total as int) <= (w as int) * (total as int)) by (
                nonlinear_arith)
                    requires
                        k + 1 <= w,
                        total >= 0,
                ;
                assert((k as int) * (total as int) >= 0) by (nonlinear_arith)
                    requires
                        total >= 0,
                        k >= 0,
                ;
                vstd::arithmetic::div_mod::lemma_div_is_ordered(
                    (k as int) * (total as int),
                    ((k + 1) as int) * (total as int),
                    w as int,
                );
                vstd::arithmetic::div_mod::lemma_div_is_ordered(
                    ((k + 1) as int) * (total as int),
                    (w as int) * (total as int),
                    w as int,
                );
                vstd::arithmetic::div_mod::lemma_div_multiples_vanish(total as int, w as int);
                assert((w as int) * (total as int) == (total as int) * (w as int)) by (
                nonlinear_arith);
            }
            let lo = mul_div(k as u64, total, w);
            let hi = mul_div(k as u64 + 1, total, w);
            let fill = fills[k];
            let blen = hi - lo;
            let level: u64;
            if blen == 0 {
                level = 0;
            } else {
                proof {
                    lemma_sum_overlap_bound(self.progress@, lo as int, hi as int);
                }
                let rounded = (((16u128 * (fill as u128)) + (blen as u128)) / (2u128 * (
                blen as u128))) as u64;
                proof {
                    assert((16 * (fill as int) + blen as int) / (2 * (blen as int)) <= 16) by (
                    nonlinear_arith)
                        requires
                            blen >= 1,
                            0 <= fill <= blen,
                    ;
                    assert((16 * (fill as int) + blen as int) / (2 * (blen as int)) >= 0) by (
                    nonlinear_arith)
                        requires
                            blen >= 1,
                            fill >= 0,
                    ;
                }
                level = if rounded > 8 {
                    8
                } else {
                    rounded
                };
            }
            s.append(block_str(level));
            proof {
                assert(s@ =~= bar_rep(self.progress@, total as int, w as int, k + 1 as int));
            }
            k = k + 1;
        }
        s
    }

    /// The completion percentage with two decimals.
    fn render_percent(&self) -> (out: String)
        requires
            self.wf(),
            self.total >= 1,
        ensures
            out@ == percent_rep(self.curr_size as int, self.total as int),
    {
        proof {
            lemma_curr_le_total(self.progress@, self.total as int);
            assert((self.curr_size as int) * 10000 <= (self.total as int) * 10000) by (
            nonlinear_arith)
                requires
                    self.curr_size <= self.total,
            ;
            vstd::arithmetic::div_mod::lemma_div_is_ordered(
                (self.curr_size as int) * 10000,
                (self.total as int) * 10000,
                self.total as int,
            );
            vstd::arithmetic::div_mod::lemma_div_multiples_vanish(10000, self.total as int);
            assert((self.total as int) * 10000 == 10000 * (self.total as int)) by (
            nonlinear_arith);
            assert((self.curr_size as int) * 10000 >= 0) by (nonlinear_arith)
                requires
                    self.curr_size >= 0,
            ;
            reveal_strlit(".");
        }
        let pc = mul_div(self.curr_size, 10000, self.total);
        let mut s = u64_string(pc / 100);
        s.append(".");
        s.append(two_digit_string(pc % 100).as_str());
        proof {
            assert("."@ =~= seq!['.']);
            assert(s@ =~= percent_rep(self.curr_size as int, self.total as int));
        }
        s
    }
}

/// With every range inside `[0, total)`, the completed byte count is at
/// most the total.
proof fn lemma_curr_le_total(rs: Seq<Progress>, total: int)
    requires
        crate::progress::ranges_wf(rs),
        total >= 0,
        rs.len() > 0 ==> rs.last().end <= total,
    ensures
        sum_len(rs) <= total,
{
    lemma_sum_is_covered_len(rs);
    lemma_int_range(0, total);
    if rs.len() > 0 {
        lemma_covered_bounds(rs);
        assert(covered(rs).subset_of(set_int_range(0, total)));
        lemma_len_subset(covered(rs), set_int_range(0, total));
    } else {
        assert(covered(rs) =~= Set::<int>::empty());
    }
}

} // verus!

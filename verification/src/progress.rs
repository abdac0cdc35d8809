//! Interval model: half-open byte ranges and the algebra over them.
//!
//! A transfer's completed bytes are an ordered sequence of disjoint,
//! non-adjacent ranges.  `merge` folds a newly written range in, `total`
//! counts the completed bytes, `invert` yields the gaps still missing, and
//! `add_blank` tiles the whole file into filled and blank segments for a
//! renderer.

use vstd::prelude::*;
use vstd::set_lib::{lemma_int_range, set_int_range};

verus! {

/// A half-open byte range `[start, end)` of the target file.
#[derive(Clone, Copy, Debug, PartialEq, Eq, Structural)]
pub struct Progress {
    pub start: u64,
    pub end: u64,
}

impl Progress {
    /// Number of bytes the range spans.
    pub open spec fn spec_len(self) -> int {
        self.end - self.start
    }

    /// A valid range is non-empty.
    pub open spec fn is_range(self) -> bool {
        self.start < self.end
    }

    /// The set of byte offsets the range covers.
    pub open spec fn byte_set(self) -> Set<int> {
        set_int_range(self.start as int, self.end as int)
    }

    pub fn new(start: u64, end: u64) -> (r: Progress)
        ensures
            r.start == start,
            r.end == end,
    {
        Progress { start, end }
    }

    pub fn len(&self) -> (r: u64)
        requires
            self.start <= self.end,
        ensures
            r == self.spec_len(),
    {
        self.end - self.start
    }
}

/// Two ranges are spliceable iff one's end is the other's start: directly
/// adjacent, so they may be coalesced into one.
pub trait Spliceable {
    spec fn spec_can_splice(&self, other: &Self) -> bool;

    fn can_splice(&self, other: &Self) -> (r: bool)
        ensures
            r == self.spec_can_splice(other),
    ;
}

impl Spliceable for Progress {
    open spec fn spec_can_splice(&self, other: &Self) -> bool {
        self.start == other.end || other.start == self.end
    }

    fn can_splice(&self, other: &Self) -> (r: bool) {
        self.start == other.end || other.start == self.end
    }
}

/// Ranges are sorted ascending, non-empty, pairwise disjoint and never
/// splice-adjacent: between two consecutive ranges there is always a gap.
pub open spec fn ranges_wf(rs: Seq<Progress>) -> bool {
    &&& forall|k: int| 0 <= k < rs.len() ==> (#[trigger] rs[k]).is_range()
    &&& forall|k: int| 0 <= k < rs.len() - 1 ==> (#[trigger] rs[k]).end < rs[k + 1].start
}

/// The set of byte offsets covered by any of the ranges.
pub open spec fn covered(rs: Seq<Progress>) -> Set<int> {
    Set::new(|i: int| exists|k: int| 0 <= k < rs.len() && (#[trigger] rs[k]).start <= i < rs[k].end)
}

/// Sum of the lengths of the ranges.
pub open spec fn sum_len(rs: Seq<Progress>) -> int
    decreases rs.len(),
{
    if rs.len() == 0 {
        0
    } else {
        sum_len(rs.drop_last()) + rs.last().spec_len()
    }
}

/// In a well-formed sequence every earlier range ends strictly before a
/// later one starts.
pub proof fn lemma_wf_ordered(rs: Seq<Progress>, i: int, j: int)
    requires
        ranges_wf(rs),
        0 <= i < j < rs.len(),
    ensures
        rs[i].end < rs[j].start,
    decreases j - i,
{
    if j > i + 1 {
        lemma_wf_ordered(rs, i, j - 1);
        assert(rs[j - 1].end < rs[j].start);
        assert(rs[j - 1].is_range());
    }
}

/// Appending one range adds exactly its bytes to the covered set.
pub proof fn lemma_covered_push(rs: Seq<Progress>, x: Progress)
    ensures
        covered(rs.push(x)) == covered(rs).union(x.byte_set()),
{
    let l = rs.push(x);
    assert forall|i: int| covered(l).contains(i) implies covered(rs).union(
        x.byte_set(),
    ).contains(i) by {
        let k = choose|k: int| 0 <= k < l.len() && (#[trigger] l[k]).start <= i < l[k].end;
        if k < rs.len() {
            assert(rs[k] == l[k]);
            assert(covered(rs).contains(i));
        } else {
            assert(l[k] == x);
        }
    }
    assert forall|i: int| covered(rs).union(x.byte_set()).contains(i) implies covered(l).contains(
        i,
    ) by {
        if covered(rs).contains(i) {
            let k = choose|k: int| 0 <= k < rs.len() && (#[trigger] rs[k]).start <= i < rs[k].end;
            assert(l[k] == rs[k]);
        } else {
            assert(l[rs.len() as int] == x);
        }
    }
    assert(covered(l) =~= covered(rs).union(x.byte_set()));
}

/// Concatenation unions the covered sets.
pub proof fn lemma_covered_add(a: Seq<Progress>, b: Seq<Progress>)
    ensures
        covered(a + b) == covered(a).union(covered(b)),
{
    let l = a + b;
    assert forall|i: int| covered(l).contains(i) implies covered(a).union(covered(b)).contains(
        i,
    ) by {
        let k = choose|k: int| 0 <= k < l.len() && (#[trigger] l[k]).start <= i < l[k].end;
        if k < a.len() {
            assert(a[k] == l[k]);
            assert(covered(a).contains(i));
        } else {
            assert(b[k - a.len()] == l[k]);
            assert(covered(b).contains(i));
        }
    }
    assert forall|i: int| covered(a).union(covered(b)).contains(i) implies covered(l).contains(
        i,
    ) by {
        if covered(a).contains(i) {
            let k = choose|k: int| 0 <= k < a.len() && (#[trigger] a[k]).start <= i < a[k].end;
            assert(l[k] == a[k]);
        } else {
            let k = choose|k: int| 0 <= k < b.len() && (#[trigger] b[k]).start <= i < b[k].end;
            assert(l[k + a.len()] == b[k]);
        }
    }
    assert(covered(l) =~= covered(a).union(covered(b)));
}

/// Every covered offset lies between the first range's start and the last
/// range's end.
pub proof fn lemma_covered_bounds(rs: Seq<Progress>)
    requires
        ranges_wf(rs),
        rs.len() > 0,
    ensures
        covered(rs).subset_of(set_int_range(rs[0].start as int, rs.last().end as int)),
{
    assert forall|i: int| covered(rs).contains(i) implies set_int_range(
        rs[0].start as int,
        rs.last().end as int,
    ).contains(i) by {
        let k = choose|k: int| 0 <= k < rs.len() && (#[trigger] rs[k]).start <= i < rs[k].end;
        if k > 0 {
            lemma_wf_ordered(rs, 0, k);
        }
        if k < rs.len() - 1 {
            lemma_wf_ordered(rs, k, rs.len() - 1);
        }
    }
}

/// The union of two finite, disjoint sets has the sum of their sizes.
pub proof fn lemma_disjoint_union_len<A>(s1: Set<A>, s2: Set<A>)
    requires
        s1.finite(),
        s2.finite(),
        s1.disjoint(s2),
    ensures
        s1.union(s2).len() == s1.len() + s2.len(),
        s1.union(s2).finite(),
    decreases s1.len(),
{
    if s1.len() == 0 {
        assert(s1 =~= Set::empty());
        assert(s1.union(s2) =~= s2);
    } else {
        let a = s1.choose();
        assert(s1.contains(a));
        let s1r = s1.remove(a);
        lemma_disjoint_union_len(s1r, s2);
        assert(s1.union(s2) =~= s1r.union(s2).insert(a));
        assert(!s1r.union(s2).contains(a));
    }
}

/// For a well-formed sequence, the sum of the range lengths equals the
/// number of covered offsets: each byte is counted exactly once.
pub proof fn lemma_sum_is_covered_len(rs: Seq<Progress>)
    requires
        ranges_wf(rs),
    ensures
        covered(rs).finite(),
        covered(rs).len() == sum_len(rs),
    decreases rs.len(),
{
    if rs.len() == 0 {
        assert(covered(rs) =~= Set::<int>::empty());
    } else {
        let rest = rs.drop_last();
        let last = rs.last();
        assert(ranges_wf(rest));
        lemma_sum_is_covered_len(rest);
        assert(rs =~= rest.push(last));
        lemma_covered_push(rest, last);
        lemma_int_range(last.start as int, last.end as int);
        assert forall|i: int| covered(rest).contains(i) implies !last.byte_set().contains(i) by {
            let k = choose|k: int| 0 <= k < rest.len() && (#[trigger] rest[k]).start <= i
                < rest[k].end;
            assert(rest[k] == rs[k]);
            lemma_wf_ordered(rs, k, rs.len() - 1);
        }
        assert(covered(rest).disjoint(last.byte_set()));
        lemma_disjoint_union_len(covered(rest), last.byte_set());
    }
}

/// Everything written so far for one transfer: an ordered sequence of
/// disjoint, non-adjacent byte ranges, mutated only through `merge`.
#[derive(Clone, Debug)]
pub struct ProgressEntry {
    ranges: Vec<Progress>,
}

impl View for ProgressEntry {
    type V = Seq<Progress>;

    closed spec fn view(&self) -> Seq<Progress> {
        self.ranges@
    }
}

impl ProgressEntry {
    pub open spec fn wf(&self) -> bool {
        ranges_wf(self@)
    }

    /// The set of byte offsets confirmed written.
    pub open spec fn covered_set(&self) -> Set<int> {
        covered(self@)
    }

    pub fn new() -> (r: ProgressEntry)
        ensures
            r@ =~= Seq::<Progress>::empty(),
            r.wf(),
    {
        ProgressEntry { ranges: Vec::new() }
    }

    pub fn count(&self) -> (r: usize)
        ensures
            r == self@.len(),
    {
        self.ranges.len()
    }

    pub fn get(&self, i: usize) -> (r: Progress)
        requires
            i < self@.len(),
        ensures
            r == self@[i as int],
    {
        self.ranges[i]
    }

    /// An equal copy of the entry.
    pub fn duplicate(&self) -> (r: ProgressEntry)
        ensures
            r@ == self@,
    {
        ProgressEntry { ranges: self.ranges.clone() }
    }

    pub fn to_ranges(&self) -> (r: Vec<Progress>)
        ensures
            r@ == self@,
    {
        self.ranges.clone()
    }

    /// Accepts a sequence of ranges as an entry exactly when it is already
    /// sorted, non-empty ranged, disjoint and non-adjacent.
    #[verifier::rlimit(30)]
    pub fn from_ranges(v: Vec<Progress>) -> (r: Option<ProgressEntry>)
        ensures
            r is Some <==> ranges_wf(v@),
            r matches Some(e) ==> e@ == v@ && e.wf(),
    {
        let n = v.len();
        let mut i: usize = 0;
        while i < n
            invariant
                n == v@.len(),
                0 <= i <= n,
                forall|k: int| 0 <= k < i ==> (#[trigger] v@[k]).is_range(),
                forall|k: int| 0 <= k < i - 1 ==> (#[trigger] v@[k]).end < v@[k + 1].start,
            decreases n - i,
        {
            let g = v[i];
            if g.start >= g.end {
                return None;
            }
            if i > 0 && v[i - 1].end >= g.start {
                return None;
            }
            i = i + 1;
        }
        Some(ProgressEntry { ranges: v })
    }

    /// Folds a newly written range into the entry, coalescing it with every
    /// existing range it overlaps or touches.  Exactly the bytes of `r` are
    /// added to the covered set; the result is again well-formed.
    pub fn merge(&mut self, r: Progress)
        requires
            old(self).wf(),
            r.is_range(),
        ensures
            final(self).wf(),
            covered(final(self)@) == covered(old(self)@).union(r.byte_set()),
    {
        let rs = Ghost(self@);
        let n = self.ranges.len();
        let mut out: Vec<Progress> = Vec::new();
        let mut i: usize = 0;
        // Ranges wholly before `r`, with a gap left between: copied unchanged.
        while i < n && self.ranges[i].end < r.start
            invariant
                *self == *old(self),
                self.wf(),
                r.is_range(),
                n == self@.len(),
                0 <= i <= n,
                out@ == self@.subrange(0, i as int),
                forall|k: int| 0 <= k < i ==> (#[trigger] self@[k]).end < r.start,
            decreases n - i,
        {
            out.push(self.ranges[i]);
            assert(out@ =~= self@.subrange(0, i + 1 as int));
            i = i + 1;
        }
        let i0 = Ghost(i as int);
        // Ranges that overlap or touch `[lo, hi)`: absorbed into it.
        let mut lo: u64 = r.start;
        let mut hi: u64 = r.end;
        while i < n && self.ranges[i].start <= hi
            invariant
                *self == *old(self),
                self.wf(),
                r.is_range(),
                n == self@.len(),
                0 <= i0@ <= i <= n,
                out@ == self@.subrange(0, i0@),
                forall|k: int| 0 <= k < i0@ ==> (#[trigger] self@[k]).end < r.start,
                i0@ < n ==> self@[i0@].end >= r.start,
                lo <= r.start,
                hi >= r.end,
                lo == r.start || (i0@ < n && lo == self@[i0@].start),
                set_int_range(lo as int, hi as int) == r.byte_set().union(
                    covered(self@.subrange(i0@, i as int)),
                ),
            decreases n - i,
        {
            let g = self.ranges[i];
            proof {
                if i > i0@ {
                    lemma_wf_ordered(self@, i0@, i as int);
                }
                lemma_covered_push(self@.subrange(i0@, i as int), g);
                assert(self@.subrange(i0@, i + 1 as int) =~= self@.subrange(i0@, i as int).push(
                    g,
                ));
            }
            let ghost old_lo = lo;
            let ghost old_hi = hi;
            if g.start < lo {
                lo = g.start;
            }
            if g.end > hi {
                hi = g.end;
            }
            proof {
                assert(g.end > g.start >= lo || g.end >= r.start >= lo);
                assert(set_int_range(lo as int, hi as int) =~= set_int_range(
                    old_lo as int,
                    old_hi as int,
                ).union(g.byte_set()));
            }
            i = i + 1;
        }
        let j1 = Ghost(i as int);
        out.push(Progress { start: lo, end: hi });
        // Ranges strictly after `[lo, hi)`, with a gap: copied unchanged.
        while i < n
            invariant
                *self == *old(self),
                self.wf(),
                n == self@.len(),
                0 <= j1@ <= i <= n,
                out@ == self@.subrange(0, i0@).push(Progress { start: lo, end: hi })
                    + self@.subrange(j1@, i as int),
            decreases n - i,
        {
            out.push(self.ranges[i]);
            proof {
                assert(self@.subrange(j1@, i + 1 as int) =~= self@.subrange(j1@, i as int).push(
                    self@[i as int],
                ));
                assert(out@ =~= self@.subrange(0, i0@).push(Progress { start: lo, end: hi })
                    + self@.subrange(j1@, i + 1 as int));
            }
            i = i + 1;
        }
        proof {
            lemma_merge_shape(self@, r, i0@, j1@, lo, hi);
        }
        self.ranges = out;
    }
}

impl ProgressEntry {
    /// Sum of `(end - start)` over all ranges: the number of bytes written,
    /// each byte counted once however often its range was merged.
    pub fn total(&self) -> (r: u64)
        requires
            self.wf(),
        ensures
            r == sum_len(self@),
            r == self.covered_set().len(),
    {
        proof {
            lemma_sum_is_covered_len(self@);
        }
        let n = self.ranges.len();
        let mut acc: u64 = 0;
        let mut i: usize = 0;
        while i < n
            invariant
                self.wf(),
                n == self@.len(),
                0 <= i <= n,
                acc == sum_len(self@.subrange(0, i as int)),
                i < n ==> acc <= self@[i as int].start,
                i == n && n > 0 ==> acc <= self@[n - 1].end,
            decreases n - i,
        {
            let g = self.ranges[i];
            proof {
                let sub = self@.subrange(0, i + 1 as int);
                assert(sub.drop_last() =~= self@.subrange(0, i as int));
                assert(sub.last() == g);
                if i + 1 < n {
                    assert(self@[i as int].end < self@[i + 1].start);
                }
            }
            acc = acc + (g.end - g.start);
            i = i + 1;
        }
        proof {
            assert(self@.subrange(0, n as int) =~= self@);
        }
        acc
    }

    /// The complement: the ordered gaps of `[0, full_size)` not yet covered,
    /// minimal and ascending — the ranges still required.
    pub fn invert(&self, full_size: u64) -> (r: ProgressEntry)
        requires
            self.wf(),
            self@.len() > 0 ==> self@.last().end <= full_size,
        ensures
            r.wf(),
            covered(r@) == set_int_range(0, full_size as int).difference(covered(self@)),
    {
        let n = self.ranges.len();
        let mut out: Vec<Progress> = Vec::new();
        let mut cursor: u64 = 0;
        let mut i: usize = 0;
        while i < n
            invariant
                self.wf(),
                n == self@.len(),
                n > 0 ==> self@.last().end <= full_size,
                0 <= i <= n,
                cursor == if i == 0 {
                    0int
                } else {
                    self@[i - 1].end as int
                },
                i < n ==> cursor <= self@[i as int].start,
                ranges_wf(out@),
                out@.len() > 0 ==> out@.last().end < cursor,
                covered(out@) == set_int_range(0, cursor as int).difference(
                    covered(self@.subrange(0, i as int)),
                ),
            decreases n - i,
        {
            let g = self.ranges[i];
            proof {
                if i + 1 < n {
                    assert(self@[i as int].end < self@[i + 1].start);
                }
                if n > 1 && i < n - 1 {
                    lemma_wf_ordered(self@, i as int, n - 1);
                }
                assert(self@.subrange(0, i + 1 as int) =~= self@.subrange(0, i as int).push(g));
                lemma_covered_push(self@.subrange(0, i as int), g);
                // every range before `i` ends at or before the cursor
                let sub = self@.subrange(0, i as int);
                assert forall|b: int| covered(sub).contains(b) implies b < cursor by {
                    let k = choose|k: int|
                        0 <= k < sub.len() && (#[trigger] sub[k]).start <= b < sub[k].end;
                    assert(sub[k] == self@[k]);
                    if k < i - 1 {
                        lemma_wf_ordered(self@, k, i - 1);
                    }
                }
            }
            if cursor < g.start {
                let gap = Progress { start: cursor, end: g.start };
                proof {
                    lemma_covered_push(out@, gap);
                }
                out.push(gap);
            }
            proof {
                assert(covered(out@) =~= set_int_range(0, g.start as int).difference(
                    covered(self@.subrange(0, i as int)),
                ));
                assert(covered(out@) =~= set_int_range(0, g.end as int).difference(
                    covered(self@.subrange(0, i + 1 as int)),
                ));
            }
            cursor = g.end;
            i = i + 1;
        }
        proof {
            assert(self@.subrange(0, n as int) =~= self@);
        }
        if cursor < full_size {
            let gap = Progress { start: cursor, end: full_size };
            proof {
                lemma_covered_push(out@, gap);
                if n > 0 {
                    lemma_covered_bounds(self@);
                }
            }
            out.push(gap);
        }
        proof {
            if n > 0 {
                lemma_covered_bounds(self@);
            }
            assert(covered(out@) =~= set_int_range(0, full_size as int).difference(
                covered(self@),
            ));
        }
        ProgressEntry { ranges: out }
    }
}

/// One segment of a renderer-facing tiling of the file: a range together
/// with whether its bytes are confirmed downloaded.
#[derive(Clone, Copy, Debug, PartialEq, Eq, Structural)]
pub struct ProgressData {
    pub range: Progress,
    pub filled: bool,
}

impl ProgressEntry {
    /// Tiles `[0, full_size)` into contiguous segments, each marked filled
    /// (confirmed downloaded) or blank (not yet reached), in ascending order.
    pub fn add_blank(&self, full_size: u64) -> (r: Vec<ProgressData>)
        requires
            self.wf(),
            self@.len() > 0 ==> self@.last().end <= full_size,
        ensures
            full_size == 0 ==> r@.len() == 0,
            full_size > 0 ==> r@.len() > 0 && r@[0].range.start == 0 && r@.last().range.end
                == full_size,
            forall|k: int| 0 <= k < r@.len() ==> (#[trigger] r@[k]).range.is_range(),
            forall|k: int|
                0 <= k < r@.len() - 1 ==> (#[trigger] r@[k]).range.end == r@[k + 1].range.start,
            forall|k: int|
                0 <= k < r@.len() - 1 ==> (#[trigger] r@[k]).filled != r@[k + 1].filled,
            forall|k: int|
                0 <= k < r@.len() ==> if (#[trigger] r@[k]).filled {
                    r@[k].range.byte_set().subset_of(covered(self@))
                } else {
                    r@[k].range.byte_set().disjoint(covered(self@))
                },
    {
        let n = self.ranges.len();
        let mut out: Vec<ProgressData> = Vec::new();
        let mut cursor: u64 = 0;
        let mut i: usize = 0;
        while i < n
            invariant
                self.wf(),
                n == self@.len(),
                n > 0 ==> self@.last().end <= full_size,
                0 <= i <= n,
                cursor == if i == 0 {
                    0int
                } else {
                    self@[i - 1].end as int
                },
                i < n ==> cursor <= self@[i as int].start,
                cursor <= full_size,
                out@.len() == 0 ==> cursor == 0,
                out@.len() > 0 ==> out@[0].range.start == 0 && out@.last().range.end == cursor,
                out@.len() > 0 && i > 0 ==> out@.last().filled,
                forall|k: int| 0 <= k < out@.len() ==> (#[trigger] out@[k]).range.is_range(),
                forall|k: int|
                    0 <= k < out@.len() - 1 ==> (#[trigger] out@[k]).filled != out@[k + 1].filled,
                forall|k: int|
                    0 <= k < out@.len() - 1 ==> (#[trigger] out@[k]).range.end == out@[k
                        + 1].range.start,
                forall|k: int|
                    0 <= k < out@.len() ==> if (#[trigger] out@[k]).filled {
                        out@[k].range.byte_set().subset_of(covered(self@))
                    } else {
                        out@[k].range.byte_set().disjoint(covered(self@))
                    },
            decreases n - i,
        {
            let g = self.ranges[i];
            proof {
                if i + 1 < n {
                    assert(self@[i as int].end < self@[i + 1].start);
                }
                if i < n - 1 {
                    lemma_wf_ordered(self@, i as int, n - 1);
                }
                // the gap before `g` meets no range
                assert forall|b: int|
                    cursor <= b < g.start implies !covered(self@).contains(b) by {
                    if covered(self@).contains(b) {
                        let k = choose|k: int|
                            0 <= k < self@.len() && (#[trigger] self@[k]).start <= b < self@[k].end;
                        if k < i {
                            if k < i - 1 {
                                lemma_wf_ordered(self@, k, i - 1);
                            }
                            assert(b < cursor);
                        } else {
                            if k > i {
                                lemma_wf_ordered(self@, i as int, k);
                            }
                            assert(b >= g.start);
                        }
                    }
                }
            }
            if cursor < g.start {
                out.push(ProgressData { range: Progress { start: cursor, end: g.start }, filled: false });
            }
            proof {
                // `g` itself is covered
                assert forall|b: int| g.byte_set().contains(b) implies covered(self@).contains(
                    b,
                ) by {
                    assert(self@[i as int].start <= b < self@[i as int].end);
                }
            }
            out.push(ProgressData { range: g, filled: true });
            cursor = g.end;
            i = i + 1;
        }
        if cursor < full_size {
            proof {
                assert forall|b: int|
                    cursor <= b < full_size implies !covered(self@).contains(b) by {
                    if covered(self@).contains(b) {
                        let k = choose|k: int|
                            0 <= k < self@.len() && (#[trigger] self@[k]).start <= b < self@[k].end;
                        if k < n - 1 {
                            lemma_wf_ordered(self@, k, n - 1);
                        }
                    }
                }
            }
            out.push(ProgressData { range: Progress { start: cursor, end: full_size }, filled: false });
        }
        out
    }
}

/// The first range's start is the least covered offset, and nothing at or
/// past the first range's end is covered below the second range.
proof fn lemma_head_bounds(a: Seq<Progress>, x: int)
    requires
        ranges_wf(a),
        a.len() > 0,
        covered(a).contains(x),
    ensures
        x >= a[0].start,
        x < a[0].end || x >= a[0].end + 1,
        x < a[0].end || covered(a.drop_first()).contains(x),
{
    let k = choose|k: int| 0 <= k < a.len() && (#[trigger] a[k]).start <= x < a[k].end;
    if k > 0 {
        lemma_wf_ordered(a, 0, k);
        assert(a.drop_first()[k - 1] == a[k]);
    }
}

/// Two non-empty well-formed entries covering the same bytes begin with the
/// same range.
proof fn lemma_heads_equal(a: Seq<Progress>, b: Seq<Progress>)
    requires
        ranges_wf(a),
        ranges_wf(b),
        covered(a) == covered(b),
        a.len() > 0,
        b.len() > 0,
    ensures
        a[0] == b[0],
{
    let a0 = a[0];
    let b0 = b[0];
    // the starts agree: each is the least covered offset
    assert(covered(a).contains(a0.start as int));
    assert(covered(b).contains(b0.start as int));
    lemma_head_bounds(b, a0.start as int);
    lemma_head_bounds(a, b0.start as int);
    assert(a0.start == b0.start);
    // the ends agree: neither entry covers its first range's end
    if a0.end < b0.end {
        assert(covered(b).contains(a0.end as int));
        assert(covered(a).contains(a0.end as int));
        let k = choose|k: int| 0 <= k < a.len() && (#[trigger] a[k]).start <= a0.end < a[k].end;
        if k > 0 {
            lemma_wf_ordered(a, 0, k);
        }
        assert(false);
    }
    if b0.end < a0.end {
        assert(covered(a).contains(b0.end as int));
        assert(covered(b).contains(b0.end as int));
        let k = choose|k: int| 0 <= k < b.len() && (#[trigger] b[k]).start <= b0.end < b[k].end;
        if k > 0 {
            lemma_wf_ordered(b, 0, k);
        }
        assert(false);
    }
}

/// Two well-formed entries covering the same bytes are the same sequence of
/// ranges: the representation is canonical.
#[verifier::rlimit(50)]
pub proof fn lemma_canonical_form(a: Seq<Progress>, b: Seq<Progress>)
    requires
        ranges_wf(a),
        ranges_wf(b),
        covered(a) == covered(b),
    ensures
        a == b,
    decreases a.len(),
{
    if a.len() == 0 {
        if b.len() > 0 {
            assert(covered(b).contains(b[0].start as int));
            assert(covered(a).contains(b[0].start as int));
            assert(false);
        }
        assert(a =~= b);
    } else if b.len() == 0 {
        assert(covered(a).contains(a[0].start as int));
        assert(covered(b).contains(a[0].start as int));
        assert(false);
    } else {
        lemma_heads_equal(a, b);
        // drop the equal heads and recurse
        let at = a.drop_first();
        let bt = b.drop_first();
        lemma_tail_wf(a);
        lemma_tail_wf(b);
        lemma_tail_covered(a);
        lemma_tail_covered(b);
        assert(covered(at) == covered(bt));
        lemma_canonical_form(at, bt);
        assert forall|k: int| 0 <= k < a.len() implies a[k] == b[k] by {
            if k > 0 {
                assert(at[k - 1] == a[k]);
                assert(bt[k - 1] == b[k]);
            }
        }
        assert(a =~= b);
    }
}

/// Dropping the first range keeps the sequence well-formed.
proof fn lemma_tail_wf(a: Seq<Progress>)
    requires
        ranges_wf(a),
        a.len() > 0,
    ensures
        ranges_wf(a.drop_first()),
{
    let at = a.drop_first();
    assert forall|k: int| 0 <= k < at.len() implies (#[trigger] at[k]).is_range() by {
        assert(at[k] == a[k + 1]);
    }
    assert forall|k: int| 0 <= k < at.len() - 1 implies (#[trigger] at[k]).end < at[k + 1].start by {
        assert(at[k] == a[k + 1]);
        assert(at[k + 1] == a[k + 2]);
    }
}

/// Dropping the first range removes exactly its bytes from the covered set.
proof fn lemma_tail_covered(a: Seq<Progress>)
    requires
        ranges_wf(a),
        a.len() > 0,
    ensures
        covered(a.drop_first()) == covered(a).difference(a[0].byte_set()),
{
    let at = a.drop_first();
    assert forall|i: int| covered(at).contains(i) implies covered(a).difference(
        a[0].byte_set(),
    ).contains(i) by {
        let k = choose|k: int| 0 <= k < at.len() && (#[trigger] at[k]).start <= i < at[k].end;
        assert(at[k] == a[k + 1]);
        lemma_wf_ordered(a, 0, k + 1);
    }
    assert forall|i: int|
        covered(a).difference(a[0].byte_set()).contains(i) implies covered(at).contains(i) by {
        let k = choose|k: int| 0 <= k < a.len() && (#[trigger] a[k]).start <= i < a[k].end;
        if k == 0 {
            assert(a[0].byte_set().contains(i));
            assert(false);
        } else {
            assert(at[k - 1] == a[k]);
        }
    }
    assert(covered(at) =~= covered(a).difference(a[0].byte_set()));
}

/// Completed and missing ranges partition `[0, total)` exactly: the missing
/// set (as `invert` returns it) meets the completed set nowhere, and together
/// they cover every byte of the file.
pub proof fn lemma_invert_partitions(done: Seq<Progress>, missing: Seq<Progress>, total: int)
    requires
        ranges_wf(done),
        covered(done).subset_of(set_int_range(0, total)),
        covered(missing) == set_int_range(0, total).difference(covered(done)),
    ensures
        covered(missing).disjoint(covered(done)),
        covered(missing).union(covered(done)) == set_int_range(0, total),
{
    assert(covered(missing).union(covered(done)) =~= set_int_range(0, total));
}

/// Merging adds each byte once: the total after a merge grows by exactly
/// the newly covered bytes, and re-merging already covered bytes changes
/// nothing.
pub proof fn lemma_merge_total(olds: Seq<Progress>, news: Seq<Progress>, r: Progress)
    requires
        ranges_wf(olds),
        ranges_wf(news),
        covered(news) == covered(olds).union(r.byte_set()),
    ensures
        sum_len(news) == sum_len(olds) + r.byte_set().difference(covered(olds)).len(),
        r.byte_set().subset_of(covered(olds)) ==> sum_len(news) == sum_len(olds),
{
    lemma_sum_is_covered_len(olds);
    lemma_sum_is_covered_len(news);
    if r.start <= r.end {
        lemma_int_range(r.start as int, r.end as int);
    } else {
        assert(r.byte_set() =~= Set::<int>::empty());
        lemma_int_range(0, 0);
        assert(r.byte_set().finite());
    }
    let fresh = r.byte_set().difference(covered(olds));
    assert(covered(news) =~= covered(olds).union(fresh));
    vstd::set_lib::lemma_set_subset_finite(r.byte_set(), fresh);
    lemma_disjoint_union_len(covered(olds), fresh);
    if r.byte_set().subset_of(covered(olds)) {
        assert(fresh =~= Set::<int>::empty());
    }
}

/// Merging ranges in either order yields the same final entry, not merely
/// the same covered bytes.
pub proof fn lemma_merge_commutative(
    base: Seq<Progress>,
    r1: Progress,
    r2: Progress,
    ab: Seq<Progress>,
    ba: Seq<Progress>,
)
    requires
        ranges_wf(ab),
        ranges_wf(ba),
        covered(ab) == covered(base).union(r1.byte_set()).union(r2.byte_set()),
        covered(ba) == covered(base).union(r2.byte_set()).union(r1.byte_set()),
    ensures
        ab == ba,
{
    assert(covered(ab) =~= covered(ba));
    lemma_canonical_form(ab, ba);
}

/// Merging the same range twice yields no change: a second merge leaves the
/// entry exactly as it was.
pub proof fn lemma_merge_idempotent(once: Seq<Progress>, twice: Seq<Progress>, r: Progress)
    requires
        ranges_wf(once),
        ranges_wf(twice),
        r.byte_set().subset_of(covered(once)),
        covered(twice) == covered(once).union(r.byte_set()),
    ensures
        twice == once,
{
    assert(covered(twice) =~= covered(once));
    lemma_canonical_form(twice, once);
}

/// The rebuilt sequence in `merge` is well-formed and covers exactly the old
/// bytes plus the new range.
proof fn lemma_merge_shape(rs: Seq<Progress>, r: Progress, i0: int, j1: int, lo: u64, hi: u64)
    requires
        ranges_wf(rs),
        r.is_range(),
        0 <= i0 <= j1 <= rs.len(),
        forall|k: int| 0 <= k < i0 ==> (#[trigger] rs[k]).end < r.start,
        i0 < rs.len() ==> rs[i0].end >= r.start,
        lo <= r.start,
        hi >= r.end,
        lo == r.start || (i0 < rs.len() && lo == rs[i0].start),
        set_int_range(lo as int, hi as int) == r.byte_set().union(covered(rs.subrange(i0, j1))),
        j1 < rs.len() ==> rs[j1].start > hi,
    ensures
        ranges_wf(
            rs.subrange(0, i0).push(Progress { start: lo, end: hi }) + rs.subrange(
                j1,
                rs.len() as int,
            ),
        ),
        covered(
            rs.subrange(0, i0).push(Progress { start: lo, end: hi }) + rs.subrange(
                j1,
                rs.len() as int,
            ),
        ) == covered(rs).union(r.byte_set()),
{
    let mid = Progress { start: lo, end: hi };
    let pre = rs.subrange(0, i0);
    let suf = rs.subrange(j1, rs.len() as int);
    let l = pre.push(mid) + suf;
    // Well-formedness: the gap before `mid` and after `mid` is strict.
    assert(mid.is_range());
    assert forall|k: int| 0 <= k < l.len() implies (#[trigger] l[k]).is_range() by {
        if k < i0 {
            assert(l[k] == rs[k]);
        } else if k == i0 {
            assert(l[k] == mid);
        } else {
            assert(l[k] == rs[k - i0 - 1 + j1]);
        }
    }
    assert forall|k: int| 0 <= k < l.len() - 1 implies (#[trigger] l[k]).end < l[k + 1].start by {
        if k + 1 < i0 {
            assert(l[k] == rs[k] && l[k + 1] == rs[k + 1]);
        } else if k + 1 == i0 {
            // last prefix range ends before lo
            assert(l[k] == rs[k]);
            if lo == r.start {
                assert(rs[k].end < r.start);
            } else {
                assert(lo == rs[i0].start);
                if k < i0 - 1 {
                    lemma_wf_ordered(rs, k, i0 - 1);
                }
                assert(rs[i0 - 1].end < rs[i0].start);
                if k < i0 - 1 {
                    assert(rs[k].end < rs[i0 - 1].start < rs[i0].start);
                }
            }
        } else if k == i0 {
            // mid ends before the first suffix range starts
            assert(l[k] == mid);
            assert(l[k + 1] == rs[j1]);
        } else {
            assert(l[k] == rs[k - i0 - 1 + j1] && l[k + 1] == rs[k - i0 + j1]);
        }
    }
    // Coverage.
    lemma_covered_push(pre, mid);
    lemma_covered_add(pre.push(mid), suf);
    lemma_int_range(lo as int, hi as int);
    let mids = rs.subrange(i0, j1);
    assert(rs =~= pre + mids + suf);
    lemma_covered_add(pre + mids, suf);
    lemma_covered_add(pre, mids);
    assert(covered(l) =~= covered(rs).union(r.byte_set()));
}

} // verus!

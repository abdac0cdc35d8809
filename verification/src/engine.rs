//! Chunk scheduler: planning a transfer, the shared pool of unclaimed
//! ranges that workers steal from, and the per-worker state machine.
//!
//! The network and file I/O around these decisions live outside the
//! library; every decision about which bytes to fetch next is made here.

use vstd::prelude::*;
use vstd::set_lib::set_int_range;
use crate::persist::{record_matches, ResumeRecord};
use crate::progress::{covered, Progress, ProgressEntry};

verus! {

/// How one transfer will run: its worker count, the ranges already written
/// (seeding the in-memory entry), the ranges still to fetch, and the time
/// already spent on this destination.
pub struct TransferPlan {
    pub threads: usize,
    pub init_progress: ProgressEntry,
    pub chunks: ProgressEntry,
    pub used_record: bool,
    pub elapsed_ms: u64,
}

/// A prior record may seed the transfer only when the fast path is
/// available, both validation tokens match the current metadata, and its
/// ranges lie within the file.
pub open spec fn record_usable(
    rec: ResumeRecord,
    can_fast_download: bool,
    file_size: u64,
    etag: Option<Seq<char>>,
    last_modified: Option<Seq<char>>,
) -> bool {
    &&& can_fast_download
    &&& rec.etag.deep_view() == etag
    &&& rec.last_modified.deep_view() == last_modified
    &&& (rec.progress@.len() == 0 || rec.progress@.last().end <= file_size)
}

/// Decides how a transfer runs.  Without the fast path the worker count is
/// forced to one.  A usable prior record seeds the progress and only the
/// gaps are fetched; a missing, mismatched or out-of-bounds record is
/// discarded and the whole file is fetched from zero.
pub fn plan_transfer(
    threads_requested: usize,
    can_fast_download: bool,
    file_size: u64,
    prior: Option<&ResumeRecord>,
    etag: &Option<String>,
    last_modified: &Option<String>,
) -> (r: TransferPlan)
    requires
        threads_requested >= 1,
        prior matches Some(rec) ==> rec.wf(),
    ensures
        r.threads == if can_fast_download {
            threads_requested as int
        } else {
            1int
        },
        r.init_progress.wf(),
        r.chunks.wf(),
        r.used_record <==> (prior matches Some(rec) && record_usable(
            *rec,
            can_fast_download,
            file_size,
            etag.deep_view(),
            last_modified.deep_view(),
        )),
        r.used_record ==> (prior matches Some(rec) && {
            &&& r.init_progress@ == rec.progress@
            &&& covered(r.chunks@) == set_int_range(0, file_size as int).difference(
                covered(rec.progress@),
            )
            &&& r.elapsed_ms == rec.elapsed_ms
        }),
        !r.used_record ==> {
            &&& r.init_progress@.len() == 0
            &&& covered(r.chunks@) == set_int_range(0, file_size as int)
            &&& r.elapsed_ms == 0
        },
{
    let threads = if can_fast_download {
        threads_requested
    } else {
        1
    };
    if can_fast_download {
        if let Some(rec) = prior {
            let n = rec.progress.count();
            let in_bounds = n == 0 || rec.progress.get(n - 1).end <= file_size;
            if in_bounds && record_matches(rec, etag, last_modified) {
                let init_progress = rec.progress.duplicate();
                let chunks = rec.progress.invert(file_size);
                return TransferPlan {
                    threads,
                    init_progress,
                    chunks,
                    used_record: true,
                    elapsed_ms: rec.elapsed_ms,
                };
            }
        }
    }
    let init_progress = ProgressEntry::new();
    let chunks = init_progress.invert(file_size);
    proof {
        assert(covered(chunks@) =~= set_int_range(0, file_size as int));
    }
    TransferPlan { threads, init_progress, chunks, used_record: false, elapsed_ms: 0 }
}

/// The even allocation: the smallest per-worker share that covers the
/// remaining bytes.
pub fn fair_share(total_remaining: u64, threads: usize) -> (r: u64)
    requires
        threads >= 1,
    ensures
        r == total_remaining as int / threads as int + if total_remaining as int % threads as int
            == 0 {
            0int
        } else {
            1int
        },
        r as int * threads as int >= total_remaining,
{
    let t = threads as u64;
    let share = if total_remaining % t == 0 {
        total_remaining / t
    } else {
        proof {
            assert(t >= 2);
            assert(total_remaining / t < total_remaining) by (nonlinear_arith)
                requires
                    t >= 2,
                    total_remaining as int % t as int != 0,
            ;
        }
        total_remaining / t + 1
    };
    proof {
        assert(share as int * t as int >= total_remaining) by (nonlinear_arith)
            requires
                t >= 1,
                share as int == total_remaining as int / t as int + if total_remaining as int
                    % t as int == 0 {
                    0int
                } else {
                    1int
                },
        ;
    }
    share
}

/// What one claim from the pool did: the `i`-th range — one of largest
/// length — was claimed whole, or its first `cap` bytes were claimed and the
/// rest returned to the pool.
pub open spec fn claim_shape(
    olds: Seq<Progress>,
    news: Seq<Progress>,
    i: int,
    g: Progress,
    cap: u64,
) -> bool {
    let r = olds[i];
    &&& 0 <= i < olds.len()
    &&& g.start == r.start
    &&& g.start < g.end <= r.end
    &&& g.spec_len() <= cap
    &&& (g.end == r.end ==> news == olds.remove(i))
    &&& (g.end < r.end ==> news == olds.update(i, Progress { start: g.end, end: r.end }))
    &&& forall|k: int| 0 <= k < olds.len() ==> (#[trigger] olds[k]).spec_len() <= r.spec_len()
}

/// The pool handed out `g` and kept the rest: some largest range was
/// claimed whole or split.
pub open spec fn claimed_from(olds: Seq<Progress>, news: Seq<Progress>, g: Progress, cap: u64) -> bool {
    exists|i: int| #[trigger] claim_shape(olds, news, i, g, cap)
}

/// The shared pool of not-yet-claimed ranges, guarded by one exclusive
/// accessor; a worker that runs out of work claims from it (work-stealing).
pub struct WorkPool {
    unclaimed: Vec<Progress>,
}

impl View for WorkPool {
    type V = Seq<Progress>;

    closed spec fn view(&self) -> Seq<Progress> {
        self.unclaimed@
    }
}

impl WorkPool {
    /// Every pooled range is non-empty.
    pub open spec fn wf(&self) -> bool {
        forall|k: int| 0 <= k < self@.len() ==> (#[trigger] self@[k]).is_range()
    }

    /// Seeds the pool with a transfer's missing ranges.
    pub fn from_entry(e: &ProgressEntry) -> (r: WorkPool)
        requires
            e.wf(),
        ensures
            r@ == e@,
            r.wf(),
    {
        WorkPool { unclaimed: e.to_ranges() }
    }

    pub fn is_empty(&self) -> (r: bool)
        ensures
            r == (self@.len() == 0),
    {
        self.unclaimed.len() == 0
    }

    /// Claims up to `cap` bytes from a largest unclaimed range; splitting
    /// keeps contention rare by handing out the biggest work first.  `None`
    /// exactly when the pool is exhausted.
    pub fn claim(&mut self, cap: u64) -> (r: Option<Progress>)
        requires
            old(self).wf(),
            cap >= 1,
        ensures
            final(self).wf(),
            r is None <==> old(self)@.len() == 0,
            r is None ==> final(self)@ == old(self)@,
            match r {
                Some(g) => claimed_from(old(self)@, final(self)@, g, cap),
                None => true,
            },
    {
        let n = self.unclaimed.len();
        if n == 0 {
            return None;
        }
        // find a largest range
        let mut best: usize = 0;
        let mut j: usize = 1;
        while j < n
            invariant
                self.wf(),
                n == self@.len(),
                0 <= best < n,
                1 <= j <= n,
                forall|k: int|
                    0 <= k < j ==> (#[trigger] self@[k]).spec_len() <= self@[best as int].spec_len(),
            decreases n - j,
        {
            let a = self.unclaimed[j];
            let b = self.unclaimed[best];
            if a.end - a.start > b.end - b.start {
                best = j;
            }
            j = j + 1;
        }
        let top = self.unclaimed[best];
        let glen = top.end - top.start;
        if glen <= cap {
            let g = self.unclaimed.remove(best);
            proof {
                assert(claim_shape(old(self)@, self@, best as int, g, cap));
                assert(claimed_from(old(self)@, self@, g, cap));
            }
            Some(g)
        } else {
            let g = Progress { start: top.start, end: top.start + cap };
            let rest = Progress { start: top.start + cap, end: top.end };
            self.unclaimed.remove(best);
            self.unclaimed.insert(best, rest);
            proof {
                assert(self@ =~= old(self)@.update(best as int, rest));
                assert(claim_shape(old(self)@, self@, best as int, g, cap));
                assert(claimed_from(old(self)@, self@, g, cap));
            }
            Some(g)
        }
    }

    /// Returns an unfinished range to the pool (a cancelled worker's rest).
    pub fn release(&mut self, g: Progress)
        requires
            old(self).wf(),
            g.is_range(),
        ensures
            final(self).wf(),
            final(self)@ == old(self)@.push(g),
    {
        self.unclaimed.push(g);
    }
}

/// What a worker does next.
#[derive(Clone, Copy, Debug, PartialEq, Eq, Structural)]
pub enum WorkerAction {
    /// Issue a byte-range read for these bytes.
    Fetch(Progress),
    /// Stop issuing reads and exit.
    Exit,
}

/// One worker's view of its current claim: which bytes it owns, how far it
/// has confirmed writes, and how many retries remain.
#[derive(Clone, Copy, Debug, PartialEq, Eq, Structural)]
pub struct Worker {
    pub claim: Progress,
    pub written: u64,
    pub retries_left: u32,
}

impl Worker {
    /// The write cursor stays inside the claim.
    pub open spec fn wf(&self) -> bool {
        self.claim.start <= self.written <= self.claim.end
    }

    pub fn start(claim: Progress, retries: u32) -> (r: Worker)
        requires
            claim.is_range(),
        ensures
            r.wf(),
            r.claim == claim,
            r.written == claim.start,
            r.retries_left == retries,
    {
        Worker { claim, written: claim.start, retries_left: retries }
    }

    pub fn is_done(&self) -> (r: bool)
        requires
            self.wf(),
        ensures
            r == (self.written == self.claim.end),
    {
        self.written == self.claim.end
    }

    /// Observed between buffer writes: once the cancellation flag is seen
    /// the worker exits without another read or write; otherwise it fetches
    /// exactly the bytes of its claim it has not yet written.
    pub fn next_action(&self, cancelled: bool) -> (a: WorkerAction)
        requires
            self.wf(),
        ensures
            cancelled ==> a == WorkerAction::Exit,
            !cancelled && self.written == self.claim.end ==> a == WorkerAction::Exit,
            !cancelled && self.written < self.claim.end ==> a == WorkerAction::Fetch(
                Progress { start: self.written, end: self.claim.end },
            ),
    {
        if cancelled {
            WorkerAction::Exit
        } else if self.written == self.claim.end {
            WorkerAction::Exit
        } else {
            WorkerAction::Fetch(Progress { start: self.written, end: self.claim.end })
        }
    }

    /// Confirms `n` freshly written bytes and names the progress event to
    /// emit: exactly the absolute range just completed, never bytes written
    /// before.
    pub fn on_write(&mut self, n: u64) -> (ev: Progress)
        requires
            old(self).wf(),
            0 < n <= old(self).claim.end - old(self).written,
        ensures
            final(self).wf(),
            final(self).claim == old(self).claim,
            final(self).retries_left == old(self).retries_left,
            final(self).written == old(self).written + n,
            ev.start == old(self).written,
            ev.end == old(self).written + n,
            ev.is_range(),
    {
        let ev = Progress { start: self.written, end: self.written + n };
        self.written = self.written + n;
        ev
    }

    /// A transient failure: while retries remain, the next request resumes
    /// from the last successfully written offset — already written bytes are
    /// never fetched again.  With retries exhausted the claim fails for
    /// good (`None`), which is fatal for the whole transfer.
    pub fn on_failure(&mut self) -> (r: Option<Progress>)
        requires
            old(self).wf(),
            old(self).written < old(self).claim.end,
        ensures
            final(self).wf(),
            final(self).claim == old(self).claim,
            final(self).written == old(self).written,
            r is Some <==> old(self).retries_left > 0,
            r matches Some(g) ==> g.start == old(self).written && g.end == old(self).claim.end
                && final(self).retries_left == old(self).retries_left - 1,
            r is None ==> final(self).retries_left == 0,
    {
        if self.retries_left > 0 {
            self.retries_left = self.retries_left - 1;
            Some(Progress { start: self.written, end: self.claim.end })
        } else {
            None
        }
    }
}

} // verus!

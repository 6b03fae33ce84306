//! Derived metrics over recorded data: each sample's *self duration* — its
//! elapsed time minus the time of its direct children — and the session's
//! *total time*.
//!
//! Everything here is a pure function of the recorded data and is evaluated
//! independently per frame; nothing is persisted. For every sample the
//! computed self duration lies between 0 and the sample's duration,
//! whatever the input. On well-nested data (everything capture produces)
//! the direct children of a sample are pairwise disjoint sub-intervals of
//! it, their durations sum to at most its duration, and the self duration
//! is exactly duration minus that sum.

use vstd::prelude::*;

use crate::global::GlobalProfiler;
use crate::sample::{Frame, FrameModel, SampleModel, ScopeResult, inside, well_nested};
use crate::thread_profiler::ThreadProfiler;

verus! {

/// `c` is a direct child of `p`: exactly one level deeper and contained in
/// `p`'s interval.
pub open spec fn is_child(c: SampleModel, p: SampleModel) -> bool {
    &&& c.depth == p.depth + 1
    &&& inside(c, p)
}

/// The summed duration of the direct children of `p` among the first `j`
/// samples of the frame.
pub open spec fn children_sum(samples: Seq<SampleModel>, p: SampleModel, j: int) -> int
    decreases j,
{
    if j <= 0 {
        0
    } else {
        children_sum(samples, p, j - 1) + if is_child(samples[j - 1], p) {
            samples[j - 1].duration as int
        } else {
            0
        }
    }
}

/// The self duration of `p` within its frame: duration minus the summed
/// duration of its direct children, clamped below at zero.
pub open spec fn spec_self_duration(samples: Seq<SampleModel>, p: SampleModel) -> int {
    let sum = children_sum(samples, p, samples.len() as int);
    if sum <= p.duration {
        p.duration - sum
    } else {
        0
    }
}

/// The end of the last direct child of `p` among the first `j` samples, or
/// `p.start` when there is none.
spec fn last_child_end(samples: Seq<SampleModel>, p: SampleModel, j: int) -> int
    decreases j,
{
    if j <= 0 {
        p.start as int
    } else if is_child(samples[j - 1], p) {
        samples[j - 1].start + samples[j - 1].duration
    } else {
        last_child_end(samples, p, j - 1)
    }
}

/// On a well-nested frame the direct children of any sample are pairwise
/// disjoint and ordered, so their durations fit end to end inside it.
proof fn lemma_children_sum_bounded(samples: Seq<SampleModel>, p: SampleModel, j: int)
    requires
        well_nested(samples),
        0 <= j <= samples.len(),
    ensures
        children_sum(samples, p, j) >= 0,
        p.start + children_sum(samples, p, j) <= last_child_end(samples, p, j),
        last_child_end(samples, p, j) <= p.start + p.duration,
        last_child_end(samples, p, j) == p.start || exists|k: int|
            0 <= k < j && is_child(#[trigger] samples[k], p) && last_child_end(samples, p, j)
                == samples[k].start + samples[k].duration,
    decreases j,
{
    if j > 0 {
        lemma_children_sum_bounded(samples, p, j - 1);
        if is_child(samples[j - 1], p) {
            // the previous last child, if any, closed no later than this one
            // started: children share a depth, and a well-nested frame keeps
            // samples of equal depth disjoint and in closing order.
            if last_child_end(samples, p, j - 1) != p.start {
                let k = choose|k: int|
                    0 <= k < j - 1 && is_child(#[trigger] samples[k], p) && last_child_end(
                        samples,
                        p,
                        j - 1,
                    ) == samples[k].start + samples[k].duration;
                assert(samples[j - 1].depth >= samples[k].depth);
                assert(samples[k].start + samples[k].duration <= samples[j - 1].start);
            }
            assert(exists|k: int|
                0 <= k < j && is_child(#[trigger] samples[k], p) && last_child_end(samples, p, j)
                    == samples[k].start + samples[k].duration) by {
                assert(is_child(samples[j - 1], p) && last_child_end(samples, p, j) == samples[j
                    - 1].start + samples[j - 1].duration);
            }
        }
    }
}

/// THE SELF-DURATION LAW. For every sample of a well-nested frame the direct
/// children occupy disjoint stretches of the sample's own interval, so
/// their summed duration is at most the sample's duration, and the self
/// duration is exactly the duration minus that sum.
pub proof fn lemma_self_duration_exact(samples: Seq<SampleModel>, p: SampleModel)
    requires
        well_nested(samples),
    ensures
        0 <= children_sum(samples, p, samples.len() as int) <= p.duration,
        spec_self_duration(samples, p) == p.duration - children_sum(
            samples,
            p,
            samples.len() as int,
        ),
{
    lemma_children_sum_bounded(samples, p, samples.len() as int);
}

/// One sample together with its derived self duration.
pub struct ProcessedScopeResult {
    pub name: String,
    /// Offset from the enclosing frame's start, in nanoseconds.
    pub start: u64,
    /// Elapsed wall time, in nanoseconds.
    pub duration: u64,
    /// Nesting level at creation time.
    pub depth: usize,
    /// `duration` minus the summed duration of the direct children, clamped
    /// below at zero.
    pub self_duration: u64,
}

impl ProcessedScopeResult {
    /// The sample this row was derived from.
    pub open spec fn sample(&self) -> SampleModel {
        SampleModel {
            name: self.name@,
            start: self.start,
            duration: self.duration,
            depth: self.depth,
        }
    }
}

/// One frame with every sample's self duration filled in.
pub struct ProcessedFrame {
    pub start: u64,
    pub duration: u64,
    pub scope_results: Vec<ProcessedScopeResult>,
}

/// One thread with every frame processed.
pub struct ProcessedThreadProfiler {
    pub name: String,
    pub frames: Vec<ProcessedFrame>,
}

/// Every thread processed, plus the session's total time.
pub struct ProcessedGlobalProfiler {
    pub thread_profilers: Vec<ProcessedThreadProfiler>,
    /// The maximum frame end (`start + duration`) over every frame of every
    /// thread, in nanoseconds; zero for an empty session. Cross-thread
    /// offsets are comparable only as far as the threads' clock origins
    /// agree, which the capture design assumes of the process's monotonic
    /// clock.
    pub total_time: u64,
}

/// A processed frame matches its source: same window, and row `i` carries
/// sample `i` with its self duration.
pub open spec fn processed_frame_ok(p: ProcessedFrame, f: FrameModel) -> bool {
    &&& p.start == f.start
    &&& p.duration == f.duration
    &&& p.scope_results@.len() == f.samples.len()
    &&& forall|i: int|
        0 <= i < f.samples.len() ==> (#[trigger] p.scope_results@[i]).sample() == f.samples[i]
    &&& forall|i: int|
        0 <= i < f.samples.len() ==> (#[trigger] p.scope_results@[i]).self_duration
            == spec_self_duration(f.samples, f.samples[i])
}

/// A processed thread matches its source frame by frame.
pub open spec fn processed_thread_ok(p: ProcessedThreadProfiler, name: Seq<char>, frames: Seq<
    FrameModel,
>) -> bool {
    &&& p.name@ == name
    &&& p.frames@.len() == frames.len()
    &&& forall|i: int|
        0 <= i < frames.len() ==> processed_frame_ok(#[trigger] p.frames@[i], frames[i])
}

/// The summed duration of the direct children of `frame.scope_results[i]`,
/// counting every sample of the frame once.
pub fn children_duration(frame: &Frame, i: usize) -> (r: u128)
    requires
        i < frame@.samples.len(),
    ensures
        r == children_sum(frame@.samples, frame@.samples[i as int], frame@.samples.len() as int),
{
    let ghost ss = frame@.samples;
    let ghost p = ss[i as int];
    let n = frame.scope_results.len();
    let target = &frame.scope_results[i];
    proof {
        assert(frame.scope_results@[i as int]@ == ss[i as int]);
    }
    let mut sum: u128 = 0;
    // each of the at most `n` durations is below 2^64, so the u128
    // accumulator cannot overflow
    for j in 0..n
        invariant
            n == ss.len(),
            n == frame.scope_results.len(),
            ss == frame@.samples,
            p == ss[i as int],
            target@ == p,
            i < n,
            sum == children_sum(ss, p, j as int),
            sum <= (j as int) * (u64::MAX as int),
    {
        proof {
            let jm = j as int;
            let m = u64::MAX as int;
            assert(frame.scope_results@[jm]@ == ss[jm]);
            assert(jm * m + m == (jm + 1) * m) by (nonlinear_arith);
            assert((jm + 1) * m <= m * m) by (nonlinear_arith)
                requires
                    0 <= jm + 1 <= m,
            ;
            assert(m * m <= u128::MAX as int) by (nonlinear_arith)
                requires
                    m == u64::MAX as int,
            ;
        }
        let s = &frame.scope_results[j];
        if s.depth >= 1 && s.depth - 1 == target.depth && s.is_inside(target) {
            sum = sum + s.duration as u128;
        }
    }
    sum
}

/// The self duration of sample `i` of `frame`: its duration minus the
/// summed duration of its direct children, clamped below at zero. The
/// result never exceeds the sample's duration; on a well-nested frame it is
/// exactly duration minus the children's sum ([`lemma_self_duration_exact`]).
pub fn self_duration(frame: &Frame, i: usize) -> (r: u64)
    requires
        i < frame@.samples.len(),
    ensures
        r == spec_self_duration(frame@.samples, frame@.samples[i as int]),
        r <= frame@.samples[i as int].duration,
{
    let sum = children_duration(frame, i);
    let d = frame.scope_results[i].duration;
    if sum <= d as u128 {
        d - sum as u64
    } else {
        0
    }
}

/// Process one frame: copy it and fill in every sample's self duration.
fn process_frame(frame: &Frame) -> (r: ProcessedFrame)
    ensures
        processed_frame_ok(r, frame@),
{
    let n = frame.scope_results.len();
    let mut rows: Vec<ProcessedScopeResult> = Vec::new();
    for i in 0..n
        invariant
            n == frame.scope_results.len(),
            n == frame@.samples.len(),
            rows@.len() == i,
            forall|k: int|
                0 <= k < i ==> (#[trigger] rows@[k]).sample() == frame@.samples[k],
            forall|k: int|
                0 <= k < i ==> (#[trigger] rows@[k]).self_duration == spec_self_duration(
                    frame@.samples,
                    frame@.samples[k],
                ),
    {
        let sd = self_duration(frame, i);
        let s = &frame.scope_results[i];
        proof {
            assert(frame.scope_results@[i as int]@ == frame@.samples[i as int]);
        }
        rows.push(
            ProcessedScopeResult {
                name: s.name.clone(),
                start: s.start,
                duration: s.duration,
                depth: s.depth,
                self_duration: sd,
            },
        );
    }
    ProcessedFrame { start: frame.start, duration: frame.duration, scope_results: rows }
}

/// Process one thread: every frame, in order.
pub fn process_thread(tp: &ThreadProfiler) -> (r: ProcessedThreadProfiler)
    ensures
        processed_thread_ok(r, tp@.name, tp@.frames),
{
    let name = tp.name().clone();
    let frames = tp.frames();
    let n = frames.len();
    let mut out: Vec<ProcessedFrame> = Vec::new();
    for i in 0..n
        invariant
            n == frames.len(),
            n == tp@.frames.len(),
            tp@.frames == frames@.map_values(|f: Frame| f@),
            out@.len() == i,
            forall|k: int|
                0 <= k < i ==> processed_frame_ok(#[trigger] out@[k], tp@.frames[k]),
    {
        proof {
            assert(frames@[i as int]@ == tp@.frames[i as int]);
        }
        out.push(process_frame(&frames[i]));
    }
    ProcessedThreadProfiler { name, frames: out }
}

/// The larger frame end so far, folded over every frame of every thread.
pub open spec fn spec_total_time(g: crate::global::GlobalModel) -> int {
    total_over_threads(g.threads, g.threads.len() as int)
}

/// The maximum frame end over the first `n` threads.
pub open spec fn total_over_threads(ts: Seq<crate::thread_profiler::ThreadModel>, n: int) -> int
    decreases n,
{
    if n <= 0 {
        0
    } else {
        let rest = total_over_threads(ts, n - 1);
        let here = total_over_frames(ts[n - 1].frames, ts[n - 1].frames.len() as int);
        if here > rest {
            here
        } else {
            rest
        }
    }
}

/// The maximum frame end over the first `n` frames of one thread.
pub open spec fn total_over_frames(fs: Seq<FrameModel>, n: int) -> int
    decreases n,
{
    if n <= 0 {
        0
    } else {
        let rest = total_over_frames(fs, n - 1);
        let here = fs[n - 1].start + fs[n - 1].duration;
        if here > rest {
            here
        } else {
            rest
        }
    }
}

/// The total time of one thread's history: the maximum frame end, as a
/// saturating u64.
fn thread_total(tp: &ThreadProfiler) -> (r: u128)
    ensures
        r == total_over_frames(tp@.frames, tp@.frames.len() as int),
{
    let frames = tp.frames();
    let n = frames.len();
    let mut best: u128 = 0;
    for i in 0..n
        invariant
            n == frames.len(),
            n == tp@.frames.len(),
            tp@.frames == frames@.map_values(|f: Frame| f@),
            best == total_over_frames(tp@.frames, i as int),
    {
        proof {
            assert(frames@[i as int]@ == tp@.frames[i as int]);
        }
        let f = &frames[i];
        let end = f.start as u128 + f.duration as u128;
        if end > best {
            best = end;
        }
    }
    best
}

/// Process a whole session: every thread, plus the session's total time —
/// the maximum frame end over every frame of every thread, saturating at
/// `u64::MAX`. An empty session, and every frameless thread, contributes
/// zero.
pub fn process_global(g: &GlobalProfiler) -> (r: ProcessedGlobalProfiler)
    ensures
        r.thread_profilers@.len() == g@.threads.len(),
        forall|i: int|
            0 <= i < g@.threads.len() ==> processed_thread_ok(
                #[trigger] r.thread_profilers@[i],
                g@.threads[i].name,
                g@.threads[i].frames,
            ),
        r.total_time == if spec_total_time(g@) > u64::MAX {
            u64::MAX as int
        } else {
            spec_total_time(g@)
        },
{
    let n = g.len();
    let mut out: Vec<ProcessedThreadProfiler> = Vec::new();
    let mut best: u128 = 0;
    for i in 0..n
        invariant
            n == g@.threads.len(),
            out@.len() == i,
            forall|k: int|
                0 <= k < i ==> processed_thread_ok(
                    #[trigger] out@[k],
                    g@.threads[k].name,
                    g@.threads[k].frames,
                ),
            best == total_over_threads(g@.threads, i as int),
    {
        let tp = g.get(i);
        out.push(process_thread(tp));
        let t = thread_total(tp);
        if t > best {
            best = t;
        }
    }
    let total_time = if best > u64::MAX as u128 {
        u64::MAX
    } else {
        best as u64
    };
    ProcessedGlobalProfiler { thread_profilers: out, total_time }
}

} // verus!

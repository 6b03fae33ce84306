//! Per-thread capture: the live nesting stack, the open frame, and the
//! sealed frame history.
//!
//! All mutation comes from the single owning thread. The capture operations
//! are written twice: a `*_at` form that takes the clock reading as an
//! argument and is verified for every value of it, and a convenience form
//! that reads the thread's monotonic clock and delegates.
//!
//! Every recorded time is clamped to be at least the latest previously
//! recorded time of the open frame, so a thread's recording is monotone by
//! construction and the nesting invariant [`crate::sample::well_nested`]
//! holds of every sealed frame, whatever the clock returns.
//!
//! Policy for a frame boundary crossed while scopes are still open: the
//! boundary is rejected with [`ProfilerError::Usage`] and the state is left
//! unchanged; open scopes are never force-closed or carried over silently.

use vstd::prelude::*;

use crate::ProfilerError;
use crate::clock::{elapsed_nanos, instant_now};
use crate::sample::{
    Frame, FrameModel, SampleModel, ScopeResult, frame_ok, frames_ok, has_parent, has_parent_at,
    inside, pending,
};

verus! {

/// One scope that has been entered and not yet exited.
struct OpenScope {
    name: String,
    /// Start offset from the open frame's start, in nanoseconds.
    start: u64,
}

/// The mathematical value of one open scope.
pub ghost struct OpenModel {
    pub name: Seq<char>,
    pub start: u64,
}

impl View for OpenScope {
    type V = OpenModel;

    closed spec fn view(&self) -> OpenModel {
        OpenModel { name: self.name@, start: self.start }
    }
}

/// One thread's profiler: its sealed frame history and its live capture
/// state.
pub struct ThreadProfiler {
    /// Thread identifier.
    name: String,
    /// Sealed frames, oldest first.
    frames: Vec<Frame>,
    /// The instant the profiler was created; all times count from here.
    origin: std::time::Instant,
    /// Start offset of the currently open frame, in nanoseconds since
    /// `origin`.
    frame_start: u64,
    /// The latest recorded event time, relative to the open frame's start.
    mark: u64,
    /// The live nesting stack of open scopes, outermost first.
    stack: Vec<OpenScope>,
    /// Samples recorded in the open frame so far, in close order.
    samples: Vec<ScopeResult>,
}

/// The mathematical value of a [`ThreadProfiler`]: the persisted part
/// (`name`, `frames`) and the transient live state of the open frame.
pub ghost struct ThreadModel {
    pub name: Seq<char>,
    pub frames: Seq<FrameModel>,
    pub frame_start: u64,
    pub mark: u64,
    pub open: Seq<OpenModel>,
    pub cur: Seq<SampleModel>,
}

impl View for ThreadProfiler {
    type V = ThreadModel;

    closed spec fn view(&self) -> ThreadModel {
        ThreadModel {
            name: self.name@,
            frames: self.frames@.map_values(|f: Frame| f@),
            frame_start: self.frame_start,
            mark: self.mark,
            open: self.stack@.map_values(|o: OpenScope| o@),
            cur: self.samples@.map_values(|s: ScopeResult| s@),
        }
    }
}

/// The capture invariant. It holds of a freshly created profiler and is
/// preserved by every capture operation:
/// - the sealed history is well formed ([`frames_ok`]);
/// - the open frame begins exactly where the last sealed frame ended;
/// - sealing the open frame cannot overflow the nanosecond counter;
/// - open scopes start in stack order, no later than the latest event;
/// - recorded samples close by the latest event, in close order, with
///   sibling intervals disjoint;
/// - a sample at depth `d` closed before any open scope at depth `d` or
///   above started; and
/// - every recorded sample of positive depth either already has its direct
///   parent recorded after it, or its parent is still open and contains it.
pub open spec fn live_inv(v: ThreadModel) -> bool {
    &&& frames_ok(v.frames)
    &&& (if v.frames.len() > 0 {
        v.frames.last().start + v.frames.last().duration == v.frame_start
    } else {
        v.frame_start == 0
    })
    &&& v.frame_start + v.mark <= u64::MAX
    &&& (forall|i: int, j: int|
        0 <= i <= j < v.open.len() ==> (#[trigger] v.open[i]).start <= (#[trigger] v.open[j]).start)
    &&& (forall|i: int| 0 <= i < v.open.len() ==> (#[trigger] v.open[i]).start <= v.mark)
    &&& (forall|i: int|
        0 <= i < v.cur.len() ==> (#[trigger] v.cur[i]).start + v.cur[i].duration <= v.mark)
    &&& (forall|i: int, j: int|
        0 <= i < j < v.cur.len() && (#[trigger] v.cur[j]).depth >= (#[trigger] v.cur[i]).depth
            ==> v.cur[i].start + v.cur[i].duration <= v.cur[j].start)
    &&& (forall|j: int, i: int|
        0 <= j < v.open.len() && 0 <= i < v.cur.len() && (#[trigger] v.cur[i]).depth <= j
            ==> v.cur[i].start + v.cur[i].duration <= (#[trigger] v.open[j]).start)
    &&& (forall|i: int|
        0 <= i < v.cur.len() && (#[trigger] v.cur[i]).depth > 0 ==> has_parent(v.cur, i) || (
        pending(v.cur, i) && v.cur[i].depth <= v.open.len() && v.open[v.cur[i].depth
            - 1].start <= v.cur[i].start))
}

/// The event time a clock reading `now` (nanoseconds since the profiler's
/// origin) is recorded as, relative to the open frame: clamped below by the
/// frame's start and by the latest previously recorded event.
pub open spec fn event_time(v: ThreadModel, now: u64) -> u64 {
    let rel = if now >= v.frame_start {
        (now - v.frame_start) as u64
    } else {
        0u64
    };
    if rel >= v.mark {
        rel
    } else {
        v.mark
    }
}

/// The state after entering a scope named `name` at event time `t`.
pub open spec fn after_enter(v: ThreadModel, name: Seq<char>, t: u64) -> ThreadModel {
    ThreadModel { mark: t, open: v.open.push(OpenModel { name, start: t }), ..v }
}

/// The state after exiting the innermost open scope at event time `t`.
pub open spec fn after_exit(v: ThreadModel, t: u64) -> ThreadModel {
    ThreadModel {
        mark: t,
        open: v.open.drop_last(),
        cur: v.cur.push(
            SampleModel {
                name: v.open.last().name,
                start: v.open.last().start,
                duration: (t - v.open.last().start) as u64,
                depth: (v.open.len() - 1) as usize,
            },
        ),
        ..v
    }
}

/// The state after sealing the open frame at event time `t`: the frame joins
/// the history and the next frame opens where it ended.
pub open spec fn after_new_frame(v: ThreadModel, t: u64) -> ThreadModel {
    ThreadModel {
        frames: v.frames.push(FrameModel { start: v.frame_start, duration: t, samples: v.cur }),
        frame_start: (v.frame_start + t) as u64,
        mark: 0,
        cur: Seq::empty(),
        ..v
    }
}

/// A valid event time: no earlier than every event recorded so far, and
/// small enough that sealing the frame at it cannot overflow.
pub open spec fn valid_event(v: ThreadModel, t: u64) -> bool {
    &&& v.mark <= t
    &&& v.frame_start + t <= u64::MAX
}

/// The clamped event time of any clock reading is a valid event time.
pub proof fn lemma_event_time_valid(v: ThreadModel, now: u64)
    requires
        v.frame_start + v.mark <= u64::MAX,
    ensures
        valid_event(v, event_time(v, now)),
{
}

/// Entering a scope preserves the capture invariant.
pub proof fn lemma_after_enter_inv(v: ThreadModel, name: Seq<char>, t: u64)
    requires
        live_inv(v),
        valid_event(v, t),
    ensures
        live_inv(after_enter(v, name, t)),
{
    let w = after_enter(v, name, t);
    assert forall|i: int|
        0 <= i < w.cur.len() && (#[trigger] w.cur[i]).depth > 0 implies has_parent(w.cur, i) || (
    pending(w.cur, i) && w.cur[i].depth <= w.open.len() && w.open[w.cur[i].depth - 1].start
        <= w.cur[i].start) by {
        assert(w.cur == v.cur);
        if has_parent(v.cur, i) {
        } else {
            assert(v.cur[i].depth <= v.open.len());
            assert(w.open[v.cur[i].depth - 1] == v.open[v.cur[i].depth - 1]);
        }
    }
}

/// Exiting the innermost open scope preserves the capture invariant: the new
/// sample lies inside its parent, stays disjoint from earlier siblings, and
/// adopts every recorded sample that was waiting for it as its child.
pub proof fn lemma_after_exit_inv(v: ThreadModel, t: u64)
    requires
        live_inv(v),
        valid_event(v, t),
        0 < v.open.len() <= usize::MAX,
    ensures
        live_inv(after_exit(v, t)),
{
    let w = after_exit(v, t);
    let k = v.open.len() as int;
    let top = v.open.last();
    let s = SampleModel {
        name: top.name,
        start: top.start,
        duration: (t - top.start) as u64,
        depth: (k - 1) as usize,
    };
    let m = v.cur.len() as int;
    assert(w.cur == v.cur.push(s));
    assert(w.cur[m] == s);
    assert(forall|i: int| 0 <= i < m ==> w.cur[i] == v.cur[i]);

    // close order against the new sample: an earlier sample no deeper than
    // the new one closed before the new scope even started.
    assert forall|i: int, j: int|
        0 <= i < j < w.cur.len() && (#[trigger] w.cur[j]).depth >= (#[trigger] w.cur[i]).depth
            implies w.cur[i].start + w.cur[i].duration <= w.cur[j].start by {
        if j == m {
            assert(v.cur[i].depth <= k - 1);
            assert(v.cur[i].start + v.cur[i].duration <= v.open[k - 1].start);
        }
    }

    // samples shallower than a remaining open scope still closed before it
    // started.
    assert forall|j: int, i: int|
        0 <= j < w.open.len() && 0 <= i < w.cur.len() && (#[trigger] w.cur[i]).depth <= j
            implies w.cur[i].start + w.cur[i].duration <= (#[trigger] w.open[j]).start by {
        assert(w.open[j] == v.open[j]);
        if i < m {
            assert(v.cur[i].start + v.cur[i].duration <= v.open[j].start);
        } else {
            assert(w.cur[i].depth == k - 1 && j < k - 1);
        }
    }

    // parenthood: old samples keep their parent, or adopt the new sample as
    // parent, or keep waiting for a still-open ancestor; the new sample's
    // parent is the scope now on top of the stack.
    assert forall|i: int|
        0 <= i < w.cur.len() && (#[trigger] w.cur[i]).depth > 0 implies has_parent(w.cur, i) || (
    pending(w.cur, i) && w.cur[i].depth <= w.open.len() && w.open[w.cur[i].depth - 1].start
        <= w.cur[i].start) by {
        if i < m {
            if has_parent(v.cur, i) {
                let j = choose|j: int| has_parent_at(v.cur, i, j);
                assert(has_parent_at(w.cur, i, j));
            } else {
                assert(pending(v.cur, i) && v.cur[i].depth <= k && v.open[v.cur[i].depth
                    - 1].start <= v.cur[i].start);
                if v.cur[i].depth == k {
                    // the new sample is the first later sample one level up
                    assert(v.open[k - 1].start <= v.cur[i].start);
                    assert(v.cur[i].start + v.cur[i].duration <= v.mark <= t);
                    assert(inside(v.cur[i], s));
                    assert(has_parent_at(w.cur, i, m));
                } else {
                    assert(v.cur[i].depth < k);
                    assert(pending(w.cur, i));
                    assert(w.open[v.cur[i].depth - 1] == v.open[v.cur[i].depth - 1]);
                }
            }
        } else {
            // the new sample itself: depth k - 1; if positive, the scope at
            // depth k - 2 is still open and contains it.
            assert(s.depth > 0 ==> k >= 2);
            if s.depth > 0 {
                assert(v.open[k - 2].start <= top.start);
                assert(pending(w.cur, m));
            }
        }
    }
}

/// Sealing the open frame preserves the capture invariant, and the sealed
/// frame is valid: bounded by its duration and well nested.
pub proof fn lemma_after_new_frame_inv(v: ThreadModel, t: u64)
    requires
        live_inv(v),
        valid_event(v, t),
        v.open.len() == 0,
    ensures
        live_inv(after_new_frame(v, t)),
        frame_ok(FrameModel { start: v.frame_start, duration: t, samples: v.cur }),
{
    let f = FrameModel { start: v.frame_start, duration: t, samples: v.cur };
    let w = after_new_frame(v, t);
    assert forall|i: int|
        0 <= i < v.cur.len() && (#[trigger] v.cur[i]).depth > 0 implies has_parent(v.cur, i) by {
        assert(!(v.cur[i].depth <= v.open.len()));
    }
    assert(frame_ok(f));
    assert(w.frames.last() == f);
    assert(forall|i: int| 0 <= i < v.frames.len() ==> w.frames[i] == v.frames[i]);
    assert(frames_ok(w.frames));
}

/// THE NESTING LAW. Whatever sequence of capture operations produced a
/// profiler, every sealed frame is well nested — each sample lies inside
/// its direct parent and closes before it, sibling intervals are disjoint —
/// every sample lies within its frame's window, and frame starts never
/// decrease along the history.
pub proof fn lemma_recorded_frames_valid(v: ThreadModel, i: int, j: int)
    requires
        live_inv(v),
        0 <= i <= j < v.frames.len(),
    ensures
        frame_ok(v.frames[i]),
        v.frames[i].start <= v.frames[j].start,
{
    crate::sample::lemma_frames_monotone(v.frames, i, j);
}

impl ThreadProfiler {
    /// A fresh profiler for the calling thread, named `name`, with an empty
    /// history, its first frame open, and no scopes on the stack. Its clock
    /// origin is the moment of creation.
    pub fn new(name: String) -> (r: ThreadProfiler)
        ensures
            r@ == (ThreadModel {
                name: name@,
                frames: Seq::empty(),
                frame_start: 0,
                mark: 0,
                open: Seq::empty(),
                cur: Seq::empty(),
            }),
            live_inv(r@),
    {
        let r = ThreadProfiler {
            name,
            frames: Vec::new(),
            origin: instant_now(),
            frame_start: 0,
            mark: 0,
            stack: Vec::new(),
            samples: Vec::new(),
        };
        proof {
            assert(r@.frames =~= Seq::<FrameModel>::empty());
            assert(r@.open =~= Seq::<OpenModel>::empty());
            assert(r@.cur =~= Seq::<SampleModel>::empty());
        }
        r
    }

    /// A profiler rebuilt from recorded data: the given name and sealed
    /// history, a fresh clock origin, and no live capture state — the live
    /// stack is transient and never persisted. When the history is well
    /// formed, the next frame opens where the last sealed frame ended, the
    /// capture invariant holds, and capture may resume.
    pub fn from_recorded(name: String, frames: Vec<Frame>) -> (r: ThreadProfiler)
        ensures
            r@.name == name@,
            r@.frames == frames@.map_values(|f: Frame| f@),
            r@.open == Seq::<OpenModel>::empty(),
            r@.cur == Seq::<SampleModel>::empty(),
            r@.mark == 0,
            frames_ok(r@.frames) ==> live_inv(r@),
    {
        let n = frames.len();
        let frame_start = if n == 0 {
            0
        } else {
            let last = &frames[n - 1];
            let end = last.start as u128 + last.duration as u128;
            if end > u64::MAX as u128 {
                u64::MAX
            } else {
                end as u64
            }
        };
        let r = ThreadProfiler {
            name,
            frames,
            origin: instant_now(),
            frame_start,
            mark: 0,
            stack: Vec::new(),
            samples: Vec::new(),
        };
        proof {
            assert(r@.open =~= Seq::<OpenModel>::empty());
            assert(r@.cur =~= Seq::<SampleModel>::empty());
            if frames_ok(r@.frames) && n > 0 {
                assert(r@.frames[n - 1] == r@.frames.last());
            }
        }
        r
    }

    /// The thread identifier.
    pub fn name(&self) -> (r: &String)
        ensures
            r@ == self@.name,
    {
        &self.name
    }

    /// The sealed frames, oldest first.
    pub fn frames(&self) -> (r: &Vec<Frame>)
        ensures
            r@.map_values(|f: Frame| f@) == self@.frames,
    {
        &self.frames
    }

    /// The number of scopes currently open.
    pub fn depth(&self) -> (r: usize)
        ensures
            r == self@.open.len(),
    {
        self.stack.len()
    }

    /// Open a scope named `name` at clock reading `now` (nanoseconds since
    /// the profiler's origin). The scope's start and depth are recorded on
    /// the live stack; a sample is emitted when the scope is exited.
    pub fn enter_at(&mut self, name: String, now: u64)
        requires
            live_inv(old(self)@),
        ensures
            live_inv(final(self)@),
            final(self)@ == after_enter(old(self)@, name@, event_time(old(self)@, now)),
    {
        proof {
            lemma_event_time_valid(self@, now);
            lemma_after_enter_inv(self@, name@, event_time(self@, now));
        }
        let t = self.event_now(now);
        let ghost v = self@;
        self.mark = t;
        self.stack.push(OpenScope { name, start: t });
        proof {
            assert(self@.open =~= after_enter(v, name@, t).open);
            assert(self@ == after_enter(v, name@, t));
        }
    }

    /// Close the innermost open scope at clock reading `now`, emitting its
    /// sample into the open frame. Returns [`ProfilerError::Usage`] and
    /// leaves the state unchanged when no scope is open.
    pub fn exit_at(&mut self, now: u64) -> (r: Result<(), ProfilerError>)
        requires
            live_inv(old(self)@),
        ensures
            live_inv(final(self)@),
            old(self)@.open.len() == 0 ==> r == Err::<(), ProfilerError>(ProfilerError::Usage)
                && final(self)@ == old(self)@,
            old(self)@.open.len() > 0 ==> r == Ok::<(), ProfilerError>(()) && final(self)@
                == after_exit(old(self)@, event_time(old(self)@, now)),
    {
        if self.stack.len() == 0 {
            return Err(ProfilerError::Usage);
        }
        proof {
            lemma_event_time_valid(self@, now);
            lemma_after_exit_inv(self@, event_time(self@, now));
        }
        let t = self.event_now(now);
        let ghost v = self@;
        let top = self.stack.pop().unwrap();
        let ghost depth_g = v.open.len() - 1;
        let depth = self.stack.len();
        assert(depth == depth_g);
        self.mark = t;
        assert(top@.start <= t);
        let sample = ScopeResult {
            name: top.name,
            start: top.start,
            duration: t - top.start,
            depth,
        };
        self.samples.push(sample);
        proof {
            assert(self@.open =~= after_exit(v, t).open);
            assert(self@.cur =~= after_exit(v, t).cur);
            assert(self@ == after_exit(v, t));
        }
        Ok(())
    }

    /// Seal the open frame at clock reading `now`: push it into the history
    /// and open the next frame where it ended. Returns
    /// [`ProfilerError::Usage`] and leaves the state unchanged when scopes
    /// are still open — the boundary never force-closes them.
    pub fn new_frame_at(&mut self, now: u64) -> (r: Result<(), ProfilerError>)
        requires
            live_inv(old(self)@),
        ensures
            live_inv(final(self)@),
            old(self)@.open.len() > 0 ==> r == Err::<(), ProfilerError>(ProfilerError::Usage)
                && final(self)@ == old(self)@,
            old(self)@.open.len() == 0 ==> r == Ok::<(), ProfilerError>(()) && final(self)@
                == after_new_frame(old(self)@, event_time(old(self)@, now)),
    {
        if self.stack.len() > 0 {
            return Err(ProfilerError::Usage);
        }
        proof {
            lemma_event_time_valid(self@, now);
            lemma_after_new_frame_inv(self@, event_time(self@, now));
        }
        let t = self.event_now(now);
        let ghost v = self@;
        let mut sealed: Vec<ScopeResult> = Vec::new();
        core::mem::swap(&mut sealed, &mut self.samples);
        let frame = Frame { start: self.frame_start, duration: t, scope_results: sealed };
        assert(frame@ == (FrameModel { start: v.frame_start, duration: t, samples: v.cur }));
        self.frames.push(frame);
        self.frame_start = self.frame_start + t;
        self.mark = 0;
        proof {
            assert(self@.frames =~= after_new_frame(v, t).frames);
            assert(self@.cur =~= after_new_frame(v, t).cur);
            assert(self@ == after_new_frame(v, t));
        }
        Ok(())
    }

    /// The event time of clock reading `now`: the offset from the open
    /// frame's start, clamped below by the latest recorded event so a
    /// thread's recording is monotone.
    fn event_now(&self, now: u64) -> (t: u64)
        requires
            live_inv(self@),
        ensures
            t == event_time(self@, now),
    {
        let rel = if now >= self.frame_start {
            now - self.frame_start
        } else {
            0
        };
        if rel >= self.mark {
            rel
        } else {
            self.mark
        }
    }

    /// Open a scope named `name`, reading the thread's monotonic clock.
    /// Whatever the clock returns, the scope lands on top of the stack with
    /// a valid event time as its start.
    pub fn enter(&mut self, name: String)
        requires
            live_inv(old(self)@),
        ensures
            live_inv(final(self)@),
            exists|t: u64|
                valid_event(old(self)@, t) && final(self)@ == after_enter(old(self)@, name@, t),
    {
        let now = elapsed_nanos(&self.origin);
        proof {
            lemma_event_time_valid(self@, now);
        }
        let ghost t = event_time(self@, now);
        self.enter_at(name, now);
        proof {
            assert(valid_event(old(self)@, t));
        }
    }

    /// Close the innermost open scope, reading the thread's monotonic clock.
    pub fn exit(&mut self) -> (r: Result<(), ProfilerError>)
        requires
            live_inv(old(self)@),
        ensures
            live_inv(final(self)@),
            old(self)@.open.len() == 0 ==> r == Err::<(), ProfilerError>(ProfilerError::Usage)
                && final(self)@ == old(self)@,
            old(self)@.open.len() > 0 ==> r == Ok::<(), ProfilerError>(()) && exists|t: u64|
                valid_event(old(self)@, t) && final(self)@ == after_exit(old(self)@, t),
    {
        let now = elapsed_nanos(&self.origin);
        proof {
            lemma_event_time_valid(self@, now);
        }
        let ghost t = event_time(self@, now);
        let r = self.exit_at(now);
        proof {
            assert(valid_event(old(self)@, t));
        }
        r
    }

    /// Seal the open frame, reading the thread's monotonic clock.
    pub fn new_frame(&mut self) -> (r: Result<(), ProfilerError>)
        requires
            live_inv(old(self)@),
        ensures
            live_inv(final(self)@),
            old(self)@.open.len() > 0 ==> r == Err::<(), ProfilerError>(ProfilerError::Usage)
                && final(self)@ == old(self)@,
            old(self)@.open.len() == 0 ==> r == Ok::<(), ProfilerError>(()) && exists|t: u64|
                valid_event(old(self)@, t) && final(self)@ == after_new_frame(old(self)@, t),
    {
        let now = elapsed_nanos(&self.origin);
        proof {
            lemma_event_time_valid(self@, now);
        }
        let ghost t = event_time(self@, now);
        let r = self.new_frame_at(now);
        proof {
            assert(valid_event(old(self)@, t));
        }
        r
    }
}

} // verus!

//! The recorded data model: one completed scope sample and one sealed frame,
//! together with the specification predicates that describe well-nested
//! recordings.
//!
//! Times are nanoseconds on the owning thread's monotonic clock. A sample's
//! `start` is an offset from the start of the frame that holds it; a frame's
//! `start` is an offset from the thread's first frame.

use vstd::prelude::*;

verus! {

/// One completed timed interval: a named scope that was entered and exited.
pub struct ScopeResult {
    /// Display label of the scope.
    pub name: String,
    /// Offset of the scope's start from the enclosing frame's start, in
    /// nanoseconds.
    pub start: u64,
    /// Elapsed wall time of the scope, in nanoseconds.
    pub duration: u64,
    /// Nesting level at creation time: 0 directly inside the frame, `d`
    /// inside `d` ancestor scopes that were still open when this one started.
    pub depth: usize,
}

/// The mathematical value of a [`ScopeResult`].
pub ghost struct SampleModel {
    pub name: Seq<char>,
    pub start: u64,
    pub duration: u64,
    pub depth: usize,
}

impl View for ScopeResult {
    type V = SampleModel;

    open spec fn view(&self) -> SampleModel {
        SampleModel {
            name: self.name@,
            start: self.start,
            duration: self.duration,
            depth: self.depth,
        }
    }
}

impl ScopeResult {
    /// Whether this sample's interval lies within `other`'s interval.
    pub fn is_inside(&self, other: &ScopeResult) -> (r: bool)
        ensures
            r == inside(self@, other@),
    {
        other.start <= self.start
            && self.start as u128 + self.duration as u128
                <= other.start as u128 + other.duration as u128
    }
}

/// One sealed measurement window of a thread.
pub struct Frame {
    /// Offset of the frame's start from the thread's first frame, in
    /// nanoseconds.
    pub start: u64,
    /// Wall time from frame open to frame seal, in nanoseconds.
    pub duration: u64,
    /// The samples recorded during the frame, in the order their intervals
    /// closed (stack pop order).
    pub scope_results: Vec<ScopeResult>,
}

/// The mathematical value of a [`Frame`].
pub ghost struct FrameModel {
    pub start: u64,
    pub duration: u64,
    pub samples: Seq<SampleModel>,
}

impl View for Frame {
    type V = FrameModel;

    open spec fn view(&self) -> FrameModel {
        FrameModel {
            start: self.start,
            duration: self.duration,
            samples: self.scope_results@.map_values(|s: ScopeResult| s@),
        }
    }
}

/// Interval containment: `c`'s interval lies within `p`'s interval.
pub open spec fn inside(c: SampleModel, p: SampleModel) -> bool {
    &&& p.start <= c.start
    &&& c.start + c.duration <= p.start + p.duration
}

/// The direct parent of `samples[i]` is the first later sample one level
/// shallower; every sample strictly between belongs to the subtree of
/// `samples[i]`'s parent and is at least as deep as `samples[i]`.
/// The parent's interval contains the child's.
pub open spec fn has_parent_at(samples: Seq<SampleModel>, i: int, j: int) -> bool {
    &&& i < j < samples.len()
    &&& samples[j].depth + 1 == samples[i].depth
    &&& (forall|k: int| i < k < j ==> #[trigger] samples[k].depth >= samples[i].depth)
    &&& inside(samples[i], samples[j])
}

/// `samples[i]` has a direct parent recorded later in the sequence.
pub open spec fn has_parent(samples: Seq<SampleModel>, i: int) -> bool {
    exists|j: int| has_parent_at(samples, i, j)
}

/// No sample recorded after `samples[i]` is shallower: `samples[i]`'s parent,
/// if any, is still open.
pub open spec fn pending(samples: Seq<SampleModel>, i: int) -> bool {
    forall|k: int| i < k < samples.len() ==> #[trigger] samples[k].depth >= samples[i].depth
}

/// The samples of a sealed frame form a valid bracket sequence, listed in the
/// order their intervals closed:
/// - every sample of positive depth lies inside its direct parent, the first
///   later sample one level shallower; and
/// - a sample recorded later at the same or a greater depth starts no earlier
///   than an earlier sample ends, so sibling intervals are disjoint and in
///   closing order.
pub open spec fn well_nested(samples: Seq<SampleModel>) -> bool {
    &&& (forall|i: int|
        0 <= i < samples.len() && #[trigger] samples[i].depth > 0 ==> has_parent(samples, i))
    &&& (forall|i: int, j: int|
        0 <= i < j < samples.len() && #[trigger] samples[j].depth >= #[trigger] samples[i].depth
            ==> samples[i].start + samples[i].duration <= samples[j].start)
}

/// Every sample of the frame lies within the frame's own window.
pub open spec fn frame_bounded(f: FrameModel) -> bool {
    forall|i: int|
        0 <= i < f.samples.len()
            ==> (#[trigger] f.samples[i]).start + f.samples[i].duration <= f.duration
}

/// A sealed frame is bounded and well nested.
pub open spec fn frame_ok(f: FrameModel) -> bool {
    &&& frame_bounded(f)
    &&& well_nested(f.samples)
}

/// A thread's sealed frame history: the first frame starts at offset zero,
/// every frame is valid, and successive frames are contiguous — each frame
/// starts exactly where the previous one ended. Contiguity implies that frame
/// starts never decrease.
pub open spec fn frames_ok(frames: Seq<FrameModel>) -> bool {
    &&& (frames.len() > 0 ==> frames[0].start == 0)
    &&& (forall|i: int|
        0 <= i < frames.len() ==> (#[trigger] frames[i]).start + frames[i].duration <= u64::MAX)
    &&& (forall|i: int| 0 <= i < frames.len() ==> frame_ok(#[trigger] frames[i]))
    &&& (forall|i: int|
        0 <= i < frames.len() - 1
            ==> (#[trigger] frames[i]).start + frames[i].duration == frames[i + 1].start)
}

/// Frame starts never decrease along a well-formed history.
pub proof fn lemma_frames_monotone(frames: Seq<FrameModel>, i: int, j: int)
    requires
        frames_ok(frames),
        0 <= i <= j < frames.len(),
    ensures
        frames[i].start <= frames[j].start,
        frames[i].start + frames[i].duration <= frames[j].start + frames[j].duration,
    decreases j - i,
{
    if i < j {
        lemma_frames_monotone(frames, i + 1, j);
    }
}

} // verus!

//! The durable byte format, with a proved round trip.
//!
//! Layout (all integers little-endian `u64`, all strings a `u64` byte length
//! followed by that many bytes of UTF-8):
//!
//! ```text
//! session := magic        the 8 bytes "PROF1\0\0\0" (format tag + version)
//!            u64          number of threads
//!            thread*
//! thread  := str          thread name
//!            u64          number of frames
//!            frame*
//! frame   := u64 start    offset from the thread's first frame, ns
//!            u64 duration
//!            u64          number of samples
//!            sample*
//! sample  := str name
//!            u64 start    offset from the frame's start, ns
//!            u64 duration
//!            u64 depth
//! ```
//!
//! Encoding is deterministic and preserves frame and sample order exactly.
//! Decoding is the structural inverse: it accepts exactly the encodings
//! produced here (same thread, frame and sample lists, distinct thread
//! names, nothing left over) and reports a format error for anything else —
//! it never panics and never drops data silently. The live capture state is
//! transient and is not persisted.
//!
//! [`lemma_round_trip`] states the round-trip law: decoding an encoding
//! yields exactly the encoded session.

use vstd::prelude::*;

use vstd::bytes::{lemma_auto_spec_u64_to_from_le_bytes, spec_u64_from_le_bytes,
    spec_u64_to_le_bytes, u64_from_le_bytes, u64_to_le_bytes};
use vstd::slice::slice_subrange;
use vstd::string::StrSliceExecFns;
use vstd::utf8::{decode_utf8, encode_utf8, encode_utf8_decode_utf8, encode_utf8_valid_utf8,
    valid_utf8};

use crate::ProfilerError;
use crate::global::{GlobalProfiler, GlobalModel, names_unique};
use crate::sample::{Frame, FrameModel, SampleModel, ScopeResult};
use crate::thread_profiler::{ThreadModel, ThreadProfiler};

verus! {

/// The persisted part of one thread's data: its name and sealed frames.
/// The live capture state is transient and never serialized.
pub ghost struct SessionThread {
    pub name: Seq<char>,
    pub frames: Seq<FrameModel>,
}

/// What the codec persists of a thread's in-memory state.
pub open spec fn persisted(t: ThreadModel) -> SessionThread {
    SessionThread { name: t.name, frames: t.frames }
}

/// The eight header bytes: the format tag "PROF" followed by version 1.
pub open spec fn magic() -> Seq<u8> {
    seq![0x50u8, 0x52u8, 0x4fu8, 0x46u8, 0x31u8, 0x00u8, 0x00u8, 0x00u8]
}

/// A string's encoding: u64 byte length, then its UTF-8 bytes.
pub open spec fn enc_str(s: Seq<char>) -> Seq<u8> {
    spec_u64_to_le_bytes(encode_utf8(s).len() as u64) + encode_utf8(s)
}

/// One sample's encoding.
pub open spec fn enc_sample(s: SampleModel) -> Seq<u8> {
    enc_str(s.name) + spec_u64_to_le_bytes(s.start) + spec_u64_to_le_bytes(s.duration)
        + spec_u64_to_le_bytes(s.depth as u64)
}

/// A sample list's encoding, in order.
pub open spec fn enc_samples(ss: Seq<SampleModel>) -> Seq<u8>
    decreases ss.len(),
{
    if ss.len() == 0 {
        Seq::empty()
    } else {
        enc_samples(ss.drop_last()) + enc_sample(ss.last())
    }
}

/// One frame's encoding: start, duration, sample count, samples.
pub open spec fn enc_frame(f: FrameModel) -> Seq<u8> {
    spec_u64_to_le_bytes(f.start) + spec_u64_to_le_bytes(f.duration) + spec_u64_to_le_bytes(
        f.samples.len() as u64,
    ) + enc_samples(f.samples)
}

/// A frame list's encoding, in order.
pub open spec fn enc_frames(fs: Seq<FrameModel>) -> Seq<u8>
    decreases fs.len(),
{
    if fs.len() == 0 {
        Seq::empty()
    } else {
        enc_frames(fs.drop_last()) + enc_frame(fs.last())
    }
}

/// One thread's encoding: name, frame count, frames.
pub open spec fn enc_thread(t: SessionThread) -> Seq<u8> {
    enc_str(t.name) + spec_u64_to_le_bytes(t.frames.len() as u64) + enc_frames(t.frames)
}

/// A thread list's encoding, in order.
pub open spec fn enc_threads(ts: Seq<SessionThread>) -> Seq<u8>
    decreases ts.len(),
{
    if ts.len() == 0 {
        Seq::empty()
    } else {
        enc_threads(ts.drop_last()) + enc_thread(ts.last())
    }
}

/// A whole session's encoding: header, thread count, threads.
pub open spec fn enc_session(ts: Seq<SessionThread>) -> Seq<u8> {
    magic() + spec_u64_to_le_bytes(ts.len() as u64) + enc_threads(ts)
}

/// The counts and lengths a session must respect so that the u64 fields of
/// the format do not truncate. Every session held in memory respects them.
pub open spec fn str_fits(s: Seq<char>) -> bool {
    encode_utf8(s).len() <= u64::MAX
}

pub open spec fn sample_fits(s: SampleModel) -> bool {
    str_fits(s.name)
}

pub open spec fn frame_fits(f: FrameModel) -> bool {
    &&& f.samples.len() <= u64::MAX
    &&& forall|i: int| 0 <= i < f.samples.len() ==> sample_fits(#[trigger] f.samples[i])
}

pub open spec fn thread_fits(t: SessionThread) -> bool {
    &&& str_fits(t.name)
    &&& t.frames.len() <= u64::MAX
    &&& forall|i: int| 0 <= i < t.frames.len() ==> frame_fits(#[trigger] t.frames[i])
}

pub open spec fn session_fits(ts: Seq<SessionThread>) -> bool {
    &&& ts.len() <= u64::MAX
    &&& forall|i: int| 0 <= i < ts.len() ==> thread_fits(#[trigger] ts[i])
}

// ---------------------------------------------------------------------------
// Stepping lemmas for the list encoders.
// ---------------------------------------------------------------------------
proof fn lemma_enc_samples_step(ss: Seq<SampleModel>, k: int)
    requires
        0 <= k < ss.len(),
    ensures
        enc_samples(ss.take(k + 1)) == enc_samples(ss.take(k)) + enc_sample(ss[k]),
{
    assert(ss.take(k + 1).drop_last() =~= ss.take(k));
    assert(ss.take(k + 1).last() == ss[k]);
}

proof fn lemma_enc_frames_step(fs: Seq<FrameModel>, k: int)
    requires
        0 <= k < fs.len(),
    ensures
        enc_frames(fs.take(k + 1)) == enc_frames(fs.take(k)) + enc_frame(fs[k]),
{
    assert(fs.take(k + 1).drop_last() =~= fs.take(k));
    assert(fs.take(k + 1).last() == fs[k]);
}

proof fn lemma_enc_threads_step(ts: Seq<SessionThread>, k: int)
    requires
        0 <= k < ts.len(),
    ensures
        enc_threads(ts.take(k + 1)) == enc_threads(ts.take(k)) + enc_thread(ts[k]),
{
    assert(ts.take(k + 1).drop_last() =~= ts.take(k));
    assert(ts.take(k + 1).last() == ts[k]);
}

// ---------------------------------------------------------------------------
// The decoder, as a deterministic specification-level parser. The executable
// decoder below is proved to compute exactly these functions.
// ---------------------------------------------------------------------------
/// Parse a little-endian u64 at `i`; yields the value and the next position.
pub open spec fn dec_u64(b: Seq<u8>, i: int) -> Option<(u64, int)> {
    if 0 <= i && i + 8 <= b.len() {
        Some((spec_u64_from_le_bytes(b.subrange(i, i + 8)), i + 8))
    } else {
        None
    }
}

/// Parse a length-prefixed UTF-8 string at `i`.
pub open spec fn dec_str(b: Seq<u8>, i: int) -> Option<(Seq<char>, int)> {
    match dec_u64(b, i) {
        Some((n, j)) => if j + n as int <= b.len() && valid_utf8(
            b.subrange(j, j + n as int),
        ) {
            Some((decode_utf8(b.subrange(j, j + n as int)), j + n as int))
        } else {
            None
        },
        None => None,
    }
}

/// Parse one sample at `i`.
pub open spec fn dec_sample(b: Seq<u8>, i: int) -> Option<(SampleModel, int)> {
    match dec_str(b, i) {
        Some((name, i1)) => match dec_u64(b, i1) {
            Some((start, i2)) => match dec_u64(b, i2) {
                Some((duration, i3)) => match dec_u64(b, i3) {
                    Some((d, i4)) => if d <= usize::MAX {
                        Some((SampleModel { name, start, duration, depth: d as usize }, i4))
                    } else {
                        None
                    },
                    None => None,
                },
                None => None,
            },
            None => None,
        },
        None => None,
    }
}

/// Parse `n` samples in order, starting at `i`.
pub open spec fn dec_samples(b: Seq<u8>, i: int, n: int) -> Option<(Seq<SampleModel>, int)>
    decreases n,
{
    if n <= 0 {
        Some((Seq::empty(), i))
    } else {
        match dec_sample(b, i) {
            Some((s, j)) => match dec_samples(b, j, n - 1) {
                Some((ss, end)) => Some((seq![s] + ss, end)),
                None => None,
            },
            None => None,
        }
    }
}

/// Parse one frame at `i`.
pub open spec fn dec_frame(b: Seq<u8>, i: int) -> Option<(FrameModel, int)> {
    match dec_u64(b, i) {
        Some((start, i1)) => match dec_u64(b, i1) {
            Some((duration, i2)) => match dec_u64(b, i2) {
                Some((n, i3)) => match dec_samples(b, i3, n as int) {
                    Some((samples, end)) => Some(
                        (FrameModel { start, duration, samples }, end),
                    ),
                    None => None,
                },
                None => None,
            },
            None => None,
        },
        None => None,
    }
}

/// Parse `n` frames in order, starting at `i`.
pub open spec fn dec_frames(b: Seq<u8>, i: int, n: int) -> Option<(Seq<FrameModel>, int)>
    decreases n,
{
    if n <= 0 {
        Some((Seq::empty(), i))
    } else {
        match dec_frame(b, i) {
            Some((f, j)) => match dec_frames(b, j, n - 1) {
                Some((fs, end)) => Some((seq![f] + fs, end)),
                None => None,
            },
            None => None,
        }
    }
}

/// Parse one thread at `i`.
pub open spec fn dec_thread(b: Seq<u8>, i: int) -> Option<(SessionThread, int)> {
    match dec_str(b, i) {
        Some((name, i1)) => match dec_u64(b, i1) {
            Some((n, i2)) => match dec_frames(b, i2, n as int) {
                Some((frames, end)) => Some((SessionThread { name, frames }, end)),
                None => None,
            },
            None => None,
        },
        None => None,
    }
}

/// Parse `n` threads in order, starting at `i`.
pub open spec fn dec_threads(b: Seq<u8>, i: int, n: int) -> Option<(Seq<SessionThread>, int)>
    decreases n,
{
    if n <= 0 {
        Some((Seq::empty(), i))
    } else {
        match dec_thread(b, i) {
            Some((t, j)) => match dec_threads(b, j, n - 1) {
                Some((ts, end)) => Some((seq![t] + ts, end)),
                None => None,
            },
            None => None,
        }
    }
}

/// Thread names in a session are pairwise distinct: they are the keys of
/// the registry the session stands for.
pub open spec fn session_names_unique(ts: Seq<SessionThread>) -> bool {
    forall|i: int, j: int|
        0 <= i < j < ts.len() ==> (#[trigger] ts[i]).name != (#[trigger] ts[j]).name
}

/// Parse a whole session: the bytes are accepted exactly when they are the
/// header followed by a thread list that consumes every byte, with distinct
/// thread names.
pub open spec fn dec_session(b: Seq<u8>) -> Option<Seq<SessionThread>> {
    if b.len() >= 8 && b.subrange(0, 8) == magic() {
        match dec_u64(b, 8) {
            Some((n, i)) => match dec_threads(b, i, n as int) {
                Some((ts, end)) => if end == b.len() && session_names_unique(ts) {
                    Some(ts)
                } else {
                    None
                },
                None => None,
            },
            None => None,
        }
    } else {
        None
    }
}

// ---------------------------------------------------------------------------
// The round trip: parsing an encoding yields exactly what was encoded.
// ---------------------------------------------------------------------------
/// A concatenation found inside `b` splits into its two parts.
proof fn lemma_subrange_split(b: Seq<u8>, i: int, x: Seq<u8>, y: Seq<u8>)
    requires
        0 <= i,
        i + x.len() + y.len() <= b.len(),
        b.subrange(i, i + x.len() + y.len()) == x + y,
    ensures
        b.subrange(i, i + x.len()) == x,
        b.subrange(i + x.len(), i + x.len() + y.len()) == y,
{
    let both = b.subrange(i, i + x.len() + y.len());
    assert forall|k: int| 0 <= k < x.len() implies b[i + k] == x[k] by {
        assert(both[k] == (x + y)[k]);
    }
    assert forall|k: int| 0 <= k < y.len() implies b[i + x.len() + k] == y[k] by {
        assert(both[x.len() + k] == (x + y)[x.len() + k]);
    }
    assert(b.subrange(i, i + x.len()) =~= x);
    assert(b.subrange(i + x.len(), i + x.len() + y.len()) =~= y);
}

proof fn lemma_dec_enc_u64(b: Seq<u8>, i: int, x: u64)
    requires
        0 <= i,
        i + 8 <= b.len(),
        b.subrange(i, i + 8) == spec_u64_to_le_bytes(x),
    ensures
        dec_u64(b, i) == Some((x, i + 8)),
{
    lemma_auto_spec_u64_to_from_le_bytes();
}

proof fn lemma_dec_enc_str(b: Seq<u8>, i: int, s: Seq<char>)
    requires
        str_fits(s),
        0 <= i,
        i + enc_str(s).len() <= b.len(),
        b.subrange(i, i + enc_str(s).len()) == enc_str(s),
    ensures
        dec_str(b, i) == Some((s, i + enc_str(s).len())),
{
    let u = encode_utf8(s);
    let pre = spec_u64_to_le_bytes(u.len() as u64);
    lemma_auto_spec_u64_to_from_le_bytes();
    lemma_subrange_split(b, i, pre, u);
    lemma_dec_enc_u64(b, i, u.len() as u64);
    broadcast use encode_utf8_valid_utf8;
    broadcast use encode_utf8_decode_utf8;

    assert(b.subrange(i + 8, i + 8 + u.len()) == u);
    assert(decode_utf8(b.subrange(i + 8, i + 8 + u.len())) == s);
}

proof fn lemma_dec_enc_sample(b: Seq<u8>, i: int, s: SampleModel)
    requires
        sample_fits(s),
        0 <= i,
        i + enc_sample(s).len() <= b.len(),
        b.subrange(i, i + enc_sample(s).len()) == enc_sample(s),
    ensures
        dec_sample(b, i) == Some((s, i + enc_sample(s).len())),
{
    let e0 = enc_str(s.name);
    let e1 = spec_u64_to_le_bytes(s.start);
    let e2 = spec_u64_to_le_bytes(s.duration);
    let e3 = spec_u64_to_le_bytes(s.depth as u64);
    lemma_auto_spec_u64_to_from_le_bytes();
    assert(enc_sample(s) =~= e0 + (e1 + (e2 + e3)));
    lemma_subrange_split(b, i, e0, e1 + (e2 + e3));
    lemma_dec_enc_str(b, i, s.name);
    let i1 = i + e0.len();
    lemma_subrange_split(b, i1, e1, e2 + e3);
    lemma_dec_enc_u64(b, i1, s.start);
    let i2 = i1 + 8;
    lemma_subrange_split(b, i2, e2, e3);
    lemma_dec_enc_u64(b, i2, s.duration);
    let i3 = i2 + 8;
    lemma_dec_enc_u64(b, i3, s.depth as u64);
}

proof fn lemma_enc_samples_first(ss: Seq<SampleModel>)
    requires
        ss.len() > 0,
    ensures
        enc_samples(ss) == enc_sample(ss.first()) + enc_samples(ss.drop_first()),
    decreases ss.len(),
{
    if ss.len() == 1 {
        assert(ss.drop_last() =~= Seq::<SampleModel>::empty());
        assert(ss.drop_first() =~= Seq::<SampleModel>::empty());
        assert(enc_samples(ss) =~= enc_sample(ss.first()) + enc_samples(ss.drop_first()));
    } else {
        let dl = ss.drop_last();
        lemma_enc_samples_first(dl);
        assert(ss.drop_first().drop_last() =~= dl.drop_first());
        assert(ss.drop_first().last() == ss.last());
        assert(enc_samples(ss.drop_first()) == enc_samples(dl.drop_first()) + enc_sample(
            ss.last(),
        ));
        assert(dl.first() == ss.first());
        assert((enc_sample(ss.first()) + enc_samples(dl.drop_first())) + enc_sample(ss.last())
            =~= enc_sample(ss.first()) + (enc_samples(dl.drop_first()) + enc_sample(ss.last())));
    }
}

proof fn lemma_dec_enc_samples(b: Seq<u8>, i: int, ss: Seq<SampleModel>)
    requires
        forall|k: int| 0 <= k < ss.len() ==> sample_fits(#[trigger] ss[k]),
        0 <= i,
        i + enc_samples(ss).len() <= b.len(),
        b.subrange(i, i + enc_samples(ss).len()) == enc_samples(ss),
    ensures
        dec_samples(b, i, ss.len() as int) == Some((ss, i + enc_samples(ss).len())),
    decreases ss.len(),
{
    if ss.len() == 0 {
        assert(ss =~= Seq::<SampleModel>::empty());
    } else {
        let first = ss.first();
        let rest = ss.drop_first();
        lemma_enc_samples_first(ss);
        lemma_subrange_split(b, i, enc_sample(first), enc_samples(rest));
        lemma_dec_enc_sample(b, i, first);
        let j = i + enc_sample(first).len();
        assert(forall|k: int| 0 <= k < rest.len() ==> sample_fits(#[trigger] rest[k]));
        lemma_dec_enc_samples(b, j, rest);
        assert(seq![first] + rest =~= ss);
    }
}

proof fn lemma_dec_enc_frame(b: Seq<u8>, i: int, f: FrameModel)
    requires
        frame_fits(f),
        0 <= i,
        i + enc_frame(f).len() <= b.len(),
        b.subrange(i, i + enc_frame(f).len()) == enc_frame(f),
    ensures
        dec_frame(b, i) == Some((f, i + enc_frame(f).len())),
{
    let e0 = spec_u64_to_le_bytes(f.start);
    let e1 = spec_u64_to_le_bytes(f.duration);
    let e2 = spec_u64_to_le_bytes(f.samples.len() as u64);
    let e3 = enc_samples(f.samples);
    lemma_auto_spec_u64_to_from_le_bytes();
    assert(enc_frame(f) =~= e0 + (e1 + (e2 + e3)));
    lemma_subrange_split(b, i, e0, e1 + (e2 + e3));
    lemma_dec_enc_u64(b, i, f.start);
    let i1 = i + 8;
    lemma_subrange_split(b, i1, e1, e2 + e3);
    lemma_dec_enc_u64(b, i1, f.duration);
    let i2 = i1 + 8;
    lemma_subrange_split(b, i2, e2, e3);
    lemma_dec_enc_u64(b, i2, f.samples.len() as u64);
    let i3 = i2 + 8;
    lemma_dec_enc_samples(b, i3, f.samples);
}

proof fn lemma_enc_frames_first(fs: Seq<FrameModel>)
    requires
        fs.len() > 0,
    ensures
        enc_frames(fs) == enc_frame(fs.first()) + enc_frames(fs.drop_first()),
    decreases fs.len(),
{
    if fs.len() == 1 {
        assert(fs.drop_last() =~= Seq::<FrameModel>::empty());
        assert(fs.drop_first() =~= Seq::<FrameModel>::empty());
        assert(enc_frames(fs) =~= enc_frame(fs.first()) + enc_frames(fs.drop_first()));
    } else {
        let dl = fs.drop_last();
        lemma_enc_frames_first(dl);
        assert(fs.drop_first().drop_last() =~= dl.drop_first());
        assert(fs.drop_first().last() == fs.last());
        assert(enc_frames(fs.drop_first()) == enc_frames(dl.drop_first()) + enc_frame(fs.last()));
        assert(dl.first() == fs.first());
        assert((enc_frame(fs.first()) + enc_frames(dl.drop_first())) + enc_frame(fs.last())
            =~= enc_frame(fs.first()) + (enc_frames(dl.drop_first()) + enc_frame(fs.last())));
    }
}

proof fn lemma_dec_enc_frames(b: Seq<u8>, i: int, fs: Seq<FrameModel>)
    requires
        forall|k: int| 0 <= k < fs.len() ==> frame_fits(#[trigger] fs[k]),
        0 <= i,
        i + enc_frames(fs).len() <= b.len(),
        b.subrange(i, i + enc_frames(fs).len()) == enc_frames(fs),
    ensures
        dec_frames(b, i, fs.len() as int) == Some((fs, i + enc_frames(fs).len())),
    decreases fs.len(),
{
    if fs.len() == 0 {
        assert(fs =~= Seq::<FrameModel>::empty());
    } else {
        let first = fs.first();
        let rest = fs.drop_first();
        lemma_enc_frames_first(fs);
        lemma_subrange_split(b, i, enc_frame(first), enc_frames(rest));
        lemma_dec_enc_frame(b, i, first);
        let j = i + enc_frame(first).len();
        assert(forall|k: int| 0 <= k < rest.len() ==> frame_fits(#[trigger] rest[k]));
        lemma_dec_enc_frames(b, j, rest);
        assert(seq![first] + rest =~= fs);
    }
}

proof fn lemma_dec_enc_thread(b: Seq<u8>, i: int, t: SessionThread)
    requires
        thread_fits(t),
        0 <= i,
        i + enc_thread(t).len() <= b.len(),
        b.subrange(i, i + enc_thread(t).len()) == enc_thread(t),
    ensures
        dec_thread(b, i) == Some((t, i + enc_thread(t).len())),
{
    let e0 = enc_str(t.name);
    let e1 = spec_u64_to_le_bytes(t.frames.len() as u64);
    let e2 = enc_frames(t.frames);
    lemma_auto_spec_u64_to_from_le_bytes();
    assert(enc_thread(t) =~= e0 + (e1 + e2));
    lemma_subrange_split(b, i, e0, e1 + e2);
    lemma_dec_enc_str(b, i, t.name);
    let i1 = i + e0.len();
    lemma_subrange_split(b, i1, e1, e2);
    lemma_dec_enc_u64(b, i1, t.frames.len() as u64);
    let i2 = i1 + 8;
    lemma_dec_enc_frames(b, i2, t.frames);
}

proof fn lemma_enc_threads_first(ts: Seq<SessionThread>)
    requires
        ts.len() > 0,
    ensures
        enc_threads(ts) == enc_thread(ts.first()) + enc_threads(ts.drop_first()),
    decreases ts.len(),
{
    if ts.len() == 1 {
        assert(ts.drop_last() =~= Seq::<SessionThread>::empty());
        assert(ts.drop_first() =~= Seq::<SessionThread>::empty());
        assert(enc_threads(ts) =~= enc_thread(ts.first()) + enc_threads(ts.drop_first()));
    } else {
        let dl = ts.drop_last();
        lemma_enc_threads_first(dl);
        assert(ts.drop_first().drop_last() =~= dl.drop_first());
        assert(ts.drop_first().last() == ts.last());
        assert(enc_threads(ts.drop_first()) == enc_threads(dl.drop_first()) + enc_thread(
            ts.last(),
        ));
        assert(dl.first() == ts.first());
        assert((enc_thread(ts.first()) + enc_threads(dl.drop_first())) + enc_thread(ts.last())
            =~= enc_thread(ts.first()) + (enc_threads(dl.drop_first()) + enc_thread(ts.last())));
    }
}

proof fn lemma_dec_enc_threads(b: Seq<u8>, i: int, ts: Seq<SessionThread>)
    requires
        forall|k: int| 0 <= k < ts.len() ==> thread_fits(#[trigger] ts[k]),
        0 <= i,
        i + enc_threads(ts).len() <= b.len(),
        b.subrange(i, i + enc_threads(ts).len()) == enc_threads(ts),
    ensures
        dec_threads(b, i, ts.len() as int) == Some((ts, i + enc_threads(ts).len())),
    decreases ts.len(),
{
    if ts.len() == 0 {
        assert(ts =~= Seq::<SessionThread>::empty());
    } else {
        let first = ts.first();
        let rest = ts.drop_first();
        lemma_enc_threads_first(ts);
        lemma_subrange_split(b, i, enc_thread(first), enc_threads(rest));
        lemma_dec_enc_thread(b, i, first);
        let j = i + enc_thread(first).len();
        assert(forall|k: int| 0 <= k < rest.len() ==> thread_fits(#[trigger] rest[k]));
        lemma_dec_enc_threads(b, j, rest);
        assert(seq![first] + rest =~= ts);
    }
}

/// The round-trip law: decoding an encoding yields exactly the encoded
/// session — every thread's name, every frame's start and duration, and
/// every sample's name, start, duration and depth, in order.
pub proof fn lemma_round_trip(ts: Seq<SessionThread>)
    requires
        session_fits(ts),
        session_names_unique(ts),
    ensures
        dec_session(enc_session(ts)) == Some(ts),
{
    let b = enc_session(ts);
    lemma_auto_spec_u64_to_from_le_bytes();
    assert(b =~= magic() + (spec_u64_to_le_bytes(ts.len() as u64) + enc_threads(ts)));
    assert(b.subrange(0, b.len() as int) =~= b);
    lemma_subrange_split(b, 0, magic(), spec_u64_to_le_bytes(ts.len() as u64) + enc_threads(ts));
    assert(b.subrange(0, 8) == magic());
    lemma_subrange_split(b, 8, spec_u64_to_le_bytes(ts.len() as u64), enc_threads(ts));
    lemma_dec_enc_u64(b, 8, ts.len() as u64);
    lemma_dec_enc_threads(b, 16, ts);
}

// ---------------------------------------------------------------------------
// The encoder.
// ---------------------------------------------------------------------------
/// Append the little-endian encoding of `x`.
fn push_u64(out: &mut Vec<u8>, x: u64)
    ensures
        final(out)@ == old(out)@ + spec_u64_to_le_bytes(x),
{
    let mut b = u64_to_le_bytes(x);
    out.append(&mut b);
}

/// Append the length-prefixed UTF-8 encoding of `s`.
fn push_str(out: &mut Vec<u8>, s: &String)
    ensures
        final(out)@ == old(out)@ + enc_str(s@),
        str_fits(s@),
{
    let mut bytes = s.as_str().as_bytes_vec();
    push_u64(out, bytes.len() as u64);
    out.append(&mut bytes);
    proof {
        assert(final(out)@ =~= old(out)@ + enc_str(s@));
    }
}

/// Append one sample's encoding.
fn push_sample(out: &mut Vec<u8>, s: &ScopeResult)
    ensures
        final(out)@ == old(out)@ + enc_sample(s@),
        sample_fits(s@),
{
    push_str(out, &s.name);
    push_u64(out, s.start);
    push_u64(out, s.duration);
    push_u64(out, s.depth as u64);
    proof {
        assert(final(out)@ =~= old(out)@ + enc_sample(s@));
    }
}

/// Append one frame's encoding.
fn push_frame(out: &mut Vec<u8>, f: &Frame)
    ensures
        final(out)@ == old(out)@ + enc_frame(f@),
        frame_fits(f@),
{
    push_u64(out, f.start);
    push_u64(out, f.duration);
    push_u64(out, f.scope_results.len() as u64);
    let ghost ss = f@.samples;
    let ghost base = out@;
    let n = f.scope_results.len();
    assert(out@ == base + enc_samples(ss.take(0))) by {
        assert(ss.take(0) =~= Seq::<SampleModel>::empty());
        assert(base + enc_samples(ss.take(0)) =~= base);
    }
    for k in 0..n
        invariant
            n == ss.len(),
            n == f.scope_results.len(),
            ss == f@.samples,
            out@ == base + enc_samples(ss.take(k as int)),
            forall|i: int| 0 <= i < k ==> sample_fits(#[trigger] ss[i]),
    {
        assert(f.scope_results[k as int]@ == ss[k as int]);
        push_sample(out, &f.scope_results[k]);
        proof {
            lemma_enc_samples_step(ss, k as int);
            assert(out@ =~= base + enc_samples(ss.take(k + 1)));
        }
    }
    proof {
        assert(ss.take(n as int) =~= ss);
        assert(final(out)@ =~= old(out)@ + enc_frame(f@));
    }
}

/// Append one thread's encoding: its name and sealed frames.
fn push_thread(out: &mut Vec<u8>, t: &ThreadProfiler)
    ensures
        final(out)@ == old(out)@ + enc_thread(persisted(t@)),
        thread_fits(persisted(t@)),
{
    push_str(out, t.name());
    let frames = t.frames();
    push_u64(out, frames.len() as u64);
    let ghost fs = persisted(t@).frames;
    let ghost base = out@;
    let n = frames.len();
    assert(out@ == base + enc_frames(fs.take(0))) by {
        assert(fs.take(0) =~= Seq::<FrameModel>::empty());
        assert(base + enc_frames(fs.take(0)) =~= base);
    }
    for k in 0..n
        invariant
            n == fs.len(),
            n == frames.len(),
            fs == frames@.map_values(|f: Frame| f@),
            out@ == base + enc_frames(fs.take(k as int)),
            forall|i: int| 0 <= i < k ==> frame_fits(#[trigger] fs[i]),
    {
        assert(frames[k as int]@ == fs[k as int]);
        push_frame(out, &frames[k]);
        proof {
            lemma_enc_frames_step(fs, k as int);
            assert(out@ =~= base + enc_frames(fs.take(k + 1)));
        }
    }
    proof {
        assert(fs.take(n as int) =~= fs);
        assert(final(out)@ =~= old(out)@ + enc_thread(persisted(t@)));
    }
}

/// The session a registry stands for: the persisted part of every thread.
pub open spec fn session_of(g: GlobalModel) -> Seq<SessionThread> {
    g.threads.map_values(|t: ThreadModel| persisted(t))
}

/// Encode a whole registry. Deterministic; preserves thread, frame and
/// sample order exactly.
pub fn encode_global(g: &GlobalProfiler) -> (out: Vec<u8>)
    ensures
        out@ == enc_session(session_of(g@)),
        session_fits(session_of(g@)),
{
    let ghost ts = session_of(g@);
    let mut out: Vec<u8> = Vec::new();
    out.push(0x50);
    out.push(0x52);
    out.push(0x4f);
    out.push(0x46);
    out.push(0x31);
    out.push(0x00);
    out.push(0x00);
    out.push(0x00);
    assert(out@ =~= magic());
    let n = g.len();
    push_u64(&mut out, n as u64);
    let ghost base = out@;
    assert(out@ == base + enc_threads(ts.take(0))) by {
        assert(ts.take(0) =~= Seq::<SessionThread>::empty());
        assert(base + enc_threads(ts.take(0)) =~= base);
    }
    for k in 0..n
        invariant
            n == ts.len(),
            n == g@.threads.len(),
            ts == session_of(g@),
            base == magic() + spec_u64_to_le_bytes(n as u64),
            out@ == base + enc_threads(ts.take(k as int)),
            forall|i: int| 0 <= i < k ==> thread_fits(#[trigger] ts[i]),
    {
        assert(persisted(g@.threads[k as int]) == ts[k as int]);
        push_thread(&mut out, g.get(k));
        proof {
            lemma_enc_threads_step(ts, k as int);
            assert(out@ =~= base + enc_threads(ts.take(k + 1)));
        }
    }
    proof {
        assert(ts.take(n as int) =~= ts);
        assert(out@ =~= enc_session(ts));
    }
    out
}

/// The round-trip law at the registry level: any registry whose thread
/// names are its keys — pairwise distinct, as [`crate::global`] keeps them —
/// decodes from its own encoding exactly, thread by thread, frame by frame.
pub proof fn lemma_global_round_trip(g: GlobalModel)
    requires
        session_fits(session_of(g)),
        names_unique(g.threads),
    ensures
        dec_session(enc_session(session_of(g))) == Some(session_of(g)),
{
    let ts = session_of(g);
    assert forall|i: int, j: int| 0 <= i < j < ts.len() implies (#[trigger] ts[i]).name
        != (#[trigger] ts[j]).name by {
        assert(ts[i].name == g.threads[i].name);
        assert(ts[j].name == g.threads[j].name);
    }
    lemma_round_trip(ts);
}

// ---------------------------------------------------------------------------
// The executable decoder: computes exactly the specification parser above.
// ---------------------------------------------------------------------------
/// Relies on `str::from_utf8`: it accepts exactly the byte strings that are
/// valid UTF-8 and views the accepted bytes as the characters they encode.
#[verifier::external_body]
fn bytes_to_string(v: &[u8]) -> (r: Option<String>)
    ensures
        r is Some <==> valid_utf8(v@),
        r matches Some(s) ==> s@ == decode_utf8(v@),
{
    match core::str::from_utf8(v) {
        Ok(s) => Some(s.to_owned()),
        Err(_) => None,
    }
}

/// Read a little-endian u64 at the cursor.
fn read_u64(b: &Vec<u8>, pos: &mut usize) -> (r: Result<u64, ProfilerError>)
    requires
        *old(pos) <= b@.len(),
    ensures
        *final(pos) <= b@.len(),
        match dec_u64(b@, *old(pos) as int) {
            Some(v) => r == Ok::<u64, ProfilerError>(v.0) && *final(pos) == v.1,
            None => r matches Err(e) && e is Format,
        },
{
    if b.len() - *pos < 8 {
        return Err(ProfilerError::Format("truncated integer".to_owned()));
    }
    let s = slice_subrange(b.as_slice(), *pos, *pos + 8);
    let x = u64_from_le_bytes(s);
    *pos = *pos + 8;
    Ok(x)
}

/// Read a length-prefixed UTF-8 string at the cursor.
fn read_string(b: &Vec<u8>, pos: &mut usize) -> (r: Result<String, ProfilerError>)
    requires
        *old(pos) <= b@.len(),
    ensures
        *final(pos) <= b@.len(),
        match dec_str(b@, *old(pos) as int) {
            Some(v) => r matches Ok(s) && s@ == v.0 && *final(pos) == v.1,
            None => r matches Err(e) && e is Format,
        },
{
    let n = match read_u64(b, pos) {
        Ok(x) => x,
        Err(e) => { return Err(e); },
    };
    let room = (b.len() - *pos) as u64;
    if room < n {
        return Err(ProfilerError::Format("truncated string".to_owned()));
    }
    let len = n as usize;
    let s = slice_subrange(b.as_slice(), *pos, *pos + len);
    match bytes_to_string(s) {
        Some(st) => {
            *pos = *pos + len;
            Ok(st)
        },
        None => Err(ProfilerError::Format("string is not valid UTF-8".to_owned())),
    }
}

/// Read one sample at the cursor.
fn read_sample(b: &Vec<u8>, pos: &mut usize) -> (r: Result<ScopeResult, ProfilerError>)
    requires
        *old(pos) <= b@.len(),
    ensures
        *final(pos) <= b@.len(),
        match dec_sample(b@, *old(pos) as int) {
            Some(v) => r matches Ok(s) && s@ == v.0 && *final(pos) == v.1,
            None => r matches Err(e) && e is Format,
        },
{
    let name = match read_string(b, pos) {
        Ok(x) => x,
        Err(e) => { return Err(e); },
    };
    let start = match read_u64(b, pos) {
        Ok(x) => x,
        Err(e) => { return Err(e); },
    };
    let duration = match read_u64(b, pos) {
        Ok(x) => x,
        Err(e) => { return Err(e); },
    };
    let d = match read_u64(b, pos) {
        Ok(x) => x,
        Err(e) => { return Err(e); },
    };
    if d > usize::MAX as u64 {
        return Err(ProfilerError::Format("sample depth out of range".to_owned()));
    }
    Ok(ScopeResult { name, start, duration, depth: d as usize })
}

/// Compose an already-parsed prefix with the outcome of parsing the rest.
spec fn glue_samples(acc: Seq<SampleModel>, r: Option<(Seq<SampleModel>, int)>) -> Option<
    (Seq<SampleModel>, int),
> {
    match r {
        Some(v) => Some((acc + v.0, v.1)),
        None => None,
    }
}

/// Read `n` samples at the cursor.
#[verifier::loop_isolation(false)]
fn read_samples(b: &Vec<u8>, pos: &mut usize, n: u64) -> (r: Result<
    Vec<ScopeResult>,
    ProfilerError,
>)
    requires
        *old(pos) <= b@.len(),
    ensures
        *final(pos) <= b@.len(),
        match dec_samples(b@, *old(pos) as int, n as int) {
            Some(v) => r matches Ok(out) && out@.map_values(|s: ScopeResult| s@) == v.0
                && *final(pos) == v.1,
            None => r matches Err(e) && e is Format,
        },
{
    let ghost start = *pos as int;
    let mut out: Vec<ScopeResult> = Vec::new();
    let mut k: u64 = 0;
    proof {
        assert(out@.map_values(|s: ScopeResult| s@) =~= Seq::<SampleModel>::empty());
    }
    while k < n
        invariant
            k <= n,
            *pos <= b@.len(),
            dec_samples(b@, start, n as int) == glue_samples(
                out@.map_values(|s: ScopeResult| s@),
                dec_samples(b@, *pos as int, n as int - k as int),
            ),
        decreases n - k,
    {
        let ghost acc0 = out@.map_values(|s: ScopeResult| s@);
        let ghost pos0 = *pos as int;
        let s = match read_sample(b, pos) {
            Ok(x) => x,
            Err(e) => {
                proof {
                    assert(dec_samples(b@, pos0, n as int - k as int) is None);
                }
                return Err(e);
            },
        };
        out.push(s);
        k = k + 1;
        proof {
            match dec_samples(b@, *pos as int, n as int - k as int) {
                Some(v) => {
                    assert(acc0 + (seq![s@] + v.0) =~= acc0.push(s@) + v.0);
                },
                None => {},
            }
            assert(out@.map_values(|x: ScopeResult| x@) =~= acc0.push(s@));
        }
    }
    proof {
        let m = out@.map_values(|s: ScopeResult| s@);
        assert(m + Seq::<SampleModel>::empty() =~= m);
    }
    Ok(out)
}

/// Read one frame at the cursor.
fn read_frame(b: &Vec<u8>, pos: &mut usize) -> (r: Result<Frame, ProfilerError>)
    requires
        *old(pos) <= b@.len(),
    ensures
        *final(pos) <= b@.len(),
        match dec_frame(b@, *old(pos) as int) {
            Some(v) => r matches Ok(f) && f@ == v.0 && *final(pos) == v.1,
            None => r matches Err(e) && e is Format,
        },
{
    let start = match read_u64(b, pos) {
        Ok(x) => x,
        Err(e) => { return Err(e); },
    };
    let duration = match read_u64(b, pos) {
        Ok(x) => x,
        Err(e) => { return Err(e); },
    };
    let n = match read_u64(b, pos) {
        Ok(x) => x,
        Err(e) => { return Err(e); },
    };
    let scope_results = match read_samples(b, pos, n) {
        Ok(x) => x,
        Err(e) => { return Err(e); },
    };
    Ok(Frame { start, duration, scope_results })
}

/// Compose an already-parsed prefix with the outcome of parsing the rest.
spec fn glue_frames(acc: Seq<FrameModel>, r: Option<(Seq<FrameModel>, int)>) -> Option<
    (Seq<FrameModel>, int),
> {
    match r {
        Some(v) => Some((acc + v.0, v.1)),
        None => None,
    }
}

/// Read `n` frames at the cursor.
#[verifier::loop_isolation(false)]
fn read_frames(b: &Vec<u8>, pos: &mut usize, n: u64) -> (r: Result<Vec<Frame>, ProfilerError>)
    requires
        *old(pos) <= b@.len(),
    ensures
        *final(pos) <= b@.len(),
        match dec_frames(b@, *old(pos) as int, n as int) {
            Some(v) => r matches Ok(out) && out@.map_values(|f: Frame| f@) == v.0 && *final(pos)
                == v.1,
            None => r matches Err(e) && e is Format,
        },
{
    let ghost start = *pos as int;
    let mut out: Vec<Frame> = Vec::new();
    let mut k: u64 = 0;
    proof {
        assert(out@.map_values(|f: Frame| f@) =~= Seq::<FrameModel>::empty());
    }
    while k < n
        invariant
            k <= n,
            *pos <= b@.len(),
            dec_frames(b@, start, n as int) == glue_frames(
                out@.map_values(|f: Frame| f@),
                dec_frames(b@, *pos as int, n as int - k as int),
            ),
        decreases n - k,
    {
        let ghost acc0 = out@.map_values(|f: Frame| f@);
        let ghost pos0 = *pos as int;
        let f = match read_frame(b, pos) {
            Ok(x) => x,
            Err(e) => {
                proof {
                    assert(dec_frames(b@, pos0, n as int - k as int) is None);
                }
                return Err(e);
            },
        };
        out.push(f);
        k = k + 1;
        proof {
            match dec_frames(b@, *pos as int, n as int - k as int) {
                Some(v) => {
                    assert(acc0 + (seq![f@] + v.0) =~= acc0.push(f@) + v.0);
                },
                None => {},
            }
            assert(out@.map_values(|x: Frame| x@) =~= acc0.push(f@));
        }
    }
    proof {
        let m = out@.map_values(|f: Frame| f@);
        assert(m + Seq::<FrameModel>::empty() =~= m);
    }
    Ok(out)
}

/// Read one thread at the cursor, rebuilding its profiler with empty live
/// state.
fn read_thread(b: &Vec<u8>, pos: &mut usize) -> (r: Result<ThreadProfiler, ProfilerError>)
    requires
        *old(pos) <= b@.len(),
    ensures
        *final(pos) <= b@.len(),
        match dec_thread(b@, *old(pos) as int) {
            Some(v) => r matches Ok(tp) && persisted(tp@) == v.0 && tp@.open
                == Seq::<crate::thread_profiler::OpenModel>::empty() && tp@.cur
                == Seq::<SampleModel>::empty() && tp@.mark == 0 && *final(pos) == v.1,
            None => r matches Err(e) && e is Format,
        },
{
    let name = match read_string(b, pos) {
        Ok(x) => x,
        Err(e) => { return Err(e); },
    };
    let n = match read_u64(b, pos) {
        Ok(x) => x,
        Err(e) => { return Err(e); },
    };
    let frames = match read_frames(b, pos, n) {
        Ok(x) => x,
        Err(e) => { return Err(e); },
    };
    Ok(ThreadProfiler::from_recorded(name, frames))
}

/// Compose an already-parsed prefix with the outcome of parsing the rest.
spec fn glue_threads(acc: Seq<SessionThread>, r: Option<(Seq<SessionThread>, int)>) -> Option<
    (Seq<SessionThread>, int),
> {
    match r {
        Some(v) => Some((acc + v.0, v.1)),
        None => None,
    }
}

/// Every decoded thread carries empty live state: the live stack is
/// transient and never persisted.
pub open spec fn decoded_live(g: GlobalModel) -> bool {
    forall|i: int|
        0 <= i < g.threads.len() ==> {
            &&& (#[trigger] g.threads[i]).open =~= Seq::<
                crate::thread_profiler::OpenModel,
            >::empty()
            &&& g.threads[i].cur =~= Seq::<SampleModel>::empty()
            &&& g.threads[i].mark == 0
        }
}

/// Decode a whole session. The bytes are accepted exactly when they are a
/// valid encoding: the header, the announced number of threads with
/// pairwise-distinct names, and nothing left over. Anything else — a bad
/// header, a truncated or overlong payload, invalid UTF-8, an out-of-range
/// count, a duplicated thread name — is reported as a format error; the
/// decoder never panics.
#[verifier::loop_isolation(false)]
pub fn decode_global(b: &Vec<u8>) -> (r: Result<GlobalProfiler, ProfilerError>)
    ensures
        match dec_session(b@) {
            Some(ts) => r matches Ok(g) && session_of(g@) == ts && names_unique(g@.threads)
                && decoded_live(g@),
            None => r matches Err(e) && e is Format,
        },
{
    if b.len() < 8 {
        return Err(ProfilerError::Format("missing header".to_owned()));
    }
    if !(b[0] == 0x50 && b[1] == 0x52 && b[2] == 0x4f && b[3] == 0x46 && b[4] == 0x31 && b[5]
        == 0x00 && b[6] == 0x00 && b[7] == 0x00) {
        proof {
            if b@.len() >= 8 && b@.subrange(0, 8) == magic() {
                assert(b@[0] == b@.subrange(0, 8)[0]);
                assert(b@[1] == b@.subrange(0, 8)[1]);
                assert(b@[2] == b@.subrange(0, 8)[2]);
                assert(b@[3] == b@.subrange(0, 8)[3]);
                assert(b@[4] == b@.subrange(0, 8)[4]);
                assert(b@[5] == b@.subrange(0, 8)[5]);
                assert(b@[6] == b@.subrange(0, 8)[6]);
                assert(b@[7] == b@.subrange(0, 8)[7]);
            }
        }
        return Err(ProfilerError::Format("unrecognized header".to_owned()));
    }
    proof {
        assert(b@.subrange(0, 8) =~= magic());
    }
    let mut pos: usize = 8;
    let n = match read_u64(b, &mut pos) {
        Ok(x) => x,
        Err(e) => { return Err(e); },
    };
    let ghost start = pos as int;
    let mut g = GlobalProfiler::new();
    let mut k: u64 = 0;
    proof {
        assert(session_of(g@) =~= Seq::<SessionThread>::empty());
    }
    while k < n
        invariant
            k <= n,
            pos <= b@.len(),
            names_unique(g@.threads),
            decoded_live(g@),
            dec_threads(b@, start, n as int) == glue_threads(
                session_of(g@),
                dec_threads(b@, pos as int, n as int - k as int),
            ),
        decreases n - k,
    {
        let ghost acc0 = session_of(g@);
        let ghost pos0 = pos as int;
        let ghost m0 = n as int - k as int;
        let tp = match read_thread(b, &mut pos) {
            Ok(x) => x,
            Err(e) => {
                proof {
                    assert(dec_threads(b@, pos0, m0) is None);
                }
                return Err(e);
            },
        };
        let ghost tpv = tp@;
        let ghost rest = dec_threads(b@, pos as int, n as int - k as int - 1);
        match g.register(tp) {
            Ok(_) => {},
            Err(_) => {
                // a thread of this name was already decoded: whatever the
                // remaining bytes hold, the whole session has a duplicated
                // name and is rejected.
                proof {
                    let dup = choose|i: int|
                        0 <= i < g@.threads.len() && (#[trigger] g@.threads[i]).name == tpv.name;
                    assert(acc0[dup] == persisted(g@.threads[dup]));
                    match rest {
                        Some(v) => {
                            let ts = acc0 + (seq![persisted(tpv)] + v.0);
                            assert(dec_threads(b@, start, n as int) == Some((ts, v.1)));
                            assert(ts[dup] == acc0[dup]);
                            assert(ts[acc0.len() as int] == (seq![persisted(tpv)] + v.0)[0]);
                            assert(ts[acc0.len() as int].name == tpv.name);
                            assert(!session_names_unique(ts));
                        },
                        None => {
                            assert(dec_threads(b@, pos0, m0) is None);
                        },
                    }
                }
                return Err(ProfilerError::Format("duplicated thread name".to_owned()));
            },
        }
        k = k + 1;
        proof {
            match rest {
                Some(v) => {
                    assert(acc0 + (seq![persisted(tpv)] + v.0) =~= acc0.push(persisted(tpv))
                        + v.0);
                },
                None => {},
            }
            assert(session_of(g@) =~= acc0.push(persisted(tpv)));
        }
    }
    if pos != b.len() {
        return Err(ProfilerError::Format("unexpected trailing bytes".to_owned()));
    }
    proof {
        let m = session_of(g@);
        assert(m + Seq::<SessionThread>::empty() =~= m);
        assert forall|i: int, j: int| 0 <= i < j < m.len() implies (#[trigger] m[i]).name
            != (#[trigger] m[j]).name by {
            assert(m[i].name == g@.threads[i].name);
            assert(m[j].name == g@.threads[j].name);
        }
    }
    Ok(g)
}

/// Decode a single-thread session: the bytes must be a valid session of
/// exactly one thread; anything else is a format error.
pub fn decode_thread(b: &Vec<u8>) -> (r: Result<ThreadProfiler, ProfilerError>)
    ensures
        match dec_session(b@) {
            Some(ts) => if ts.len() == 1 {
                r matches Ok(tp) && persisted(tp@) == ts[0] && tp@.cur == Seq::<
                    SampleModel,
                >::empty() && tp@.mark == 0
            } else {
                r matches Err(e) && e is Format
            },
            None => r matches Err(e) && e is Format,
        },
{
    let g = match decode_global(b) {
        Ok(g) => g,
        Err(e) => { return Err(e); },
    };
    if g.len() != 1 {
        return Err(ProfilerError::Format("expected a single-thread session".to_owned()));
    }
    let ghost gv = g@;
    let mut threads = g.into_threads();
    let tp = threads.pop().unwrap();
    proof {
        assert(tp@ == gv.threads[0]);
        assert(session_of(gv)[0] == persisted(gv.threads[0]));
    }
    Ok(tp)
}

/// Encode a single thread's profiler, as a session of one thread.
pub fn encode_thread(t: &ThreadProfiler) -> (out: Vec<u8>)
    ensures
        out@ == enc_session(seq![persisted(t@)]),
        session_fits(seq![persisted(t@)]),
{
    let mut out: Vec<u8> = Vec::new();
    out.push(0x50);
    out.push(0x52);
    out.push(0x4f);
    out.push(0x46);
    out.push(0x31);
    out.push(0x00);
    out.push(0x00);
    out.push(0x00);
    assert(out@ =~= magic());
    push_u64(&mut out, 1);
    let ghost base = out@;
    push_thread(&mut out, t);
    proof {
        let ts = seq![persisted(t@)];
        assert(ts.drop_last() =~= Seq::<SessionThread>::empty());
        assert(enc_threads(ts.drop_last()) + enc_thread(persisted(t@)) =~= enc_thread(
            persisted(t@),
        ));
        assert(out@ =~= enc_session(ts));
    }
    out
}

} // verus!

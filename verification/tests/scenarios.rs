use profiler::codec::{decode_global, encode_global};
use profiler::global::GlobalProfiler;
use profiler::analyze::self_duration;
use profiler::thread_profiler::ThreadProfiler;

const MS: u64 = 1_000_000;

/// Ten cycles of enter("work"), 10 ms of work, exit, frame boundary: ten
/// frames, each with exactly one depth-0 sample named "work" of 10 ms whose
/// self duration equals its duration.
#[test]
fn scenario_single_scope_frames() {
    let mut tp = ThreadProfiler::new("main".to_string());
    let mut now: u64 = 0;
    for _ in 0..10 {
        tp.enter_at("work".to_string(), now);
        now += 10 * MS;
        tp.exit_at(now).unwrap();
        tp.new_frame_at(now).unwrap();
    }
    assert_eq!(tp.frames().len(), 10);
    for (i, frame) in tp.frames().iter().enumerate() {
        assert_eq!(frame.start, i as u64 * 10 * MS);
        assert_eq!(frame.duration, 10 * MS);
        assert_eq!(frame.scope_results.len(), 1);
        let s = &frame.scope_results[0];
        assert_eq!(s.name, "work");
        assert_eq!(s.depth, 0);
        assert_eq!(s.start, 0);
        assert_eq!(s.duration, 10 * MS);
        assert_eq!(self_duration(frame, 0), s.duration);
    }
}

/// outer(10 ms) wraps inner(5 ms): one frame with two samples; outer's self
/// duration drops to 5 ms, inner keeps its full 5 ms.
#[test]
fn scenario_nested_scopes() {
    let mut tp = ThreadProfiler::new("main".to_string());
    tp.enter_at("outer".to_string(), 0);
    tp.enter_at("inner".to_string(), 0);
    tp.exit_at(5 * MS).unwrap();
    tp.exit_at(10 * MS).unwrap();
    tp.new_frame_at(10 * MS).unwrap();

    assert_eq!(tp.frames().len(), 1);
    let frame = &tp.frames()[0];
    assert_eq!(frame.scope_results.len(), 2);

    // samples land in close order: inner first
    let inner = &frame.scope_results[0];
    assert_eq!(inner.name, "inner");
    assert_eq!(inner.depth, 1);
    assert_eq!(inner.start, 0);
    assert_eq!(inner.duration, 5 * MS);
    assert_eq!(self_duration(frame, 0), 5 * MS);

    let outer = &frame.scope_results[1];
    assert_eq!(outer.name, "outer");
    assert_eq!(outer.depth, 0);
    assert_eq!(outer.start, 0);
    assert_eq!(outer.duration, 10 * MS);
    assert_eq!(self_duration(frame, 1), 5 * MS);
}

fn record_five_frames(name: &str, scope: &str) -> ThreadProfiler {
    let mut tp = ThreadProfiler::new(name.to_string());
    let mut now: u64 = 0;
    for _ in 0..5 {
        tp.enter_at(scope.to_string(), now);
        now += 2 * MS;
        tp.exit_at(now).unwrap();
        tp.new_frame_at(now).unwrap();
    }
    tp
}

/// Two threads record five frames each into a global registry; after a
/// save/load round trip the reloaded registry holds exactly two thread
/// entries with five frames each, content-identical to the originals.
#[test]
fn scenario_two_threads_round_trip() {
    let a = record_five_frames("thread-a", "alpha");
    let b = record_five_frames("thread-b", "beta");

    let mut g = GlobalProfiler::new();
    g.register(a).unwrap();
    g.register(b).unwrap();

    let bytes = encode_global(&g);
    let loaded = decode_global(&bytes).unwrap();

    assert_eq!(loaded.len(), 2);
    for i in 0..2 {
        let orig = g.get(i);
        let got = loaded.get(i);
        assert_eq!(got.name(), orig.name());
        assert_eq!(got.frames().len(), 5);
        for (fo, fg) in orig.frames().iter().zip(got.frames().iter()) {
            assert_eq!(fo.start, fg.start);
            assert_eq!(fo.duration, fg.duration);
            assert_eq!(fo.scope_results.len(), fg.scope_results.len());
            for (so, sg) in fo.scope_results.iter().zip(fg.scope_results.iter()) {
                assert_eq!(so.name, sg.name);
                assert_eq!(so.start, sg.start);
                assert_eq!(so.duration, sg.duration);
                assert_eq!(so.depth, sg.depth);
            }
        }
    }
}

/// Frame starts never decrease along one thread's history, even when the
/// clock readings handed to the profiler go backwards.
#[test]
fn frame_starts_never_decrease() {
    let mut tp = ThreadProfiler::new("main".to_string());
    let readings: [u64; 6] = [5 * MS, 3 * MS, 9 * MS, 2 * MS, 9 * MS, 4 * MS];
    for now in readings {
        tp.new_frame_at(now).unwrap();
    }
    let frames = tp.frames();
    assert_eq!(frames.len(), 6);
    for w in frames.windows(2) {
        assert!(w[1].start >= w[0].start);
        // the reference pattern keeps frames contiguous: each one starts
        // exactly where the previous ended
        assert_eq!(w[1].start, w[0].start + w[0].duration);
    }
}

/// The nesting invariant on recorded samples: a sample starts no earlier
/// than the containing sample one level up, and closes no later.
#[test]
fn nesting_invariant_holds() {
    let mut tp = ThreadProfiler::new("main".to_string());
    let mut now: u64 = 0;
    // two sibling subtrees inside one root scope
    tp.enter_at("root".to_string(), now);
    now += MS;
    tp.enter_at("first".to_string(), now);
    now += MS;
    tp.enter_at("first-leaf".to_string(), now);
    now += MS;
    tp.exit_at(now).unwrap();
    now += MS;
    tp.exit_at(now).unwrap();
    now += MS;
    tp.enter_at("second".to_string(), now);
    now += MS;
    tp.exit_at(now).unwrap();
    now += MS;
    tp.exit_at(now).unwrap();
    tp.new_frame_at(now).unwrap();

    let frame = &tp.frames()[0];
    let ss = &frame.scope_results;
    assert_eq!(ss.len(), 4);
    for i in 0..ss.len() {
        // the direct parent is the first later sample one level up
        if ss[i].depth > 0 {
            let j = (i + 1..ss.len())
                .find(|&j| ss[j].depth + 1 == ss[i].depth)
                .expect("depth-d sample has a parent at depth d-1");
            assert!(ss[i].is_inside(&ss[j]));
        }
        // samples lie within the frame's window
        assert!(ss[i].start + ss[i].duration <= frame.duration);
    }
}

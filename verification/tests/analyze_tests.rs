use profiler::analyze::{process_global, process_thread, self_duration};
use profiler::global::GlobalProfiler;
use profiler::sample::{Frame, ScopeResult};
use profiler::thread_profiler::ThreadProfiler;

fn scope(name: &str, start: u64, duration: u64, depth: usize) -> ScopeResult {
    ScopeResult { name: name.to_string(), start, duration, depth }
}

/// Self duration is the duration minus the direct children's time: with two
/// disjoint children occupying 30 of 100, the parent keeps 70.
#[test]
fn self_duration_subtracts_direct_children() {
    let frame = Frame {
        start: 0,
        duration: 100,
        scope_results: vec![
            scope("grandchild", 12, 4, 2),
            scope("first", 10, 10, 1),
            scope("second", 40, 20, 1),
            scope("parent", 0, 100, 0),
        ],
    };
    // the grandchild's 4 come out of "first" only, never twice
    assert_eq!(self_duration(&frame, 0), 4);
    assert_eq!(self_duration(&frame, 1), 6);
    assert_eq!(self_duration(&frame, 2), 20);
    assert_eq!(self_duration(&frame, 3), 70);
}

/// 0 <= self_duration <= duration, even on data that was never recorded by
/// the capture engine and overlaps arbitrarily.
#[test]
fn self_duration_is_bounded() {
    let frame = Frame {
        start: 0,
        duration: 50,
        scope_results: vec![
            scope("a", 0, 40, 1),
            scope("b", 0, 40, 1), // overlaps its sibling: a caller bug
            scope("parent", 0, 50, 0),
        ],
    };
    for i in 0..frame.scope_results.len() {
        let sd = self_duration(&frame, i);
        assert!(sd <= frame.scope_results[i].duration);
    }
    // the two children claim 80 of 50: the parent's self time clamps at 0
    assert_eq!(self_duration(&frame, 2), 0);
}

/// An empty frame contributes nothing; processing keeps shape and order.
#[test]
fn process_thread_keeps_shape() {
    let mut tp = ThreadProfiler::new("worker".to_string());
    tp.new_frame_at(5).unwrap(); // an empty frame
    tp.enter_at("job".to_string(), 10);
    tp.exit_at(25).unwrap();
    tp.new_frame_at(30).unwrap();

    let p = process_thread(&tp);
    assert_eq!(p.name, "worker");
    assert_eq!(p.frames.len(), 2);
    assert_eq!(p.frames[0].scope_results.len(), 0);
    assert_eq!(p.frames[1].scope_results.len(), 1);
    let row = &p.frames[1].scope_results[0];
    assert_eq!(row.name, "job");
    assert_eq!(row.duration, 15);
    assert_eq!(row.self_duration, 15);
}

/// The session total is the maximum frame end over every thread.
#[test]
fn total_time_is_max_frame_end() {
    let mut g = GlobalProfiler::new();

    let mut a = ThreadProfiler::new("a".to_string());
    a.new_frame_at(70).unwrap();
    g.register(a).unwrap();

    let mut b = ThreadProfiler::new("b".to_string());
    b.new_frame_at(40).unwrap();
    b.new_frame_at(90).unwrap(); // ends at 90
    g.register(b).unwrap();

    let p = process_global(&g);
    assert_eq!(p.thread_profilers.len(), 2);
    assert_eq!(p.total_time, 90);
}

/// An empty session totals zero.
#[test]
fn total_time_empty_session() {
    let p = process_global(&GlobalProfiler::new());
    assert_eq!(p.thread_profilers.len(), 0);
    assert_eq!(p.total_time, 0);
}

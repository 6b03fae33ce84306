use profiler::ProfilerError;
use profiler::global::GlobalProfiler;
use profiler::thread_profiler::ThreadProfiler;

/// Closing a scope while none is open is a usage error and changes nothing.
#[test]
fn exit_without_scope_is_usage_error() {
    let mut tp = ThreadProfiler::new("main".to_string());
    assert!(matches!(tp.exit(), Err(ProfilerError::Usage)));
    assert_eq!(tp.frames().len(), 0);
    assert_eq!(tp.depth(), 0);
}

/// A frame boundary crossed while scopes are still open is rejected; the
/// open scope stays open and no frame is sealed.
#[test]
fn frame_boundary_with_open_scope_is_usage_error() {
    let mut tp = ThreadProfiler::new("main".to_string());
    tp.enter_at("pending".to_string(), 0);
    assert!(matches!(tp.new_frame_at(10), Err(ProfilerError::Usage)));
    assert_eq!(tp.frames().len(), 0);
    assert_eq!(tp.depth(), 1);
    // closing the scope makes the boundary valid again
    tp.exit_at(20).unwrap();
    tp.new_frame_at(20).unwrap();
    assert_eq!(tp.frames().len(), 1);
}

/// Registration is one-time per thread identity.
#[test]
fn duplicate_registration_is_usage_error() {
    let mut g = GlobalProfiler::new();
    g.register(ThreadProfiler::new("main".to_string())).unwrap();
    let again = ThreadProfiler::new("main".to_string());
    assert!(matches!(g.register(again), Err(ProfilerError::Usage)));
    assert_eq!(g.len(), 1);
    g.register(ThreadProfiler::new("other".to_string())).unwrap();
    assert_eq!(g.len(), 2);
}

/// The registry finds threads by name.
#[test]
fn registry_lookup() {
    let mut g = GlobalProfiler::new();
    g.register(ThreadProfiler::new("alpha".to_string())).unwrap();
    g.register(ThreadProfiler::new("beta".to_string())).unwrap();
    assert_eq!(g.find(&"beta".to_string()), Some(1));
    assert_eq!(g.find(&"alpha".to_string()), Some(0));
    assert_eq!(g.find(&"gamma".to_string()), None);
    assert_eq!(g.get(1).name(), "beta");
}

/// for_thread registers a name once and then returns the same entry.
#[test]
fn for_thread_registers_once() {
    let mut g = GlobalProfiler::new();
    let a = g.for_thread("main".to_string());
    let b = g.for_thread("aux".to_string());
    let again = g.for_thread("main".to_string());
    assert_eq!(a, again);
    assert_ne!(a, b);
    assert_eq!(g.len(), 2);
    assert_eq!(g.get(a).name(), "main");
    assert_eq!(g.get(a).frames().len(), 0);
}

/// Every error renders a readable message.
#[test]
fn error_messages() {
    assert_eq!(
        ProfilerError::Io("file vanished".to_string()).message(),
        "i/o error: file vanished"
    );
    assert_eq!(
        ProfilerError::Format("truncated integer".to_string()).message(),
        "format error: truncated integer"
    );
    assert_eq!(
        ProfilerError::Usage.message(),
        "usage error: scope open or close out of order"
    );
}

use profiler::thread_profiler::ThreadProfiler;

fn work(tp: &mut ThreadProfiler) -> i32 {
    tp.enter("work".to_string());
    let r = 5;
    tp.exit().unwrap();
    r
}

#[test]
fn simple() {
    let mut tp = ThreadProfiler::new("main".to_string());
    for _ in 0..10 {
        assert_eq!(work(&mut tp), 5);

        tp.new_frame().unwrap();
    }
    for _ in 0..10 {
        tp.enter("scope_task".to_string());
        tp.exit().unwrap();

        tp.new_frame().unwrap();
    }
    assert_eq!(tp.frames().len(), 20);
    for (i, frame) in tp.frames().iter().enumerate() {
        assert_eq!(frame.scope_results.len(), 1);
        let expected = if i < 10 { "work" } else { "scope_task" };
        assert_eq!(frame.scope_results[0].name, expected);
        assert_eq!(frame.scope_results[0].depth, 0);
    }
}

#[test]
fn custom() {
    let mut profiler = ThreadProfiler::new("custom".to_string());

    for _ in 0..10 {
        profiler.enter("scope_task".to_string());
        profiler.exit().unwrap();

        profiler.new_frame().unwrap();
    }
    assert_eq!(profiler.frames().len(), 10);
}

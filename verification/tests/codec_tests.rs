use profiler::ProfilerError;
use profiler::codec::{decode_global, decode_thread, encode_global, encode_thread};
use profiler::global::GlobalProfiler;
use profiler::thread_profiler::ThreadProfiler;

fn sample_profiler(name: &str) -> ThreadProfiler {
    let mut tp = ThreadProfiler::new(name.to_string());
    tp.enter_at("load".to_string(), 10);
    tp.enter_at("parse".to_string(), 20);
    tp.exit_at(35).unwrap();
    tp.exit_at(50).unwrap();
    tp.new_frame_at(60).unwrap();
    tp.enter_at("draw".to_string(), 75);
    tp.exit_at(90).unwrap();
    tp.new_frame_at(100).unwrap();
    tp
}

fn assert_threads_equal(a: &ThreadProfiler, b: &ThreadProfiler) {
    assert_eq!(a.name(), b.name());
    assert_eq!(a.frames().len(), b.frames().len());
    for (fa, fb) in a.frames().iter().zip(b.frames().iter()) {
        assert_eq!(fa.start, fb.start);
        assert_eq!(fa.duration, fb.duration);
        assert_eq!(fa.scope_results.len(), fb.scope_results.len());
        for (sa, sb) in fa.scope_results.iter().zip(fb.scope_results.iter()) {
            assert_eq!(sa.name, sb.name);
            assert_eq!(sa.start, sb.start);
            assert_eq!(sa.duration, sb.duration);
            assert_eq!(sa.depth, sb.depth);
        }
    }
}

/// Decoding an encoding reproduces every frame and sample field exactly.
#[test]
fn round_trip_exact() {
    let mut g = GlobalProfiler::new();
    g.register(sample_profiler("render")).unwrap();
    g.register(sample_profiler("audio")).unwrap();
    let bytes = encode_global(&g);
    let loaded = decode_global(&bytes).unwrap();
    assert_eq!(loaded.len(), g.len());
    for i in 0..g.len() {
        assert_threads_equal(g.get(i), loaded.get(i));
    }
}

/// Encoding is deterministic: re-encoding a decoded session gives the same
/// bytes.
#[test]
fn reencode_is_stable() {
    let mut g = GlobalProfiler::new();
    g.register(sample_profiler("only")).unwrap();
    let bytes = encode_global(&g);
    let loaded = decode_global(&bytes).unwrap();
    assert_eq!(encode_global(&loaded), bytes);
}

/// Thread names survive the round trip byte for byte, including non-ASCII.
#[test]
fn round_trip_unicode_names() {
    let mut tp = ThreadProfiler::new("r\u{e9}p\u{e8}re \u{2014} \u{438}\u{437}\u{43c}\u{435}\u{440}".to_string());
    tp.enter_at("\u{3b1}\u{3b2}\u{3b3}".to_string(), 1);
    tp.exit_at(2).unwrap();
    tp.new_frame_at(3).unwrap();
    let bytes = encode_thread(&tp);
    let loaded = decode_thread(&bytes).unwrap();
    assert_threads_equal(&tp, &loaded);
}

/// A single-thread encoding is a one-entry session.
#[test]
fn single_thread_round_trip() {
    let tp = sample_profiler("solo");
    let bytes = encode_thread(&tp);
    let loaded_global = decode_global(&bytes).unwrap();
    assert_eq!(loaded_global.len(), 1);
    let loaded = decode_thread(&bytes).unwrap();
    assert_threads_equal(&tp, &loaded);
}

#[test]
fn rejects_bad_header() {
    let mut bytes = encode_global(&GlobalProfiler::new());
    bytes[4] = 0x32; // an unknown format version
    assert!(matches!(decode_global(&bytes), Err(ProfilerError::Format(_))));
}

#[test]
fn rejects_empty_input() {
    assert!(matches!(decode_global(&Vec::new()), Err(ProfilerError::Format(_))));
}

#[test]
fn rejects_truncated_payload() {
    let mut g = GlobalProfiler::new();
    g.register(sample_profiler("render")).unwrap();
    let bytes = encode_global(&g);
    for cut in [bytes.len() - 1, bytes.len() / 2, 9] {
        let shorter = bytes[..cut].to_vec();
        assert!(matches!(decode_global(&shorter), Err(ProfilerError::Format(_))));
    }
}

#[test]
fn rejects_trailing_bytes() {
    let mut g = GlobalProfiler::new();
    g.register(sample_profiler("render")).unwrap();
    let mut bytes = encode_global(&g);
    bytes.push(0);
    assert!(matches!(decode_global(&bytes), Err(ProfilerError::Format(_))));
}

#[test]
fn rejects_invalid_utf8_name() {
    // a session with one thread whose one-byte name is not valid UTF-8
    let mut bytes: Vec<u8> = Vec::new();
    bytes.extend_from_slice(&[0x50, 0x52, 0x4f, 0x46, 0x31, 0x00, 0x00, 0x00]);
    bytes.extend_from_slice(&1u64.to_le_bytes()); // one thread
    bytes.extend_from_slice(&1u64.to_le_bytes()); // name of one byte
    bytes.push(0xff); // not UTF-8
    bytes.extend_from_slice(&0u64.to_le_bytes()); // no frames
    assert!(matches!(decode_global(&bytes), Err(ProfilerError::Format(_))));
}

#[test]
fn rejects_duplicate_thread_names() {
    // two threads of the same name cannot both be registered, so build the
    // bytes of such a session by hand: header, count 2, then the same
    // frameless thread twice
    let mut bytes: Vec<u8> = Vec::new();
    bytes.extend_from_slice(&[0x50, 0x52, 0x4f, 0x46, 0x31, 0x00, 0x00, 0x00]);
    bytes.extend_from_slice(&2u64.to_le_bytes());
    for _ in 0..2 {
        bytes.extend_from_slice(&4u64.to_le_bytes());
        bytes.extend_from_slice(b"main");
        bytes.extend_from_slice(&0u64.to_le_bytes());
    }
    assert!(matches!(decode_global(&bytes), Err(ProfilerError::Format(_))));
}

/// A sample name decodes to exactly the characters that were encoded: a
/// decoder that handed the raw length-prefixed bytes back unchanged, or
/// re-encoded them wrongly, would fail this.
#[test]
fn name_bytes_decode_to_characters() {
    let mut tp = ThreadProfiler::new("t".to_string());
    tp.enter_at("caf\u{e9}".to_string(), 0);
    tp.exit_at(1).unwrap();
    tp.new_frame_at(1).unwrap();
    let bytes = encode_thread(&tp);
    let loaded = decode_thread(&bytes).unwrap();
    let name = &loaded.frames()[0].scope_results[0].name;
    assert_eq!(name, "caf\u{e9}");
    assert_eq!(name.chars().count(), 4);
}

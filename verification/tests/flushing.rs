use pty_session::recorder::FLUSH_BYTES;
use pty_session::recorder::RecordingState;

#[test]
fn newline_flushes_immediately() {
    let mut rec = RecordingState::new(String::from("r"), 0);
    let (_, flush) = rec.record_input("echo hi\n", 1);
    assert!(flush);
    assert_eq!(rec.unflushed_bytes, 0);
    assert_eq!(rec.last_flush_ms, 1);
}

#[test]
fn carriage_return_flushes_immediately() {
    let mut rec = RecordingState::new(String::from("r"), 0);
    let (_, flush) = rec.record_input("echo hi\r", 1);
    assert!(flush);
}

#[test]
fn small_writes_buffer_until_threshold() {
    let mut rec = RecordingState::new(String::from("r"), 0);
    let data: String = std::iter::repeat('a').take(1024).collect();
    let mut flushed_at: Option<usize> = None;
    let mut expected_unflushed: usize = 0;
    // 17 KiB of newline-free data in 1 KiB events, all within the time
    // window: the flush fires exactly when 16 KiB is crossed.
    for call in 0..17 {
        let (line, flush) = rec.record_input(&data, 1);
        expected_unflushed += line.len() + 1;
        if expected_unflushed >= FLUSH_BYTES {
            assert!(flush);
            if flushed_at.is_none() {
                flushed_at = Some(call);
            }
            expected_unflushed = 0;
            assert_eq!(rec.unflushed_bytes, 0);
        } else {
            assert!(!flush);
            assert_eq!(rec.unflushed_bytes, expected_unflushed);
        }
    }
    assert!(flushed_at.is_some());
}

#[test]
fn elapsed_time_forces_a_flush() {
    let mut rec = RecordingState::new(String::from("r"), 0);
    let (_, early) = rec.record_input("a", 100);
    assert!(!early);
    let (_, late) = rec.record_input("b", 1500);
    assert!(late);
    assert_eq!(rec.last_flush_ms, 1500);
}

#[test]
fn timestamps_are_relative_to_recording_start() {
    let mut rec = RecordingState::new(String::from("r"), 2000);
    let (line, _) = rec.record_input("x", 2345);
    assert!(line.starts_with("{\"type\":\"input\",\"t\":345,"));
}

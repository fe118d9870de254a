use pty_session::jsonl::RecordingEventV1;
use pty_session::jsonl::RecordingLineV1;
use pty_session::jsonl::RecordingMetaV1;
use pty_session::jsonl::encode_input_line;
use pty_session::jsonl::encode_line;
use pty_session::jsonl::encode_meta_line;
use pty_session::jsonl::load_recording;
use pty_session::jsonl::parse_input_line;
use pty_session::jsonl::parse_line;
use pty_session::jsonl::parse_meta_line;
use pty_session::errors::PtyError;

fn meta_sample(cwd: Option<&str>) -> RecordingMetaV1 {
    RecordingMetaV1 {
        schema_version: 1,
        created_at: 1700000000123,
        project_id: String::from("proj-1"),
        session_persist_id: String::from("sess-9"),
        cwd: cwd.map(String::from),
    }
}

#[test]
fn input_line_exact_form() {
    assert_eq!(
        encode_input_line(5, "a\"b\n"),
        "{\"type\":\"input\",\"t\":5,\"data\":\"a\\\"b\\n\"}"
    );
}

#[test]
fn input_line_escapes_controls() {
    assert_eq!(
        encode_input_line(0, "\u{1}\t\\"),
        "{\"type\":\"input\",\"t\":0,\"data\":\"\\u0001\\t\\\\\"}"
    );
}

#[test]
fn meta_line_exact_form() {
    assert_eq!(
        encode_meta_line(&meta_sample(Some("/home/u"))),
        "{\"type\":\"meta\",\"schemaVersion\":1,\"createdAt\":1700000000123,\"projectId\":\"proj-1\",\"sessionPersistId\":\"sess-9\",\"cwd\":\"/home/u\"}"
    );
}

#[test]
fn meta_line_without_cwd_writes_null() {
    let line = encode_meta_line(&meta_sample(None));
    assert!(line.ends_with("\"cwd\":null}"));
}

#[test]
fn input_line_round_trips() {
    for (t, data) in [(0u64, ""), (12, "ls -la\r"), (9999, "q\"uo\\te\u{1b}"), (7, "héllo")] {
        let line = encode_input_line(t, data);
        let back = parse_input_line(&line).expect("canonical line must parse");
        assert_eq!(back.t, t);
        assert_eq!(back.data, data);
    }
}

#[test]
fn meta_line_round_trips() {
    for cwd in [None, Some("/tmp/x"), Some("wíth \"quotes\"")] {
        let m = meta_sample(cwd);
        let line = encode_meta_line(&m);
        let back = parse_meta_line(&line).expect("canonical line must parse");
        assert_eq!(back.schema_version, m.schema_version);
        assert_eq!(back.created_at, m.created_at);
        assert_eq!(back.project_id, m.project_id);
        assert_eq!(back.session_persist_id, m.session_persist_id);
        assert_eq!(back.cwd, m.cwd.clone());
    }
}

#[test]
fn parse_line_distinguishes_kinds() {
    let il = encode_line(&RecordingLineV1::Input(RecordingEventV1 {
        t: 3,
        data: String::from("x"),
    }));
    assert!(matches!(parse_line(&il), Some(RecordingLineV1::Input(_))));
    let ml = encode_line(&RecordingLineV1::Meta(meta_sample(None)));
    assert!(matches!(parse_line(&ml), Some(RecordingLineV1::Meta(_))));
    assert!(parse_line("not json").is_none());
}

#[test]
fn load_tolerates_blank_lines_and_keeps_first_meta() {
    let mut m2 = meta_sample(None);
    m2.project_id = String::from("other");
    let lines = vec![
        String::new(),
        encode_meta_line(&meta_sample(Some("/w"))),
        String::from("   "),
        encode_input_line(1, "a"),
        encode_meta_line(&m2),
        encode_input_line(2, "b"),
    ];
    let res = load_recording("rec", &lines).expect("load must succeed");
    assert_eq!(res.recording_id, "rec");
    let meta = res.meta.expect("meta expected");
    assert_eq!(meta.project_id, "proj-1");
    assert_eq!(meta.cwd.as_deref(), Some("/w"));
    assert_eq!(res.events.len(), 2);
    assert_eq!(res.events[0].t, 1);
    assert_eq!(res.events[0].data, "a");
    assert_eq!(res.events[1].t, 2);
    assert_eq!(res.events[1].data, "b");
}

#[test]
fn load_sanitizes_the_requested_id() {
    let res = load_recording("../../etc", &Vec::new()).expect("load must succeed");
    assert_eq!(res.recording_id, "______etc");
    assert!(res.meta.is_none());
    assert!(res.events.is_empty());
}

#[test]
fn load_of_only_blank_lines_is_empty() {
    let lines = vec![String::new(), String::from("  \t ")];
    let res = load_recording("rec", &lines).expect("blank lines are tolerated");
    assert!(res.meta.is_none());
    assert!(res.events.is_empty());
}

#[test]
fn load_rejects_reordered_json_spellings() {
    // The reader accepts the canonical form the recorder writes; a
    // reordered spelling of the same record is refused, not misread.
    let lines = vec![String::from("{\"t\":1,\"type\":\"input\",\"data\":\"x\"}")];
    assert!(load_recording("rec", &lines).is_err());
}

#[test]
fn load_rejects_garbage_lines() {
    let lines = vec![String::from("{\"type\":\"bogus\"}")];
    match load_recording("rec", &lines) {
        Err(e) => assert_eq!(e.message(), "serialize failed"),
        Ok(_) => panic!("garbage must not load"),
    }
}

#[test]
fn error_messages_are_stable() {
    assert_eq!(PtyError::UnknownSession.message(), "unknown session");
    assert_eq!(PtyError::AlreadyRecording.message(), "already recording");
    assert_eq!(PtyError::SpawnFailure.message(), "spawn failed");
    assert_eq!(PtyError::IOFailure.message(), "io failed");
    assert_eq!(PtyError::StatePoisoned.message(), "state poisoned");
    assert_eq!(PtyError::SerializationFailure.message(), "serialize failed");
}

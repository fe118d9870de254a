use pty_session::manager::SessionManager;

fn mgr() -> SessionManager<u32> {
    SessionManager::new()
}

#[test]
fn create_allocates_fresh_ids_and_names() {
    let mut m = mgr();
    let a = m.register_session(None, true, String::from("/bin/sh -l"), None, 1);
    let b = m.register_session(None, true, String::from("/bin/sh -l"), None, 2);
    let c = m.register_session(None, true, String::from("/bin/sh -l"), None, 3);
    assert_ne!(a.id, b.id);
    assert_ne!(b.id, c.id);
    assert_eq!(a.name, "shell");
    assert_eq!(b.name, "shell-2");
    assert_eq!(c.name, "shell-3");
    assert_eq!(a.command, "/bin/sh -l");
}

#[test]
fn default_names_probe_past_a_taken_base() {
    let mut m = mgr();
    let named = m.register_session(Some(String::from("shell")), true, String::from("sh"), None, 1);
    assert_eq!(named.name, "shell");
    let a = m.register_session(None, true, String::from("sh"), None, 2);
    let b = m.register_session(None, true, String::from("sh"), None, 3);
    assert_eq!(a.name, "shell-2");
    assert_eq!(b.name, "shell-3");
}

#[test]
fn ids_are_never_reused_after_close() {
    let mut m = mgr();
    let a = m.register_session(None, true, String::from("sh"), None, 1);
    assert!(m.close_session(&a.id).is_some());
    let b = m.register_session(None, true, String::from("sh"), None, 2);
    assert_ne!(a.id, b.id);
    // The freed name, however, may be reused.
    assert_eq!(b.name, "shell");
}

#[test]
fn explicit_names_are_trimmed_and_defaulted() {
    let mut m = mgr();
    let a = m.register_session(Some(String::from("  work  ")), true, String::from("sh"), None, 1);
    assert_eq!(a.name, "work");
    let b = m.register_session(Some(String::from("   ")), true, String::from("sh"), None, 2);
    assert_eq!(b.name, "session");
    let c = m.register_session(None, false, String::from("sh -lc x"), None, 3);
    assert_eq!(c.name, "agent");
}

#[test]
fn list_reports_live_sessions_in_order() {
    let mut m = mgr();
    let a = m.register_session(None, true, String::from("one"), None, 1);
    let b = m.register_session(None, true, String::from("two"), None, 2);
    let listed = m.list_sessions();
    assert_eq!(listed.len(), 2);
    assert_eq!(listed[0].id, a.id);
    assert_eq!(listed[0].command, "one");
    assert_eq!(listed[1].id, b.id);
    assert!(listed[0].cwd.is_none());
}

#[test]
fn close_is_idempotent() {
    let mut m = mgr();
    let a = m.register_session(None, true, String::from("sh"), None, 7);
    let first = m.close_session(&a.id);
    assert!(first.is_some());
    assert_eq!(first.unwrap().handle, 7);
    // Closing again, and closing an id that never existed, both succeed.
    assert!(m.close_session(&a.id).is_none());
    assert!(m.close_session("no-such-id").is_none());
    assert!(m.list_sessions().is_empty());
}

#[test]
fn handle_access_requires_live_session() {
    let mut m = mgr();
    let a = m.register_session(None, true, String::from("sh"), None, 41);
    assert!(m.has_session(&a.id));
    assert!(!m.has_session("999"));
    let h = m.handle_mut(&a.id);
    *h += 1;
    assert_eq!(m.close_session(&a.id).unwrap().handle, 42);
}

#[test]
fn end_to_end_shell_session_lifecycle() {
    // A create request with no command on a system whose default shell
    // resolution falls back to /bin/sh.
    let shell = pty_session::resolve::resolve_shell(None);
    let resolved = pty_session::resolve::resolve_command(&shell, None, None);
    assert!(resolved.is_shell);
    assert_eq!(resolved.shown_command, "/bin/sh -l");
    let mut m = mgr();
    let info = m.register_session(
        None,
        resolved.is_shell,
        resolved.shown_command.clone(),
        Some(String::from("/tmp")),
        0,
    );
    assert!(!info.id.is_empty());
    assert_eq!(info.name, "shell");
    assert_eq!(info.command, "/bin/sh -l");
    assert_eq!(info.cwd.as_deref(), Some("/tmp"));
    let listed = m.list_sessions();
    assert!(listed.iter().any(|s| s.id == info.id));
    assert!(m.close_session(&info.id).is_some());
    assert!(!m.list_sessions().iter().any(|s| s.id == info.id));
}

#[test]
fn recording_lifecycle_on_a_session() {
    let mut m = mgr();
    let a = m.register_session(None, true, String::from("sh"), None, 1);
    let started = m
        .start_session_recording(&a.id, "my rec/1", String::from("p"), String::from("s"), None, 1000, 50)
        .expect("start must succeed");
    assert_eq!(started.recording_id, "my_rec_1");
    assert_eq!(started.file_name, "my_rec_1.jsonl");
    assert!(started.meta_line.starts_with("{\"type\":\"meta\",\"schemaVersion\":1,\"createdAt\":1000,"));
    // A second start on the same session is refused.
    let again = m.start_session_recording(&a.id, "x", String::from("p"), String::from("s"), None, 1000, 50);
    match again {
        Err(e) => assert_eq!(e.message(), "already recording"),
        Ok(_) => panic!("double start must fail"),
    }
    // Recorded input is stamped relative to the recording start.
    let rec = m.record_user_input(&a.id, "ls\n", 80).expect("session exists");
    let (line, flush) = rec.expect("recording active");
    assert_eq!(line, "{\"type\":\"input\",\"t\":30,\"data\":\"ls\\n\"}");
    assert!(flush);
    let stopped = m.stop_session_recording(&a.id).expect("session exists");
    assert_eq!(stopped.as_deref(), Some("my_rec_1"));
    // Stopping again reports nothing, without error.
    assert_eq!(m.stop_session_recording(&a.id).expect("session exists"), None);
}

#[test]
fn recording_operations_need_a_live_session() {
    let mut m = mgr();
    match m.start_session_recording("0", "r", String::from("p"), String::from("s"), None, 0, 0) {
        Err(e) => assert_eq!(e.message(), "unknown session"),
        Ok(_) => panic!("unknown session must fail"),
    }
    match m.record_user_input("0", "x", 0) {
        Err(e) => assert_eq!(e.message(), "unknown session"),
        Ok(_) => panic!("unknown session must fail"),
    }
    match m.stop_session_recording("0") {
        Err(e) => assert_eq!(e.message(), "unknown session"),
        Ok(_) => panic!("unknown session must fail"),
    }
}

#[test]
fn detached_recording_stops_recording_quietly() {
    let mut m = mgr();
    let a = m.register_session(None, true, String::from("sh"), None, 1);
    m.start_session_recording(&a.id, "r", String::from("p"), String::from("s"), None, 0, 0)
        .expect("start must succeed");
    m.detach_recording(&a.id);
    assert_eq!(m.record_user_input(&a.id, "x", 5).expect("session exists"), None);
    assert_eq!(m.stop_session_recording(&a.id).expect("session exists"), None);
}

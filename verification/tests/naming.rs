use pty_session::names::unique_name;
use pty_session::sanitize::recording_file_name;
use pty_session::sanitize::sanitize_recording_id;

#[test]
fn base_name_free_is_used_verbatim() {
    let existing = vec![String::from("alpha"), String::from("beta")];
    assert_eq!(unique_name(&existing, "gamma"), "gamma");
}

#[test]
fn collision_probes_numeric_suffixes_in_order() {
    let existing = vec![String::from("base")];
    assert_eq!(unique_name(&existing, "base"), "base-2");
    let existing = vec![String::from("base"), String::from("base-2")];
    assert_eq!(unique_name(&existing, "base"), "base-3");
}

#[test]
fn first_fit_reuses_gaps() {
    let existing = vec![String::from("base"), String::from("base-3")];
    assert_eq!(unique_name(&existing, "base"), "base-2");
}

#[test]
fn sanitize_removes_path_separators() {
    let s = sanitize_recording_id("../../etc");
    assert!(!s.contains('/'));
    assert!(!s.contains('\\'));
    assert_eq!(s, "______etc");
}

#[test]
fn sanitize_empty_and_whitespace_fall_back() {
    assert_eq!(sanitize_recording_id(""), "recording");
    assert_eq!(sanitize_recording_id("   \t "), "recording");
}

#[test]
fn sanitize_is_idempotent() {
    for raw in ["../../etc", "a b c", "x", "  padded  ", "ünïcode"] {
        let once = sanitize_recording_id(raw);
        let twice = sanitize_recording_id(&once);
        assert_eq!(once, twice);
    }
}

#[test]
fn sanitize_truncates_to_cap() {
    let long: String = std::iter::repeat('a').take(500).collect();
    assert_eq!(sanitize_recording_id(&long).len(), 120);
}

#[test]
fn sanitize_keeps_safe_alphabet() {
    assert_eq!(sanitize_recording_id("rec_1-A.z"), "rec_1-A_z");
}

#[test]
fn recording_file_name_appends_extension() {
    assert_eq!(recording_file_name("rec-7"), "rec-7.jsonl");
}

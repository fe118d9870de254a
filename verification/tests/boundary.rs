use pty_session::digits::dec_string;
use pty_session::vscode::code_location;
use pty_session::vscode::resolve_target;
use pty_session::persist::expand_home;
use pty_session::secure::SecretContext;
use pty_session::secure::is_encrypted_value;

#[test]
fn decimal_rendering_matches_std() {
    for n in [0u128, 1, 9, 10, 42, 1000, u64::MAX as u128, u128::MAX] {
        assert_eq!(dec_string(n), n.to_string());
    }
}

#[test]
fn encrypted_values_are_recognized_by_their_tag() {
    assert!(is_encrypted_value("enc:v1:abcdef"));
    assert!(is_encrypted_value("   enc:v1:x"));
    assert!(!is_encrypted_value("plain text"));
    assert!(!is_encrypted_value("enc:v2:x"));
    assert!(!is_encrypted_value("enc:v1"));
    assert!(!is_encrypted_value(""));
}

#[test]
fn secret_contexts_bind_distinct_labels() {
    assert_eq!(SecretContext::State.aad(), "agents-ui/state/v1");
    assert_eq!(SecretContext::Recording.aad(), "agents-ui/recording/v1");
}

#[test]
fn home_expansion() {
    let home = Some(String::from("/home/u"));
    assert_eq!(expand_home("~", home.clone()), "/home/u");
    assert_eq!(expand_home(" ~ ", home.clone()), "/home/u");
    assert_eq!(expand_home("~/projects", home.clone()), "/home/u/projects");
    assert_eq!(expand_home("~projects", home.clone()), "~projects");
    assert_eq!(expand_home("/abs/path", home), "/abs/path");
    assert_eq!(expand_home("~/x", None), "~/x");
    assert_eq!(expand_home("~", None), "~");
    // An absolute remainder after the tilde wins the join.
    assert_eq!(expand_home("~//etc", Some(String::from("/home/u"))), "/etc");
}

#[test]
fn editor_target_resolution() {
    let home = Some(String::from("/home/u"));
    assert_eq!(resolve_target("/abs/file.rs", None, home.clone()), Some(String::from("/abs/file.rs")));
    assert_eq!(resolve_target("~/f.rs", None, home.clone()), Some(String::from("/home/u/f.rs")));
    assert_eq!(
        resolve_target("rel.rs", Some(String::from("/work")), home.clone()),
        Some(String::from("/work/rel.rs"))
    );
    assert_eq!(resolve_target("rel.rs", None, home.clone()), None);
    assert_eq!(resolve_target("rel.rs", Some(String::from("also-rel")), home.clone()), None);
    assert_eq!(resolve_target("   ", Some(String::from("/work")), home), None);
    assert_eq!(code_location("/a/b.rs", None, None), "/a/b.rs");
    assert_eq!(code_location("/a/b.rs", Some(10), None), "/a/b.rs:10");
    assert_eq!(code_location("/a/b.rs", Some(10), Some(4)), "/a/b.rs:10:4");
    assert_eq!(code_location("/a/b.rs", None, Some(4)), "/a/b.rs");
}

use pty_session::integration::ShellFlavor;
use pty_session::integration::bash_integration_env;
use pty_session::integration::nu_config_content;
use pty_session::integration::nu_config_needs_write;
use pty_session::integration::nu_xdg_dirs;
use pty_session::integration::sh_single_quote;
use pty_session::integration::shell_flavor;
use pty_session::integration::source_if_exists;
use pty_session::integration::zdotdir_dir_name;
use pty_session::integration::zsh_startup_files;
use pty_session::resolve::augment_path_entries;
use pty_session::resolve::choose_cwd;
use pty_session::resolve::normalize_cwd;
use pty_session::resolve::resolve_command;
use pty_session::resolve::resolve_shell;
use pty_session::resolve::terminal_size;

#[test]
fn shell_resolution_falls_back_to_sh() {
    assert_eq!(resolve_shell(None), "/bin/sh");
    assert_eq!(resolve_shell(Some(String::from("/usr/bin/zsh"))), "/usr/bin/zsh");
}

#[test]
fn no_command_means_interactive_login_shell() {
    let r = resolve_command("/bin/bash", None, None);
    assert!(r.is_shell);
    assert!(!r.use_alt_shell);
    assert_eq!(r.program, "/bin/bash");
    assert_eq!(r.args, vec![String::from("-l")]);
    assert_eq!(r.shown_command, "/bin/bash -l");
}

#[test]
fn blank_command_counts_as_no_command() {
    let r = resolve_command("/bin/sh", Some(String::from("   ")), None);
    assert!(r.is_shell);
}

#[test]
fn command_runs_non_interactively() {
    let r = resolve_command("/bin/bash", Some(String::from(" ls -la ")), None);
    assert!(!r.is_shell);
    assert_eq!(r.args, vec![String::from("-lc"), String::from("ls -la")]);
    assert_eq!(r.shown_command, "/bin/bash -lc ls -la");
}

#[test]
fn bundled_alternate_shell_is_preferred() {
    let r = resolve_command("/bin/bash", None, Some(String::from("/opt/app/nu")));
    assert!(r.is_shell);
    assert!(r.use_alt_shell);
    assert_eq!(r.program, "/opt/app/nu");
    assert!(r.args.is_empty());
    assert_eq!(r.shown_command, "nu");
}

#[test]
fn cwd_falls_back_to_home_then_nothing() {
    let req = Some(String::from("/proj"));
    let home = Some(String::from("/home/u"));
    assert_eq!(choose_cwd(req.clone(), true, home.clone(), true), req);
    assert_eq!(choose_cwd(req.clone(), false, home.clone(), true), home);
    assert_eq!(choose_cwd(req, false, None, false), None);
    assert_eq!(choose_cwd(None, false, home.clone(), true), home);
}

#[test]
fn path_augmentation_prepends_missing_existing_directories() {
    let mut entries = vec![String::from("/usr/bin"), String::from("/usr/local/bin")];
    // Already listed: unchanged.
    augment_path_entries(&mut entries, String::from("/usr/local/bin"), true);
    assert_eq!(entries, vec![String::from("/usr/bin"), String::from("/usr/local/bin")]);
    // Existing and missing from the list: prepended.
    augment_path_entries(&mut entries, String::from("/opt/tools/bin"), true);
    assert_eq!(entries[0], "/opt/tools/bin");
    assert_eq!(entries.len(), 3);
    // Not a directory: unchanged.
    augment_path_entries(&mut entries, String::from("/nowhere"), false);
    assert_eq!(entries.len(), 3);
}

#[test]
fn terminal_size_defaults_to_eighty_by_twenty_four() {
    assert_eq!(terminal_size(None, None), (80, 24));
    assert_eq!(terminal_size(Some(132), None), (132, 24));
    assert_eq!(terminal_size(None, Some(50)), (80, 50));
    assert_eq!(terminal_size(Some(100), Some(40)), (100, 40));
}

#[test]
fn requested_cwd_is_trimmed_or_dropped() {
    assert_eq!(normalize_cwd(Some(String::from("  /x "))), Some(String::from("/x")));
    assert_eq!(normalize_cwd(Some(String::from("   "))), None);
    assert_eq!(normalize_cwd(None), None);
}

#[test]
fn single_quoting_escapes_quotes() {
    assert_eq!(sh_single_quote("plain"), "'plain'");
    assert_eq!(sh_single_quote("it's"), "'it'\\''s'");
    assert_eq!(sh_single_quote(""), "''");
}

#[test]
fn source_line_guards_on_existence() {
    assert_eq!(
        source_if_exists("/home/u/.zshrc"),
        "if [ -f '/home/u/.zshrc' ]; then source '/home/u/.zshrc'; fi\n"
    );
}

#[test]
fn zsh_startup_files_wrap_and_restore() {
    let files = zsh_startup_files("/tmp/z", "/home/u");
    assert_eq!(files.len(), 4);
    assert_eq!(files[0].path, "/tmp/z/.zshenv");
    assert!(files[0].content.starts_with("typeset -g __agents_ui_temp_zdotdir=\"$ZDOTDIR\"\n"));
    assert!(files[0].content.contains("export ZDOTDIR='/home/u'\n"));
    assert!(files[0].content.contains("if [ -f '/home/u/.zshenv' ]; then source '/home/u/.zshenv'; fi\n"));
    // Files loaded before the interactive one restore the private directory.
    assert!(files[0].content.contains("export ZDOTDIR=\"$__agents_ui_temp_zdotdir\"\n"));
    assert!(files[1].content.contains("export ZDOTDIR=\"$__agents_ui_temp_zdotdir\"\n"));
    assert!(!files[2].content.contains("export ZDOTDIR=\"$__agents_ui_temp_zdotdir\"\n"));
    assert!(!files[3].content.contains("export ZDOTDIR=\"$__agents_ui_temp_zdotdir\"\n"));
    // The interactive file installs the marker hooks.
    assert_eq!(files[3].path, "/tmp/z/.zshrc");
    assert!(files[3].content.contains("precmd_functions+=__agents_ui_emit_cwd"));
    assert!(files[3].content.contains("preexec_functions+=__agents_ui_emit_command"));
    assert!(files[3].content.contains("\\033]1337;CurrentDir=%s\\007"));
}

#[test]
fn zdotdir_name_is_keyed_by_session() {
    assert_eq!(zdotdir_dir_name("12"), "agents-ui-zdotdir-12");
}

#[test]
fn bash_wrapper_preserves_the_original_prompt_command() {
    let with = bash_integration_env(Some(String::from("history -a")));
    assert_eq!(with.len(), 2);
    assert_eq!(with[0].name, "AGENTS_UI_ORIG_PROMPT_COMMAND");
    assert_eq!(with[0].value, "history -a");
    assert_eq!(with[1].name, "PROMPT_COMMAND");
    assert!(with[1].value.contains("AGENTS_UI_ORIG_PROMPT_COMMAND"));
    let without = bash_integration_env(None);
    assert_eq!(without.len(), 1);
    assert_eq!(without[0].name, "PROMPT_COMMAND");
    assert!(without[0].value.starts_with("printf '\\033]1337;CurrentDir=%s\\007'"));
}

#[test]
fn nu_config_is_rewritten_only_on_change() {
    let content = nu_config_content();
    assert!(content.contains("show_banner false"));
    assert!(content.contains("]1337;CurrentDir="));
    assert!(!nu_config_needs_write(Some(content.clone())));
    assert!(nu_config_needs_write(Some(String::from("stale"))));
    assert!(nu_config_needs_write(None));
}

#[test]
fn nu_xdg_dirs_are_isolated_under_app_data() {
    let (c, d, k) = nu_xdg_dirs("/data/app");
    assert_eq!(c, "/data/app/shell/xdg-config");
    assert_eq!(d, "/data/app/shell/xdg-data");
    assert_eq!(k, "/data/app/shell/xdg-cache");
}

#[test]
fn flavor_sniffing_uses_the_lowered_base_name() {
    assert!(matches!(shell_flavor("/bin/bash"), ShellFlavor::Bash));
    assert!(matches!(shell_flavor("/usr/local/bin/BASH"), ShellFlavor::Bash));
    assert!(matches!(shell_flavor("/usr/bin/zsh"), ShellFlavor::Zsh));
    assert!(matches!(shell_flavor("zsh"), ShellFlavor::Zsh));
    assert!(matches!(shell_flavor("/usr/bin/fish"), ShellFlavor::Other));
    // The base name decides, not the directory.
    assert!(matches!(shell_flavor("/opt/bash/fish"), ShellFlavor::Other));
}

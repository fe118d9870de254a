//! Shell and command resolution for a session request.
//!
//! A request either opens an interactive shell (no command text) or
//! runs one command non-interactively. Resolution never fails: missing
//! environment degrades to defaults, and the caller reports the
//! resulting invocation as a display string.
use vstd::prelude::*;
use crate::names::contains_name;
use crate::names::name_is_taken;
use crate::text::trim_str;
use crate::text::trimmed;

verus! {

/// The resolved invocation of one session: what to launch, with which
/// arguments, and what to show for it.
pub struct ResolvedCommand {
    /// The program to launch.
    pub program: String,
    /// Its argument vector.
    pub args: Vec<String>,
    /// The display string of the invocation.
    pub shown_command: String,
    /// True for an interactive shell session.
    pub is_shell: bool,
    /// True when the bundled alternate shell is preferred.
    pub use_alt_shell: bool,
}

/// The user's shell, or the known default when the environment names
/// none.
pub open spec fn spec_default_shell(env_shell: Option<String>) -> Seq<char> {
    match env_shell {
        Option::Some(s) => s@,
        Option::None => "/bin/sh"@,
    }
}

/// Resolves the shell from the environment's value, if any.
pub fn resolve_shell(env_shell: Option<String>) -> (r: String)
    ensures
        r@ == spec_default_shell(env_shell),
{
    match env_shell {
        Option::Some(s) => s,
        Option::None => String::from_str("/bin/sh"),
    }
}

/// The command text a request carries: trimmed, empty when absent.
pub open spec fn spec_command_text(command: Option<String>) -> Seq<char> {
    match command {
        Option::Some(c) => trimmed(c@),
        Option::None => Seq::<char>::empty(),
    }
}

/// Resolves what a session launches. With no command text the session
/// is an interactive shell: the bundled alternate shell when present
/// (shown as `nu`), else the resolved shell in login mode (shown as
/// `<shell> -l`). With command text the shell runs it
/// non-interactively, shown as `<shell> -lc <command>`.
pub fn resolve_command(shell: &str, command: Option<String>, bundled_nu: Option<String>) -> (r:
    ResolvedCommand)
    ensures
        r.is_shell == (spec_command_text(command).len() == 0),
        r.is_shell && bundled_nu is Some ==> r.program@ == bundled_nu.unwrap()@ && r.args@.len()
            == 0 && r.shown_command@ == "nu"@ && r.use_alt_shell,
        r.is_shell && bundled_nu is None ==> r.program@ == shell@ && r.args@.len() == 1
            && r.args@[0]@ == "-l"@ && r.shown_command@ == shell@ + " -l"@ && !r.use_alt_shell,
        !r.is_shell ==> r.program@ == shell@ && r.args@.len() == 2 && r.args@[0]@ == "-lc"@
            && r.args@[1]@ == spec_command_text(command) && r.shown_command@ == shell@ + " -lc "@
            + spec_command_text(command) && !r.use_alt_shell,
{
    let command_text: String = match &command {
        Option::Some(c) => String::from_str(trim_str(c.as_str())),
        Option::None => String::new(),
    };
    let is_shell = command_text.as_str().is_empty();
    if is_shell {
        match bundled_nu {
            Option::Some(nu) => ResolvedCommand {
                program: nu,
                args: Vec::new(),
                shown_command: String::from_str("nu"),
                is_shell: true,
                use_alt_shell: true,
            },
            Option::None => {
                let mut args: Vec<String> = Vec::new();
                args.push(String::from_str("-l"));
                let mut shown = String::from_str(shell);
                shown.append(" -l");
                ResolvedCommand {
                    program: String::from_str(shell),
                    args,
                    shown_command: shown,
                    is_shell: true,
                    use_alt_shell: false,
                }
            },
        }
    } else {
        let mut args: Vec<String> = Vec::new();
        args.push(String::from_str("-lc"));
        args.push(command_text.clone());
        let mut shown = String::from_str(shell);
        shown.append(" -lc ");
        shown.append(command_text.as_str());
        ResolvedCommand {
            program: String::from_str(shell),
            args,
            shown_command: shown,
            is_shell: false,
            use_alt_shell: false,
        }
    }
}

/// A requested working directory, trimmed; dropped when it trims to
/// nothing.
pub open spec fn spec_requested_cwd(cwd: Option<String>) -> Option<Seq<char>> {
    match cwd {
        Option::Some(c) => if trimmed(c@).len() == 0 {
            Option::None
        } else {
            Option::Some(trimmed(c@))
        },
        Option::None => Option::None,
    }
}

/// Normalizes a requested working directory to its trimmed text, or
/// nothing when none was meaningfully given. The caller then checks
/// that the directory exists before using it.
pub fn normalize_cwd(cwd: Option<String>) -> (r: Option<String>)
    ensures
        match r {
            Option::Some(s) => spec_requested_cwd(cwd) == Option::Some(s@),
            Option::None => spec_requested_cwd(cwd) is None,
        },
{
    match &cwd {
        Option::Some(c) => {
            let t = trim_str(c.as_str());
            if t.is_empty() {
                Option::None
            } else {
                Option::Some(String::from_str(t))
            }
        },
        Option::None => Option::None,
    }
}

/// Picks the session's working directory: the requested one when it is
/// an existing directory, else the home directory when that exists,
/// else none (the session inherits the manager's).
pub fn choose_cwd(
    requested: Option<String>,
    requested_is_dir: bool,
    home: Option<String>,
    home_is_dir: bool,
) -> (r: Option<String>)
    ensures
        requested is Some && requested_is_dir ==> r == requested,
        (requested is None || !requested_is_dir) && home is Some && home_is_dir ==> r == home,
        (requested is None || !requested_is_dir) && (home is None || !home_is_dir) ==> r is None,
{
    match requested {
        Option::Some(c) => {
            if requested_is_dir {
                return Option::Some(c);
            }
            if home_is_dir {
                home
            } else {
                Option::None
            }
        },
        Option::None => {
            if home_is_dir {
                home
            } else {
                Option::None
            }
        },
    }
}

/// The terminal geometry a session starts with: the requested columns
/// and rows, defaulting to 80 by 24.
pub fn terminal_size(cols: Option<u16>, rows: Option<u16>) -> (r: (u16, u16))
    ensures
        r.0 == (match cols {
            Option::Some(c) => c,
            Option::None => 80u16,
        }),
        r.1 == (match rows {
            Option::Some(v) => v,
            Option::None => 24u16,
        }),
{
    let c = match cols {
        Option::Some(c) => c,
        Option::None => 80,
    };
    let v = match rows {
        Option::Some(v) => v,
        Option::None => 24,
    };
    (c, v)
}

/// Prepends one local-binary directory to the search-path entries when
/// it exists on disk and is not already listed; the baseline environment
/// of a spawn ensures common tool directories this way on the platform
/// whose GUI processes inherit a minimal search path.
pub fn augment_path_entries(entries: &mut Vec<String>, candidate: String, candidate_is_dir: bool)
    ensures
        candidate_is_dir && !name_is_taken(old(entries)@, candidate@) ==> final (entries)@ == old(
            entries,
        )@.insert(0, candidate),
        !(candidate_is_dir && !name_is_taken(old(entries)@, candidate@)) ==> final (entries)@
            == old(entries)@,
{
    if candidate_is_dir && !contains_name(entries, &candidate) {
        entries.insert(0, candidate);
    }
}

} // verus!

//! Shell-integration content generation.
//!
//! To let the UI track directory changes and running commands, a
//! spawned shell is given startup files or environment overrides that
//! emit structured escape-sequence markers. Everything here is pure
//! content and string computation; the caller writes files and sets
//! environment variables, and any write failure simply skips the
//! integration without failing the spawn.
use vstd::prelude::*;

verus! {

/// How one character appears inside a POSIX single-quoted string: a
/// quote closes, escapes and reopens.
pub open spec fn sq_char(c: char) -> Seq<char> {
    if c == '\'' {
        "'\\''"@
    } else {
        seq![c]
    }
}

/// The body of a single-quoted string.
pub open spec fn sq_chars(s: Seq<char>) -> Seq<char>
    decreases s.len(),
{
    if s.len() == 0 {
        seq![]
    } else {
        sq_char(s[0]) + sq_chars(s.drop_first())
    }
}

/// A whole single-quoted word.
pub open spec fn spec_sh_single_quote(s: Seq<char>) -> Seq<char> {
    "'"@ + sq_chars(s) + "'"@
}

proof fn lemma_sq_concat(a: Seq<char>, b: Seq<char>)
    ensures
        sq_chars(a + b) == sq_chars(a) + sq_chars(b),
    decreases a.len(),
{
    if a.len() == 0 {
        assert(a + b =~= b);
        assert(sq_chars(a) + sq_chars(b) =~= sq_chars(b));
    } else {
        assert((a + b).len() > 0 && (a + b)[0] == a[0]);
        assert((a + b).drop_first() =~= a.drop_first() + b);
        lemma_sq_concat(a.drop_first(), b);
        assert(sq_char(a[0]) + (sq_chars(a.drop_first()) + sq_chars(b)) =~= (sq_char(a[0])
            + sq_chars(a.drop_first())) + sq_chars(b));
    }
}

proof fn lemma_sq_snoc(s: Seq<char>, i: int)
    requires
        0 <= i < s.len(),
    ensures
        sq_chars(s.take(i + 1)) == sq_chars(s.take(i)) + sq_char(s[i]),
{
    assert(s.take(i + 1) =~= s.take(i) + seq![s[i]]);
    lemma_sq_concat(s.take(i), seq![s[i]]);
    let single = seq![s[i]];
    assert(single.drop_first() =~= Seq::<char>::empty());
    assert(sq_chars(Seq::<char>::empty()) == Seq::<char>::empty());
    assert(sq_chars(single) == sq_char(s[i]) + sq_chars(single.drop_first()));
    assert(sq_char(s[i]) + Seq::<char>::empty() =~= sq_char(s[i]));
}

/// Quotes arbitrary text as one POSIX shell word.
pub fn sh_single_quote(s: &str) -> (r: String)
    ensures
        r@ == spec_sh_single_quote(s@),
{
    let n = s.unicode_len();
    let mut r = String::from_str("'");
    let mut i: usize = 0;
    while i < n
        invariant
            0 <= i <= n,
            n == s@.len(),
            r@ == "'"@ + sq_chars(s@.take(i as int)),
        decreases n - i,
    {
        let c = s.get_char(i);
        if c == '\'' {
            r.append("'\\''");
        } else {
            let piece = s.substring_char(i, i + 1);
            r.append(piece);
            proof {
                assert(piece@ =~= seq![s@[i as int]]);
            }
        }
        proof {
            lemma_sq_snoc(s@, i as int);
            assert(r@ =~= "'"@ + sq_chars(s@.take(i + 1)));
        }
        i = i + 1;
    }
    proof {
        assert(s@.take(n as int) =~= s@);
    }
    r.append("'");
    r
}

/// A startup line that sources a file only if it exists.
pub open spec fn spec_source_if_exists(path: Seq<char>) -> Seq<char> {
    "if [ -f "@ + spec_sh_single_quote(path) + " ]; then source "@ + spec_sh_single_quote(path)
        + "; fi\n"@
}

/// Emits the conditional `source` line for one startup file.
pub fn source_if_exists(path: &str) -> (r: String)
    ensures
        r@ == spec_source_if_exists(path@),
{
    let q = sh_single_quote(path);
    let mut r = String::from_str("if [ -f ");
    r.append(q.as_str());
    r.append(" ]; then source ");
    r.append(q.as_str());
    r.append("; fi\n");
    r
}

/// The wrapper that points `ZDOTDIR` back at the user's real startup
/// directory, sources one of the user's files if present, and (for the
/// files loaded before the interactive one) restores the synthesized
/// directory for shells spawned later.
pub open spec fn spec_wrap_source(
    orig_dir: Seq<char>,
    orig_file: Seq<char>,
    restore_to_temp: bool,
) -> Seq<char> {
    "typeset -g __agents_ui_temp_zdotdir=\"$ZDOTDIR\"\n"@ + "export ZDOTDIR="@
        + spec_sh_single_quote(orig_dir) + "\n"@ + spec_source_if_exists(orig_file) + (
    if restore_to_temp {
        "export ZDOTDIR=\"$__agents_ui_temp_zdotdir\"\n"@
    } else {
        Seq::<char>::empty()
    }) + "unset __agents_ui_temp_zdotdir\n"@
}

/// Builds one wrapper startup file's content.
pub fn wrap_source(orig_dir: &str, orig_file: &str, restore_to_temp: bool) -> (r: String)
    ensures
        r@ == spec_wrap_source(orig_dir@, orig_file@, restore_to_temp),
{
    let mut r = String::from_str("typeset -g __agents_ui_temp_zdotdir=\"$ZDOTDIR\"\n");
    r.append("export ZDOTDIR=");
    let q = sh_single_quote(orig_dir);
    r.append(q.as_str());
    r.append("\n");
    let src = source_if_exists(orig_file);
    r.append(src.as_str());
    if restore_to_temp {
        r.append("export ZDOTDIR=\"$__agents_ui_temp_zdotdir\"\n");
    }
    r.append("unset __agents_ui_temp_zdotdir\n");
    proof {
        assert(r@ =~= spec_wrap_source(orig_dir@, orig_file@, restore_to_temp));
    }
    r
}

/// The marker-emitting hooks appended to the synthesized interactive
/// startup file.
pub open spec fn spec_zshrc_hooks() -> Seq<char> {
    "\n__agents_ui_emit_cwd() {\n  printf '\\033]1337;CurrentDir=%s\\007' \"$PWD\"\n  printf '\\033]1337;Command=\\007'\n}\n\n__agents_ui_emit_command() { printf '\\033]1337;Command=%s\\007' \"$1\"; }\n\ntypeset -ga precmd_functions preexec_functions\nprecmd_functions+=__agents_ui_emit_cwd\npreexec_functions+=__agents_ui_emit_command\n__agents_ui_emit_cwd\n"@
}

/// One synthesized startup file: its path under the private directory
/// and its content.
pub struct StartupFile {
    pub path: String,
    pub content: String,
}

/// Joins a directory and a file name with the path separator.
pub open spec fn spec_path_join(dir: Seq<char>, name: Seq<char>) -> Seq<char> {
    dir + "/"@ + name
}

fn path_join(dir: &str, name: &str) -> (r: String)
    ensures
        r@ == spec_path_join(dir@, name@),
{
    let mut r = String::from_str(dir);
    r.append("/");
    r.append(name);
    r
}

/// The content of one synthesized zsh startup file. The three files
/// loaded before the interactive one restore the private directory
/// afterwards; the interactive one leaves `ZDOTDIR` at the user's own
/// directory and installs the marker hooks.
pub open spec fn spec_zsh_file_content(orig_dir: Seq<char>, name: Seq<char>) -> Seq<char> {
    if name == ".zshrc"@ {
        spec_wrap_source(orig_dir, spec_path_join(orig_dir, name), false) + spec_zshrc_hooks()
    } else if name == ".zlogin"@ {
        spec_wrap_source(orig_dir, spec_path_join(orig_dir, name), false)
    } else {
        spec_wrap_source(orig_dir, spec_path_join(orig_dir, name), true)
    }
}

/// The four zsh startup files to synthesize under the private
/// per-session directory. The caller creates the directory and writes
/// each file; a failure skips the integration.
pub fn zsh_startup_files(temp_dir: &str, orig_dir: &str) -> (r: Vec<StartupFile>)
    ensures
        r@.len() == 4,
        r@[0].path@ == spec_path_join(temp_dir@, ".zshenv"@),
        r@[0].content@ == spec_zsh_file_content(orig_dir@, ".zshenv"@),
        r@[1].path@ == spec_path_join(temp_dir@, ".zprofile"@),
        r@[1].content@ == spec_zsh_file_content(orig_dir@, ".zprofile"@),
        r@[2].path@ == spec_path_join(temp_dir@, ".zlogin"@),
        r@[2].content@ == spec_zsh_file_content(orig_dir@, ".zlogin"@),
        r@[3].path@ == spec_path_join(temp_dir@, ".zshrc"@),
        r@[3].content@ == spec_zsh_file_content(orig_dir@, ".zshrc"@),
{
    let mut r: Vec<StartupFile> = Vec::new();
    let zshenv = path_join(orig_dir, ".zshenv");
    r.push(
        StartupFile {
            path: path_join(temp_dir, ".zshenv"),
            content: wrap_source(orig_dir, zshenv.as_str(), true),
        },
    );
    let zprofile = path_join(orig_dir, ".zprofile");
    r.push(
        StartupFile {
            path: path_join(temp_dir, ".zprofile"),
            content: wrap_source(orig_dir, zprofile.as_str(), true),
        },
    );
    let zlogin = path_join(orig_dir, ".zlogin");
    r.push(
        StartupFile {
            path: path_join(temp_dir, ".zlogin"),
            content: wrap_source(orig_dir, zlogin.as_str(), false),
        },
    );
    let zshrc = path_join(orig_dir, ".zshrc");
    let mut zshrc_content = wrap_source(orig_dir, zshrc.as_str(), false);
    zshrc_content.append(
        "\n__agents_ui_emit_cwd() {\n  printf '\\033]1337;CurrentDir=%s\\007' \"$PWD\"\n  printf '\\033]1337;Command=\\007'\n}\n\n__agents_ui_emit_command() { printf '\\033]1337;Command=%s\\007' \"$1\"; }\n\ntypeset -ga precmd_functions preexec_functions\nprecmd_functions+=__agents_ui_emit_cwd\npreexec_functions+=__agents_ui_emit_command\n__agents_ui_emit_cwd\n",
    );
    r.push(StartupFile { path: path_join(temp_dir, ".zshrc"), content: zshrc_content });
    proof {
        reveal_strlit(".zshenv");
        reveal_strlit(".zprofile");
        reveal_strlit(".zlogin");
        reveal_strlit(".zshrc");
        assert(".zshenv"@.len() == 7 && ".zprofile"@.len() == 9 && ".zlogin"@.len() == 7
            && ".zshrc"@.len() == 6);
        assert(".zshenv"@[2] == 's' && ".zlogin"@[2] == 'l');
        assert(".zshenv"@ != ".zshrc"@ && ".zshenv"@ != ".zlogin"@);
        assert(".zprofile"@ != ".zshrc"@ && ".zprofile"@ != ".zlogin"@);
        assert(".zlogin"@ != ".zshrc"@);
    }
    r
}

/// The name of the private per-session zsh startup directory, placed in
/// a temporary location by the caller.
pub open spec fn spec_zdotdir_dir_name(id: Seq<char>) -> Seq<char> {
    "agents-ui-zdotdir-"@ + id
}

/// Builds the private startup directory's name for one session id.
pub fn zdotdir_dir_name(id: &str) -> (r: String)
    ensures
        r@ == spec_zdotdir_dir_name(id@),
{
    let mut r = String::from_str("agents-ui-zdotdir-");
    r.append(id);
    r
}

/// The `PROMPT_COMMAND` installed for a bash session: emit the
/// directory marker, then run whatever prompt command the user had.
pub open spec fn spec_bash_prompt_command() -> Seq<char> {
    "printf '\\033]1337;CurrentDir=%s\\007' \"$PWD\"; if [ -n \"$AGENTS_UI_ORIG_PROMPT_COMMAND\" ]; then eval \"$AGENTS_UI_ORIG_PROMPT_COMMAND\"; fi"@
}

/// One environment variable to set on the spawned command.
pub struct EnvVar {
    pub name: String,
    pub value: String,
}

/// The environment overrides that wire the bash prompt marker: the
/// user's original prompt command is preserved (when there is one) and
/// re-run by the wrapper, so no original behavior is lost.
pub fn bash_integration_env(orig_prompt: Option<String>) -> (r: Vec<EnvVar>)
    ensures
        orig_prompt matches Some(orig) ==> r@.len() == 2 && r@[0].name@
            == "AGENTS_UI_ORIG_PROMPT_COMMAND"@ && r@[0].value@ == orig@ && r@[1].name@
            == "PROMPT_COMMAND"@ && r@[1].value@ == spec_bash_prompt_command(),
        orig_prompt is None ==> r@.len() == 1 && r@[0].name@ == "PROMPT_COMMAND"@ && r@[0].value@
            == spec_bash_prompt_command(),
{
    let mut r: Vec<EnvVar> = Vec::new();
    match orig_prompt {
        Option::Some(orig) => {
            r.push(
                EnvVar { name: String::from_str("AGENTS_UI_ORIG_PROMPT_COMMAND"), value: orig },
            );
        },
        Option::None => {},
    }
    r.push(
        EnvVar {
            name: String::from_str("PROMPT_COMMAND"),
            value: String::from_str(
                "printf '\\033]1337;CurrentDir=%s\\007' \"$PWD\"; if [ -n \"$AGENTS_UI_ORIG_PROMPT_COMMAND\" ]; then eval \"$AGENTS_UI_ORIG_PROMPT_COMMAND\"; fi",
            ),
        },
    );
    r
}

/// The managed configuration for the bundled alternate shell: banner
/// off, marker-emitting hooks installed, and a styled prompt.
pub open spec fn spec_nu_config() -> Seq<char> {
    "# Agents UI managed Nushell config\n\n$env.config = ($env.config | upsert show_banner false)\n\n$env.config = ($env.config | upsert hooks.pre_execution [\n  {||\n    let cleaned = (commandline | str trim | str replace --all (char newline) \" \")\n    let osc = (char --integer 27) + \"]1337;Command=\" + $cleaned + (char --integer 7)\n    print --no-newline $osc\n  }\n])\n\n$env.config = ($env.config | upsert hooks.pre_prompt [\n  {||\n    let osc = (char --integer 27) + \"]1337;Command=\" + (char --integer 7)\n    print --no-newline $osc\n  }\n])\n\n$env.PROMPT_COMMAND = {||\n  let cwd = $env.PWD\n  let osc = (char --integer 27) + \"]1337;CurrentDir=\" + $cwd + (char --integer 7)\n  let dir = ($cwd | path basename)\n  $osc + (ansi cyan) + $dir + (ansi reset) + \" \"\n}\n\n$env.PROMPT_INDICATOR = {|| \"\u{276f} \" }\n$env.PROMPT_MULTILINE_INDICATOR = {|| \"\u{2026} \" }\n"@
}

/// The managed alternate-shell configuration file's content.
pub fn nu_config_content() -> (r: String)
    ensures
        r@ == spec_nu_config(),
{
    String::from_str(
        "# Agents UI managed Nushell config\n\n$env.config = ($env.config | upsert show_banner false)\n\n$env.config = ($env.config | upsert hooks.pre_execution [\n  {||\n    let cleaned = (commandline | str trim | str replace --all (char newline) \" \")\n    let osc = (char --integer 27) + \"]1337;Command=\" + $cleaned + (char --integer 7)\n    print --no-newline $osc\n  }\n])\n\n$env.config = ($env.config | upsert hooks.pre_prompt [\n  {||\n    let osc = (char --integer 27) + \"]1337;Command=\" + (char --integer 7)\n    print --no-newline $osc\n  }\n])\n\n$env.PROMPT_COMMAND = {||\n  let cwd = $env.PWD\n  let osc = (char --integer 27) + \"]1337;CurrentDir=\" + $cwd + (char --integer 7)\n  let dir = ($cwd | path basename)\n  $osc + (ansi cyan) + $dir + (ansi reset) + \" \"\n}\n\n$env.PROMPT_INDICATOR = {|| \"\u{276f} \" }\n$env.PROMPT_MULTILINE_INDICATOR = {|| \"\u{2026} \" }\n",
    )
}

/// Whether the configuration file must be (re)written: only when what
/// is on disk differs from the managed content, to avoid redundant I/O.
pub fn nu_config_needs_write(existing: Option<String>) -> (r: bool)
    ensures
        r == !(existing matches Some(e) && e@ == spec_nu_config()),
{
    match existing {
        Option::Some(e) => {
            let content = nu_config_content();
            !e.eq(&content)
        },
        Option::None => true,
    }
}

/// The isolated XDG directories the alternate shell runs with, under
/// the application's data directory.
pub fn nu_xdg_dirs(app_data: &str) -> (r: (String, String, String))
    ensures
        r.0@ == app_data@ + "/shell/xdg-config"@,
        r.1@ == app_data@ + "/shell/xdg-data"@,
        r.2@ == app_data@ + "/shell/xdg-cache"@,
{
    let mut c = String::from_str(app_data);
    c.append("/shell/xdg-config");
    let mut d = String::from_str(app_data);
    d.append("/shell/xdg-data");
    let mut k = String::from_str(app_data);
    k.append("/shell/xdg-cache");
    (c, d, k)
}

/// ASCII lower-casing of one character, as shell names are compared.
pub open spec fn ascii_lower_char(c: char) -> char {
    if 'A' <= c && c <= 'Z' {
        (((c as u32) + 0x20) as char)
    } else {
        c
    }
}

/// The ASCII-lowered view of a string.
pub open spec fn lower_view(s: Seq<char>) -> Seq<char> {
    s.map_values(|c: char| ascii_lower_char(c))
}

/// True when `pat` occurs contiguously in `s`.
pub open spec fn contains_seq(s: Seq<char>, pat: Seq<char>) -> bool {
    exists|i: int|
        0 <= i && i + pat.len() <= s.len() && #[trigger] s.subrange(i, i + pat.len()) == pat
}

/// The text after the last path separator (the whole text when there is
/// none).
pub open spec fn after_last_slash(s: Seq<char>) -> Seq<char>
    decreases s.len(),
{
    if s.len() == 0 {
        s
    } else if s.last() == '/' {
        Seq::<char>::empty()
    } else {
        after_last_slash(s.drop_last()).push(s.last())
    }
}

proof fn lemma_after_last_slash(s: Seq<char>, start: int)
    requires
        0 <= start <= s.len(),
        forall|k: int| start <= k < s.len() ==> s[k] != '/',
        start > 0 ==> s[start - 1] == '/',
    ensures
        after_last_slash(s) == s.subrange(start, s.len() as int),
    decreases s.len(),
{
    if s.len() == start {
        if start == 0 {
            assert(s.subrange(0, 0) =~= s);
        } else {
            assert(s.last() == '/');
            assert(s.subrange(start, s.len() as int) =~= Seq::<char>::empty());
        }
    } else {
        assert(s.last() != '/');
        let t = s.drop_last();
        assert(forall|k: int| start <= k < t.len() ==> t[k] != '/');
        lemma_after_last_slash(t, start);
        assert(t.subrange(start, t.len() as int).push(s.last()) =~= s.subrange(
            start,
            s.len() as int,
        ));
    }
}

/// Whether `ascii_lower_char(c)` equals the (lower-case) character `p`.
fn lower_char_eq(c: char, p: char) -> (r: bool)
    ensures
        r == (ascii_lower_char(c) == p),
{
    broadcast use vstd::utf8::char_u32_cast;

    let u = c as u32;
    let q = p as u32;
    if 0x41 <= u && u <= 0x5a {
        proof {
            if u + 0x20 == q {
                assert(((u + 0x20) as char) == p);
            } else {
                if ascii_lower_char(c) == p {
                    assert((((c as u32) + 0x20) as char) as u32 == q);
                    assert(((u + 0x20) as char) as u32 == u + 0x20);
                }
            }
        }
        u + 0x20 == q
    } else {
        u == q
    }
}

/// Whether the ASCII-lowered text contains the (already lower-case)
/// pattern.
fn contains_lowered(s: &str, pat: &str) -> (r: bool)
    ensures
        r == contains_seq(lower_view(s@), pat@),
{
    let n = s.unicode_len();
    let m = pat.unicode_len();
    if m > n {
        proof {
            assert(lower_view(s@).len() == n);
        }
        return false;
    }
    if m == 0 {
        proof {
            assert(lower_view(s@).subrange(0, 0 + pat@.len() as int) =~= pat@);
        }
        return true;
    }
    let mut i: usize = 0;
    while i <= n - m
        invariant
            0 <= i <= n - m + 1,
            m <= n,
            n == s@.len(),
            m == pat@.len(),
            lower_view(s@).len() == n,
            forall|x: int|
                0 <= x < i ==> #[trigger] lower_view(s@).subrange(x, x + pat@.len()) != pat@,
        decreases n - i,
    {
        let mut j: usize = 0;
        let mut matched = true;
        while j < m
            invariant
                0 <= j <= m,
                i + m <= n,
                n == s@.len(),
                m == pat@.len(),
                lower_view(s@).len() == n,
                matched ==> forall|y: int|
                    0 <= y < j ==> lower_view(s@)[i + y] == #[trigger] pat@[y],
                !matched ==> exists|y: int|
                    0 <= y < m && lower_view(s@)[i + y] != #[trigger] pat@[y],
            decreases m - j,
        {
            if !lower_char_eq(s.get_char(i + j), pat.get_char(j)) {
                proof {
                    assert(lower_view(s@)[i + j] == ascii_lower_char(s@[i + j]));
                }
                matched = false;
                j = m;
            } else {
                proof {
                    assert(lower_view(s@)[i + j] == ascii_lower_char(s@[i + j]));
                }
                j = j + 1;
            }
        }
        if matched {
            proof {
                assert(lower_view(s@).subrange(i as int, i + pat@.len()) =~= pat@);
            }
            return true;
        }
        proof {
            let y = choose|y: int|
                0 <= y < m && lower_view(s@)[i + y] != #[trigger] pat@[y];
            if lower_view(s@).subrange(i as int, i + pat@.len()) == pat@ {
                assert(lower_view(s@).subrange(i as int, i + pat@.len())[y] == lower_view(s@)[i
                    + y]);
            }
        }
        i = i + 1;
    }
    proof {
        assert forall|x: int|
            0 <= x && x + pat@.len() <= lower_view(s@).len() implies #[trigger] lower_view(
            s@,
        ).subrange(x, x + pat@.len()) != pat@ by {
            assert(x < i);
        }
    }
    false
}

/// The shell families the integration distinguishes, by the lowered
/// base name of the shell's executable. Any other shell gets a plain
/// invocation with no integration.
#[derive(Clone, Copy, Debug, PartialEq, Eq, Structural)]
pub enum ShellFlavor {
    Bash,
    Zsh,
    Other,
}

/// The flavor a shell path resolves to.
pub open spec fn spec_shell_flavor(shell: Seq<char>) -> ShellFlavor {
    let base = lower_view(after_last_slash(shell));
    if contains_seq(base, "bash"@) {
        ShellFlavor::Bash
    } else if contains_seq(base, "zsh"@) {
        ShellFlavor::Zsh
    } else {
        ShellFlavor::Other
    }
}

/// Sniffs the shell family from the executable's base name.
pub fn shell_flavor(shell: &str) -> (r: ShellFlavor)
    ensures
        r == spec_shell_flavor(shell@),
{
    let n = shell.unicode_len();
    let mut start: usize = 0;
    let mut k: usize = 0;
    while k < n
        invariant
            0 <= start <= k <= n,
            n == shell@.len(),
            forall|x: int| start <= x < k ==> shell@[x] != '/',
            start > 0 ==> shell@[start - 1] == '/',
        decreases n - k,
    {
        if shell.get_char(k) == '/' {
            start = k + 1;
        }
        k = k + 1;
    }
    proof {
        lemma_after_last_slash(shell@, start as int);
    }
    let base = shell.substring_char(start, n);
    if contains_lowered(base, "bash") {
        ShellFlavor::Bash
    } else if contains_lowered(base, "zsh") {
        ShellFlavor::Zsh
    } else {
        ShellFlavor::Other
    }
}

} // verus!

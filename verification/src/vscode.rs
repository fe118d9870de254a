//! Resolving an editor target: turning a requested file location into
//! an absolute path and a `path:line:column` location string. Launching
//! the editor itself is the caller's I/O.
use vstd::prelude::*;
use crate::digits::dec_str;
use crate::digits::dec_string;
use crate::persist::expand_home;
use crate::persist::spec_expand_home;
use crate::text::trim_str;
use crate::text::trimmed;

verus! {

/// True of an absolute path on the platform's separator convention.
pub open spec fn spec_is_absolute(s: Seq<char>) -> bool {
    s.len() > 0 && s[0] == '/'
}

/// The resolved editor target for a trimmed request `t` (with `~`
/// already expanded): the path itself when absolute, the working
/// directory joined with it when one is given, and nothing otherwise.
pub open spec fn spec_resolve_target(
    expanded: Seq<char>,
    cwd: Option<Seq<char>>,
) -> Option<Seq<char>> {
    if spec_is_absolute(expanded) {
        Option::Some(expanded)
    } else {
        match cwd {
            Option::Some(c) => if spec_is_absolute(trimmed(c)) {
                Option::Some(trimmed(c) + "/"@ + expanded)
            } else {
                Option::None
            },
            Option::None => Option::None,
        }
    }
}

fn is_absolute(s: &str) -> (r: bool)
    ensures
        r == spec_is_absolute(s@),
{
    !s.is_empty() && s.get_char(0) == '/'
}

/// Resolves the target a caller asked to open: empty requests and
/// relative targets without an absolute working directory are refused;
/// a leading `~` expands against the caller's home directory.
pub fn resolve_target(target: &str, cwd: Option<String>, home: Option<String>) -> (r: Option<
    String,
>)
    ensures
        trimmed(target@).len() == 0 ==> r is None,
        trimmed(target@).len() > 0 ==> ({
            let expanded = spec_expand_home(
                target@,
                match home {
                    Option::Some(h) => Option::Some(h@),
                    Option::None => Option::None,
                },
            );
            match r {
                Option::Some(p) => spec_resolve_target(
                    expanded,
                    match cwd {
                        Option::Some(c) => Option::Some(c@),
                        Option::None => Option::None,
                    },
                ) == Option::Some(p@),
                Option::None => spec_resolve_target(
                    expanded,
                    match cwd {
                        Option::Some(c) => Option::Some(c@),
                        Option::None => Option::None,
                    },
                ) is None,
            }
        }),
{
    let t = trim_str(target);
    if t.is_empty() {
        return Option::None;
    }
    let expanded = expand_home(target, home);
    if is_absolute(expanded.as_str()) {
        return Option::Some(expanded);
    }
    match &cwd {
        Option::Some(c) => {
            let cw = trim_str(c.as_str());
            if is_absolute(cw) {
                let mut r = String::from_str(cw);
                r.append("/");
                r.append(expanded.as_str());
                Option::Some(r)
            } else {
                Option::None
            }
        },
        Option::None => Option::None,
    }
}

/// The location string handed to the editor: the path, optionally with
/// a line, optionally with a column (a column without a line is
/// ignored).
pub open spec fn spec_code_location(base: Seq<char>, line: Option<u32>, column: Option<u32>) -> Seq<
    char,
> {
    match line {
        Option::Some(l) => match column {
            Option::Some(c) => base + ":"@ + dec_str(l as nat) + ":"@ + dec_str(c as nat),
            Option::None => base + ":"@ + dec_str(l as nat),
        },
        Option::None => base,
    }
}

/// Builds the `path:line:column` location string.
pub fn code_location(base: &str, line: Option<u32>, column: Option<u32>) -> (r: String)
    ensures
        r@ == spec_code_location(base@, line, column),
{
    match line {
        Option::Some(l) => {
            let mut r = String::from_str(base);
            r.append(":");
            let ls = dec_string(l as u128);
            r.append(ls.as_str());
            match column {
                Option::Some(c) => {
                    r.append(":");
                    let cs = dec_string(c as u128);
                    r.append(cs.as_str());
                    r
                },
                Option::None => r,
            }
        },
        Option::None => String::from_str(base),
    }
}

} // verus!

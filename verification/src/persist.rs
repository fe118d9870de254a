//! The shapes of persisted application state and directory listings,
//! and home-directory expansion for user-supplied paths.
//!
//! Loading and saving the state file, and walking directories, are I/O
//! left to the caller; this module holds the data and the pure path
//! computation.
use vstd::prelude::*;
use std::collections::HashMap;
use crate::text::trim_str;
use crate::text::trimmed;

verus! {

/// One saved project.
#[derive(Clone)]
pub struct PersistedProjectV1 {
    pub id: String,
    pub title: String,
    pub base_path: Option<String>,
}

/// One saved session of a project.
#[derive(Clone)]
pub struct PersistedSessionV1 {
    pub persist_id: String,
    pub project_id: String,
    pub name: String,
    pub launch_command: Option<String>,
    pub restore_command: Option<String>,
    pub last_recording_id: Option<String>,
    pub cwd: Option<String>,
    pub created_at: u64,
}

/// The whole persisted application state, schema-tagged.
#[derive(Clone)]
pub struct PersistedStateV1 {
    pub schema_version: u32,
    pub projects: Vec<PersistedProjectV1>,
    pub active_project_id: String,
    pub sessions: Vec<PersistedSessionV1>,
    pub active_session_by_project: HashMap<String, String>,
}

/// One directory found while browsing for a project location.
#[derive(Clone)]
pub struct DirectoryEntry {
    pub name: String,
    pub path: String,
}

/// A browsed directory: itself, its parent if distinct, and its child
/// directories.
#[derive(Clone)]
pub struct DirectoryListing {
    pub path: String,
    pub parent: Option<String>,
    pub entries: Vec<DirectoryEntry>,
}

/// What home expansion produces for a trimmed path `t`: the home
/// directory for `~` alone, home joined with the remainder for a `~/`
/// prefix (a join onto an absolute remainder yields that remainder),
/// and the text unchanged otherwise (or when no home is known).
pub open spec fn spec_expand_home(input: Seq<char>, home: Option<Seq<char>>) -> Seq<char> {
    let t = trimmed(input);
    if t == "~"@ {
        match home {
            Option::Some(h) => h,
            Option::None => t,
        }
    } else if t.len() >= 2 && t.subrange(0, 2) == "~/"@ && home is Some {
        let rest = t.skip(2);
        if rest.len() > 0 && rest[0] == '/' {
            rest
        } else {
            home.unwrap() + "/"@ + rest
        }
    } else {
        t
    }
}

/// Expands a leading `~` in a user-supplied path against the home
/// directory the caller read from the environment.
pub fn expand_home(input: &str, home: Option<String>) -> (r: String)
    ensures
        r@ == spec_expand_home(
            input@,
            match home {
                Option::Some(h) => Option::Some(h@),
                Option::None => Option::None,
            },
        ),
{
    proof {
        reveal_strlit("~");
        reveal_strlit("~/");
    }
    let t = trim_str(input);
    let n = t.unicode_len();
    if n == 1 && t.get_char(0) == '~' {
        proof {
            assert(t@ =~= "~"@);
        }
        match home {
            Option::Some(h) => {
                return h;
            },
            Option::None => {
                return String::from_str(t);
            },
        }
    }
    proof {
        assert(t@ != "~"@);
    }
    if n >= 2 && t.get_char(0) == '~' && t.get_char(1) == '/' {
        proof {
            assert(t@.subrange(0, 2) =~= "~/"@);
        }
        match home {
            Option::Some(h) => {
                let rest = t.substring_char(2, n);
                proof {
                    assert(rest@ =~= t@.skip(2));
                }
                if n >= 3 && t.get_char(2) == '/' {
                    proof {
                        assert(rest@[0] == t@[2]);
                    }
                    return String::from_str(rest);
                }
                let mut r = h;
                r.append("/");
                r.append(rest);
                return r;
            },
            Option::None => {
                return String::from_str(t);
            },
        }
    }
    proof {
        if t@.len() >= 2 && t@.subrange(0, 2) == "~/"@ {
            assert(t@[0] == "~/"@[0] && t@[1] == "~/"@[1]) by {
                assert(t@.subrange(0, 2)[0] == t@[0] && t@.subrange(0, 2)[1] == t@[1]);
            }
        }
    }
    String::from_str(t)
}

} // verus!

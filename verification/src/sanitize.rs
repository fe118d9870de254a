//! Recording-id sanitization.
//!
//! A caller-supplied recording id becomes a file name, so it is forced
//! into a safe alphabet: ASCII alphanumerics, `-` and `_` are kept,
//! every other character becomes `_`, the result is capped at 120
//! characters, and an id that trims to nothing becomes `recording`.
use vstd::prelude::*;
use vstd::utf8::is_ascii_chars;
use crate::text::char_is_space;
use crate::text::is_space_char;
use crate::text::lemma_ascii_bytes_encode;
use crate::text::lemma_encode_utf8_injective;
use crate::text::string_from_utf8;
use crate::text::trim_str;
use crate::text::trimmed;

verus! {

/// The longest sanitized recording id, in characters.
pub const MAX_RECORDING_ID_LEN: usize = 120;

/// True of the characters a sanitized recording id may contain.
pub open spec fn keep_char(c: char) -> bool {
    let u = c as u32;
    ||| (0x30 <= u && u <= 0x39)
    ||| (0x41 <= u && u <= 0x5a)
    ||| (0x61 <= u && u <= 0x7a)
    ||| u == 0x2d
    ||| u == 0x5f
}

/// A kept character stays, everything else becomes an underscore.
pub open spec fn sanitize_char(c: char) -> char {
    if keep_char(c) {
        c
    } else {
        '_'
    }
}

/// The sanitized form of a requested recording id: trim, fall back to
/// `recording` when empty, cap at 120 characters, map each character.
pub open spec fn spec_sanitize_recording_id(s: Seq<char>) -> Seq<char> {
    let t = trimmed(s);
    if t.len() == 0 {
        "recording"@
    } else {
        let capped = if t.len() <= MAX_RECORDING_ID_LEN {
            t
        } else {
            t.take(MAX_RECORDING_ID_LEN as int)
        };
        capped.map_values(|c: char| sanitize_char(c))
    }
}

/// Runtime test for [`keep_char`].
fn char_is_kept(c: char) -> (r: bool)
    ensures
        r == keep_char(c),
{
    let u = c as u32;
    (0x30 <= u && u <= 0x39) || (0x41 <= u && u <= 0x5a) || (0x61 <= u && u <= 0x7a) || u == 0x2d
        || u == 0x5f
}

/// Makes a caller-supplied recording id safe to use as a file name.
pub fn sanitize_recording_id(input: &str) -> (r: String)
    ensures
        r@ == spec_sanitize_recording_id(input@),
{
    let t = trim_str(input);
    let n = t.unicode_len();
    if n == 0 {
        let r = String::from_str("recording");
        proof {
            assert(r@ == "recording"@);
        }
        return r;
    }
    let limit = if n <= MAX_RECORDING_ID_LEN {
        n
    } else {
        MAX_RECORDING_ID_LEN
    };
    let ghost capped = if t@.len() <= MAX_RECORDING_ID_LEN {
        t@
    } else {
        t@.take(MAX_RECORDING_ID_LEN as int)
    };
    let ghost target = capped.map_values(|c: char| sanitize_char(c));
    let mut out: Vec<u8> = Vec::new();
    let mut i: usize = 0;
    while i < limit
        invariant
            0 <= i <= limit <= n,
            n == t@.len(),
            limit == capped.len(),
            target == capped.map_values(|c: char| sanitize_char(c)),
            capped == (if t@.len() <= MAX_RECORDING_ID_LEN {
                t@
            } else {
                t@.take(MAX_RECORDING_ID_LEN as int)
            }),
            out@.len() == i,
            forall|k: int| 0 <= k < i ==> out@[k] == #[trigger] target[k] as u8,
        decreases limit - i,
    {
        let c = t.get_char(i);
        proof {
            assert(capped[i as int] == t@[i as int]);
        }
        if char_is_kept(c) {
            let u = c as u32;
            assert(u < 0x80);
            out.push(u as u8);
        } else {
            out.push(0x5f);
            proof {
                assert(sanitize_char(capped[i as int]) == '_');
                assert('_' as u8 == 0x5f);
            }
        }
        i = i + 1;
    }
    proof {
        assert(forall|k: int|
            0 <= k < target.len() ==> (keep_char(#[trigger] target[k]) && (target[k] as u32)
                < 0x80));
        assert(is_ascii_chars(target));
        lemma_ascii_bytes_encode(target, out@);
    }
    let r = string_from_utf8(out);
    proof {
        lemma_encode_utf8_injective(r@, target);
    }
    r
}

/// The file name under which a sanitized recording id is stored.
pub open spec fn spec_recording_file_name(safe_id: Seq<char>) -> Seq<char> {
    safe_id + ".jsonl"@
}

/// Appends the log-file extension to a sanitized recording id.
pub fn recording_file_name(safe_id: &str) -> (r: String)
    ensures
        r@ == spec_recording_file_name(safe_id@),
{
    let mut r = String::from_str(safe_id);
    r.append(".jsonl");
    r
}

/// Every character of a sanitized id is a kept character — in
/// particular the id holds no path separator — and the id is never
/// empty and never longer than the cap.
pub proof fn lemma_sanitize_chars_safe(s: Seq<char>)
    ensures
        forall|k: int|
            0 <= k < spec_sanitize_recording_id(s).len() ==> keep_char(
                #[trigger] spec_sanitize_recording_id(s)[k],
            ),
        0 < spec_sanitize_recording_id(s).len() <= MAX_RECORDING_ID_LEN,
{
    reveal_strlit("recording");
    let t = trimmed(s);
    if t.len() == 0 {
        assert(spec_sanitize_recording_id(s) == "recording"@);
        assert(forall|k: int|
            0 <= k < "recording"@.len() ==> keep_char(#[trigger] "recording"@[k]));
    }
}

proof fn lemma_trim_fixed(s: Seq<char>)
    requires
        forall|k: int| 0 <= k < s.len() ==> !is_space_char(#[trigger] s[k]),
    ensures
        trimmed(s) == s,
{
    crate::text::lemma_trim_start_at(s, 0);
    crate::text::lemma_trim_end_at(s, s.len() as int);
    assert(s.subrange(0, s.len() as int) =~= s);
}

/// Sanitizing is idempotent: a sanitized id passes through unchanged.
pub proof fn lemma_sanitize_idempotent(s: Seq<char>)
    ensures
        spec_sanitize_recording_id(spec_sanitize_recording_id(s)) == spec_sanitize_recording_id(s),
{
    lemma_sanitize_chars_safe(s);
    let r = spec_sanitize_recording_id(s);
    assert(forall|k: int| 0 <= k < r.len() ==> !is_space_char(#[trigger] r[k]));
    lemma_trim_fixed(r);
    assert(trimmed(r).len() != 0);
    assert(spec_sanitize_recording_id(r) == r.map_values(|c: char| sanitize_char(c)));
    assert(r.map_values(|c: char| sanitize_char(c)) =~= r);
}

} // verus!

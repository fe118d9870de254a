//! The recording log format: newline-delimited JSON, one record per
//! line. A log starts with a `meta` line followed by `input` lines; the
//! encoders here produce exactly the compact form the recorder appends
//! to disk, and the string escaping is the canonical JSON one.
use vstd::prelude::*;
use vstd::utf8::encode_utf8;
use crate::digits::dec_str;
use crate::digits::dec_string;
use crate::digits::digit_char;
use crate::digits::is_digit_char;
use crate::digits::lemma_dec_str_digits;
use crate::digits::lemma_dec_str_injective;
use crate::digits::lemma_dec_str_leading;
use crate::digits::lemma_dec_str_prefix_le;
use crate::digits::lemma_dec_str_shape;

verus! {

/// The leading metadata record of a recording log.
#[derive(Clone)]
pub struct RecordingMetaV1 {
    pub schema_version: u32,
    pub created_at: u64,
    pub project_id: String,
    pub session_persist_id: String,
    pub cwd: Option<String>,
}

/// One recorded input event: elapsed milliseconds and the raw text.
#[derive(Clone)]
pub struct RecordingEventV1 {
    pub t: u64,
    pub data: String,
}

/// One line of a recording log.
#[derive(Clone)]
pub enum RecordingLineV1 {
    Meta(RecordingMetaV1),
    Input(RecordingEventV1),
}

/// A recording log read back as a whole: the first `meta` line if any,
/// and every `input` event in order.
#[derive(Clone)]
pub struct LoadedRecordingV1 {
    pub recording_id: String,
    pub meta: Option<RecordingMetaV1>,
    pub events: Vec<RecordingEventV1>,
}

/// The lower-case hex character for one nibble.
pub open spec fn hex_char(d: int) -> char
    recommends
        0 <= d < 16,
{
    if d < 10 {
        digit_char(d)
    } else if d == 10 {
        'a'
    } else if d == 11 {
        'b'
    } else if d == 12 {
        'c'
    } else if d == 13 {
        'd'
    } else if d == 14 {
        'e'
    } else {
        'f'
    }
}

/// How one character appears inside a JSON string literal.
pub open spec fn esc_char(c: char) -> Seq<char> {
    let u = c as u32;
    if u == 0x22 {
        seq!['\\', '"']
    } else if u == 0x5c {
        seq!['\\', '\\']
    } else if u == 0x8 {
        seq!['\\', 'b']
    } else if u == 0x9 {
        seq!['\\', 't']
    } else if u == 0xa {
        seq!['\\', 'n']
    } else if u == 0xc {
        seq!['\\', 'f']
    } else if u == 0xd {
        seq!['\\', 'r']
    } else if u < 0x20 {
        seq!['\\', 'u', '0', '0', hex_char((u >> 4) as int), hex_char((u & 0xf) as int)]
    } else {
        seq![c]
    }
}

/// The JSON escaping of a whole character sequence.
pub open spec fn json_escape_chars(s: Seq<char>) -> Seq<char>
    decreases s.len(),
{
    if s.len() == 0 {
        seq![]
    } else {
        esc_char(s[0]) + json_escape_chars(s.drop_first())
    }
}

/// Escaping distributes over concatenation.
pub proof fn lemma_json_escape_concat(a: Seq<char>, b: Seq<char>)
    ensures
        json_escape_chars(a + b) == json_escape_chars(a) + json_escape_chars(b),
    decreases a.len(),
{
    if a.len() == 0 {
        assert(a + b =~= b);
        assert(json_escape_chars(a) + json_escape_chars(b) =~= json_escape_chars(b));
    } else {
        assert((a + b).len() > 0 && (a + b)[0] == a[0]);
        assert((a + b).drop_first() =~= a.drop_first() + b);
        lemma_json_escape_concat(a.drop_first(), b);
        assert(esc_char(a[0]) + (json_escape_chars(a.drop_first()) + json_escape_chars(b)) =~= (
        esc_char(a[0]) + json_escape_chars(a.drop_first())) + json_escape_chars(b));
    }
}

/// Escaping one more character appends its escape.
pub proof fn lemma_json_escape_snoc(s: Seq<char>, i: int)
    requires
        0 <= i < s.len(),
    ensures
        json_escape_chars(s.take(i + 1)) == json_escape_chars(s.take(i)) + esc_char(s[i]),
{
    assert(s.take(i + 1) =~= s.take(i) + seq![s[i]]);
    lemma_json_escape_concat(s.take(i), seq![s[i]]);
    let single = seq![s[i]];
    assert(single.len() == 1 && single[0] == s[i]);
    assert(single.drop_first() =~= Seq::<char>::empty());
    assert(json_escape_chars(Seq::<char>::empty()) == Seq::<char>::empty());
    assert(json_escape_chars(single) == esc_char(s[i]) + json_escape_chars(single.drop_first()));
    assert(esc_char(s[i]) + Seq::<char>::empty() =~= esc_char(s[i]));
}

/// A JSON string literal: quote, escaped contents, quote.
pub open spec fn spec_json_string(s: Seq<char>) -> Seq<char> {
    "\""@ + json_escape_chars(s) + "\""@
}

/// An optional JSON string: `null` when absent.
pub open spec fn spec_json_opt_string(s: Option<Seq<char>>) -> Seq<char> {
    match s {
        Option::None => "null"@,
        Option::Some(v) => spec_json_string(v),
    }
}

/// The one-line JSON record of an input event.
pub open spec fn spec_input_line(t: nat, data: Seq<char>) -> Seq<char> {
    "{\"type\":\"input\",\"t\":"@ + dec_str(t) + ",\"data\":"@ + spec_json_string(data) + "}"@
}

/// The one-line JSON record of a recording's metadata, over the plain
/// views of its fields.
pub open spec fn spec_meta_line_v(
    schema_version: u32,
    created_at: u64,
    project_id: Seq<char>,
    session_persist_id: Seq<char>,
    cwd: Option<Seq<char>>,
) -> Seq<char> {
    "{\"type\":\"meta\",\"schemaVersion\":"@ + dec_str(schema_version as nat) + ",\"createdAt\":"@
        + dec_str(created_at as nat) + ",\"projectId\":"@ + spec_json_string(project_id)
        + ",\"sessionPersistId\":"@ + spec_json_string(session_persist_id) + ",\"cwd\":"@
        + spec_json_opt_string(cwd) + "}"@
}

/// The one-line JSON record of a recording's metadata.
pub open spec fn spec_meta_line(m: RecordingMetaV1) -> Seq<char> {
    spec_meta_line_v(
        m.schema_version,
        m.created_at,
        m.project_id@,
        m.session_persist_id@,
        match m.cwd {
            Option::None => Option::None,
            Option::Some(s) => Option::Some(s@),
        },
    )
}

/// True when the text is the canonical record of some input event.
pub open spec fn is_input_record(s: Seq<char>) -> bool {
    exists|t: u64, d: Seq<char>| s == spec_input_line(t as nat, d)
}

/// True when the text is the canonical record of some metadata.
pub open spec fn is_meta_record(s: Seq<char>) -> bool {
    exists|sv: u32, ca: u64, pr: Seq<char>, pe: Seq<char>, cw: Option<Seq<char>>|
        s == spec_meta_line_v(sv, ca, pr, pe, cw)
}

/// True when the text is a canonical record of either kind.
pub open spec fn is_record(s: Seq<char>) -> bool {
    is_meta_record(s) || is_input_record(s)
}

/// The one-line JSON record of either line kind.
pub open spec fn spec_line(l: RecordingLineV1) -> Seq<char> {
    match l {
        RecordingLineV1::Meta(m) => spec_meta_line(m),
        RecordingLineV1::Input(e) => spec_input_line(e.t as nat, e.data@),
    }
}

/// A one-character string for one lower-case hex nibble.
fn hex_literal(d: u32) -> (r: &'static str)
    requires
        d < 16,
    ensures
        r@ == seq![hex_char(d as int)],
{
    if d < 10 {
        crate::digits::digit_literal(d as u128)
    } else {
        proof {
            reveal_strlit("a");
            reveal_strlit("b");
            reveal_strlit("c");
            reveal_strlit("d");
            reveal_strlit("e");
            reveal_strlit("f");
        }
        let r = if d == 10 {
            "a"
        } else if d == 11 {
            "b"
        } else if d == 12 {
            "c"
        } else if d == 13 {
            "d"
        } else if d == 14 {
            "e"
        } else {
            "f"
        };
        proof {
            assert(r@ =~= seq![hex_char(d as int)]);
        }
        r
    }
}

/// Appends the JSON escaping of `data` to `out`.
fn append_escaped(out: &mut String, data: &str)
    ensures
        final (out)@ == old(out)@ + json_escape_chars(data@),
{
    let n = data.unicode_len();
    let mut i: usize = 0;
    while i < n
        invariant
            0 <= i <= n,
            n == data@.len(),
            out@ == old(out)@ + json_escape_chars(data@.take(i as int)),
        decreases n - i,
    {
        proof {
            reveal_strlit("\\\"");
            reveal_strlit("\\\\");
            reveal_strlit("\\b");
            reveal_strlit("\\t");
            reveal_strlit("\\n");
            reveal_strlit("\\f");
            reveal_strlit("\\r");
            reveal_strlit("\\u00");
        }
        let c = data.get_char(i);
        let u = c as u32;
        if u == 0x22 {
            out.append("\\\"");
            proof {
                assert("\\\""@ =~= esc_char(c));
            }
        } else if u == 0x5c {
            out.append("\\\\");
            proof {
                assert("\\\\"@ =~= esc_char(c));
            }
        } else if u == 0x8 {
            out.append("\\b");
            proof {
                assert("\\b"@ =~= esc_char(c));
            }
        } else if u == 0x9 {
            out.append("\\t");
            proof {
                assert("\\t"@ =~= esc_char(c));
            }
        } else if u == 0xa {
            out.append("\\n");
            proof {
                assert("\\n"@ =~= esc_char(c));
            }
        } else if u == 0xc {
            out.append("\\f");
            proof {
                assert("\\f"@ =~= esc_char(c));
            }
        } else if u == 0xd {
            out.append("\\r");
            proof {
                assert("\\r"@ =~= esc_char(c));
            }
        } else if u < 0x20 {
            proof {
                assert((u >> 4) < 16 && (u & 0xf) < 16) by (bit_vector)
                    requires
                        u < 0x20,
                ;
            }
            out.append("\\u00");
            out.append(hex_literal(u >> 4));
            out.append(hex_literal(u & 0xf));
            proof {
                assert("\\u00"@ + seq![hex_char((u >> 4) as int)] + seq![
                    hex_char((u & 0xf) as int),
                ] =~= esc_char(c));
            }
        } else {
            let piece = data.substring_char(i, i + 1);
            out.append(piece);
            proof {
                assert(piece@ =~= seq![data@[i as int]]);
                assert(seq![data@[i as int]] =~= esc_char(c));
            }
        }
        proof {
            lemma_json_escape_snoc(data@, i as int);
            assert(out@ =~= old(out)@ + json_escape_chars(data@.take(i + 1)));
        }
        i = i + 1;
    }
    proof {
        assert(data@.take(n as int) =~= data@);
    }
}

/// Appends a quoted, escaped JSON string to `out`.
fn append_json_string(out: &mut String, data: &str)
    ensures
        final (out)@ == old(out)@ + spec_json_string(data@),
{
    out.append("\"");
    append_escaped(out, data);
    out.append("\"");
}

/// Encodes one `input` event as its JSON line (without the newline).
pub fn encode_input_line(t: u64, data: &str) -> (r: String)
    ensures
        r@ == spec_input_line(t as nat, data@),
{
    let mut r = String::from_str("{\"type\":\"input\",\"t\":");
    let ts = dec_string(t as u128);
    r.append(ts.as_str());
    r.append(",\"data\":");
    append_json_string(&mut r, data);
    r.append("}");
    r
}

/// Encodes a recording's metadata as its JSON line (without the
/// newline).
pub fn encode_meta_line(m: &RecordingMetaV1) -> (r: String)
    ensures
        r@ == spec_meta_line(*m),
{
    let mut r = String::from_str("{\"type\":\"meta\",\"schemaVersion\":");
    let sv = dec_string(m.schema_version as u128);
    r.append(sv.as_str());
    r.append(",\"createdAt\":");
    let ca = dec_string(m.created_at as u128);
    r.append(ca.as_str());
    r.append(",\"projectId\":");
    append_json_string(&mut r, m.project_id.as_str());
    r.append(",\"sessionPersistId\":");
    append_json_string(&mut r, m.session_persist_id.as_str());
    r.append(",\"cwd\":");
    match &m.cwd {
        Option::None => {
            r.append("null");
        },
        Option::Some(s) => {
            append_json_string(&mut r, s.as_str());
        },
    }
    r.append("}");
    r
}

/// Encodes either line kind.
pub fn encode_line(l: &RecordingLineV1) -> (r: String)
    ensures
        r@ == spec_line(*l),
{
    match l {
        RecordingLineV1::Meta(m) => encode_meta_line(m),
        RecordingLineV1::Input(e) => encode_input_line(e.t, e.data.as_str()),
    }
}

/// Whether `s` holds `pat` starting at `i`.
fn match_lit(s: &str, n: usize, i: usize, pat: &str) -> (r: Option<usize>)
    requires
        i <= n,
        n == s@.len(),
    ensures
        r matches Some(j) ==> i + pat@.len() == j && j <= n && s@.subrange(i as int, j as int)
            == pat@,
        r is None ==> !(i + pat@.len() <= n && s@.subrange(i as int, i + pat@.len() as int)
            == pat@),
{
    let m = pat.unicode_len();
    if n - i < m {
        return Option::None;
    }
    let mut j: usize = 0;
    while j < m
        invariant
            0 <= j <= m,
            i + m <= n,
            n == s@.len(),
            m == pat@.len(),
            forall|y: int| 0 <= y < j ==> s@[i + y] == #[trigger] pat@[y],
        decreases m - j,
    {
        if s.get_char(i + j) != pat.get_char(j) {
            proof {
                if s@.subrange(i as int, i + pat@.len() as int) == pat@ {
                    assert(s@.subrange(i as int, i + pat@.len() as int)[j as int] == s@[i + j]);
                }
            }
            return Option::None;
        }
        j = j + 1;
    }
    proof {
        assert(s@.subrange(i as int, (i + m) as int) =~= pat@);
    }
    Option::Some(i + m)
}

/// A canonical decimal (the rendering of `v`, delimited by a non-digit
/// or the end) sits at `i`.
pub open spec fn dec_at(s: Seq<char>, i: int, v: u64) -> bool {
    &&& 0 <= i
    &&& i + dec_str(v as nat).len() <= s.len()
    &&& s.subrange(i, i + dec_str(v as nat).len() as int) == dec_str(v as nat)
    &&& (i + dec_str(v as nat).len() == s.len() || !is_digit_char(
        s[i + dec_str(v as nat).len() as int],
    ))
}

/// Reads a canonical decimal number (no leading zeros) at `i`: when one
/// sits there it is read in full, exactly.
fn parse_dec(s: &str, n: usize, i: usize) -> (r: Option<(u64, usize)>)
    requires
        i <= n,
        n == s@.len(),
    ensures
        r matches Some(p) ==> i < p.1 <= n && s@.subrange(i as int, p.1 as int) == dec_str(
            p.0 as nat,
        ) && (p.1 == n || !is_digit_char(s@[p.1 as int])),
        forall|v: u64|
            dec_at(s@, i as int, v) ==> (r matches Some(p) && p.0 == v && p.1 == i + dec_str(
                v as nat,
            ).len()),
{
    if i >= n {
        proof {
            assert forall|v: u64| !dec_at(s@, i as int, v) by {
                lemma_dec_str_shape(v as nat);
            }
        }
        return Option::None;
    }
    let c0 = s.get_char(i);
    let u0 = c0 as u32;
    if !(0x30 <= u0 && u0 <= 0x39) {
        proof {
            assert forall|v: u64| !dec_at(s@, i as int, v) by {
                lemma_dec_str_shape(v as nat);
                lemma_dec_str_digits(v as nat);
                if dec_at(s@, i as int, v) {
                    assert(s@.subrange(i as int, i + dec_str(v as nat).len() as int)[0]
                        == s@[i as int]);
                    assert(is_digit_char(dec_str(v as nat)[0]));
                }
            }
        }
        return Option::None;
    }
    let d0 = (u0 - 0x30) as u64;
    proof {
        assert(digit_char(d0 as int) == c0);
        assert(s@.subrange(i as int, i + 1) =~= seq![s@[i as int]]);
    }
    let mut acc: u64 = d0;
    let mut j: usize = i + 1;
    if d0 == 0 {
        // A canonical zero is the single digit: any witness renders as
        // a string starting with '0', which forces the witness zero.
        proof {
            assert forall|v: u64| dec_at(s@, i as int, v) implies v == 0 by {
                lemma_dec_str_leading(v as nat);
                if v > 0 {
                    assert(s@.subrange(i as int, i + dec_str(v as nat).len() as int)[0]
                        == s@[i as int]);
                }
            }
            assert(dec_str(0) =~= seq!['0']);
        }
        if j < n {
            let c = s.get_char(j);
            let u = c as u32;
            if 0x30 <= u && u <= 0x39 {
                proof {
                    assert forall|v: u64| !dec_at(s@, i as int, v) by {
                        if dec_at(s@, i as int, v) {
                            lemma_dec_str_leading(v as nat);
                            if v > 0 {
                                assert(s@.subrange(i as int, i + dec_str(
                                    v as nat,
                                ).len() as int)[0] == s@[i as int]);
                            }
                            assert(is_digit_char(s@[j as int]));
                        }
                    }
                }
                return Option::None;
            }
        }
        return Option::Some((0, j));
    }
    while j < n
        invariant
            i < j <= n,
            n == s@.len(),
            acc >= 1,
            s@.subrange(i as int, j as int) == dec_str(acc as nat),
            forall|v: u64| dec_at(s@, i as int, v) ==> j <= i + dec_str(v as nat).len(),
        decreases n - j,
    {
        let c = s.get_char(j);
        let u = c as u32;
        if !(0x30 <= u && u <= 0x39) {
            proof {
                lemma_parse_dec_stop(s@, i as int, j as int, acc);
            }
            return Option::Some((acc, j));
        }
        let d = (u - 0x30) as u64;
        proof {
            assert(digit_char(d as int) == c);
            // Under any witness, the next prefix value still fits u64,
            // so the overflow guard cannot fire.
            assert forall|v: u64| dec_at(s@, i as int, v) implies acc as int * 10 + d as int
                <= u64::MAX by {
                let ni = acc as int * 10 + d as int;
                assert(ni / 10 == acc as int && ni % 10 == d as int) by (nonlinear_arith)
                    requires
                        ni == acc as int * 10 + d as int && 0 <= d < 10 && acc >= 1,
                ;
                assert(dec_str(ni as nat) == dec_str(acc as nat).push(digit_char(d as int)));
                let ll = dec_str(v as nat).len() as int;
                assert(j < i + ll) by {
                    if j == i + ll {
                        assert(!is_digit_char(s@[j as int]) || i + ll == n as int);
                    }
                }
                assert(s@.subrange(i as int, j + 1) =~= s@.subrange(i as int, j as int).push(
                    s@[j as int],
                ));
                assert(dec_str(v as nat).take(j + 1 - i) =~= s@.subrange(i as int, i
                    + ll).subrange(0, j + 1 - i));
                assert(s@.subrange(i as int, i + ll).subrange(0, j + 1 - i) =~= s@.subrange(
                    i as int,
                    j + 1,
                ));
                lemma_dec_str_prefix_le(ni as nat, v as nat, j + 1 - i);
            }
        }
        if acc > (u64::MAX - d) / 10 {
            proof {
                assert forall|v: u64| !dec_at(s@, i as int, v) by {
                    if dec_at(s@, i as int, v) {
                        assert(acc as int * 10 + d as int <= u64::MAX);
                        assert(acc as int <= (u64::MAX - d) as int / 10) by (nonlinear_arith)
                            requires
                                acc as int * 10 + d as int <= u64::MAX && 0 <= d < 10,
                        ;
                    }
                }
            }
            return Option::None;
        }
        let next = acc * 10 + d;
        proof {
            assert(next as nat / 10 == acc as nat && next as nat % 10 == d as nat);
            assert(dec_str(next as nat) == dec_str(acc as nat).push(digit_char(d as int)));
            assert(s@.subrange(i as int, j + 1) =~= s@.subrange(i as int, j as int).push(
                s@[j as int],
            ));
            assert forall|v: u64| dec_at(s@, i as int, v) implies j + 1 <= i + dec_str(
                v as nat,
            ).len() by {
                if j == i + dec_str(v as nat).len() {
                    assert(!is_digit_char(s@[j as int]) || i + dec_str(v as nat).len()
                        == n as int);
                }
            }
        }
        acc = next;
        j = j + 1;
    }
    proof {
        lemma_parse_dec_stop(s@, i as int, j as int, acc);
    }
    Option::Some((acc, j))
}

/// When the scan stops at a non-digit (or the end) having read the
/// rendering of `acc`, any canonical decimal at `i` is exactly that.
proof fn lemma_parse_dec_stop(s: Seq<char>, i: int, j: int, acc: u64)
    requires
        0 <= i < j <= s.len(),
        s.subrange(i, j) == dec_str(acc as nat),
        j == s.len() || !is_digit_char(s[j]),
        forall|v: u64| dec_at(s, i, v) ==> j <= i + dec_str(v as nat).len(),
    ensures
        forall|v: u64| dec_at(s, i, v) ==> (v == acc && j == i + dec_str(v as nat).len()),
{
    assert forall|v: u64| dec_at(s, i, v) implies (v == acc && j == i + dec_str(
        v as nat,
    ).len()) by {
        let ll = dec_str(v as nat).len() as int;
        lemma_dec_str_digits(v as nat);
        if j < i + ll {
            // The scan stopped inside the witness rendering: but every
            // character there is a digit.
            assert(s.subrange(i, i + ll)[j - i] == s[j]);
            assert(is_digit_char(dec_str(v as nat)[j - i]));
            assert(j < s.len());
        }
        assert(j == i + ll);
        assert(dec_str(acc as nat) == dec_str(v as nat));
        if acc != v {
            lemma_dec_str_injective(acc as nat, v as nat);
        }
    }
}

/// A canonical JSON string literal of content `d` sits at `i`.
pub open spec fn jstring_at(s: Seq<char>, i: int, d: Seq<char>) -> bool {
    &&& 0 <= i
    &&& i + spec_json_string(d).len() <= s.len()
    &&& s.subrange(i, i + spec_json_string(d).len() as int) == spec_json_string(d)
}

/// The shape of one character's escape: a backslash opens every escaped
/// form, a plain character stands alone, and no form opens with a bare
/// quote.
proof fn lemma_esc_char_shape(c: char)
    ensures
        esc_char(c).len() == 1 || esc_char(c).len() == 2 || esc_char(c).len() == 6,
        esc_char(c)[0] != '"',
        esc_char(c)[0] == '\\' || esc_char(c) == seq![c],
        esc_char(c) == seq![c] ==> (c as u32) >= 0x20 && (c as u32) != 0x22 && (c as u32) != 0x5c,
        esc_char(c).len() >= 2 ==> esc_char(c)[0] == '\\',
        esc_char(c).len() == 2 ==> (esc_char(c)[1] == '"' || esc_char(c)[1] == '\\' || esc_char(
            c,
        )[1] == 'b' || esc_char(c)[1] == 't' || esc_char(c)[1] == 'n' || esc_char(c)[1] == 'f'
            || esc_char(c)[1] == 'r'),
        esc_char(c).len() == 2 ==> ({
            &&& (esc_char(c)[1] == '"' <==> (c as u32) == 0x22)
            &&& (esc_char(c)[1] == '\\' <==> (c as u32) == 0x5c)
            &&& (esc_char(c)[1] == 'b' <==> (c as u32) == 0x8)
            &&& (esc_char(c)[1] == 't' <==> (c as u32) == 0x9)
            &&& (esc_char(c)[1] == 'n' <==> (c as u32) == 0xa)
            &&& (esc_char(c)[1] == 'f' <==> (c as u32) == 0xc)
            &&& (esc_char(c)[1] == 'r' <==> (c as u32) == 0xd)
        }),
        esc_char(c).len() == 6 ==> ({
            &&& esc_char(c)[1] == 'u'
            &&& esc_char(c)[2] == '0'
            &&& esc_char(c)[3] == '0'
            &&& esc_char(c)[4] == hex_char(((c as u32) >> 4) as int)
            &&& esc_char(c)[5] == hex_char(((c as u32) & 0xf) as int)
            &&& (c as u32) < 0x20
            &&& (c as u32) != 0x8
            &&& (c as u32) != 0x9
            &&& (c as u32) != 0xa
            &&& (c as u32) != 0xc
            &&& (c as u32) != 0xd
        }),
{
    let u = c as u32;
    if u == 0x22 || u == 0x5c || u == 0x8 || u == 0x9 || u == 0xa || u == 0xc || u == 0xd {
        assert(esc_char(c).len() == 2);
    } else if u < 0x20 {
        assert(esc_char(c).len() == 6);
    } else {
        assert(esc_char(c) == seq![c]);
    }
}

/// Where a scan stands inside a canonical string literal: after decoding
/// `chars`, either the content is fully read and the closing quote is
/// next, or the escape of the next content character is next.
proof fn lemma_jstring_progress(s: Seq<char>, i: int, d: Seq<char>, chars: Seq<char>)
    requires
        jstring_at(s, i, d),
        chars.len() <= d.len(),
        chars == d.take(chars.len() as int),
    ensures
        chars.len() == d.len() ==> i + 1 + json_escape_chars(chars).len() == i + spec_json_string(
            d,
        ).len() - 1 && s[i + 1 + json_escape_chars(chars).len()] == '"',
        chars.len() < d.len() ==> ({
            let j = i + 1 + json_escape_chars(chars).len();
            let c = d[chars.len() as int];
            &&& j + esc_char(c).len() <= i + spec_json_string(d).len() - 1
            &&& s.subrange(j, j + esc_char(c).len() as int) == esc_char(c)
            &&& d.take(chars.len() as int + 1) == chars + seq![c]
        }),
{
    reveal_strlit("\"");
    let p = chars.len() as int;
    let body = json_escape_chars(d);
    let total = spec_json_string(d);
    let j = i + 1 + json_escape_chars(chars).len();
    assert(d =~= d.take(p) + d.skip(p));
    lemma_json_escape_concat(d.take(p), d.skip(p));
    assert(body == json_escape_chars(chars) + json_escape_chars(d.skip(p)));
    assert("\""@ =~= seq!['"']);
    assert(total == seq!['"'] + body + seq!['"']);
    assert(total.len() == body.len() + 2);
    assert forall|k: int| 0 <= k < total.len() implies s[i + k] == #[trigger] total[k] by {
        assert(s.subrange(i, i + total.len() as int)[k] == s[i + k]);
    }
    if p == d.len() {
        assert(d.take(p) =~= d);
        assert(json_escape_chars(chars).len() == body.len());
        assert(total[1 + body.len() as int] == '"');
        assert(s[j] == total[j - i]);
    } else {
        let c = d[p];
        assert(d.skip(p).len() > 0 && d.skip(p)[0] == c);
        assert(json_escape_chars(d.skip(p)) == esc_char(c) + json_escape_chars(
            d.skip(p).drop_first(),
        ));
        let off = json_escape_chars(chars).len() as int;
        assert forall|k: int| 0 <= k < esc_char(c).len() implies s[j + k] == #[trigger] esc_char(
            c,
        )[k] by {
            assert(body[off + k] == (esc_char(c) + json_escape_chars(d.skip(p).drop_first()))[
                k]);
            assert(total[1 + (off + k)] == body[off + k]);
            assert(s[i + (1 + (off + k))] == total[1 + (off + k)]);
        }
        assert(s.subrange(j, j + esc_char(c).len() as int) =~= esc_char(c));
        assert(body.len() == off + esc_char(c).len() + json_escape_chars(
            d.skip(p).drop_first(),
        ).len());
        assert(d.take(p + 1) =~= chars + seq![c]);
        assert(d.take(chars.len() as int + 1) == chars + seq![c]);
    }
}

/// Reads a canonical JSON string literal at `i`, undoing the escaping:
/// when one sits there it is read in full, exactly.
fn parse_json_string(s: &str, n: usize, i: usize) -> (r: Option<(String, usize)>)
    requires
        i <= n,
        n == s@.len(),
    ensures
        r matches Some(p) ==> i < p.1 <= n && s@.subrange(i as int, p.1 as int) == spec_json_string(
            p.0@,
        ),
        forall|d: Seq<char>|
            jstring_at(s@, i as int, d) ==> (r matches Some(p) && p.0@ == d && p.1 == i
                + spec_json_string(d).len()),
{
    broadcast use vstd::utf8::char_u32_cast;

    if i >= n || s.get_char(i) != '"' {
        proof {
            reveal_strlit("\"");
            assert forall|d: Seq<char>| !jstring_at(s@, i as int, d) by {
                if jstring_at(s@, i as int, d) {
                    let total = spec_json_string(d);
                    assert(total.len() >= 2);
                    assert(s@.subrange(i as int, i + total.len() as int)[0] == s@[i as int]);
                    assert(total[0] == '"');
                }
            }
        }
        return Option::None;
    }
    let mut out: Vec<u8> = Vec::new();
    let ghost mut chars: Seq<char> = Seq::empty();
    let mut j: usize = i + 1;
    proof {
        assert(encode_utf8(chars) =~= Seq::<u8>::empty());
        assert(json_escape_chars(chars) =~= Seq::<char>::empty());
        assert(s@.subrange(i + 1, i + 1) =~= Seq::<char>::empty());
        assert forall|d: Seq<char>| jstring_at(s@, i as int, d) implies chars.len() <= d.len()
            && chars == d.take(chars.len() as int) by {
            assert(d.take(0) =~= chars);
        }
    }
    loop
        invariant
            i < j <= n,
            n == s@.len(),
            s@[i as int] == '"',
            out@ == encode_utf8(chars),
            s@.subrange(i + 1, j as int) == json_escape_chars(chars),
            forall|d: Seq<char>|
                jstring_at(s@, i as int, d) ==> chars.len() <= d.len() && chars == d.take(
                    chars.len() as int,
                ),
        decreases n - j,
    {
        if j >= n {
            proof {
                assert forall|d: Seq<char>| !jstring_at(s@, i as int, d) by {
                    if jstring_at(s@, i as int, d) {
                        lemma_jstring_progress(s@, i as int, d, chars);
                        if chars.len() < d.len() {
                            lemma_esc_char_shape(d[chars.len() as int]);
                        }
                    }
                }
            }
            return Option::None;
        }
        let c = s.get_char(j);
        let u = c as u32;
        if u == 0x22 {
            proof {
                vstd::utf8::encode_utf8_valid_utf8(chars);
            }
            let v = crate::text::string_from_utf8(out);
            proof {
                crate::text::lemma_encode_utf8_injective(v@, chars);
                reveal_strlit("\"");
                assert("\""@ =~= seq!['"']);
                assert(s@.subrange(i as int, j + 1) =~= "\""@ + json_escape_chars(chars)
                    + "\""@);
                assert forall|d: Seq<char>| jstring_at(s@, i as int, d) implies v@ == d && j + 1
                    == i + spec_json_string(d).len() by {
                    lemma_jstring_progress(s@, i as int, d, chars);
                    if chars.len() < d.len() {
                        lemma_esc_char_shape(d[chars.len() as int]);
                        assert(s@.subrange(j as int, j + esc_char(
                            d[chars.len() as int],
                        ).len() as int)[0] == s@[j as int]);
                    }
                    assert(chars.len() == d.len());
                    assert(d.take(d.len() as int) =~= d);
                }
            }
            return Option::Some((v, j + 1));
        } else if u == 0x5c {
            if j + 1 >= n {
                proof {
                    assert forall|d: Seq<char>| !jstring_at(s@, i as int, d) by {
                        if jstring_at(s@, i as int, d) {
                            lemma_jstring_progress(s@, i as int, d, chars);
                            if chars.len() < d.len() {
                                let cc = d[chars.len() as int];
                                lemma_esc_char_shape(cc);
                                assert(s@.subrange(j as int, j + esc_char(cc).len() as int)[0]
                                    == s@[j as int]);
                            }
                        }
                    }
                }
                return Option::None;
            }
            let e = s.get_char(j + 1);
            proof {
                // Under any witness, an escape chunk sits at `j` and its
                // second character is `e`.
                assert forall|d: Seq<char>|
                    jstring_at(s@, i as int, d) implies chars.len() < d.len() && esc_char(
                    d[chars.len() as int],
                )[0] == '\\' && esc_char(d[chars.len() as int]).len() >= 2 && esc_char(
                    d[chars.len() as int],
                )[1] == e by {
                    lemma_jstring_progress(s@, i as int, d, chars);
                    if chars.len() < d.len() {
                        let cc = d[chars.len() as int];
                        lemma_esc_char_shape(cc);
                        assert(s@.subrange(j as int, j + esc_char(cc).len() as int)[0]
                            == s@[j as int]);
                        assert(esc_char(cc)[0] == '\\');
                        assert(s@.subrange(j as int, j + esc_char(cc).len() as int)[1] == s@[j
                            + 1]);
                    }
                }
            }
            if e == 'u' {
                proof {
                    // The chunk must be the six-character form.
                    assert forall|d: Seq<char>|
                        jstring_at(s@, i as int, d) implies esc_char(d[chars.len() as int]).len()
                        == 6 && j + 6 <= n && s@.subrange(j as int, j + 6) == esc_char(
                        d[chars.len() as int],
                    ) by {
                        lemma_jstring_progress(s@, i as int, d, chars);
                        let cc = d[chars.len() as int];
                        lemma_esc_char_shape(cc);
                    }
                }
                if n - j <= 5 {
                    proof {
                        assert forall|d: Seq<char>| !jstring_at(s@, i as int, d) by {}
                    }
                    return Option::None;
                }
                if s.get_char(j + 2) != '0' || s.get_char(j + 3) != '0' {
                    proof {
                        assert forall|d: Seq<char>| !jstring_at(s@, i as int, d) by {
                            if jstring_at(s@, i as int, d) {
                                let cc = d[chars.len() as int];
                                lemma_esc_char_shape(cc);
                                assert(s@.subrange(j as int, j + 6)[2] == s@[j + 2]);
                                assert(s@.subrange(j as int, j + 6)[3] == s@[j + 3]);
                            }
                        }
                    }
                    return Option::None;
                }
                let h1 = s.get_char(j + 4);
                let h2 = s.get_char(j + 5);
                proof {
                    assert forall|d: Seq<char>|
                        jstring_at(s@, i as int, d) implies ({
                        let cu = d[chars.len() as int] as u32;
                        h1 == hex_char((cu >> 4) as int) && h2 == hex_char((cu & 0xf) as int) && (
                        cu >> 4) < 16 && (cu & 0xf) < 16 && cu < 0x20
                    }) by {
                        let cc = d[chars.len() as int];
                        lemma_esc_char_shape(cc);
                        assert(s@.subrange(j as int, j + 6)[4] == s@[j + 4]);
                        assert(s@.subrange(j as int, j + 6)[5] == s@[j + 5]);
                        let cu = cc as u32;
                        assert((cu >> 4) < 16 && (cu & 0xf) < 16) by (bit_vector)
                            requires
                                cu < 0x20,
                        ;
                    }
                }
                let v1 = match hex_val(h1) {
                    Option::Some(v) => v,
                    Option::None => {
                        return Option::None;
                    },
                };
                let v2 = match hex_val(h2) {
                    Option::Some(v) => v,
                    Option::None => {
                        return Option::None;
                    },
                };
                let code = v1 * 16 + v2;
                proof {
                    assert forall|d: Seq<char>|
                        jstring_at(s@, i as int, d) implies code == d[chars.len() as int] as u32 by {
                        let cc = d[chars.len() as int];
                        let cu = cc as u32;
                        assert(((cu >> 4) * 16 + (cu & 0xf)) == cu) by (bit_vector);
                    }
                }
                // Only escapes the encoder itself emits are accepted.
                if code >= 0x20 || code == 0x8 || code == 0x9 || code == 0xa || code == 0xc
                    || code == 0xd {
                    proof {
                        assert forall|d: Seq<char>| !jstring_at(s@, i as int, d) by {
                            if jstring_at(s@, i as int, d) {
                                lemma_esc_char_shape(d[chars.len() as int]);
                            }
                        }
                    }
                    return Option::None;
                }
                let b = code as u8;
                out.push(b);
                let ghost dc = ((b as u32) as char);
                proof {
                    assert(b as u32 == code);
                    assert(dc as u32 == code);
                    assert(((code >> 4) == v1 && (code & 0xf) == v2)) by (bit_vector)
                        requires
                            code == v1 * 16 + v2 && v1 < 16 && v2 < 16,
                    ;
                    assert(esc_char(dc) =~= seq!['\\', 'u', '0', '0', h1, h2]);
                    assert(s@.subrange(j as int, j + 6) =~= esc_char(dc));
                    lemma_json_escape_snoc_chars(chars, dc);
                    lemma_encode_push_ascii(chars, b);
                    assert forall|d: Seq<char>|
                        jstring_at(s@, i as int, d) implies (chars + seq![dc]).len() <= d.len() && (
                        chars + seq![dc]) == d.take((chars + seq![dc]).len() as int) by {
                        lemma_jstring_progress(s@, i as int, d, chars);
                        let cc = d[chars.len() as int];
                        assert(code == cc as u32);
                        assert(dc as u32 == cc as u32);
                        vstd::utf8::char_u32_cast(dc, dc as u32);
                        vstd::utf8::char_u32_cast(cc, cc as u32);
                        assert(dc == cc);
                    }
                    chars = chars + seq![dc];
                    assert(s@.subrange(i + 1, j + 6) =~= s@.subrange(i + 1, j as int) + s@.subrange(
                        j as int,
                        j + 6,
                    ));
                }
                j = j + 6;
            } else {
                let b: u8;
                if e == '"' {
                    b = 0x22;
                } else if e == '\\' {
                    b = 0x5c;
                } else if e == 'b' {
                    b = 0x8;
                } else if e == 't' {
                    b = 0x9;
                } else if e == 'n' {
                    b = 0xa;
                } else if e == 'f' {
                    b = 0xc;
                } else if e == 'r' {
                    b = 0xd;
                } else {
                    proof {
                        assert forall|d: Seq<char>| !jstring_at(s@, i as int, d) by {
                            if jstring_at(s@, i as int, d) {
                                lemma_esc_char_shape(d[chars.len() as int]);
                            }
                        }
                    }
                    return Option::None;
                }
                out.push(b);
                let ghost dc = ((b as u32) as char);
                proof {
                    assert(dc as u32 == b as u32);
                    assert(esc_char(dc) =~= seq![c, e]);
                    assert(s@.subrange(j as int, j + 2) =~= esc_char(dc));
                    lemma_json_escape_snoc_chars(chars, dc);
                    lemma_encode_push_ascii(chars, b);
                    assert forall|d: Seq<char>|
                        jstring_at(s@, i as int, d) implies (chars + seq![dc]).len() <= d.len() && (
                        chars + seq![dc]) == d.take((chars + seq![dc]).len() as int) by {
                        lemma_jstring_progress(s@, i as int, d, chars);
                        let cc = d[chars.len() as int];
                        lemma_esc_char_shape(cc);
                        // A six-character chunk would make `e` read `u`.
                        assert(esc_char(cc).len() == 2);
                        assert(esc_char(cc)[1] == e);
                        assert(dc as u32 == b as u32);
                        assert(dc as u32 == cc as u32);
                        vstd::utf8::char_u32_cast(dc, dc as u32);
                        vstd::utf8::char_u32_cast(cc, cc as u32);
                        assert(dc == cc);
                    }
                    chars = chars + seq![dc];
                    assert(s@.subrange(i + 1, j + 2) =~= s@.subrange(i + 1, j as int) + s@.subrange(
                        j as int,
                        j + 2,
                    ));
                }
                j = j + 2;
            }
        } else if u < 0x20 {
            proof {
                assert forall|d: Seq<char>| !jstring_at(s@, i as int, d) by {
                    if jstring_at(s@, i as int, d) {
                        lemma_jstring_progress(s@, i as int, d, chars);
                        if chars.len() < d.len() {
                            let cc = d[chars.len() as int];
                            lemma_esc_char_shape(cc);
                            assert(s@.subrange(j as int, j + esc_char(cc).len() as int)[0]
                                == s@[j as int]);
                        }
                    }
                }
            }
            return Option::None;
        } else {
            proof {
                assert forall|d: Seq<char>|
                    jstring_at(s@, i as int, d) implies (chars + seq![c]).len() <= d.len() && (
                chars + seq![c]) == d.take((chars + seq![c]).len() as int) by {
                    lemma_jstring_progress(s@, i as int, d, chars);
                    if chars.len() < d.len() {
                        let cc = d[chars.len() as int];
                        lemma_esc_char_shape(cc);
                        assert(s@.subrange(j as int, j + esc_char(cc).len() as int)[0]
                            == s@[j as int]);
                        assert(esc_char(cc) == seq![cc]);
                        assert(cc == c);
                    }
                }
            }
            let piece = s.substring_char(j, j + 1);
            let bytes = piece.as_bytes_vec();
            let mut t: usize = 0;
            let ghost pre_out = out@;
            while t < bytes.len()
                invariant
                    0 <= t <= bytes@.len(),
                    out@ == pre_out + bytes@.take(t as int),
                decreases bytes@.len() - t,
            {
                let bb = bytes[t];
                out.push(bb);
                proof {
                    assert(pre_out + bytes@.take(t + 1) =~= (pre_out + bytes@.take(
                        t as int,
                    )).push(bytes@[t as int]));
                }
                t = t + 1;
            }
            proof {
                assert(bytes@.take(bytes@.len() as int) =~= bytes@);
                assert(piece@ =~= seq![c]);
                assert(bytes@ == encode_utf8(seq![c]));
                lemma_json_escape_snoc_chars(chars, c);
                assert(esc_char(c) =~= seq![c]);
                assert(s@.subrange(j as int, j + 1) =~= seq![c]);
                lemma_encode_utf8_concat_chars(chars, seq![c]);
                chars = chars + seq![c];
                assert(out@ =~= encode_utf8(chars));
                assert(s@.subrange(i + 1, j + 1) =~= s@.subrange(i + 1, j as int) + s@.subrange(
                    j as int,
                    j + 1,
                ));
            }
            j = j + 1;
        }
    }
}

/// The value of one lower-case hex digit.
fn hex_val(c: char) -> (r: Option<u32>)
    ensures
        r matches Some(v) ==> v < 16 && hex_char(v as int) == c,
        forall|v: u32| v < 16 && hex_char(v as int) == c ==> (r matches Some(w) && w == v),
{
    let u = c as u32;
    if 0x30 <= u && u <= 0x39 {
        Option::Some(u - 0x30)
    } else if 0x61 <= u && u <= 0x66 {
        Option::Some(u - 0x61 + 10)
    } else {
        Option::None
    }
}

/// A byte below 0x80 is its own one-byte scalar encoding.
proof fn lemma_ascii_scalar(b: u8)
    requires
        b < 0x80,
    ensures
        vstd::utf8::encode_scalar(b as u32) == seq![b],
{
    assert(((b as u32) & 0x7f) as u8 == b) by (bit_vector)
        requires
            b < 0x80,
    ;
    assert(vstd::utf8::encode_scalar(b as u32) =~= seq![b]);
}

/// Appending the character of one ASCII byte appends that byte to the
/// encoding.
proof fn lemma_encode_push_ascii(chars: Seq<char>, b: u8)
    requires
        b < 0x80,
    ensures
        encode_utf8(chars + seq![((b as u32) as char)]) == encode_utf8(chars).push(b),
{
    let c = ((b as u32) as char);
    assert(c as u32 == b as u32);
    lemma_encode_utf8_concat_chars(chars, seq![c]);
    let single = seq![c];
    assert(single.drop_first() =~= Seq::<char>::empty());
    assert(encode_utf8(Seq::<char>::empty()) == Seq::<u8>::empty());
    assert(encode_utf8(single) == vstd::utf8::encode_scalar(c as u32) + encode_utf8(
        single.drop_first(),
    ));
    lemma_ascii_scalar(b);
    assert(vstd::utf8::encode_scalar(c as u32) + Seq::<u8>::empty() =~= seq![b]);
    assert(encode_utf8(chars) + seq![b] =~= encode_utf8(chars).push(b));
}

/// Escaping one appended character appends its escape (standalone
/// form).
proof fn lemma_json_escape_snoc_chars(chars: Seq<char>, c: char)
    ensures
        json_escape_chars(chars + seq![c]) == json_escape_chars(chars) + esc_char(c),
{
    lemma_json_escape_concat(chars, seq![c]);
    let single = seq![c];
    assert(single.drop_first() =~= Seq::<char>::empty());
    assert(json_escape_chars(Seq::<char>::empty()) == Seq::<char>::empty());
    assert(json_escape_chars(single) == esc_char(c) + json_escape_chars(single.drop_first()));
    assert(esc_char(c) + Seq::<char>::empty() =~= esc_char(c));
}

/// `encode_utf8` distributes over concatenation (alias used by the
/// parser).
proof fn lemma_encode_utf8_concat_chars(a: Seq<char>, b: Seq<char>)
    ensures
        encode_utf8(a + b) == encode_utf8(a) + encode_utf8(b),
{
    crate::utf8_stream::lemma_encode_utf8_concat(a, b);
}

/// Reads one `input` line in the exact form the encoder writes: every
/// canonical input record parses.
pub fn parse_input_line(line: &str) -> (r: Option<RecordingEventV1>)
    ensures
        r matches Some(e) ==> line@ == spec_input_line(e.t as nat, e.data@),
        is_input_record(line@) ==> r is Some,
{
    let ghost hyp = is_input_record(line@);
    let ghost (gt, gd): (u64, Seq<char>) = if hyp {
        choose|t: u64, d: Seq<char>| line@ == spec_input_line(t as nat, d)
    } else {
        (0u64, Seq::<char>::empty())
    };
    let ghost a1 = "{\"type\":\"input\",\"t\":"@.len() as int;
    let ghost a2 = a1 + dec_str(gt as nat).len();
    let ghost a3 = a2 + ",\"data\":"@.len();
    let ghost a4 = a3 + spec_json_string(gd).len();
    let n = line.unicode_len();
    proof {
        if hyp {
            reveal_strlit("{\"type\":\"input\",\"t\":");
            reveal_strlit(",\"data\":");
            reveal_strlit("}");
            assert(n as int == a4 + 1);
            assert(line@.subrange(0, a1) =~= "{\"type\":\"input\",\"t\":"@);
            assert(line@.subrange(a1, a2) =~= dec_str(gt as nat));
            assert(line@.subrange(a2, a3) =~= ",\"data\":"@);
            assert(line@.subrange(a3, a4) =~= spec_json_string(gd));
            assert(line@.subrange(a4, n as int) =~= "}"@);
            assert(dec_at(line@, a1, gt)) by {
                assert(line@[a2] == ",\"data\":"@[0]);
                assert(!is_digit_char(','));
            }
            assert(jstring_at(line@, a3, gd));
        }
    }
    let j1 = match match_lit(line, n, 0, "{\"type\":\"input\",\"t\":") {
        Option::Some(j) => j,
        Option::None => {
            proof {
                if hyp {
                    assert(false);
                }
            }
            return Option::None;
        },
    };
    let (t, j2) = match parse_dec(line, n, j1) {
        Option::Some(p) => p,
        Option::None => {
            proof {
                if hyp {
                    assert(false);
                }
            }
            return Option::None;
        },
    };
    let j3 = match match_lit(line, n, j2, ",\"data\":") {
        Option::Some(j) => j,
        Option::None => {
            proof {
                if hyp {
                    assert(j1 as int == a1 && t == gt && j2 as int == a2);
                    assert(false);
                }
            }
            return Option::None;
        },
    };
    let (data, j4) = match parse_json_string(line, n, j3) {
        Option::Some(p) => p,
        Option::None => {
            proof {
                if hyp {
                    assert(j3 as int == a3);
                    assert(false);
                }
            }
            return Option::None;
        },
    };
    let j5 = match match_lit(line, n, j4, "}") {
        Option::Some(j) => j,
        Option::None => {
            proof {
                if hyp {
                    assert(j3 as int == a3 && j4 as int == a4);
                    assert(false);
                }
            }
            return Option::None;
        },
    };
    if j5 != n {
        proof {
            if hyp {
                assert(false);
            }
        }
        return Option::None;
    }
    proof {
        assert(line@ =~= line@.subrange(0, j1 as int) + line@.subrange(j1 as int, j2 as int)
            + line@.subrange(j2 as int, j3 as int) + line@.subrange(j3 as int, j4 as int)
            + line@.subrange(j4 as int, j5 as int));
    }
    Option::Some(RecordingEventV1 { t, data })
}

/// Reads one `meta` line in the exact form the encoder writes: every
/// canonical metadata record parses.
#[verifier::rlimit(100)]
pub fn parse_meta_line(line: &str) -> (r: Option<RecordingMetaV1>)
    ensures
        r matches Some(m) ==> line@ == spec_meta_line(m),
        is_meta_record(line@) ==> r is Some,
{
    let ghost hyp = is_meta_record(line@);
    let ghost (gsv, gca, gpr, gpe, gcw): (u32, u64, Seq<char>, Seq<char>, Option<Seq<char>>) = if
        hyp {
        choose|sv: u32, ca: u64, pr: Seq<char>, pe: Seq<char>, cw: Option<Seq<char>>|
            line@ == spec_meta_line_v(sv, ca, pr, pe, cw)
    } else {
        (0u32, 0u64, Seq::<char>::empty(), Seq::<char>::empty(), Option::None)
    };
    let ghost a1 = "{\"type\":\"meta\",\"schemaVersion\":"@.len() as int;
    let ghost a2 = a1 + dec_str(gsv as nat).len();
    let ghost a3 = a2 + ",\"createdAt\":"@.len();
    let ghost a4 = a3 + dec_str(gca as nat).len();
    let ghost a5 = a4 + ",\"projectId\":"@.len();
    let ghost a6 = a5 + spec_json_string(gpr).len();
    let ghost a7 = a6 + ",\"sessionPersistId\":"@.len();
    let ghost a8 = a7 + spec_json_string(gpe).len();
    let ghost a9 = a8 + ",\"cwd\":"@.len();
    let ghost a10 = a9 + spec_json_opt_string(gcw).len();
    let n = line.unicode_len();
    proof {
        if hyp {
            reveal_strlit("{\"type\":\"meta\",\"schemaVersion\":");
            reveal_strlit(",\"createdAt\":");
            reveal_strlit(",\"projectId\":");
            reveal_strlit(",\"sessionPersistId\":");
            reveal_strlit(",\"cwd\":");
            reveal_strlit("null");
            reveal_strlit("}");
            assert(n as int == a10 + 1);
            assert(line@.subrange(0, a1) =~= "{\"type\":\"meta\",\"schemaVersion\":"@);
            assert(line@.subrange(a1, a2) =~= dec_str(gsv as nat));
            assert(line@.subrange(a2, a3) =~= ",\"createdAt\":"@);
            assert(line@.subrange(a3, a4) =~= dec_str(gca as nat));
            assert(line@.subrange(a4, a5) =~= ",\"projectId\":"@);
            assert(line@.subrange(a5, a6) =~= spec_json_string(gpr));
            assert(line@.subrange(a6, a7) =~= ",\"sessionPersistId\":"@);
            assert(line@.subrange(a7, a8) =~= spec_json_string(gpe));
            assert(line@.subrange(a8, a9) =~= ",\"cwd\":"@);
            assert(line@.subrange(a9, a10) =~= spec_json_opt_string(gcw));
            assert(line@.subrange(a10, n as int) =~= "}"@);
            assert(dec_at(line@, a1, gsv as u64)) by {
                assert(line@[a2] == ",\"createdAt\":"@[0]);
                assert(!is_digit_char(','));
            }
            assert(dec_at(line@, a3, gca)) by {
                assert(line@[a4] == ",\"projectId\":"@[0]);
                assert(!is_digit_char(','));
            }
            assert(jstring_at(line@, a5, gpr));
            assert(jstring_at(line@, a7, gpe));
            match gcw {
                Option::Some(c) => {
                    assert(jstring_at(line@, a9, c));
                },
                Option::None => {},
            }
        }
    }
    let j1 = match match_lit(line, n, 0, "{\"type\":\"meta\",\"schemaVersion\":") {
        Option::Some(j) => j,
        Option::None => {
            proof {
                if hyp {
                    assert(false);
                }
            }
            return Option::None;
        },
    };
    let (sv, j2) = match parse_dec(line, n, j1) {
        Option::Some(p) => p,
        Option::None => {
            proof {
                if hyp {
                    assert(false);
                }
            }
            return Option::None;
        },
    };
    if sv > 0xffff_ffff {
        proof {
            if hyp {
                assert(sv == gsv as u64);
                assert(false);
            }
        }
        return Option::None;
    }
    let schema_version = sv as u32;
    let j3 = match match_lit(line, n, j2, ",\"createdAt\":") {
        Option::Some(j) => j,
        Option::None => {
            proof {
                if hyp {
                    assert(j2 as int == a2);
                    assert(false);
                }
            }
            return Option::None;
        },
    };
    let (created_at, j4) = match parse_dec(line, n, j3) {
        Option::Some(p) => p,
        Option::None => {
            proof {
                if hyp {
                    assert(j3 as int == a3);
                    assert(false);
                }
            }
            return Option::None;
        },
    };
    let j5 = match match_lit(line, n, j4, ",\"projectId\":") {
        Option::Some(j) => j,
        Option::None => {
            proof {
                if hyp {
                    assert(j3 as int == a3 && j4 as int == a4);
                    assert(false);
                }
            }
            return Option::None;
        },
    };
    let (project_id, j6) = match parse_json_string(line, n, j5) {
        Option::Some(p) => p,
        Option::None => {
            proof {
                if hyp {
                    assert(j5 as int == a5);
                    assert(false);
                }
            }
            return Option::None;
        },
    };
    let j7 = match match_lit(line, n, j6, ",\"sessionPersistId\":") {
        Option::Some(j) => j,
        Option::None => {
            proof {
                if hyp {
                    assert(j5 as int == a5 && j6 as int == a6);
                    assert(false);
                }
            }
            return Option::None;
        },
    };
    let (session_persist_id, j8) = match parse_json_string(line, n, j7) {
        Option::Some(p) => p,
        Option::None => {
            proof {
                if hyp {
                    assert(j7 as int == a7);
                    assert(false);
                }
            }
            return Option::None;
        },
    };
    let j9 = match match_lit(line, n, j8, ",\"cwd\":") {
        Option::Some(j) => j,
        Option::None => {
            proof {
                if hyp {
                    assert(j7 as int == a7 && j8 as int == a8);
                    assert(false);
                }
            }
            return Option::None;
        },
    };
    let cwd: Option<String>;
    let j10: usize;
    match match_lit(line, n, j9, "null") {
        Option::Some(j) => {
            proof {
                if hyp {
                    reveal_strlit("null");
                    reveal_strlit("\"");
                    assert(j9 as int == a9);
                    // A string value opens with a quote, never an `n`.
                    match gcw {
                        Option::Some(c) => {
                            assert(line@.subrange(j9 as int, j9 as int + "null"@.len() as int)[0]
                                == line@[a9]);
                            assert(spec_json_string(c)[0] == '"') by {
                                assert(spec_json_string(c) == "\""@ + json_escape_chars(c)
                                    + "\""@);
                                assert("\""@ =~= seq!['"']);
                            }
                            assert(line@.subrange(a9, a10)[0] == line@[a9]);
                            assert(false);
                        },
                        Option::None => {},
                    }
                }
            }
            cwd = Option::None;
            j10 = j;
        },
        Option::None => {
            proof {
                if hyp {
                    assert(j9 as int == a9);
                    match gcw {
                        Option::Some(c) => {},
                        Option::None => {
                            assert(line@.subrange(a9, a9 + "null"@.len() as int) =~= "null"@);
                            assert(false);
                        },
                    }
                }
            }
            match parse_json_string(line, n, j9) {
                Option::Some(p) => {
                    cwd = Option::Some(p.0);
                    j10 = p.1;
                },
                Option::None => {
                    proof {
                        if hyp {
                            assert(false);
                        }
                    }
                    return Option::None;
                },
            }
        },
    }
    let j11 = match match_lit(line, n, j10, "}") {
        Option::Some(j) => j,
        Option::None => {
            proof {
                if hyp {
                    assert(j10 as int == a10);
                    assert(false);
                }
            }
            return Option::None;
        },
    };
    if j11 != n {
        proof {
            if hyp {
                assert(j10 as int == a10);
                assert(false);
            }
        }
        return Option::None;
    }
    let m = RecordingMetaV1 { schema_version, created_at, project_id, session_persist_id, cwd };
    proof {
        assert(line@ =~= line@.subrange(0, j1 as int) + line@.subrange(j1 as int, j2 as int)
            + line@.subrange(j2 as int, j3 as int) + line@.subrange(j3 as int, j4 as int)
            + line@.subrange(j4 as int, j5 as int) + line@.subrange(j5 as int, j6 as int)
            + line@.subrange(j6 as int, j7 as int) + line@.subrange(j7 as int, j8 as int)
            + line@.subrange(j8 as int, j9 as int) + line@.subrange(j9 as int, j10 as int)
            + line@.subrange(j10 as int, j11 as int));
    }
    Option::Some(m)
}

/// Reads one recording-log line of either kind: every canonical record
/// parses, and only canonical records parse.
pub fn parse_line(line: &str) -> (r: Option<RecordingLineV1>)
    ensures
        r matches Some(l) ==> line@ == spec_line(l),
        is_record(line@) ==> r is Some,
{
    match parse_meta_line(line) {
        Option::Some(m) => Option::Some(RecordingLineV1::Meta(m)),
        Option::None => {
            match parse_input_line(line) {
                Option::Some(e) => Option::Some(RecordingLineV1::Input(e)),
                Option::None => Option::None,
            }
        },
    }
}

/// The two line kinds can never read the same: a metadata record and an
/// input record differ in their type tag.
pub proof fn lemma_record_kinds_distinct(
    schema_version: u32,
    created_at: u64,
    project_id: Seq<char>,
    session_persist_id: Seq<char>,
    cwd: Option<Seq<char>>,
    t: u64,
    d: Seq<char>,
)
    ensures
        spec_meta_line_v(schema_version, created_at, project_id, session_persist_id, cwd)
            != spec_input_line(t as nat, d),
{
    reveal_strlit("{\"type\":\"meta\",\"schemaVersion\":");
    reveal_strlit("{\"type\":\"input\",\"t\":");
    let ml = spec_meta_line_v(schema_version, created_at, project_id, session_persist_id, cwd);
    let il = spec_input_line(t as nat, d);
    assert(ml[9] == "{\"type\":\"meta\",\"schemaVersion\":"@[9]);
    assert(il[9] == "{\"type\":\"input\",\"t\":"@[9]);
    assert(ml[9] == 'm' && il[9] == 'i');
}

/// A canonical record is never blank.
pub proof fn lemma_record_nonempty(s: Seq<char>)
    ensures
        is_record(s) ==> s.len() > 0,
{
    reveal_strlit("{\"type\":\"meta\",\"schemaVersion\":");
    reveal_strlit("{\"type\":\"input\",\"t\":");
    if is_record(s) {
        if is_meta_record(s) {
            let (sv, ca, pr, pe, cw) = choose|
                sv: u32,
                ca: u64,
                pr: Seq<char>,
                pe: Seq<char>,
                cw: Option<Seq<char>>,
            | s == spec_meta_line_v(sv, ca, pr, pe, cw);
        } else {
            let (t, d) = choose|t: u64, d: Seq<char>| s == spec_input_line(t as nat, d);
        }
    }
}

/// True when this line neither is blank nor holds a canonical record:
/// the one thing that fails a load.
pub open spec fn line_is_bad(lines: Seq<String>, k: int) -> bool {
    crate::text::trimmed(lines[k]@).len() > 0 && !is_record(crate::text::trimmed(lines[k]@))
}

/// True when no line of the prefix holds a metadata record.
pub open spec fn no_meta_in(lines: Seq<String>) -> bool {
    forall|k: int| 0 <= k < lines.len() ==> !is_meta_record(crate::text::trimmed(#[trigger] lines[k]@))
}

/// True when `m` is the record of the first metadata line.
pub open spec fn meta_is_first(m: RecordingMetaV1, lines: Seq<String>) -> bool {
    exists|k: int|
        0 <= k < lines.len() && crate::text::trimmed(#[trigger] lines[k]@) == spec_meta_line(m)
            && no_meta_in(lines.take(k))
}

/// The trimmed texts of the input-record lines, in file order: what the
/// loaded events must spell out, one for one.
pub open spec fn input_record_texts(lines: Seq<String>) -> Seq<Seq<char>>
    decreases lines.len(),
{
    if lines.len() == 0 {
        seq![]
    } else if is_input_record(crate::text::trimmed(lines.last()@)) {
        input_record_texts(lines.drop_last()).push(crate::text::trimmed(lines.last()@))
    } else {
        input_record_texts(lines.drop_last())
    }
}

/// What a loaded recording is, in terms of its source lines: the id is
/// the sanitized requested id; the metadata is the record of the first
/// metadata line, or absent exactly when there is none; and the events
/// spell out exactly the input-record lines, in file order.
pub open spec fn loaded_from_lines(
    res: LoadedRecordingV1,
    recording_id: Seq<char>,
    lines: Seq<String>,
) -> bool {
    &&& res.recording_id@ == crate::sanitize::spec_sanitize_recording_id(recording_id)
    &&& (res.meta matches Some(m) ==> meta_is_first(m, lines))
    &&& (res.meta is None <==> no_meta_in(lines))
    &&& res.events@.len() == input_record_texts(lines).len()
    &&& (forall|x: int|
        0 <= x < res.events@.len() ==> spec_input_line(
            (#[trigger] res.events@[x]).t as nat,
            res.events@[x].data@,
        ) == input_record_texts(lines)[x])
}

/// Reading one more line extends the expected events by its record when
/// it is an input record, and by nothing otherwise.
proof fn lemma_input_texts_step(lines: Seq<String>, k: int)
    requires
        0 <= k < lines.len(),
    ensures
        is_input_record(crate::text::trimmed(lines[k]@)) ==> input_record_texts(lines.take(k + 1))
            == input_record_texts(lines.take(k)).push(crate::text::trimmed(lines[k]@)),
        !is_input_record(crate::text::trimmed(lines[k]@)) ==> input_record_texts(
            lines.take(k + 1),
        ) == input_record_texts(lines.take(k)),
{
    assert(lines.take(k + 1).drop_last() =~= lines.take(k));
    assert(lines.take(k + 1).last() == lines[k]);
}

/// Loading under a raw recording id and under its sanitized form give
/// the same result: the id reported is the same sanitized id either
/// way, and everything else is determined by the lines alone — raw ids
/// never shape what is read.
pub proof fn lemma_load_id_sanitized(
    res1: LoadedRecordingV1,
    res2: LoadedRecordingV1,
    raw: Seq<char>,
    lines: Seq<String>,
)
    requires
        loaded_from_lines(res1, raw, lines),
        loaded_from_lines(res2, crate::sanitize::spec_sanitize_recording_id(raw), lines),
    ensures
        res1.recording_id@ == res2.recording_id@,
        res1.meta is Some <==> res2.meta is Some,
        res1.meta matches Some(m1) ==> (res2.meta matches Some(m2) && spec_meta_line(m1)
            == spec_meta_line(m2)),
        res1.events@.len() == res2.events@.len(),
        forall|x: int|
            0 <= x < res1.events@.len() ==> spec_input_line(
                (#[trigger] res1.events@[x]).t as nat,
                res1.events@[x].data@,
            ) == spec_input_line((#[trigger] res2.events@[x]).t as nat, res2.events@[x].data@),
{
    crate::sanitize::lemma_sanitize_idempotent(raw);
    match res1.meta {
        Option::Some(m1) => {
            assert(!no_meta_in(lines)) by {
                let k = choose|k: int|
                    0 <= k < lines.len() && crate::text::trimmed(#[trigger] lines[k]@)
                        == spec_meta_line(m1) && no_meta_in(lines.take(k));
                assert(is_meta_record(crate::text::trimmed(lines[k]@)));
            }
            let m2 = res2.meta.unwrap();
            let k1 = choose|k: int|
                0 <= k < lines.len() && crate::text::trimmed(#[trigger] lines[k]@)
                    == spec_meta_line(m1) && no_meta_in(lines.take(k));
            let k2 = choose|k: int|
                0 <= k < lines.len() && crate::text::trimmed(#[trigger] lines[k]@)
                    == spec_meta_line(m2) && no_meta_in(lines.take(k));
            assert(is_meta_record(crate::text::trimmed(lines[k1]@)));
            assert(is_meta_record(crate::text::trimmed(lines[k2]@)));
            assert(k1 == k2) by {
                if k1 < k2 {
                    assert(lines.take(k2)[k1] == lines[k1]);
                } else if k2 < k1 {
                    assert(lines.take(k1)[k2] == lines[k2]);
                }
            }
        },
        Option::None => {},
    }
}

/// The texts a freshly written log expects back: one metadata record,
/// then the events' records in append order.
proof fn lemma_texts_of_written_log(
    lines: Seq<String>,
    m: RecordingMetaV1,
    ts: Seq<u64>,
    ds: Seq<Seq<char>>,
    k: int,
)
    requires
        lines.len() == 1 + ts.len(),
        ds.len() == ts.len(),
        crate::text::trimmed(lines[0]@) == spec_meta_line(m),
        forall|x: int|
            0 <= x < ts.len() ==> crate::text::trimmed(#[trigger] lines[x + 1]@)
                == spec_input_line(ts[x] as nat, ds[x]),
        0 <= k <= ts.len(),
    ensures
        input_record_texts(lines.take(1 + k)).len() == k,
        forall|x: int|
            0 <= x < k ==> input_record_texts(lines.take(1 + k))[x] == crate::text::trimmed(
                #[trigger] lines[x + 1]@,
            ),
    decreases k,
{
    if k == 0 {
        assert(lines.take(1).drop_last() =~= lines.take(0));
        assert(lines.take(0) =~= Seq::<String>::empty());
        assert(input_record_texts(Seq::<String>::empty()) == Seq::<Seq<char>>::empty());
        assert(lines.take(1).last() == lines[0]);
        assert(!is_input_record(crate::text::trimmed(lines[0]@))) by {
            if is_input_record(crate::text::trimmed(lines[0]@)) {
                let (it, idd) = choose|it: u64, idd: Seq<char>|
                    crate::text::trimmed(lines[0]@) == spec_input_line(it as nat, idd);
                lemma_record_kinds_distinct(
                    m.schema_version,
                    m.created_at,
                    m.project_id@,
                    m.session_persist_id@,
                    match m.cwd {
                        Option::None => Option::None,
                        Option::Some(c) => Option::Some(c@),
                    },
                    it,
                    idd,
                );
            }
        }
    } else {
        lemma_texts_of_written_log(lines, m, ts, ds, k - 1);
        assert(lines.take(1 + k).drop_last() =~= lines.take(k));
        assert(lines.take(1 + k).last() == lines[k]);
        assert(crate::text::trimmed(lines[(k - 1) + 1]@) == spec_input_line(
            ts[k - 1] as nat,
            ds[k - 1],
        ));
        assert(lines[(k - 1) + 1] == lines[k]);
        assert(is_input_record(crate::text::trimmed(lines[k]@)));
        assert(input_record_texts(lines.take(1 + k)) == input_record_texts(lines.take(k)).push(
            crate::text::trimmed(lines[k]@),
        ));
    }
}

/// Write/read round trip: a log whose lines are one metadata record
/// followed by the recorded events' records in append order loads back
/// as exactly that metadata and those events, in that order.
pub proof fn lemma_write_read_round_trip(
    res: LoadedRecordingV1,
    recording_id: Seq<char>,
    lines: Seq<String>,
    m: RecordingMetaV1,
    ts: Seq<u64>,
    ds: Seq<Seq<char>>,
)
    requires
        loaded_from_lines(res, recording_id, lines),
        lines.len() == 1 + ts.len(),
        ds.len() == ts.len(),
        crate::text::trimmed(lines[0]@) == spec_meta_line(m),
        forall|x: int|
            0 <= x < ts.len() ==> crate::text::trimmed(#[trigger] lines[x + 1]@)
                == spec_input_line(ts[x] as nat, ds[x]),
    ensures
        res.recording_id@ == crate::sanitize::spec_sanitize_recording_id(recording_id),
        res.meta matches Some(m2) && spec_meta_line(m2) == spec_meta_line(m),
        res.events@.len() == ts.len(),
        forall|x: int|
            0 <= x < ts.len() ==> spec_input_line(
                (#[trigger] res.events@[x]).t as nat,
                res.events@[x].data@,
            ) == spec_input_line(ts[x] as nat, ds[x]),
{
    lemma_texts_of_written_log(lines, m, ts, ds, ts.len() as int);
    assert(lines.take(1 + ts.len() as int) =~= lines);
    assert(is_meta_record(crate::text::trimmed(lines[0]@))) by {
        assert(crate::text::trimmed(lines[0]@) == spec_meta_line_v(
            m.schema_version,
            m.created_at,
            m.project_id@,
            m.session_persist_id@,
            match m.cwd {
                Option::None => Option::None,
                Option::Some(c) => Option::Some(c@),
            },
        ));
    }
    assert(!no_meta_in(lines));
    let m2 = res.meta.unwrap();
    assert(meta_is_first(m2, lines));
    let k = choose|k: int|
        0 <= k < lines.len() && crate::text::trimmed(#[trigger] lines[k]@) == spec_meta_line(m2)
            && no_meta_in(lines.take(k));
    assert(k == 0) by {
        if k > 0 {
            assert(lines.take(k)[0] == lines[0]);
            assert(is_meta_record(crate::text::trimmed(lines.take(k)[0]@)));
        }
    }
    assert forall|x: int| 0 <= x < ts.len() implies spec_input_line(
        (#[trigger] res.events@[x]).t as nat,
        res.events@[x].data@,
    ) == spec_input_line(ts[x] as nat, ds[x]) by {
        assert(input_record_texts(lines)[x] == crate::text::trimmed(lines[x + 1]@));
        assert(crate::text::trimmed(lines[x + 1]@) == spec_input_line(ts[x] as nat, ds[x]));
    }
}

/// Reassembles a recording from its log lines. It succeeds exactly when
/// every line is blank or a canonical record; blank lines are skipped,
/// only the first `meta` record counts, and the events are exactly the
/// input records in file order. (The reader accepts the canonical form
/// this recorder writes, not arbitrary JSON spellings of it.)
#[verifier::rlimit(60)]
pub fn load_recording(recording_id: &str, lines: &Vec<String>) -> (r: Result<
    LoadedRecordingV1,
    crate::errors::PtyError,
>)
    ensures
        r matches Ok(res) ==> loaded_from_lines(res, recording_id@, lines@),
        r is Ok <==> (forall|k: int| 0 <= k < lines@.len() ==> !line_is_bad(lines@, k)),
        r matches Err(e) ==> e == crate::errors::PtyError::SerializationFailure,
{
    let safe_id = crate::sanitize::sanitize_recording_id(recording_id);
    let mut meta: Option<RecordingMetaV1> = Option::None;
    let mut events: Vec<RecordingEventV1> = Vec::new();
    let mut k: usize = 0;
    while k < lines.len()
        invariant
            0 <= k <= lines@.len(),
            safe_id@ == crate::sanitize::spec_sanitize_recording_id(recording_id@),
            forall|x: int| 0 <= x < k ==> !line_is_bad(lines@, x),
            meta matches Some(m) ==> meta_is_first(m, lines@),
            meta is None ==> no_meta_in(lines@.take(k as int)),
            events@.len() == input_record_texts(lines@.take(k as int)).len(),
            forall|x: int|
                0 <= x < events@.len() ==> spec_input_line(
                    (#[trigger] events@[x]).t as nat,
                    events@[x].data@,
                ) == input_record_texts(lines@.take(k as int))[x],
        decreases lines@.len() - k,
    {
        let row = &lines[k];
        let t = crate::text::trim_str(row.as_str());
        let ghost tv = crate::text::trimmed(lines@[k as int]@);
        proof {
            lemma_input_texts_step(lines@, k as int);
        }
        if !t.is_empty() {
            match parse_line(t) {
                Option::Some(RecordingLineV1::Meta(m)) => {
                    proof {
                        assert(tv == spec_meta_line(m));
                        assert(is_meta_record(tv));
                        assert(!is_input_record(tv)) by {
                            if is_input_record(tv) {
                                let (it, idd) = choose|it: u64, idd: Seq<char>|
                                    tv == spec_input_line(it as nat, idd);
                                lemma_record_kinds_distinct(
                                    m.schema_version,
                                    m.created_at,
                                    m.project_id@,
                                    m.session_persist_id@,
                                    match m.cwd {
                                        Option::None => Option::None,
                                        Option::Some(c) => Option::Some(c@),
                                    },
                                    it,
                                    idd,
                                );
                            }
                        }
                    }
                    if matches!(meta, Option::None) {
                        proof {
                            assert(no_meta_in(lines@.take(k as int)));
                            assert(meta_is_first(m, lines@));
                        }
                        meta = Option::Some(m);
                    }
                },
                Option::Some(RecordingLineV1::Input(e)) => {
                    proof {
                        assert(tv == spec_input_line(e.t as nat, e.data@));
                        assert(is_input_record(tv));
                        assert(!is_meta_record(tv)) by {
                            if is_meta_record(tv) {
                                let (sv, ca, pr, pe, cw) = choose|
                                    sv: u32,
                                    ca: u64,
                                    pr: Seq<char>,
                                    pe: Seq<char>,
                                    cw: Option<Seq<char>>,
                                | tv == spec_meta_line_v(sv, ca, pr, pe, cw);
                                lemma_record_kinds_distinct(sv, ca, pr, pe, cw, e.t, e.data@);
                            }
                        }
                        assert(meta is None ==> no_meta_in(lines@.take(k + 1))) by {
                            if meta is None {
                                assert forall|x: int|
                                    0 <= x < k + 1 implies !is_meta_record(
                                    crate::text::trimmed(#[trigger] lines@.take(k + 1)[x]@),
                                ) by {
                                    assert(lines@.take(k + 1)[x] == lines@[x]);
                                    if x < k as int {
                                        assert(lines@.take(k as int)[x] == lines@[x]);
                                        assert(!is_meta_record(
                                            crate::text::trimmed(lines@.take(k as int)[x]@),
                                        ));
                                    }
                                }
                            }
                        }
                    }
                    events.push(e);
                },
                Option::None => {
                    proof {
                        // Completeness of the parser: this line is
                        // neither blank nor a canonical record.
                        assert(line_is_bad(lines@, k as int));
                    }
                    return Result::Err(crate::errors::PtyError::SerializationFailure);
                },
            }
        } else {
            proof {
                assert(tv.len() == 0);
                lemma_record_nonempty(tv);
                assert(!is_input_record(tv) && !is_meta_record(tv));
            }
        }
        proof {
            assert(meta is None ==> no_meta_in(lines@.take(k + 1))) by {
                if meta is None {
                    assert forall|x: int|
                        0 <= x < k + 1 implies !is_meta_record(
                        crate::text::trimmed(#[trigger] lines@.take(k + 1)[x]@),
                    ) by {
                        assert(lines@.take(k + 1)[x] == lines@[x]);
                        if x < k as int {
                            assert(lines@.take(k as int)[x] == lines@[x]);
                            assert(!is_meta_record(
                                crate::text::trimmed(lines@.take(k as int)[x]@),
                            ));
                        } else {
                            assert(!is_meta_record(tv));
                        }
                    }
                }
            }
            assert forall|x: int| 0 <= x < events@.len() implies spec_input_line(
                (#[trigger] events@[x]).t as nat,
                events@[x].data@,
            ) == input_record_texts(lines@.take(k + 1))[x] by {
                if is_input_record(tv) {
                    assert(input_record_texts(lines@.take(k + 1)) == input_record_texts(
                        lines@.take(k as int),
                    ).push(tv));
                } else {
                    assert(input_record_texts(lines@.take(k + 1)) == input_record_texts(
                        lines@.take(k as int),
                    ));
                }
            }
        }
        k = k + 1;
    }
    proof {
        assert(lines@.take(lines@.len() as int) =~= lines@);
    }
    let ghost evs = events@;
    let ghost gmeta = meta;
    let res = LoadedRecordingV1 { recording_id: safe_id, meta, events };
    proof {
        assert(res.events@ == evs && res.meta == gmeta);
        assert forall|x: int| 0 <= x < res.events@.len() implies spec_input_line(
            (#[trigger] res.events@[x]).t as nat,
            res.events@[x].data@,
        ) == input_record_texts(lines@)[x] by {
            assert(res.events@[x] == evs[x]);
            assert(spec_input_line((evs[x]).t as nat, evs[x].data@) == input_record_texts(
                lines@,
            )[x]);
        }
        assert(res.meta is None <==> no_meta_in(lines@)) by {
            match gmeta {
                Option::Some(m) => {
                    let y = choose|y: int|
                        0 <= y < lines@.len() && crate::text::trimmed(#[trigger] lines@[y]@)
                            == spec_meta_line(m) && no_meta_in(lines@.take(y));
                    assert(is_meta_record(crate::text::trimmed(lines@[y]@)));
                },
                Option::None => {},
            }
        }
        assert(loaded_from_lines(res, recording_id@, lines@));
    }
    Result::Ok(res)
}

} // verus!

//! Streaming UTF-8 decoding for the output pump.
//!
//! PTY output arrives in arbitrary chunks that may split a multi-byte
//! code point. The pump keeps the undecodable tail of each chunk in a
//! carry buffer: complete scalars are decoded exactly, a maximal invalid
//! subpart becomes one U+FFFD replacement character, and a trailing
//! prefix of a valid encoding waits for the next chunk. Flushing at end
//! of stream decodes the leftover lossily, so no byte is ever dropped.
use vstd::prelude::*;
use vstd::utf8::decode_first_scalar;
use vstd::utf8::decode_utf8;
use vstd::utf8::encode_utf8;
use vstd::utf8::length_of_first_scalar;
use vstd::utf8::pop_first_scalar;
use vstd::utf8::take_first_scalar;
use vstd::utf8::valid_first_scalar;
use vstd::utf8::valid_utf8;

verus! {

/// The replacement character emitted for undecodable input.
pub open spec fn replacement() -> char {
    '\u{fffd}'
}

/// True when some continuation of `bytes` begins with a well-formed
/// scalar encoding — that is, `bytes` is a (possibly complete) prefix
/// of one.
pub open spec fn can_extend(bytes: Seq<u8>) -> bool {
    exists|rest: Seq<u8>| valid_first_scalar(bytes + rest)
}

/// Extending a sequence cannot make an unextendable prefix extendable.
pub proof fn lemma_can_extend_monotone(a: Seq<u8>, b: Seq<u8>)
    requires
        !can_extend(a),
    ensures
        !can_extend(a + b),
{
    if can_extend(a + b) {
        let rest = choose|rest: Seq<u8>| valid_first_scalar((a + b) + rest);
        assert((a + b) + rest =~= a + (b + rest));
        assert(valid_first_scalar(a + (b + rest)));
    }
}

/// The width of the maximal subpart at the head of an undecodable
/// sequence: how many bytes one replacement character stands for.
pub open spec fn subpart_len(bytes: Seq<u8>) -> int {
    if bytes.len() >= 2 && can_extend(bytes.take(2)) {
        if bytes.len() >= 3 && can_extend(bytes.take(3)) {
            3
        } else {
            2
        }
    } else {
        1
    }
}

/// The characters a streaming decoder emits for this buffer: decoded
/// scalars and replacement characters, stopping before a trailing
/// prefix of a valid encoding.
pub open spec fn stream_out(bytes: Seq<u8>) -> Seq<char>
    decreases bytes.len(),
{
    if bytes.len() == 0 {
        seq![]
    } else if valid_first_scalar(bytes) {
        seq![decode_first_scalar(bytes) as char] + stream_out(pop_first_scalar(bytes))
    } else if can_extend(bytes) {
        seq![]
    } else {
        seq![replacement()] + stream_out(bytes.skip(subpart_len(bytes)))
    }
}

/// The bytes a streaming decoder keeps for the next chunk: the trailing
/// prefix of a valid encoding, if the buffer ends in one.
pub open spec fn stream_rest(bytes: Seq<u8>) -> Seq<u8>
    decreases bytes.len(),
{
    if bytes.len() == 0 {
        seq![]
    } else if valid_first_scalar(bytes) {
        stream_rest(pop_first_scalar(bytes))
    } else if can_extend(bytes) {
        bytes
    } else {
        stream_rest(bytes.skip(subpart_len(bytes)))
    }
}

/// The characters a final lossy decode emits: as the streaming decode,
/// but an incomplete trailing prefix becomes one replacement character
/// instead of being kept.
pub open spec fn lossy_out(bytes: Seq<u8>) -> Seq<char>
    decreases bytes.len(),
{
    if bytes.len() == 0 {
        seq![]
    } else if valid_first_scalar(bytes) {
        seq![decode_first_scalar(bytes) as char] + lossy_out(pop_first_scalar(bytes))
    } else if can_extend(bytes) {
        seq![replacement()]
    } else {
        seq![replacement()] + lossy_out(bytes.skip(subpart_len(bytes)))
    }
}

/// A well-formed scalar at the head only looks at its own bytes: the
/// first scalar of the buffer equals the first scalar of any extension.
pub proof fn lemma_first_scalar_extend(a: Seq<u8>, b: Seq<u8>)
    requires
        valid_first_scalar(a),
    ensures
        valid_first_scalar(a + b),
        length_of_first_scalar(a + b) == length_of_first_scalar(a),
        decode_first_scalar(a + b) == decode_first_scalar(a),
        pop_first_scalar(a + b) == pop_first_scalar(a) + b,
{
    let c = a + b;
    assert(c[0] == a[0]);
    assert(a.len() >= length_of_first_scalar(a));
    assert(forall|k: int| 0 <= k < a.len() ==> c[k] == a[k]);
    assert(pop_first_scalar(a + b) =~= pop_first_scalar(a) + b);
}

/// A buffer beginning with a well-formed scalar decodes it exactly,
/// whatever follows.
pub proof fn lemma_take_first_scalar(s: Seq<u8>)
    requires
        valid_first_scalar(s),
    ensures
        valid_utf8(take_first_scalar(s)),
        decode_utf8(take_first_scalar(s)) == seq![decode_first_scalar(s) as char],
        encode_utf8(seq![decode_first_scalar(s) as char]) == take_first_scalar(s),
{
    let t = take_first_scalar(s);
    assert(t.len() == length_of_first_scalar(s));
    assert(forall|k: int| 0 <= k < t.len() ==> t[k] == s[k]);
    assert(valid_first_scalar(t));
    assert(length_of_first_scalar(t) == length_of_first_scalar(s));
    assert(decode_first_scalar(t) == decode_first_scalar(s));
    assert(pop_first_scalar(t) =~= Seq::<u8>::empty());
    assert(valid_utf8(Seq::<u8>::empty()));
    assert(valid_utf8(t));
    assert(decode_utf8(Seq::<u8>::empty()) == Seq::<char>::empty());
    assert(decode_utf8(t) == seq![decode_first_scalar(t) as char] + decode_utf8(
        pop_first_scalar(t),
    ));
    assert(decode_utf8(t) =~= seq![decode_first_scalar(s) as char]);
    vstd::utf8::decode_utf8_encode_utf8(t);
}

/// Streaming decode of the concatenation of two buffers equals
/// streaming decode of the first, then of its kept tail joined with the
/// second: chunk boundaries never change what comes out.
pub proof fn lemma_stream_compose(b1: Seq<u8>, b2: Seq<u8>)
    ensures
        stream_out(b1 + b2) == stream_out(b1) + stream_out(stream_rest(b1) + b2),
        stream_rest(b1 + b2) == stream_rest(stream_rest(b1) + b2),
    decreases b1.len(),
{
    let c = b1 + b2;
    if b1.len() == 0 {
        assert(c =~= b2);
        assert(stream_rest(b1) + b2 =~= b2);
        assert(stream_out(b1) + stream_out(b2) =~= stream_out(b2));
    } else if valid_first_scalar(b1) {
        lemma_first_scalar_extend(b1, b2);
        lemma_stream_compose(pop_first_scalar(b1), b2);
        assert(stream_out(c) =~= stream_out(b1) + stream_out(stream_rest(b1) + b2));
    } else if can_extend(b1) {
        assert(stream_rest(b1) == b1);
        assert(stream_out(b1) + stream_out(b1 + b2) =~= stream_out(b1 + b2));
    } else {
        assert(!valid_first_scalar(c)) by {
            if valid_first_scalar(c) {
                assert(valid_first_scalar(b1 + b2));
            }
        }
        lemma_can_extend_monotone(b1, b2);
        let m = subpart_len(b1);
        assert(subpart_len(c) == m) by {
            lemma_subpart_same(b1, b2);
        }
        assert(c.skip(m) =~= b1.skip(m) + b2);
        lemma_stream_compose(b1.skip(m), b2);
        assert(stream_rest(b1) == stream_rest(b1.skip(m)));
        assert(stream_out(c) =~= stream_out(b1) + stream_out(stream_rest(b1) + b2));
    }
}

/// The maximal subpart at the head of an undecodable buffer does not
/// depend on what follows the buffer.
proof fn lemma_subpart_same(b1: Seq<u8>, b2: Seq<u8>)
    requires
        b1.len() > 0,
        !can_extend(b1),
    ensures
        subpart_len(b1 + b2) == subpart_len(b1),
{
    let c = b1 + b2;
    if b1.len() == 1 {
        if c.len() >= 2 {
            let ext = c.take(2).skip(1);
            assert(c.take(2) =~= b1 + ext);
            lemma_can_extend_monotone(b1, ext);
            assert(!can_extend(c.take(2)));
        }
        assert(subpart_len(c) == 1);
        assert(subpart_len(b1) == 1);
    } else if b1.len() == 2 {
        assert(c.take(2) =~= b1);
        assert(b1.take(2) =~= b1);
        assert(subpart_len(c) == 1);
        assert(subpart_len(b1) == 1);
    } else {
        assert(c.take(2) =~= b1.take(2));
        assert(c.take(3) =~= b1.take(3));
    }
}

/// A fully valid buffer streams out exactly its UTF-8 decoding and
/// keeps nothing.
pub proof fn lemma_stream_valid(bytes: Seq<u8>)
    requires
        valid_utf8(bytes),
    ensures
        stream_out(bytes) == decode_utf8(bytes),
        stream_rest(bytes) == Seq::<u8>::empty(),
        lossy_out(bytes) == decode_utf8(bytes),
    decreases bytes.len(),
{
    if bytes.len() == 0 {
        assert(stream_rest(bytes) =~= Seq::<u8>::empty());
    } else {
        lemma_stream_valid(pop_first_scalar(bytes));
    }
}

/// A proper prefix of one scalar's encoding streams out nothing and is
/// kept whole.
pub proof fn lemma_stream_prefix(bytes: Seq<u8>)
    requires
        bytes.len() > 0,
        !valid_first_scalar(bytes),
        can_extend(bytes),
    ensures
        stream_out(bytes) == Seq::<char>::empty(),
        stream_rest(bytes) == bytes,
        lossy_out(bytes) == seq![replacement()],
{
}

/// The lowest second byte the given leading byte accepts.
pub open spec fn cont_lo(b0: u8) -> u8 {
    if b0 == 0xe0 {
        0xa0
    } else if b0 == 0xf0 {
        0x90
    } else {
        0x80
    }
}

/// The highest second byte the given leading byte accepts.
pub open spec fn cont_hi(b0: u8) -> u8 {
    if b0 == 0xed {
        0x9f
    } else if b0 == 0xf4 {
        0x8f
    } else {
        0xbf
    }
}

/// A buffer headed by an ASCII byte begins with that one-byte scalar.
proof fn lemma_head_v1(s: Seq<u8>)
    requires
        s.len() >= 1,
        s[0] < 0x80,
    ensures
        valid_first_scalar(s),
        length_of_first_scalar(s) == 1,
{
    let b0 = s[0];
    assert(((b0 & 0x7f) as u32) < 0x80) by (bit_vector);
}

/// A buffer headed by a two-byte lead and a continuation byte begins
/// with that two-byte scalar.
proof fn lemma_head_v2(s: Seq<u8>)
    requires
        s.len() >= 2,
        0xc2 <= s[0] <= 0xdf,
        0x80 <= s[1] <= 0xbf,
    ensures
        valid_first_scalar(s),
        length_of_first_scalar(s) == 2,
{
    let b0 = s[0];
    let b1 = s[1];
    assert(0x80 <= ((((b0 & 0x1f) as u32) << 6) | ((b1 & 0x3f) as u32)) <= 0x7ff) by (bit_vector)
        requires
            0xc2 <= b0 <= 0xdf && 0x80 <= b1 <= 0xbf,
    ;
}

/// A buffer headed by a three-byte lead, an in-range second byte and a
/// continuation byte begins with that three-byte scalar.
proof fn lemma_head_v3(s: Seq<u8>)
    requires
        s.len() >= 3,
        0xe0 <= s[0] <= 0xef,
        cont_lo(s[0]) <= s[1] <= cont_hi(s[0]),
        0x80 <= s[1] <= 0xbf,
        0x80 <= s[2] <= 0xbf,
    ensures
        valid_first_scalar(s),
        length_of_first_scalar(s) == 3,
{
    let b0 = s[0];
    let b1 = s[1];
    let b2 = s[2];
    let cp = ((((b0 & 0x0f) as u32) << 12) | (((b1 & 0x3f) as u32) << 6)) | ((b2 & 0x3f) as u32);
    assert(0x800 <= cp <= 0xffff && !(0xd800 <= cp <= 0xdfff)) by (bit_vector)
        requires
            cp == ((((b0 & 0x0f) as u32) << 12) | (((b1 & 0x3f) as u32) << 6)) | ((b2
                & 0x3f) as u32),
            0xe0 <= b0 <= 0xef,
            (b0 == 0xe0 ==> 0xa0 <= b1),
            (b0 == 0xed ==> b1 <= 0x9f),
            0x80 <= b1 <= 0xbf,
            0x80 <= b2 <= 0xbf,
    ;
}

/// A buffer headed by a four-byte lead, an in-range second byte and two
/// continuation bytes begins with that four-byte scalar.
proof fn lemma_head_v4(s: Seq<u8>)
    requires
        s.len() >= 4,
        0xf0 <= s[0] <= 0xf4,
        cont_lo(s[0]) <= s[1] <= cont_hi(s[0]),
        0x80 <= s[1] <= 0xbf,
        0x80 <= s[2] <= 0xbf,
        0x80 <= s[3] <= 0xbf,
    ensures
        valid_first_scalar(s),
        length_of_first_scalar(s) == 4,
{
    let b0 = s[0];
    let b1 = s[1];
    let b2 = s[2];
    let b3 = s[3];
    let cp = (((((b0 & 0x07) as u32) << 18) | (((b1 & 0x3f) as u32) << 12)) | (((b2
        & 0x3f) as u32) << 6)) | ((b3 & 0x3f) as u32);
    assert(0x10000 <= cp <= 0x10ffff) by (bit_vector)
        requires
            cp == (((((b0 & 0x07) as u32) << 18) | (((b1 & 0x3f) as u32) << 12)) | (((b2
                & 0x3f) as u32) << 6)) | ((b3 & 0x3f) as u32),
            0xf0 <= b0 <= 0xf4,
            (b0 == 0xf0 ==> 0x90 <= b1),
            (b0 == 0xf4 ==> b1 <= 0x8f),
            0x80 <= b1 <= 0xbf,
            0x80 <= b2 <= 0xbf,
            0x80 <= b3 <= 0xbf,
    ;
}

/// No scalar encoding starts with a continuation byte, an overlong
/// two-byte lead, or a byte past the last four-byte lead.
proof fn lemma_bad_lead_valid(t: Seq<u8>)
    requires
        t.len() >= 1,
        (0x80 <= t[0] <= 0xc1) || 0xf5 <= t[0],
    ensures
        !valid_first_scalar(t),
{
    let b0 = t[0];
    if valid_first_scalar(t) {
        if 0xc0 <= b0 <= 0xc1 {
            let b1 = t[1];
            assert((((b0 & 0x1f) as u32) << 6 | ((b1 & 0x3f) as u32)) < 0x80) by (bit_vector)
                requires
                    0xc0 <= b0 <= 0xc1,
            ;
        } else if 0xf5 <= b0 <= 0xf7 {
            let b1 = t[1];
            let b2 = t[2];
            let b3 = t[3];
            assert((((((b0 & 0x07) as u32) << 18) | (((b1 & 0x3f) as u32) << 12)) | (((b2
                & 0x3f) as u32) << 6)) | ((b3 & 0x3f) as u32) > 0x10ffff) by (bit_vector)
                requires
                    0xf5 <= b0 <= 0xf7,
            ;
        }
    }
}

/// A buffer headed by such a byte cannot be extended into a scalar.
proof fn lemma_bad_lead(s: Seq<u8>)
    requires
        s.len() >= 1,
        (0x80 <= s[0] <= 0xc1) || 0xf5 <= s[0],
    ensures
        !valid_first_scalar(s),
        !can_extend(s),
{
    lemma_bad_lead_valid(s);
    assert forall|rest: Seq<u8>| !valid_first_scalar(s + rest) by {
        lemma_bad_lead_valid(s + rest);
    }
}

/// A multi-byte lead followed by an out-of-range second byte cannot be
/// extended into a scalar.
proof fn lemma_bad_second_valid(t: Seq<u8>)
    requires
        t.len() >= 2,
        0xc2 <= t[0] <= 0xf4,
        !(cont_lo(t[0]) <= t[1] <= cont_hi(t[0])),
    ensures
        !valid_first_scalar(t),
{
    let b0 = t[0];
    let b1 = t[1];
    if valid_first_scalar(t) {
        assert(0x80 <= b1 <= 0xbf);
        if b0 == 0xe0 {
            let b2 = t[2];
            assert(((((b0 & 0x0f) as u32) << 12) | (((b1 & 0x3f) as u32) << 6)) | ((b2
                & 0x3f) as u32) < 0x800) by (bit_vector)
                requires
                    b0 == 0xe0 && 0x80 <= b1 <= 0x9f,
            ;
        } else if b0 == 0xed {
            let b2 = t[2];
            let cp = ((((b0 & 0x0f) as u32) << 12) | (((b1 & 0x3f) as u32) << 6)) | ((b2
                & 0x3f) as u32);
            assert(0xd800 <= cp <= 0xdfff) by (bit_vector)
                requires
                    cp == ((((b0 & 0x0f) as u32) << 12) | (((b1 & 0x3f) as u32) << 6)) | ((b2
                        & 0x3f) as u32),
                    b0 == 0xed && 0xa0 <= b1 <= 0xbf,
            ;
        } else if b0 == 0xf0 {
            let b2 = t[2];
            let b3 = t[3];
            assert((((((b0 & 0x07) as u32) << 18) | (((b1 & 0x3f) as u32) << 12)) | (((b2
                & 0x3f) as u32) << 6)) | ((b3 & 0x3f) as u32) < 0x10000) by (bit_vector)
                requires
                    b0 == 0xf0 && 0x80 <= b1 <= 0x8f,
            ;
        } else if b0 == 0xf4 {
            let b2 = t[2];
            let b3 = t[3];
            assert((((((b0 & 0x07) as u32) << 18) | (((b1 & 0x3f) as u32) << 12)) | (((b2
                & 0x3f) as u32) << 6)) | ((b3 & 0x3f) as u32) > 0x10ffff) by (bit_vector)
                requires
                    b0 == 0xf4 && 0x90 <= b1 <= 0xbf,
            ;
        }
    }
}

/// And so a buffer with that head keeps no decodable future.
proof fn lemma_bad_second(s: Seq<u8>)
    requires
        s.len() >= 2,
        0xc2 <= s[0] <= 0xf4,
        !(cont_lo(s[0]) <= s[1] <= cont_hi(s[0])),
    ensures
        !valid_first_scalar(s),
        !can_extend(s),
{
    lemma_bad_second_valid(s);
    assert forall|rest: Seq<u8>| !valid_first_scalar(s + rest) by {
        lemma_bad_second_valid(s + rest);
    }
}

/// A three- or four-byte lead with a good second byte but a broken
/// third byte cannot be extended into a scalar.
proof fn lemma_bad_third_valid(t: Seq<u8>)
    requires
        t.len() >= 3,
        0xe0 <= t[0] <= 0xf4,
        cont_lo(t[0]) <= t[1] <= cont_hi(t[0]),
        !(0x80 <= t[2] <= 0xbf),
    ensures
        !valid_first_scalar(t),
{
}

/// And so a buffer with that head keeps no decodable future.
proof fn lemma_bad_third(s: Seq<u8>)
    requires
        s.len() >= 3,
        0xe0 <= s[0] <= 0xf4,
        cont_lo(s[0]) <= s[1] <= cont_hi(s[0]),
        !(0x80 <= s[2] <= 0xbf),
    ensures
        !valid_first_scalar(s),
        !can_extend(s),
{
    lemma_bad_third_valid(s);
    assert forall|rest: Seq<u8>| !valid_first_scalar(s + rest) by {
        lemma_bad_third_valid(s + rest);
    }
}

/// A four-byte lead with three good bytes but a broken fourth cannot be
/// extended into a scalar.
proof fn lemma_bad_fourth_valid(t: Seq<u8>)
    requires
        t.len() >= 4,
        0xf0 <= t[0] <= 0xf4,
        cont_lo(t[0]) <= t[1] <= cont_hi(t[0]),
        0x80 <= t[2] <= 0xbf,
        !(0x80 <= t[3] <= 0xbf),
    ensures
        !valid_first_scalar(t),
{
}

/// And so a buffer with that head keeps no decodable future.
proof fn lemma_bad_fourth(s: Seq<u8>)
    requires
        s.len() >= 4,
        0xf0 <= s[0] <= 0xf4,
        cont_lo(s[0]) <= s[1] <= cont_hi(s[0]),
        0x80 <= s[2] <= 0xbf,
        !(0x80 <= s[3] <= 0xbf),
    ensures
        !valid_first_scalar(s),
        !can_extend(s),
{
    lemma_bad_fourth_valid(s);
    assert forall|rest: Seq<u8>| !valid_first_scalar(s + rest) by {
        lemma_bad_fourth_valid(s + rest);
    }
}

/// A lone multi-byte lead in range is a prefix of some scalar encoding.
proof fn lemma_ext_after_lead(s: Seq<u8>)
    requires
        s.len() >= 1,
        0xc2 <= s[0] <= 0xf4,
    ensures
        can_extend(s.take(1)),
    decreases 0int,
{
    let b0 = s[0];
    let p = s.take(1);
    if b0 <= 0xdf {
        let w = p + seq![0x80u8];
        lemma_head_v2(w);
        assert(can_extend(p));
    } else if b0 <= 0xef {
        let w = p + seq![cont_lo(b0), 0x80u8];
        assert(w[1] == cont_lo(b0) && w[2] == 0x80);
        lemma_head_v3(w);
        assert(can_extend(p));
    } else {
        let w = p + seq![cont_lo(b0), 0x80u8, 0x80u8];
        lemma_head_v4(w);
        assert(can_extend(p));
    }
}

/// A long lead plus one in-range second byte is a prefix of some scalar
/// encoding.
proof fn lemma_ext_after_two(s: Seq<u8>)
    requires
        s.len() >= 2,
        0xe0 <= s[0] <= 0xf4,
        cont_lo(s[0]) <= s[1] <= cont_hi(s[0]),
    ensures
        can_extend(s.take(2)),
{
    let p = s.take(2);
    if s[0] <= 0xef {
        let w = p + seq![0x80u8];
        lemma_head_v3(w);
        assert(can_extend(p));
    } else {
        let w = p + seq![0x80u8, 0x80u8];
        lemma_head_v4(w);
        assert(can_extend(p));
    }
}

/// A four-byte lead plus two good bytes is a prefix of some scalar
/// encoding.
proof fn lemma_ext_after_three(s: Seq<u8>)
    requires
        s.len() >= 3,
        0xf0 <= s[0] <= 0xf4,
        cont_lo(s[0]) <= s[1] <= cont_hi(s[0]),
        0x80 <= s[2] <= 0xbf,
    ensures
        can_extend(s.take(3)),
{
    let p = s.take(3);
    let w = p + seq![0x80u8];
    lemma_head_v4(w);
    assert(can_extend(p));
}

/// What the head of the pump's buffer is: a complete scalar of the
/// given width, a prefix that needs more input, or a maximal invalid
/// subpart of the given width.
pub enum HeadClass {
    Complete(usize),
    NeedsMore,
    Bad(usize),
}

/// Classifies the first scalar (or error) at offset `i` of the buffer.
fn classify_head(buf: &Vec<u8>, i: usize) -> (r: HeadClass)
    requires
        i < buf@.len(),
    ensures
        match r {
            HeadClass::Complete(l) => valid_first_scalar(buf@.skip(i as int)) && l
                == length_of_first_scalar(buf@.skip(i as int)) && i + l <= buf@.len(),
            HeadClass::NeedsMore => !valid_first_scalar(buf@.skip(i as int)) && can_extend(
                buf@.skip(i as int),
            ),
            HeadClass::Bad(m) => !valid_first_scalar(buf@.skip(i as int)) && !can_extend(
                buf@.skip(i as int),
            ) && m == subpart_len(buf@.skip(i as int)) && 1 <= m && i + m <= buf@.len(),
        },
{
    let ghost s = buf@.skip(i as int);
    let n = buf.len();
    let b0 = buf[i];
    proof {
        assert(s[0] == b0);
        assert(forall|k: int| 0 <= k < s.len() ==> s[k] == buf@[i + k]);
    }
    if b0 < 0x80 {
        proof {
            lemma_head_v1(s);
        }
        return HeadClass::Complete(1);
    }
    if b0 < 0xc2 || b0 >= 0xf5 {
        proof {
            lemma_bad_lead(s);
            if s.len() >= 2 {
                assert(s.take(2) =~= s.take(1) + seq![s[1]]);
                assert(s.take(1) =~= seq![s[0]]);
                lemma_bad_lead(s.take(1));
                lemma_can_extend_monotone(s.take(1), seq![s[1]]);
            }
        }
        return HeadClass::Bad(1);
    }
    // A two-, three- or four-byte lead; how many bytes it needs.
    let need: usize = if b0 < 0xe0 {
        2
    } else if b0 < 0xf0 {
        3
    } else {
        4
    };
    if i + 1 >= n {
        proof {
            lemma_ext_after_lead(s);
            assert(s.take(1) =~= s);
            assert(!valid_first_scalar(s));
        }
        return HeadClass::NeedsMore;
    }
    let b1 = buf[i + 1];
    let lo: u8 = if b0 == 0xe0 {
        0xa0
    } else if b0 == 0xf0 {
        0x90
    } else {
        0x80
    };
    let hi: u8 = if b0 == 0xed {
        0x9f
    } else if b0 == 0xf4 {
        0x8f
    } else {
        0xbf
    };
    proof {
        assert(s[1] == b1 && lo == cont_lo(b0) && hi == cont_hi(b0));
    }
    if !(lo <= b1 && b1 <= hi) {
        proof {
            lemma_bad_second(s);
            assert(s.take(2)[0] == s[0] && s.take(2)[1] == s[1] && s.take(2).len() == 2);
            lemma_bad_second_valid(s.take(2));
            assert forall|rest: Seq<u8>| !valid_first_scalar(s.take(2) + rest) by {
                assert((s.take(2) + rest)[0] == s[0] && (s.take(2) + rest)[1] == s[1]);
                lemma_bad_second_valid(s.take(2) + rest);
            }
            assert(!can_extend(s.take(2)));
        }
        return HeadClass::Bad(1);
    }
    if need == 2 {
        proof {
            lemma_head_v2(s);
        }
        return HeadClass::Complete(2);
    }
    if i + 2 >= n {
        proof {
            lemma_ext_after_two(s);
            assert(s.take(2) =~= s);
            assert(!valid_first_scalar(s)) by {
                if valid_first_scalar(s) {
                    assert(s.len() >= 3);
                }
            }
        }
        return HeadClass::NeedsMore;
    }
    let b2 = buf[i + 2];
    proof {
        assert(s[2] == b2);
    }
    if !(0x80 <= b2 && b2 <= 0xbf) {
        proof {
            lemma_bad_third(s);
            lemma_ext_after_two(s);
            assert(s.take(3)[0] == s[0] && s.take(3)[1] == s[1] && s.take(3)[2] == s[2] && s.take(
                3,
            ).len() == 3);
            assert forall|rest: Seq<u8>| !valid_first_scalar(s.take(3) + rest) by {
                let t = s.take(3) + rest;
                assert(t[0] == s[0] && t[1] == s[1] && t[2] == s[2] && t.len() >= 3);
                lemma_bad_third_valid(t);
            }
            assert(!can_extend(s.take(3)));
            assert(subpart_len(s) == 2);
        }
        return HeadClass::Bad(2);
    }
    if need == 3 {
        proof {
            lemma_head_v3(s);
        }
        return HeadClass::Complete(3);
    }
    if i + 3 >= n {
        proof {
            lemma_ext_after_three(s);
            assert(s.take(3) =~= s);
            assert(!valid_first_scalar(s)) by {
                if valid_first_scalar(s) {
                    assert(s.len() >= 4);
                }
            }
        }
        return HeadClass::NeedsMore;
    }
    let b3 = buf[i + 3];
    proof {
        assert(s[3] == b3);
    }
    if !(0x80 <= b3 && b3 <= 0xbf) {
        proof {
            lemma_bad_fourth(s);
            lemma_ext_after_two(s);
            lemma_ext_after_three(s);
            assert(subpart_len(s) == 3);
        }
        return HeadClass::Bad(3);
    }
    proof {
        lemma_head_v4(s);
    }
    HeadClass::Complete(4)
}

/// UTF-8 encoding distributes over concatenation.
pub proof fn lemma_encode_utf8_concat(a: Seq<char>, b: Seq<char>)
    ensures
        encode_utf8(a + b) == encode_utf8(a) + encode_utf8(b),
    decreases a.len(),
{
    if a.len() == 0 {
        assert(a + b =~= b);
        assert(encode_utf8(a) + encode_utf8(b) =~= encode_utf8(b));
    } else {
        assert((a + b).len() > 0 && (a + b)[0] == a[0]);
        assert((a + b).drop_first() =~= a.drop_first() + b);
        lemma_encode_utf8_concat(a.drop_first(), b);
        assert(vstd::utf8::encode_scalar(a[0] as u32) + (encode_utf8(a.drop_first()) + encode_utf8(
            b,
        )) =~= (vstd::utf8::encode_scalar(a[0] as u32) + encode_utf8(a.drop_first())) + encode_utf8(
            b,
        ));
    }
}

/// Appending one character appends its scalar encoding.
proof fn lemma_encode_utf8_snoc(a: Seq<char>, c: char)
    ensures
        encode_utf8(a + seq![c]) == encode_utf8(a) + vstd::utf8::encode_scalar(c as u32),
{
    lemma_encode_utf8_concat(a, seq![c]);
    let single = seq![c];
    assert(single.drop_first() =~= Seq::<char>::empty());
    assert(encode_utf8(single.drop_first()) == Seq::<u8>::empty());
    assert(encode_utf8(single) =~= vstd::utf8::encode_scalar(c as u32));
}

/// The UTF-8 encoding of the replacement character.
proof fn lemma_encode_replacement()
    ensures
        vstd::utf8::encode_scalar(replacement() as u32) == seq![0xefu8, 0xbfu8, 0xbdu8],
{
    let cp = replacement() as u32;
    assert(cp == 0xfffd);
    assert((0xe0u8 | (((0xfffdu32 >> 12) & 0x0f) as u8)) == 0xef && (0x80u8 | (((0xfffdu32 >> 6)
        & 0x3f) as u8)) == 0xbf && (0x80u8 | ((0xfffdu32 & 0x3f) as u8)) == 0xbd) by (bit_vector);
    assert(vstd::utf8::leading_byte_width_3(cp) == 0xef);
    assert(vstd::utf8::second_last_continuation_byte(cp) == 0xbf);
    assert(vstd::utf8::last_continuation_byte(cp) == 0xbd);
    assert(vstd::utf8::encode_scalar(cp) =~= seq![0xefu8, 0xbfu8, 0xbdu8]);
}

/// The kept tail of any buffer is empty or an incomplete prefix of one
/// scalar's encoding.
pub proof fn lemma_stream_rest_shape(bytes: Seq<u8>)
    ensures
        stream_rest(bytes).len() == 0 || (!valid_first_scalar(stream_rest(bytes)) && can_extend(
            stream_rest(bytes),
        )),
    decreases bytes.len(),
{
    if bytes.len() == 0 {
    } else if valid_first_scalar(bytes) {
        lemma_stream_rest_shape(pop_first_scalar(bytes));
    } else if can_extend(bytes) {
    } else {
        lemma_stream_rest_shape(bytes.skip(subpart_len(bytes)));
    }
}

/// The output pump's streaming decoder: feeds arbitrary byte chunks,
/// carries the undecodable tail between chunks, and never corrupts a
/// code point that straddles a chunk boundary.
pub struct Utf8Pump {
    carry: Vec<u8>,
}

impl Utf8Pump {
    /// The bytes carried from the previous chunk.
    pub closed spec fn carry_bytes(self) -> Seq<u8> {
        self.carry@
    }

    /// The carry is empty or an incomplete prefix of one scalar's
    /// encoding.
    pub open spec fn wf(self) -> bool {
        self.carry_bytes().len() == 0 || (!valid_first_scalar(self.carry_bytes()) && can_extend(
            self.carry_bytes(),
        ))
    }

    /// A pump with nothing carried over.
    pub fn new() -> (r: Utf8Pump)
        ensures
            r.wf(),
            r.carry_bytes() == Seq::<u8>::empty(),
    {
        Utf8Pump { carry: Vec::new() }
    }

    /// Decodes one chunk of PTY output: emits every complete scalar and
    /// every maximal invalid subpart (as U+FFFD) of the carry joined
    /// with the chunk, and keeps the undecodable tail for the next
    /// call.
    pub fn feed(&mut self, chunk: &[u8]) -> (out: String)
        ensures
            out@ == stream_out(old(self).carry_bytes() + chunk@),
            final (self).carry_bytes() == stream_rest(old(self).carry_bytes() + chunk@),
            final (self).wf(),
    {
        let mut buf: Vec<u8> = Vec::new();
        core::mem::swap(&mut buf, &mut self.carry);
        let mut j: usize = 0;
        while j < chunk.len()
            invariant
                0 <= j <= chunk@.len(),
                buf@ == old(self).carry_bytes() + chunk@.take(j as int),
            decreases chunk@.len() - j,
        {
            buf.push(chunk[j]);
            proof {
                assert(old(self).carry_bytes() + chunk@.take(j + 1) =~= (old(self).carry_bytes()
                    + chunk@.take(j as int)).push(chunk@[j as int]));
            }
            j = j + 1;
        }
        proof {
            assert(chunk@.take(chunk@.len() as int) =~= chunk@);
        }
        let ghost whole = buf@;
        let n = buf.len();
        let mut out: Vec<u8> = Vec::new();
        let ghost mut chars: Seq<char> = Seq::empty();
        let mut i: usize = 0;
        let mut halt = false;
        proof {
            assert(encode_utf8(chars) =~= Seq::<u8>::empty());
            assert(whole.skip(0) =~= whole);
        }
        while i < n && !halt
            invariant
                0 <= i <= n,
                n == whole.len(),
                buf@ == whole,
                out@ == encode_utf8(chars),
                stream_out(whole) == chars + stream_out(whole.skip(i as int)),
                stream_rest(whole) == stream_rest(whole.skip(i as int)),
                halt ==> stream_out(whole.skip(i as int)) == Seq::<char>::empty() && stream_rest(
                    whole.skip(i as int),
                ) == whole.skip(i as int),
            decreases n - i, (if halt {
                0int
            } else {
                1int
            }),
        {
            let ghost s = whole.skip(i as int);
            match classify_head(&buf, i) {
                HeadClass::Complete(l) => {
                    let ghost c = decode_first_scalar(s) as char;
                    let ghost pre_out = out@;
                    let mut t: usize = 0;
                    while t < l
                        invariant
                            0 <= t <= l,
                            i + l <= n,
                            n == whole.len(),
                            buf@ == whole,
                            out@ == pre_out + whole.subrange(i as int, i + t),
                        decreases l - t,
                    {
                        out.push(buf[i + t]);
                        proof {
                            assert(pre_out + whole.subrange(i as int, i + t + 1) =~= (pre_out
                                + whole.subrange(i as int, i + t)).push(whole[i + t]));
                        }
                        t = t + 1;
                    }
                    proof {
                        lemma_take_first_scalar(s);
                        assert(take_first_scalar(s) =~= whole.subrange(i as int, i + l));
                        lemma_encode_utf8_snoc(chars, c);
                        assert(seq![c].drop_first() =~= Seq::<char>::empty());
                        assert(encode_utf8(Seq::<char>::empty()) == Seq::<u8>::empty());
                        assert(encode_utf8(seq![c]) == vstd::utf8::encode_scalar(c as u32)
                            + encode_utf8(seq![c].drop_first()));
                        assert(vstd::utf8::encode_scalar(c as u32) + Seq::<u8>::empty()
                            =~= vstd::utf8::encode_scalar(c as u32));
                        assert(vstd::utf8::encode_scalar(c as u32) == take_first_scalar(s));
                        chars = chars + seq![c];
                        assert(out@ =~= encode_utf8(chars));
                        assert(pop_first_scalar(s) =~= whole.skip(i + l));
                        assert(stream_out(s) == seq![c] + stream_out(whole.skip(i + l)));
                        assert(chars + stream_out(whole.skip(i + l)) =~= (chars.drop_last()
                            + seq![c]) + stream_out(whole.skip(i + l)));
                        assert(stream_out(whole) == chars + stream_out(whole.skip(i + l))) by {
                            assert(chars.drop_last() + (seq![c] + stream_out(whole.skip(i + l)))
                                =~= chars + stream_out(whole.skip(i + l)));
                        }
                        assert(stream_rest(s) == stream_rest(whole.skip(i + l)));
                    }
                    i = i + l;
                },
                HeadClass::NeedsMore => {
                    proof {
                        lemma_stream_prefix(s);
                    }
                    halt = true;
                },
                HeadClass::Bad(m) => {
                    out.push(0xef);
                    out.push(0xbf);
                    out.push(0xbd);
                    proof {
                        lemma_encode_replacement();
                        lemma_encode_utf8_snoc(chars, replacement());
                        chars = chars + seq![replacement()];
                        assert(out@ =~= encode_utf8(chars));
                        assert(s.skip(subpart_len(s)) =~= whole.skip(i + m));
                        assert(stream_out(s) == seq![replacement()] + stream_out(
                            whole.skip(i + m),
                        ));
                        assert(stream_rest(s) == stream_rest(whole.skip(i + m)));
                        assert(stream_out(whole) == chars + stream_out(whole.skip(i + m))) by {
                            assert(chars.drop_last() + (seq![replacement()] + stream_out(
                                whole.skip(i + m),
                            )) =~= chars + stream_out(whole.skip(i + m)));
                        }
                    }
                    i = i + m;
                },
            }
        }
        proof {
            if !halt {
                assert(whole.skip(n as int) =~= Seq::<u8>::empty());
                assert(stream_out(Seq::<u8>::empty()) == Seq::<char>::empty());
                assert(stream_rest(Seq::<u8>::empty()) =~= Seq::<u8>::empty());
            }
            assert(stream_out(whole) =~= chars);
            vstd::utf8::encode_utf8_valid_utf8(chars);
        }
        let mut new_carry: Vec<u8> = Vec::new();
        let mut p: usize = i;
        while p < n
            invariant
                i <= p <= n,
                n == whole.len(),
                buf@ == whole,
                new_carry@ == whole.subrange(i as int, p as int),
            decreases n - p,
        {
            new_carry.push(buf[p]);
            proof {
                assert(whole.subrange(i as int, p + 1) =~= whole.subrange(i as int, p as int).push(
                    whole[p as int],
                ));
            }
            p = p + 1;
        }
        proof {
            assert(new_carry@ =~= whole.skip(i as int));
        }
        self.carry = new_carry;
        let r = crate::text::string_from_utf8(out);
        proof {
            crate::text::lemma_encode_utf8_injective(r@, chars);
            lemma_stream_rest_shape(whole);
        }
        r
    }

    /// Flushes the carry at end of stream: an incomplete trailing
    /// prefix is decoded lossily into one replacement character, so no
    /// byte is ever dropped silently.
    pub fn finish(&mut self) -> (out: String)
        requires
            old(self).wf(),
        ensures
            out@ == lossy_out(old(self).carry_bytes()),
            final (self).carry_bytes() == Seq::<u8>::empty(),
            final (self).wf(),
    {
        proof {
            reveal_strlit("\u{fffd}");
        }
        if self.carry.len() == 0 {
            proof {
                assert(lossy_out(old(self).carry_bytes()) == Seq::<char>::empty());
            }
            let r = String::new();
            return r;
        }
        self.carry = Vec::new();
        proof {
            lemma_stream_prefix(old(self).carry_bytes());
            assert("\u{fffd}"@ =~= seq![replacement()]);
        }
        String::from_str("\u{fffd}")
    }
}

/// One scalar's encoding, split anywhere across two chunks, decodes to
/// exactly that character: the first part is carried whole, and joining
/// it with the second part emits the character and never a replacement.
pub proof fn lemma_split_scalar_exact(c: char, k: int)
    requires
        0 < k < encode_utf8(seq![c]).len(),
    ensures
        stream_out(encode_utf8(seq![c]).take(k)) == Seq::<char>::empty(),
        stream_rest(encode_utf8(seq![c]).take(k)) == encode_utf8(seq![c]).take(k),
        stream_out(encode_utf8(seq![c]).take(k) + encode_utf8(seq![c]).skip(k)) == seq![c],
        stream_rest(encode_utf8(seq![c]).take(k) + encode_utf8(seq![c]).skip(k)) == Seq::<
            u8,
        >::empty(),
{
    let enc = encode_utf8(seq![c]);
    let head = enc.take(k);
    vstd::utf8::encode_utf8_valid_utf8(seq![c]);
    vstd::utf8::encode_utf8_decode_utf8(seq![c]);
    assert(valid_first_scalar(enc));
    assert(decode_utf8(pop_first_scalar(enc)) =~= Seq::<char>::empty());
    assert(pop_first_scalar(enc).len() == 0) by {
        if pop_first_scalar(enc).len() > 0 {
            assert(decode_utf8(pop_first_scalar(enc)).len() > 0);
        }
    }
    assert(length_of_first_scalar(enc) == enc.len());
    assert(can_extend(head)) by {
        assert(head + enc.skip(k) =~= enc);
        assert(valid_first_scalar(head + enc.skip(k)));
    }
    assert(!valid_first_scalar(head)) by {
        assert(head[0] == enc[0]);
        if valid_first_scalar(head) {
            assert(length_of_first_scalar(head) == length_of_first_scalar(enc));
            assert(head.len() >= length_of_first_scalar(head));
        }
    }
    lemma_stream_prefix(head);
    lemma_stream_compose(head, enc.skip(k));
    assert(head + enc.skip(k) =~= enc);
    lemma_stream_valid(enc);
    assert(decode_utf8(enc) =~= seq![c]);
    assert(stream_rest(head) + enc.skip(k) =~= enc);
    assert(Seq::<char>::empty() + stream_out(enc) =~= stream_out(enc));
}

/// A byte that can begin no scalar, followed by well-formed text,
/// decodes to exactly one replacement character and then that text: the
/// valid portion is never lost.
pub proof fn lemma_bad_byte_then_text(b: u8, tail: Seq<u8>)
    requires
        (0x80 <= b <= 0xc1) || 0xf5 <= b,
        valid_utf8(tail),
    ensures
        stream_out(seq![b] + tail) == seq![replacement()] + decode_utf8(tail),
        stream_rest(seq![b] + tail) == Seq::<u8>::empty(),
{
    let s = seq![b] + tail;
    assert(s[0] == b);
    lemma_bad_lead(s);
    if s.len() >= 2 {
        assert(s.take(2)[0] == b && s.take(2).len() == 2);
        lemma_bad_lead(s.take(2));
    }
    assert(subpart_len(s) == 1);
    assert(s.skip(1) =~= tail);
    lemma_stream_valid(tail);
}

} // verus!

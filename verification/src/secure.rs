//! The encrypted-value tagging of the secure-storage boundary.
//!
//! At-rest encryption itself is a collaborator outside this core; the
//! library only defines how an encrypted field is recognized and which
//! associated-data label each context binds its ciphertexts to.
use vstd::prelude::*;
use vstd::utf8::encode_utf8;
use crate::text::is_space_char;
use crate::text::char_is_space;
use crate::text::trim_start_rec;
use crate::text::lemma_trim_start_at;

verus! {

/// What kind of secret a ciphertext protects; each kind authenticates
/// under its own associated-data label.
pub enum SecretContext {
    State,
    Recording,
}

impl SecretContext {
    /// The associated-data label of this context.
    pub open spec fn spec_aad(self) -> Seq<char> {
        match self {
            SecretContext::State => "agents-ui/state/v1"@,
            SecretContext::Recording => "agents-ui/recording/v1"@,
        }
    }

    /// The associated-data label bound into every ciphertext of this
    /// context.
    pub fn aad(&self) -> (r: &'static str)
        ensures
            r@ == self.spec_aad(),
    {
        match self {
            SecretContext::State => "agents-ui/state/v1",
            SecretContext::Recording => "agents-ui/recording/v1",
        }
    }
}

/// True when a stored field holds a ciphertext: after leading
/// whitespace it begins with the encrypted-value tag.
pub open spec fn spec_is_encrypted_value(s: Seq<char>) -> bool {
    let t = trim_start_rec(s);
    t.len() >= 7 && t.subrange(0, 7) == "enc:v1:"@
}

/// Whether a stored field holds a ciphertext rather than plain text.
pub fn is_encrypted_value(value: &str) -> (r: bool)
    ensures
        r == spec_is_encrypted_value(value@),
{
    proof {
        reveal_strlit("enc:v1:");
    }
    let n = value.unicode_len();
    let mut i: usize = 0;
    while i < n && char_is_space(value.get_char(i))
        invariant
            0 <= i <= n,
            n == value@.len(),
            forall|k: int| 0 <= k < i ==> is_space_char(#[trigger] value@[k]),
        decreases n - i,
    {
        i = i + 1;
    }
    proof {
        lemma_trim_start_at(value@, i as int);
    }
    let ghost t = value@.subrange(i as int, n as int);
    if n - i < 7 {
        return false;
    }
    let r = value.get_char(i) == 'e' && value.get_char(i + 1) == 'n' && value.get_char(i + 2)
        == 'c' && value.get_char(i + 3) == ':' && value.get_char(i + 4) == 'v' && value.get_char(
        i + 5,
    ) == '1' && value.get_char(i + 6) == ':';
    proof {
        reveal_strlit("enc:v1:");
        assert("enc:v1:"@.len() == 7);
        assert(t.len() == n - i);
        assert(t[0] == value@[i as int] && t[1] == value@[i + 1] && t[2] == value@[i + 2] && t[3]
            == value@[i + 3] && t[4] == value@[i + 4] && t[5] == value@[i + 5] && t[6] == value@[i
            + 6]);
        if r {
            assert(t.subrange(0, 7) =~= "enc:v1:"@);
        } else {
            if t.subrange(0, 7) == "enc:v1:"@ {
                assert(t.subrange(0, 7)[0] == t[0] && t.subrange(0, 7)[1] == t[1] && t.subrange(
                    0,
                    7,
                )[2] == t[2] && t.subrange(0, 7)[3] == t[3] && t.subrange(0, 7)[4] == t[4]
                    && t.subrange(0, 7)[5] == t[5] && t.subrange(0, 7)[6] == t[6]);
                assert(false);
            }
        }
    }
    r
}

} // verus!

//! Decimal rendering of counters.
//!
//! Session ids are allocated as monotonically increasing integers and
//! shown as their decimal strings; recording events carry decimal
//! timestamps. `dec_str` is the mathematical form of that rendering and
//! is injective, which is what makes string ids unique.
use vstd::prelude::*;

verus! {

/// The ASCII digit character for one decimal digit.
pub open spec fn digit_char(d: int) -> char
    recommends
        0 <= d < 10,
{
    if d == 0 {
        '0'
    } else if d == 1 {
        '1'
    } else if d == 2 {
        '2'
    } else if d == 3 {
        '3'
    } else if d == 4 {
        '4'
    } else if d == 5 {
        '5'
    } else if d == 6 {
        '6'
    } else if d == 7 {
        '7'
    } else if d == 8 {
        '8'
    } else {
        '9'
    }
}

/// The decimal rendering of `n`, most significant digit first, with no
/// leading zeros (except for `n == 0` itself).
pub open spec fn dec_str(n: nat) -> Seq<char>
    decreases n,
{
    if n < 10 {
        seq![digit_char(n as int)]
    } else {
        dec_str(n / 10).push(digit_char((n % 10) as int))
    }
}

/// A decimal rendering is never empty and ends in the digit of `n % 10`.
pub proof fn lemma_dec_str_shape(n: nat)
    ensures
        dec_str(n).len() >= 1,
        dec_str(n).last() == digit_char((n % 10) as int),
        n < 10 ==> dec_str(n).len() == 1,
        n >= 10 ==> dec_str(n).drop_last() == dec_str(n / 10),
    decreases n,
{
    if n < 10 {
        assert(n % 10 == n);
    } else {
        lemma_dec_str_shape(n / 10);
        assert(dec_str(n).drop_last() =~= dec_str(n / 10));
    }
}

/// Distinct numbers render to distinct decimal strings.
pub proof fn lemma_dec_str_injective(a: nat, b: nat)
    requires
        a != b,
    ensures
        dec_str(a) != dec_str(b),
    decreases a + b,
{
    lemma_dec_str_shape(a);
    lemma_dec_str_shape(b);
    if a % 10 != b % 10 {
        assert(dec_str(a).last() != dec_str(b).last());
    } else if a < 10 && b < 10 {
        assert(a % 10 == a && b % 10 == b);
    } else if a < 10 {
        assert(dec_str(a).len() == 1 && dec_str(b).len() >= 2);
    } else if b < 10 {
        assert(dec_str(a).len() >= 2 && dec_str(b).len() == 1);
    } else {
        lemma_dec_str_injective(a / 10, b / 10);
        if dec_str(a) == dec_str(b) {
            assert(dec_str(a).drop_last() == dec_str(b).drop_last());
        }
    }
}

/// True of the ten ASCII digit characters.
pub open spec fn is_digit_char(c: char) -> bool {
    0x30 <= c as u32 <= 0x39
}

/// Every character of a decimal rendering is a digit.
pub proof fn lemma_dec_str_digits(n: nat)
    ensures
        forall|k: int| 0 <= k < dec_str(n).len() ==> is_digit_char(#[trigger] dec_str(n)[k]),
    decreases n,
{
    if n < 10 {
        assert(is_digit_char(digit_char(n as int)));
    } else {
        lemma_dec_str_digits(n / 10);
        assert(is_digit_char(digit_char((n % 10) as int)));
        assert forall|k: int| 0 <= k < dec_str(n).len() implies is_digit_char(
            #[trigger] dec_str(n)[k],
        ) by {
            if k < dec_str(n).len() - 1 {
                assert(dec_str(n)[k] == dec_str(n / 10)[k]);
            }
        }
    }
}

/// A decimal rendering starts with `0` exactly for zero itself.
pub proof fn lemma_dec_str_leading(n: nat)
    ensures
        n > 0 ==> dec_str(n)[0] != '0',
        n == 0 ==> dec_str(n) == seq!['0'],
    decreases n,
{
    if n < 10 {
    } else {
        lemma_dec_str_leading(n / 10);
        lemma_dec_str_shape(n / 10);
        assert(dec_str(n)[0] == dec_str(n / 10)[0]);
    }
}

/// A decimal rendering's proper prefix renders a number no larger.
pub proof fn lemma_dec_str_prefix_le(a: nat, v: nat, m: int)
    requires
        1 <= m <= dec_str(v).len(),
        dec_str(a) == dec_str(v).take(m),
    ensures
        a <= v,
    decreases v,
{
    if m == dec_str(v).len() {
        assert(dec_str(v).take(m) =~= dec_str(v));
        if a != v {
            lemma_dec_str_injective(a, v);
        }
    } else {
        lemma_dec_str_shape(v);
        assert(v >= 10) by {
            lemma_dec_str_shape(v);
        }
        assert(dec_str(v).take(m) =~= dec_str(v).drop_last().take(m));
        lemma_dec_str_prefix_le(a, v / 10, m);
    }
}

/// A one-character string for one decimal digit.
pub fn digit_literal(d: u128) -> (r: &'static str)
    requires
        d < 10,
    ensures
        r@ == seq![digit_char(d as int)],
{
    proof {
        reveal_strlit("0");
        reveal_strlit("1");
        reveal_strlit("2");
        reveal_strlit("3");
        reveal_strlit("4");
        reveal_strlit("5");
        reveal_strlit("6");
        reveal_strlit("7");
        reveal_strlit("8");
        reveal_strlit("9");
    }
    let r = if d == 0 {
        "0"
    } else if d == 1 {
        "1"
    } else if d == 2 {
        "2"
    } else if d == 3 {
        "3"
    } else if d == 4 {
        "4"
    } else if d == 5 {
        "5"
    } else if d == 6 {
        "6"
    } else if d == 7 {
        "7"
    } else if d == 8 {
        "8"
    } else {
        "9"
    };
    proof {
        assert(r@ =~= seq![digit_char(d as int)]);
    }
    r
}

/// Renders `n` in decimal.
pub fn dec_string(n: u128) -> (s: String)
    ensures
        s@ == dec_str(n as nat),
    decreases n,
{
    if n < 10 {
        String::from_str(digit_literal(n))
    } else {
        let mut s = dec_string(n / 10);
        s.append(digit_literal(n % 10));
        proof {
            assert(s@ =~= dec_str(n as nat));
        }
        s
    }
}

} // verus!

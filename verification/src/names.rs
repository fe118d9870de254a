//! Name de-duplication for live sessions.
//!
//! A new session asks for a base name; if some live session already
//! holds it, numeric suffixes `base-2`, `base-3`, … are probed in
//! increasing order and the first free candidate wins.
use vstd::prelude::*;
use vstd::set_lib::lemma_len_subset;
use crate::digits::dec_str;
use crate::digits::lemma_dec_str_injective;
use crate::digits::dec_string;

verus! {

/// The character views of a vector of names.
pub open spec fn name_views(names: Seq<String>) -> Seq<Seq<char>> {
    names.map_values(|s: String| s@)
}

/// The `k`-th numbered variant of a base name: `base-k`.
pub open spec fn dash_name(base: Seq<char>, k: nat) -> Seq<char> {
    base + "-"@ + dec_str(k)
}

/// Numbered variants of one base differ whenever their numbers differ.
pub proof fn lemma_dash_name_injective(base: Seq<char>, j: nat, k: nat)
    requires
        j != k,
    ensures
        dash_name(base, j) != dash_name(base, k),
{
    lemma_dec_str_injective(j, k);
    let a = dash_name(base, j);
    let b = dash_name(base, k);
    if a == b {
        let p = (base + "-"@).len() as int;
        assert(a.skip(p) =~= dec_str(j));
        assert(b.skip(p) =~= dec_str(k));
    }
}

/// True when some name in `names` reads `s`.
pub open spec fn name_is_taken(names: Seq<String>, s: Seq<char>) -> bool {
    name_views(names).contains(s)
}

/// Whether any of `names` equals `cand`.
pub fn contains_name(names: &Vec<String>, cand: &String) -> (r: bool)
    ensures
        r == name_is_taken(names@, cand@),
{
    let mut i: usize = 0;
    while i < names.len()
        invariant
            0 <= i <= names@.len(),
            forall|k: int| 0 <= k < i ==> #[trigger] name_views(names@)[k] != cand@,
        decreases names@.len() - i,
    {
        let hit = names[i].eq(cand);
        proof {
            assert(name_views(names@)[i as int] == names@[i as int]@);
        }
        if hit {
            return true;
        }
        i = i + 1;
    }
    false
}

/// Builds the candidate `base-n`.
fn make_dash_name(base: &str, n: u128) -> (r: String)
    ensures
        r@ == dash_name(base@, n as nat),
{
    let mut r = String::from_str(base);
    r.append("-");
    let digits = dec_string(n);
    r.append(digits.as_str());
    r
}

/// Picks a name that no current session holds: the base itself when it
/// is free, otherwise the first free candidate among `base-2`,
/// `base-3`, … in increasing order.
pub fn unique_name(existing: &Vec<String>, base: &str) -> (r: String)
    ensures
        !name_is_taken(existing@, r@),
        !name_is_taken(existing@, base@) ==> r@ == base@,
        name_is_taken(existing@, base@) ==> exists|n: nat|
            2 <= n && r@ == dash_name(base@, n) && (forall|m: nat|
                2 <= m < n ==> name_is_taken(existing@, #[trigger] dash_name(base@, m))),
{
    let base_string = String::from_str(base);
    if !contains_name(existing, &base_string) {
        return base_string;
    }
    let cap: usize = existing.len();
    let mut n: u128 = 2;
    loop
        invariant
            2 <= n,
            cap == existing@.len(),
            n - 2 <= cap as u128,
            name_is_taken(existing@, base@),
            forall|m: nat| 2 <= m < n ==> name_is_taken(existing@, #[trigger] dash_name(base@, m)),
        decreases existing@.len() + 2 - n,
    {
        let cand = make_dash_name(base, n);
        if !contains_name(existing, &cand) {
            proof {
                let w = n as nat;
                assert(r_candidate_ok(existing@, base@, cand@, w));
            }
            return cand;
        }
        proof {
            lemma_probe_bound(existing@, base@, (n + 1) as nat);
        }
        n = n + 1;
    }
}

/// Helper predicate naming the witness for the probe result.
spec fn r_candidate_ok(names: Seq<String>, base: Seq<char>, r: Seq<char>, n: nat) -> bool {
    2 <= n && r == dash_name(base, n) && (forall|m: nat|
        2 <= m < n ==> name_is_taken(names, #[trigger] dash_name(base, m)))
}

/// If every candidate `base-2` … `base-(n-1)` is taken, there are at
/// least `n - 2` names, because distinct candidates need distinct names.
proof fn lemma_probe_bound(names: Seq<String>, base: Seq<char>, n: nat)
    requires
        2 <= n,
        forall|m: nat| 2 <= m < n ==> name_is_taken(names, #[trigger] dash_name(base, m)),
    ensures
        n - 2 <= names.len(),
{
    let cands = Seq::new((n - 2) as nat, |i: int| dash_name(base, (i + 2) as nat));
    assert(cands.no_duplicates()) by {
        assert forall|i: int, j: int| 0 <= i < j < cands.len() implies cands[i] != cands[j] by {
            lemma_dash_name_injective(base, (i + 2) as nat, (j + 2) as nat);
        }
    }
    cands.unique_seq_to_set();
    name_views(names).lemma_cardinality_of_set();
    assert(cands.to_set().subset_of(name_views(names).to_set())) by {
        assert forall|s: Seq<char>| cands.to_set().contains(s) implies name_views(
            names,
        ).to_set().contains(s) by {
            let i = choose|i: int| 0 <= i < cands.len() && cands[i] == s;
            assert(name_is_taken(names, dash_name(base, (i + 2) as nat)));
            let j = choose|j: int|
                0 <= j < name_views(names).len() && name_views(names)[j] == s;
            assert(name_views(names).to_set().contains(name_views(names)[j]));
        }
    }
    vstd::seq_lib::seq_to_set_is_finite(name_views(names));
    lemma_len_subset(cands.to_set(), name_views(names).to_set());
    assert(cands.to_set().len() == cands.len());
}

} // verus!

//! What a pattern means: the slices of a text that belong to its language.
use super::parser::Pattern;
use vstd::prelude::*;

verus! {

/// Names a position or a count inside a quantifier; it holds of every
/// number.
pub open spec fn at(m: int) -> bool {
    true
}

/// The slice of `s` from `i` up to `j` belongs to the language of `p`.
pub open spec fn matches_slice(p: Pattern, s: Seq<char>, i: int, j: int) -> bool
    decreases p, 0nat, 0nat,
{
    0 <= i <= j <= s.len() && match p {
        Pattern::Char(c) => j == i + 1 && s[i] == c,
        Pattern::Sequence(v) => matches_upto(v, v.len(), s, i, j),
        Pattern::Or(l, r) => matches_slice(*l, s, i, j) || matches_slice(*r, s, i, j),
        Pattern::Question(e) => i == j || matches_slice(*e, s, i, j),
        Pattern::Star(e) => exists|n: nat| #[trigger] at(n as int) && matches_times(*e, n, s, i, j),
        Pattern::Plus(e) => exists|n: nat|
            #[trigger] at(n as int) && n >= 1 && matches_times(*e, n, s, i, j),
    }
}

/// The slice of `s` from `i` up to `j` is made of `k` slices, one after the
/// other, that belong to the languages of the first `k` patterns of `v`.
pub open spec fn matches_upto(v: Seq<Pattern>, k: nat, s: Seq<char>, i: int, j: int) -> bool
    decreases v, k, 0nat,
{
    if k == 0 || k > v.len() {
        0 <= i == j <= s.len()
    } else {
        exists|m: int|
            #[trigger] at(m) && matches_upto(v, (k - 1) as nat, s, i, m) && matches_slice(
                v[k - 1],
                s,
                m,
                j,
            )
    }
}

/// The slice of `s` from `i` up to `j` is made of `n` slices, one after the
/// other, that belong to the language of `e`.
pub open spec fn matches_times(e: Pattern, n: nat, s: Seq<char>, i: int, j: int) -> bool
    decreases e, n + 1, 0nat,
{
    if n == 0 {
        0 <= i == j <= s.len()
    } else {
        exists|m: int|
            #[trigger] at(m) && matches_slice(e, s, i, m) && matches_times(e, (n - 1) as nat, s, m, j)
    }
}

/// Some slice of `s` that starts at its first character belongs to the
/// language of `p`.
pub open spec fn matches_prefix(p: Pattern, s: Seq<char>) -> bool {
    exists|j: int| #[trigger] at(j) && matches_slice(p, s, 0, j)
}

/// A slice that matches lies inside the text.
pub proof fn lemma_matches_upto_bounds(v: Seq<Pattern>, k: nat, s: Seq<char>, i: int, j: int)
    requires
        matches_upto(v, k, s, i, j),
    ensures
        0 <= i <= j <= s.len(),
    decreases k,
{
    if k == 0 || k > v.len() {
    } else {
        let m = choose|m: int|
            #[trigger] at(m) && matches_upto(v, (k - 1) as nat, s, i, m) && matches_slice(
                v[k - 1],
                s,
                m,
                j,
            );
        lemma_matches_upto_bounds(v, (k - 1) as nat, s, i, m);
    }
}

} // verus!

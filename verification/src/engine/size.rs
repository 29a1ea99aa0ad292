//! How long the program of a pattern can be: at most two instructions for
//! each character of the text.
use super::codegen::{code_len, code_len_upto};
use super::parser::{
    close, lemma_scan_error_stays, parse_spec, repeat, scan, start, step, Group, Pattern, Scan,
};
use vstd::prelude::*;

verus! {

/// The instructions that an open group stands for so far: those of its
/// atoms, and those of the alternatives closed, with the split and the jump
/// that will join them to what follows.
pub open spec fn group_size(g: Group) -> nat {
    code_len_upto(g.items, g.items.len()) + match g.alts {
        None => 0nat,
        Some(l) => code_len(l) + 2,
    }
}

/// The instructions that the first `k` enclosing groups stand for.
pub open spec fn outer_size(outer: Seq<Group>, k: nat) -> nat
    decreases k,
{
    if k == 0 || k > outer.len() {
        0
    } else {
        outer_size(outer, (k - 1) as nat) + group_size(outer[k - 1])
    }
}

/// The instructions that the state stands for.
pub open spec fn size_read(st: Scan) -> nat {
    outer_size(st.outer, st.outer.len()) + group_size(st.cur)
}

proof fn lemma_code_len_upto_same(v: Seq<Pattern>, w: Seq<Pattern>, k: nat)
    requires
        k <= v.len(),
        k <= w.len(),
        forall|i: int| 0 <= i < k ==> v[i] == w[i],
    ensures
        code_len_upto(v, k) == code_len_upto(w, k),
    decreases k,
{
    if k > 0 {
        lemma_code_len_upto_same(v, w, (k - 1) as nat);
    }
}

/// One more pattern in a sequence adds its own instructions.
pub proof fn lemma_code_len_push(v: Seq<Pattern>, x: Pattern)
    ensures
        code_len_upto(v.push(x), v.len() + 1) == code_len_upto(v, v.len()) + code_len(x),
{
    lemma_code_len_upto_same(v.push(x), v, v.len());
}

proof fn lemma_code_len_last(v: Seq<Pattern>)
    requires
        v.len() > 0,
    ensures
        code_len_upto(v, v.len()) == code_len_upto(v.drop_last(), (v.len() - 1) as nat)
            + code_len(v.last()),
{
    lemma_code_len_upto_same(v, v.drop_last(), (v.len() - 1) as nat);
}

proof fn lemma_outer_size_same(v: Seq<Group>, w: Seq<Group>, k: nat)
    requires
        k <= v.len(),
        k <= w.len(),
        forall|i: int| 0 <= i < k ==> v[i] == w[i],
    ensures
        outer_size(v, k) == outer_size(w, k),
    decreases k,
{
    if k > 0 {
        lemma_outer_size_same(v, w, (k - 1) as nat);
    }
}

/// A finished group lowers to the instructions that it stood for.
proof fn lemma_close_size(g: Group)
    ensures
        code_len(close(g)) == group_size(g),
{
    reveal_with_fuel(code_len, 3);
}

/// One character adds two instructions at most.
proof fn lemma_step_size(st: Scan, c: char)
    requires
        step(st, c) is Ok,
    ensures
        size_read(step(st, c)->Ok_0) <= size_read(st) + 2,
{
    let next = step(st, c)->Ok_0;
    let depth = st.outer.len();
    if c == '(' {
        lemma_outer_size_same(next.outer, st.outer, depth);
        assert(next.outer[depth as int] == st.cur);
    } else if c == ')' {
        let parent = st.outer.last();
        lemma_outer_size_same(next.outer, st.outer, (depth - 1) as nat);
        lemma_close_size(st.cur);
        lemma_code_len_push(parent.items, close(st.cur));
    } else if c == '|' {
        lemma_close_size(st.cur);
    } else if c == '*' || c == '+' || c == '?' {
        let items = st.cur.items;
        lemma_code_len_last(items);
        lemma_code_len_push(items.drop_last(), repeat(c, items.last()));
    } else {
        lemma_code_len_push(st.cur.items, Pattern::Char(c));
    }
}

/// After `n` characters the state stands for `2 * n` instructions at most.
pub proof fn lemma_scan_size(text: Seq<char>, n: nat)
    requires
        n <= text.len(),
        scan(text, n) is Ok,
    ensures
        size_read(scan(text, n)->Ok_0) <= 2 * n,
    decreases n,
{
    if n > 0 {
        let k = (n - 1) as nat;
        if scan(text, k) is Err {
            lemma_scan_error_stays(start(), text, k, n);
        }
        lemma_scan_size(text, k);
        lemma_step_size(scan(text, k)->Ok_0, text[n - 1]);
    }
}

/// The tree of a text lowers to two instructions for each character at
/// most.
pub proof fn theorem_program_size(text: Seq<char>)
    requires
        parse_spec(text) is Ok,
    ensures
        code_len(parse_spec(text)->Ok_0) <= 2 * text.len(),
{
    lemma_scan_size(text, text.len());
    lemma_close_size(scan(text, text.len())->Ok_0.cur);
}

} // verus!

//! The parser and the grammar.
//!
//! A tree is written out by the grammar's rules; the parser accepts a text
//! with a tree exactly where the tree, written out, is the text.
use super::parser::{
    close, dangling, fresh, is_meta, lemma_scan_concat, lemma_scan_error_stays, parse_spec,
    repeat, scan, scan_all, scan_from, start, step, Group, ParseError, Pattern, Scan,
};
use vstd::prelude::*;

verus! {

/// The text of a tree: in the place of an expression (`whole`), where
/// alternatives and sequences stand bare, or in the place of an atom, where
/// they stand in parentheses.
pub open spec fn text_of(p: Pattern, whole: bool) -> Seq<char>
    decreases p, (if whole { 0nat } else { 1nat }),
{
    match p {
        Pattern::Char(c) => seq![c],
        Pattern::Star(e) => text_of(*e, false) + seq!['*'],
        Pattern::Plus(e) => text_of(*e, false) + seq!['+'],
        Pattern::Question(e) => text_of(*e, false) + seq!['?'],
        Pattern::Or(l, r) => if whole {
            text_of(*l, true) + seq!['|'] + text_of(*r, true)
        } else {
            seq!['('] + text_of(p, true) + seq![')']
        },
        Pattern::Sequence(v) => if whole {
            texts_of(v, v.len())
        } else {
            seq!['('] + text_of(p, true) + seq![')']
        },
    }
}

/// The texts of the first `k` atoms of `v`, one after the other.
pub open spec fn texts_of(v: Seq<Pattern>, k: nat) -> Seq<char>
    decreases v, k,
{
    if k == 0 || k > v.len() {
        Seq::empty()
    } else {
        texts_of(v, (k - 1) as nat) + text_of(v[k - 1], false)
    }
}

/// The text read so far of a group that is still open.
pub open spec fn group_text(g: Group) -> Seq<char> {
    match g.alts {
        None => texts_of(g.items, g.items.len()),
        Some(l) => text_of(l, true) + seq!['|'] + texts_of(g.items, g.items.len()),
    }
}

/// The text read so far of the first `k` enclosing groups, each up to and
/// with the parenthesis that opened the next group.
pub open spec fn outer_text(outer: Seq<Group>, k: nat) -> Seq<char>
    decreases k,
{
    if k == 0 || k > outer.len() {
        Seq::empty()
    } else {
        outer_text(outer, (k - 1) as nat) + group_text(outer[k - 1]) + seq!['(']
    }
}

/// The text that has led to the state `st`.
pub open spec fn text_read(st: Scan) -> Seq<char> {
    outer_text(st.outer, st.outer.len()) + group_text(st.cur)
}

proof fn lemma_texts_of_same(v: Seq<Pattern>, w: Seq<Pattern>, k: nat)
    requires
        k <= v.len(),
        k <= w.len(),
        forall|i: int| 0 <= i < k ==> v[i] == w[i],
    ensures
        texts_of(v, k) == texts_of(w, k),
    decreases k,
{
    if k > 0 {
        lemma_texts_of_same(v, w, (k - 1) as nat);
    }
}

proof fn lemma_texts_of_push(v: Seq<Pattern>, x: Pattern)
    ensures
        texts_of(v.push(x), v.len() + 1) == texts_of(v, v.len()) + text_of(x, false),
{
    lemma_texts_of_same(v.push(x), v, v.len());
}

proof fn lemma_texts_of_last(v: Seq<Pattern>)
    requires
        v.len() > 0,
    ensures
        texts_of(v, v.len()) == texts_of(v.drop_last(), (v.len() - 1) as nat) + text_of(
            v.last(),
            false,
        ),
{
    lemma_texts_of_same(v, v.drop_last(), (v.len() - 1) as nat);
}

proof fn lemma_outer_text_same(v: Seq<Group>, w: Seq<Group>, k: nat)
    requires
        k <= v.len(),
        k <= w.len(),
        forall|i: int| 0 <= i < k ==> v[i] == w[i],
    ensures
        outer_text(v, k) == outer_text(w, k),
    decreases k,
{
    if k > 0 {
        lemma_outer_text_same(v, w, (k - 1) as nat);
    }
}

/// The text of a finished group is what was read of it.
proof fn lemma_close_text(g: Group)
    ensures
        text_of(close(g), true) == group_text(g),
        text_of(close(g), false) == seq!['('] + group_text(g) + seq![')'],
{
    reveal_with_fuel(text_of, 3);
}

/// One step of the parser reads one character.
proof fn lemma_step_reads(st: Scan, c: char)
    requires
        step(st, c) is Ok,
    ensures
        text_read(step(st, c)->Ok_0) == text_read(st).push(c),
{
    let next = step(st, c)->Ok_0;
    let depth = st.outer.len();
    let before = outer_text(st.outer, depth);
    if c == '(' {
        lemma_outer_text_same(next.outer, st.outer, depth);
        assert(next.outer[depth as int] == st.cur);
        assert(group_text(next.cur) =~= Seq::<char>::empty());
        assert(text_read(next) =~= text_read(st).push(c));
    } else if c == ')' {
        let parent = st.outer.last();
        lemma_outer_text_same(next.outer, st.outer, (depth - 1) as nat);
        lemma_close_text(st.cur);
        lemma_texts_of_push(parent.items, close(st.cur));
        let above = outer_text(st.outer, (depth - 1) as nat);
        assert(before == above + group_text(parent) + seq!['(']);
        match parent.alts {
            None => {
                assert(text_read(next) =~= text_read(st).push(c));
            },
            Some(l) => {
                assert(text_read(next) =~= text_read(st).push(c));
            },
        }
    } else if c == '|' {
        lemma_close_text(st.cur);
        assert(texts_of(next.cur.items, 0) =~= Seq::<char>::empty());
        assert(text_read(next) =~= text_read(st).push(c));
    } else if c == '*' || c == '+' || c == '?' {
        let items = st.cur.items;
        lemma_texts_of_last(items);
        lemma_texts_of_push(items.drop_last(), repeat(c, items.last()));
        assert(text_of(repeat(c, items.last()), false) =~= text_of(items.last(), false).push(c));
        match st.cur.alts {
            None => {
                assert(text_read(next) =~= text_read(st).push(c));
            },
            Some(l) => {
                assert(text_read(next) =~= text_read(st).push(c));
            },
        }
    } else {
        lemma_texts_of_push(st.cur.items, Pattern::Char(c));
        match st.cur.alts {
            None => {
                assert(text_read(next) =~= text_read(st).push(c));
            },
            Some(l) => {
                assert(text_read(next) =~= text_read(st).push(c));
            },
        }
    }
}

/// The state after `n` characters has read exactly those.
pub proof fn lemma_scan_reads(text: Seq<char>, n: nat)
    requires
        n <= text.len(),
        scan(text, n) is Ok,
    ensures
        text_read(scan(text, n)->Ok_0) == text.take(n as int),
    decreases n,
{
    if n == 0 {
        assert(text_read(start()) =~= text.take(0));
    } else {
        let k = (n - 1) as nat;
        if scan(text, k) is Err {
            lemma_scan_error_stays(start(), text, k, n);
        }
        lemma_scan_reads(text, k);
        lemma_step_reads(scan(text, k)->Ok_0, text[n - 1]);
        assert(text.take(n as int) =~= text.take(k as int).push(text[n - 1]));
    }
}

/// A tree that the parser gives for a text, written out, is that text.
pub proof fn theorem_parse_reads(text: Seq<char>)
    requires
        parse_spec(text) is Ok,
    ensures
        text_of(parse_spec(text)->Ok_0, true) == text,
{
    lemma_scan_reads(text, text.len());
    let end = scan(text, text.len())->Ok_0;
    lemma_close_text(end.cur);
    assert(text.take(text.len() as int) =~= text);
    assert(text_read(end) =~= group_text(end.cur));
}

/// A tree of the grammar's `seq`: a sequence of atoms, of at least one where
/// `filled` asks for it.
pub open spec fn is_seq(p: Pattern, filled: bool) -> bool
    decreases p, 0nat,
{
    match p {
        Pattern::Sequence(v) => (filled ==> v.len() > 0) && forall|i: int|
            0 <= i < v.len() ==> is_atom(#[trigger] v[i]),
        _ => false,
    }
}

/// A tree of alternatives: sequences of at least one atom each, folded to
/// the left.
pub open spec fn is_alts(p: Pattern) -> bool
    decreases p, 1nat,
{
    match p {
        Pattern::Or(l, r) => is_alts(*l) && is_seq(*r, true),
        _ => is_seq(p, true),
    }
}

/// A tree of the grammar's `expr`: one sequence, or alternatives.
pub open spec fn is_expr(p: Pattern) -> bool
    decreases p, 2nat,
{
    match p {
        Pattern::Or(_, _) => is_alts(p),
        _ => is_seq(p, false),
    }
}

/// A tree of the grammar's `primary`: a literal, or an expression that
/// stood in parentheses.
pub open spec fn is_primary(p: Pattern) -> bool
    decreases p, 3nat,
{
    match p {
        Pattern::Char(c) => !is_meta(c),
        Pattern::Sequence(_) => is_expr(p),
        Pattern::Or(_, _) => is_expr(p),
        _ => false,
    }
}

/// A tree of the grammar's `atom`: a primary, with one postfix operator or
/// without.
pub open spec fn is_atom(p: Pattern) -> bool
    decreases p, 4nat,
{
    match p {
        Pattern::Star(e) => is_primary(*e),
        Pattern::Plus(e) => is_primary(*e),
        Pattern::Question(e) => is_primary(*e),
        _ => is_primary(p),
    }
}

/// An open group holds trees of the grammar: alternatives, and atoms.
pub open spec fn group_formed(g: Group) -> bool {
    &&& match g.alts {
        None => true,
        Some(l) => is_alts(l),
    }
    &&& forall|i: int| 0 <= i < g.items.len() ==> is_atom(#[trigger] g.items[i])
}

/// Every open group of the state holds trees of the grammar, and where a
/// postfix operator may follow, the last atom is a primary.
pub open spec fn formed(st: Scan) -> bool {
    &&& group_formed(st.cur)
    &&& forall|i: int| 0 <= i < st.outer.len() ==> group_formed(#[trigger] st.outer[i])
    &&& st.operand ==> st.cur.items.len() > 0 && is_primary(st.cur.items.last())
}

/// A finished group of trees of the grammar is a tree of the grammar.
proof fn lemma_close_formed(g: Group)
    requires
        group_formed(g),
        !dangling(g),
    ensures
        is_expr(close(g)),
        is_primary(close(g)),
        is_atom(close(g)),
        g.items.len() > 0 ==> is_alts(close(g)),
{
    reveal_with_fuel(is_alts, 2);
    reveal_with_fuel(is_seq, 2);
    assert(is_seq(Pattern::Sequence(g.items), false));
}

proof fn lemma_step_formed(st: Scan, c: char)
    requires
        formed(st),
        step(st, c) is Ok,
    ensures
        formed(step(st, c)->Ok_0),
{
    let next = step(st, c)->Ok_0;
    if c == '(' {
        assert forall|i: int| 0 <= i < next.outer.len() implies group_formed(
            #[trigger] next.outer[i],
        ) by {
            if i < st.outer.len() {
                assert(next.outer[i] == st.outer[i]);
            }
        }
    } else if c == ')' {
        lemma_close_formed(st.cur);
        let parent = st.outer.last();
        assert(group_formed(parent));
        assert forall|i: int| 0 <= i < next.outer.len() implies group_formed(
            #[trigger] next.outer[i],
        ) by {
            assert(next.outer[i] == st.outer[i]);
        }
        assert forall|i: int| 0 <= i < next.cur.items.len() implies is_atom(
            #[trigger] next.cur.items[i],
        ) by {
            if i < parent.items.len() {
                assert(next.cur.items[i] == parent.items[i]);
            }
        }
    } else if c == '|' {
        lemma_close_formed(st.cur);
    } else if c == '*' || c == '+' || c == '?' {
        assert forall|i: int| 0 <= i < next.cur.items.len() implies is_atom(
            #[trigger] next.cur.items[i],
        ) by {
            if i < st.cur.items.len() - 1 {
                assert(next.cur.items[i] == st.cur.items[i]);
            }
        }
    } else {
        assert(!is_meta(c));
        assert forall|i: int| 0 <= i < next.cur.items.len() implies is_atom(
            #[trigger] next.cur.items[i],
        ) by {
            if i < st.cur.items.len() {
                assert(next.cur.items[i] == st.cur.items[i]);
            }
        }
    }
}

/// Every state that the parser reaches holds trees of the grammar.
pub proof fn lemma_scan_formed(text: Seq<char>, n: nat)
    requires
        n <= text.len(),
        scan(text, n) is Ok,
    ensures
        formed(scan(text, n)->Ok_0),
    decreases n,
{
    if n > 0 {
        let k = (n - 1) as nat;
        if scan(text, k) is Err {
            lemma_scan_error_stays(start(), text, k, n);
        }
        lemma_scan_formed(text, k);
        lemma_step_formed(scan(text, k)->Ok_0, text[n - 1]);
    }
}

/// The open group that a tree of the grammar was closed from.
pub open spec fn opened(p: Pattern) -> Group {
    match p {
        Pattern::Or(l, r) => Group { alts: Some(*l), items: r->Sequence_0 },
        Pattern::Sequence(v) => Group { alts: None, items: v },
        _ => fresh(),
    }
}

/// `st` after one more atom.
pub open spec fn with_atom(st: Scan, x: Pattern) -> Scan {
    Scan {
        outer: st.outer,
        cur: Group { alts: st.cur.alts, items: st.cur.items.push(x) },
        operand: is_primary(x),
    }
}

/// The text of an atom, read from any state, adds the atom to the current
/// alternative.
pub proof fn lemma_scan_atom(st: Scan, x: Pattern)
    requires
        is_atom(x),
    ensures
        scan_all(st, text_of(x, false)) == Ok::<Scan, ParseError>(with_atom(st, x)),
    decreases x, 3nat,
{
    match x {
        Pattern::Char(c) => {
            let t = seq![c];
            assert(scan_from(st, t, 0) == Ok::<Scan, ParseError>(st));
            assert(scan_from(st, t, 1) == step(st, c));
        },
        Pattern::Star(e) => {
            lemma_scan_postfix(st, *e, '*');
        },
        Pattern::Plus(e) => {
            lemma_scan_postfix(st, *e, '+');
        },
        Pattern::Question(e) => {
            lemma_scan_postfix(st, *e, '?');
        },
        _ => {
            let inner = text_of(x, true);
            let open = seq!['('];
            let shut = seq![')'];
            let inside = Scan { outer: st.outer.push(st.cur), cur: fresh(), operand: false };
            assert(scan_from(st, open, 0) == Ok::<Scan, ParseError>(st));
            assert(scan_all(st, open) == step(st, '('));
            lemma_scan_expr(inside, x);
            let done = scan_all(inside, inner)->Ok_0;
            lemma_scan_concat(st, open, inner, inner.len());
            lemma_scan_concat(st, open + inner, shut, 1);
            assert(scan_from(done, shut, 0) == Ok::<Scan, ParseError>(done));
            assert(scan_from(done, shut, 1) == step(done, ')'));
            assert(done.outer.drop_last() =~= st.outer);
            assert(done.outer.last() == st.cur);
            lemma_opened(x);
        },
    }
}

/// The text of a primary and a postfix operator, read from any state, adds
/// the primary under the operator to the current alternative.
proof fn lemma_scan_postfix(st: Scan, e: Pattern, op: char)
    requires
        is_primary(e),
        op == '*' || op == '+' || op == '?',
    ensures
        scan_all(st, text_of(repeat(op, e), false)) == Ok::<Scan, ParseError>(
            with_atom(st, repeat(op, e)),
        ),
    decreases e, 4nat,
{
    let body = text_of(e, false);
    lemma_scan_atom(st, e);
    let read = with_atom(st, e);
    lemma_scan_concat(st, body, seq![op], 1);
    assert(scan_from(read, seq![op], 0) == Ok::<Scan, ParseError>(read));
    assert(scan_from(read, seq![op], 1) == step(read, op));
    assert(read.cur.items.drop_last().push(repeat(op, e)) =~= st.cur.items.push(repeat(op, e)));
    assert(read.cur.items.last() == e);
}

/// A tree of the grammar is closed from its open group.
proof fn lemma_opened(p: Pattern)
    requires
        is_expr(p),
    ensures
        close(opened(p)) == p,
        !dangling(opened(p)),
        is_alts(p) ==> opened(p).items.len() > 0,
{
    reveal_with_fuel(is_alts, 2);
    reveal_with_fuel(is_seq, 2);
}

/// The texts of the first `k` atoms of `v`, read from any state, add those
/// atoms to the current alternative.
proof fn lemma_scan_atoms(st: Scan, v: Seq<Pattern>, k: nat)
    requires
        k <= v.len(),
        forall|i: int| 0 <= i < v.len() ==> is_atom(#[trigger] v[i]),
    ensures
        scan_all(st, texts_of(v, k)) == Ok::<Scan, ParseError>(
            Scan {
                outer: st.outer,
                cur: Group { alts: st.cur.alts, items: st.cur.items + v.take(k as int) },
                operand: if k == 0 {
                    st.operand
                } else {
                    is_primary(v[k - 1])
                },
            },
        ),
    decreases v, k,
{
    if k == 0 {
        assert(st.cur.items + v.take(0) =~= st.cur.items);
        assert(scan_from(st, texts_of(v, 0), 0) == Ok::<Scan, ParseError>(st));
    } else {
        let j = (k - 1) as nat;
        lemma_scan_atoms(st, v, j);
        let mid = scan_all(st, texts_of(v, j))->Ok_0;
        lemma_scan_atom(mid, v[k - 1]);
        let last = text_of(v[k - 1], false);
        lemma_scan_concat(st, texts_of(v, j), last, last.len());
        assert((st.cur.items + v.take(j as int)).push(v[k - 1]) =~= st.cur.items + v.take(
            k as int,
        ));
    }
}

/// The text of alternatives, read from a state whose current group is
/// empty, leads to the open group of the alternatives.
proof fn lemma_scan_alts(st: Scan, p: Pattern)
    requires
        is_alts(p),
        st.cur == fresh(),
    ensures
        scan_all(st, text_of(p, true)) is Ok,
        scan_all(st, text_of(p, true))->Ok_0.outer == st.outer,
        scan_all(st, text_of(p, true))->Ok_0.cur == opened(p),
        opened(p).items.len() > 0,
    decreases p, 0nat,
{
    reveal_with_fuel(is_alts, 2);
    reveal_with_fuel(is_seq, 2);
    match p {
        Pattern::Or(l, r) => {
            let w = r->Sequence_0;
            assert(is_seq(*r, true));
            let left = text_of(*l, true);
            let bar = seq!['|'];
            lemma_scan_alts(st, *l);
            let read = scan_all(st, left)->Ok_0;
            lemma_alts_is_expr(*l);
            lemma_opened(*l);
            lemma_scan_concat(st, left, bar, 1);
            assert(scan_from(read, bar, 0) == Ok::<Scan, ParseError>(read));
            assert(scan_from(read, bar, 1) == step(read, '|'));
            let after = step(read, '|')->Ok_0;
            assert(decreases_to!(p => *r));
            assert(decreases_to!(*r => w));
            lemma_scan_atoms(after, w, w.len());
            lemma_scan_concat(st, left + bar, texts_of(w, w.len()), texts_of(w, w.len()).len());
            assert(w.take(w.len() as int) =~= w);
            assert(Seq::<Pattern>::empty() + w =~= w);
            assert(text_of(*r, true) == texts_of(w, w.len()));
        },
        Pattern::Sequence(v) => {
            lemma_scan_atoms(st, v, v.len());
            assert(v.take(v.len() as int) =~= v);
            assert(Seq::<Pattern>::empty() + v =~= v);
        },
        _ => {},
    }
}

proof fn lemma_alts_is_expr(p: Pattern)
    requires
        is_alts(p),
    ensures
        is_expr(p),
{
    reveal_with_fuel(is_alts, 2);
    reveal_with_fuel(is_seq, 2);
}

/// The text of an expression, read from a state whose current group is
/// empty, leads to the open group of the expression.
proof fn lemma_scan_expr(st: Scan, p: Pattern)
    requires
        is_expr(p),
        st.cur == fresh(),
    ensures
        scan_all(st, text_of(p, true)) is Ok,
        scan_all(st, text_of(p, true))->Ok_0.outer == st.outer,
        scan_all(st, text_of(p, true))->Ok_0.cur == opened(p),
    decreases p, 1nat,
{
    match p {
        Pattern::Or(_, _) => {
            lemma_scan_alts(st, p);
        },
        Pattern::Sequence(v) => {
            lemma_scan_atoms(st, v, v.len());
            assert(v.take(v.len() as int) =~= v);
            assert(Seq::<Pattern>::empty() + v =~= v);
        },
        _ => {},
    }
}

/// The parser gives the tree `t` for a text exactly where `t` is a tree of
/// the grammar and the text is `t` written out. So it accepts the texts of
/// the grammar and no others, and each has one tree.
pub proof fn theorem_parse_is_grammar(text: Seq<char>, t: Pattern)
    ensures
        parse_spec(text) == Ok::<Pattern, ParseError>(t) <==> is_expr(t) && text_of(t, true)
            == text,
{
    if parse_spec(text) == Ok::<Pattern, ParseError>(t) {
        theorem_parse_reads(text);
        lemma_scan_formed(text, text.len());
        lemma_close_formed(scan(text, text.len())->Ok_0.cur);
    }
    if is_expr(t) && text_of(t, true) == text {
        lemma_scan_expr(start(), t);
        lemma_opened(t);
    }
}

} // verus!

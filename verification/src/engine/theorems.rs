//! What holds of matching as a whole.
use super::codegen::{code_len, code_len_upto, program};
use super::evaluator::{eval_spec, eval_with_cache_spec, EvalError};
use super::grammar::{is_expr, is_primary, text_of, texts_of, theorem_parse_is_grammar};
use super::language::{at, matches_prefix, matches_slice, matches_times, matches_upto};
use super::lowering::{lemma_program_closed, theorem_program_accepts};
use super::parser::{
    is_meta, lemma_scan_concat, lemma_scan_error_stays, parse_spec, repeat, scan_all, scan_from,
    start, step, Group, ParseError, Pattern, Scan,
};
use super::paths::{theorem_eval_decides, theorem_eval_with_cache_decides};
use super::size::theorem_program_size;
use super::{matching, MatchError};
use vstd::prelude::*;

verus! {

/// A slice that belongs to the language of `p` still does when the text
/// goes on behind it.
pub proof fn lemma_matches_extends(p: Pattern, s: Seq<char>, t: Seq<char>, i: int, j: int)
    requires
        matches_slice(p, s, i, j),
    ensures
        matches_slice(p, s + t, i, j),
    decreases p, 0nat, 0nat,
{
    match p {
        Pattern::Char(c) => {},
        Pattern::Sequence(v) => lemma_matches_upto_extends(v, v.len(), s, t, i, j),
        Pattern::Or(l, r) => {
            if matches_slice(*l, s, i, j) {
                lemma_matches_extends(*l, s, t, i, j);
            } else {
                lemma_matches_extends(*r, s, t, i, j);
            }
        },
        Pattern::Question(e) => {
            if matches_slice(*e, s, i, j) {
                lemma_matches_extends(*e, s, t, i, j);
            }
        },
        Pattern::Star(e) => {
            let n = choose|n: nat| #[trigger] at(n as int) && matches_times(*e, n, s, i, j);
            lemma_matches_times_extends(*e, n, s, t, i, j);
        },
        Pattern::Plus(e) => {
            let n = choose|n: nat|
                #[trigger] at(n as int) && n >= 1 && matches_times(*e, n, s, i, j);
            lemma_matches_times_extends(*e, n, s, t, i, j);
        },
    }
}

pub proof fn lemma_matches_upto_extends(
    v: Seq<Pattern>,
    k: nat,
    s: Seq<char>,
    t: Seq<char>,
    i: int,
    j: int,
)
    requires
        matches_upto(v, k, s, i, j),
    ensures
        matches_upto(v, k, s + t, i, j),
    decreases v, k, 0nat,
{
    if k == 0 || k > v.len() {
    } else {
        let m = choose|m: int|
            #[trigger] at(m) && matches_upto(v, (k - 1) as nat, s, i, m) && matches_slice(
                v[k - 1],
                s,
                m,
                j,
            );
        lemma_matches_upto_extends(v, (k - 1) as nat, s, t, i, m);
        lemma_matches_extends(v[k - 1], s, t, m, j);
        assert(at(m));
    }
}

pub proof fn lemma_matches_times_extends(
    e: Pattern,
    n: nat,
    s: Seq<char>,
    t: Seq<char>,
    i: int,
    j: int,
)
    requires
        matches_times(e, n, s, i, j),
    ensures
        matches_times(e, n, s + t, i, j),
    decreases e, n + 1, 0nat,
{
    if n > 0 {
        let m = choose|m: int|
            #[trigger] at(m) && matches_slice(e, s, i, m) && matches_times(
                e,
                (n - 1) as nat,
                s,
                m,
                j,
            );
        lemma_matches_extends(e, s, t, i, m);
        lemma_matches_times_extends(e, (n - 1) as nat, s, t, m, j);
        assert(at(m));
    }
}

/// A match is anchored at the start of the input and asks nothing of what
/// follows: a pattern that matches `prefix` matches every text that begins
/// with `prefix`.
pub proof fn theorem_match_is_anchored(pattern: Seq<char>, prefix: Seq<char>, suffix: Seq<char>)
    requires
        matching(pattern, prefix) == Ok::<bool, super::MatchError>(true),
    ensures
        matching(pattern, prefix + suffix) == Ok::<bool, super::MatchError>(true),
{
    let p = super::parser::parse_spec(pattern)->Ok_0;
    let j = choose|j: int| #[trigger] at(j) && matches_slice(p, prefix, 0, j);
    lemma_matches_extends(p, prefix, suffix, 0, j);
    assert(at(j));
}

/// Both evaluators give the answer of `matching` on the program of a
/// pattern: remembering states changes no outcome.
pub proof fn theorem_cache_changes_nothing(pattern: Seq<char>, input: Seq<char>)
    requires
        parse_spec(pattern) is Ok,
        code_len(parse_spec(pattern)->Ok_0) < usize::MAX,
    ensures
        eval_spec(program(parse_spec(pattern)->Ok_0), input) == eval_with_cache_spec(
            program(parse_spec(pattern)->Ok_0),
            input,
        ),
        matching(pattern, input) is Ok,
        eval_spec(program(parse_spec(pattern)->Ok_0), input) == Ok::<bool, EvalError>(
            matching(pattern, input)->Ok_0,
        ),
{
    let p = parse_spec(pattern)->Ok_0;
    lemma_program_closed(p);
    theorem_program_accepts(p, input);
    theorem_eval_decides(program(p), input);
    theorem_eval_with_cache_decides(program(p), input);
}

/// No character of `a` is an operator or a parenthesis.
pub open spec fn literal_text(a: Seq<char>) -> bool {
    forall|i: int| 0 <= i < a.len() ==> !is_meta(#[trigger] a[i])
}

/// The literal pattern of the character of `a` at `i`.
pub open spec fn literal_at(a: Seq<char>, i: int) -> Pattern {
    Pattern::Char(a[i])
}

/// One literal pattern for each character of `a`.
pub open spec fn literals(a: Seq<char>) -> Seq<Pattern> {
    Seq::new(a.len(), |i: int| literal_at(a, i))
}

/// Literal characters join the atoms of the current alternative, one by one.
pub proof fn lemma_scan_literals(st: Scan, a: Seq<char>, n: nat)
    requires
        n <= a.len(),
        literal_text(a),
    ensures
        scan_from(st, a, n) == Ok::<Scan, ParseError>(
            Scan {
                outer: st.outer,
                cur: Group { alts: st.cur.alts, items: st.cur.items + literals(a.take(n as int)) },
                operand: if n > 0 {
                    true
                } else {
                    st.operand
                },
            },
        ),
    decreases n,
{
    if n == 0 {
        assert(st.cur.items + literals(a.take(0)) =~= st.cur.items);
    } else {
        lemma_scan_literals(st, a, (n - 1) as nat);
        assert(!is_meta(a[n - 1]));
        let longer = literals(a.take(n as int));
        let shorter = literals(a.take(n - 1));
        assert(longer[n - 1] == literal_at(a.take(n as int), n - 1));
        assert forall|i: int| 0 <= i < n - 1 implies longer[i] == shorter[i] by {
            assert(longer[i] == literal_at(a.take(n as int), i));
            assert(shorter[i] == literal_at(a.take(n - 1), i));
        }
        assert(longer =~= shorter.push(Pattern::Char(a[n - 1])));
        assert(st.cur.items + longer =~= (st.cur.items + shorter).push(Pattern::Char(a[n - 1])));
    }
}

/// A text without operators and parentheses parses to the sequence of its
/// characters.
pub proof fn lemma_parse_literals(a: Seq<char>)
    requires
        literal_text(a),
    ensures
        parse_spec(a) == Ok::<Pattern, ParseError>(Pattern::Sequence(literals(a))),
{
    lemma_scan_literals(start(), a, a.len());
    assert(a.take(a.len() as int) =~= a);
    assert(Seq::<Pattern>::empty() + literals(a) =~= literals(a));
}

/// Two texts without operators and parentheses, with `|` between them, parse
/// to the alternation of their sequences; where one is empty the text is
/// refused.
pub proof fn lemma_parse_alternation(a: Seq<char>, b: Seq<char>)
    requires
        literal_text(a),
        literal_text(b),
    ensures
        parse_spec(a + seq!['|'] + b) == if a.len() == 0 || b.len() == 0 {
            Err::<Pattern, ParseError>(ParseError::EmptyAlternative)
        } else {
            Ok::<Pattern, ParseError>(
                Pattern::Or(
                    Box::new(Pattern::Sequence(literals(a))),
                    Box::new(Pattern::Sequence(literals(b))),
                ),
            )
        },
{
    let bar = seq!['|'];
    let text = a + bar + b;
    lemma_scan_literals(start(), a, a.len());
    assert(a.take(a.len() as int) =~= a);
    assert(Seq::<Pattern>::empty() + literals(a) =~= literals(a));
    lemma_scan_concat(start(), a, bar, 1);
    let at_bar = scan_all(start(), a)->Ok_0;
    assert(scan_from(at_bar, bar, 0) == Ok::<Scan, ParseError>(at_bar));
    assert(scan_all(start(), a + bar) == step(at_bar, '|'));
    lemma_scan_concat(start(), a + bar, b, b.len());
    if a.len() == 0 {
    } else {
        let after = step(at_bar, '|')->Ok_0;
        lemma_scan_literals(after, b, b.len());
        assert(b.take(b.len() as int) =~= b);
        assert(Seq::<Pattern>::empty() + literals(b) =~= literals(b));
    }
}

/// A text that begins with `*`, `+` or `?` is refused for want of an
/// operand, and one that begins with `|` for want of an alternative.
pub proof fn theorem_leading_operator_is_refused(text: Seq<char>)
    requires
        text.len() > 0,
        text[0] == '*' || text[0] == '+' || text[0] == '?' || text[0] == '|',
    ensures
        parse_spec(text) == Err::<Pattern, ParseError>(
            if text[0] == '|' {
                ParseError::EmptyAlternative
            } else {
                ParseError::EmptyOperand
            },
        ),
{
    assert(scan_from(start(), text, 0) == Ok::<Scan, ParseError>(start()));
    assert(scan_from(start(), text, 1) == step(start(), text[0]));
    lemma_scan_error_stays(start(), text, 1, text.len());
}

/// The first `k` patterns of `literals(a)` lower to `k` instructions.
pub proof fn lemma_code_len_literals(a: Seq<char>, k: nat)
    requires
        k <= a.len(),
    ensures
        code_len_upto(literals(a), k) == k,
    decreases k,
{
    if k > 0 {
        lemma_code_len_literals(a, (k - 1) as nat);
        assert(literals(a)[k - 1] == literal_at(a, k - 1));
        assert(code_len(Pattern::Char(a[k - 1])) == 1);
        assert(code_len_upto(literals(a), k) == code_len_upto(literals(a), (k - 1) as nat)
            + code_len(literals(a)[k - 1]));
    }
}

/// The first `k` patterns of `literals(a)` match exactly the slices that
/// hold the first `k` characters of `a`.
pub proof fn lemma_matches_literals(a: Seq<char>, k: nat, t: Seq<char>, i: int, j: int)
    requires
        k <= a.len(),
    ensures
        matches_upto(literals(a), k, t, i, j) <==> (0 <= i && j == i + k && j <= t.len()
            && forall|x: int| 0 <= x < k ==> t[i + x] == a[x]),
    decreases k,
{
    let v = literals(a);
    if k > 0 {
        let last = (k - 1) as nat;
        if matches_upto(v, k, t, i, j) {
            let m = choose|m: int|
                #[trigger] at(m) && matches_upto(v, last, t, i, m) && matches_slice(
                    v[k - 1],
                    t,
                    m,
                    j,
                );
            lemma_matches_literals(a, last, t, i, m);
        }
        if 0 <= i && j == i + k && j <= t.len() && forall|x: int|
            0 <= x < k ==> t[i + x] == a[x] {
            lemma_matches_literals(a, last, t, i, j - 1);
            assert(t[i + (k - 1)] == a[k - 1]);
            assert(at(j - 1) && matches_upto(v, last, t, i, j - 1) && matches_slice(
                v[k - 1],
                t,
                j - 1,
                j,
            ));
        }
    }
}

/// A sequence of literals matches at the start of `t` exactly where `t`
/// begins with their characters.
pub proof fn lemma_literals_match_prefix(a: Seq<char>, t: Seq<char>)
    ensures
        matches_prefix(Pattern::Sequence(literals(a)), t) == a.is_prefix_of(t),
{
    let p = Pattern::Sequence(literals(a));
    if matches_prefix(p, t) {
        let j = choose|j: int| #[trigger] at(j) && matches_slice(p, t, 0, j);
        lemma_matches_literals(a, a.len(), t, 0, j);
        assert(a =~= t.subrange(0, a.len() as int));
    }
    if a.is_prefix_of(t) {
        lemma_matches_literals(a, a.len(), t, 0, a.len() as int);
        assert forall|x: int| 0 <= x < a.len() implies t[0 + x] == a[x] by {
            assert(t.subrange(0, a.len() as int)[x] == t[x]);
        }
        assert(at(a.len() as int) && matches_slice(p, t, 0, a.len() as int));
    }
}

/// A pattern without operators and parentheses matches exactly the texts
/// that begin with it.
pub proof fn theorem_literal_identity(a: Seq<char>, t: Seq<char>)
    requires
        literal_text(a),
        a.len() < usize::MAX,
    ensures
        matching(a, t) == Ok::<bool, MatchError>(a.is_prefix_of(t)),
        matching(a, a) == Ok::<bool, MatchError>(true),
{
    lemma_parse_literals(a);
    lemma_code_len_literals(a, a.len());
    lemma_literals_match_prefix(a, t);
    lemma_literals_match_prefix(a, a);
    assert(a =~= a.subrange(0, a.len() as int));
}

/// At acceptance the order of two alternatives does not matter.
pub proof fn lemma_alternation_commutes(l: Pattern, r: Pattern, s: Seq<char>)
    ensures
        matches_prefix(Pattern::Or(Box::new(l), Box::new(r)), s) == matches_prefix(
            Pattern::Or(Box::new(r), Box::new(l)),
            s,
        ),
{
    let lr = Pattern::Or(Box::new(l), Box::new(r));
    let rl = Pattern::Or(Box::new(r), Box::new(l));
    if matches_prefix(lr, s) {
        let j = choose|j: int| #[trigger] at(j) && matches_slice(lr, s, 0, j);
        assert(at(j) && matches_slice(rl, s, 0, j));
    }
    if matches_prefix(rl, s) {
        let j = choose|j: int| #[trigger] at(j) && matches_slice(rl, s, 0, j);
        assert(at(j) && matches_slice(lr, s, 0, j));
    }
}

/// For two texts `a` and `b` without operators and parentheses, neither
/// empty, `a|b` matches exactly the texts that begin with `a` or with `b`.
pub proof fn theorem_alternation_begins(a: Seq<char>, b: Seq<char>, s: Seq<char>)
    requires
        literal_text(a),
        literal_text(b),
        a.len() > 0,
        b.len() > 0,
        a.len() + b.len() + 2 < usize::MAX,
    ensures
        matching(a + seq!['|'] + b, s) == Ok::<bool, MatchError>(
            a.is_prefix_of(s) || b.is_prefix_of(s),
        ),
{
    let l = Pattern::Sequence(literals(a));
    let r = Pattern::Sequence(literals(b));
    let either = Pattern::Or(Box::new(l), Box::new(r));
    lemma_parse_alternation(a, b);
    lemma_code_len_literals(a, a.len());
    lemma_code_len_literals(b, b.len());
    assert(code_len(either) == a.len() + b.len() + 2) by {
        reveal_with_fuel(code_len, 2);
    }
    lemma_literals_match_prefix(a, s);
    lemma_literals_match_prefix(b, s);
    if matches_prefix(either, s) {
        let j = choose|j: int| #[trigger] at(j) && matches_slice(either, s, 0, j);
        if matches_slice(l, s, 0, j) {
            assert(at(j) && matches_slice(l, s, 0, j));
        } else {
            assert(at(j) && matches_slice(r, s, 0, j));
        }
    }
    if matches_prefix(l, s) {
        let j = choose|j: int| #[trigger] at(j) && matches_slice(l, s, 0, j);
        assert(at(j) && matches_slice(either, s, 0, j));
    }
    if matches_prefix(r, s) {
        let j = choose|j: int| #[trigger] at(j) && matches_slice(r, s, 0, j);
        assert(at(j) && matches_slice(either, s, 0, j));
    }
}

/// For two texts `a` and `b` without operators and parentheses, `a|b` and
/// `b|a` give the same answer on every input.
pub proof fn theorem_alternation_commutes(a: Seq<char>, b: Seq<char>, s: Seq<char>)
    requires
        literal_text(a),
        literal_text(b),
    ensures
        matching(a + seq!['|'] + b, s) == matching(b + seq!['|'] + a, s),
{
    lemma_parse_alternation(a, b);
    lemma_parse_alternation(b, a);
    lemma_alternation_commutes(Pattern::Sequence(literals(a)), Pattern::Sequence(literals(b)), s);
}

/// A text that can stand before a postfix operator: one literal, or a
/// pattern in parentheses.
pub open spec fn operand_text(e: Seq<char>) -> bool {
    ||| e.len() == 1 && !is_meta(e[0])
    ||| e.len() >= 2 && e[0] == '(' && e.last() == ')' && parse_spec(
        e.subrange(1, e.len() - 1),
    ) is Ok
}

/// The tree of an operand.
pub open spec fn operand_pattern(e: Seq<char>) -> Pattern {
    if e.len() == 1 {
        Pattern::Char(e[0])
    } else {
        parse_spec(e.subrange(1, e.len() - 1))->Ok_0
    }
}

/// An operand parses to a sequence of one tree, and an operand with a
/// postfix operator to a sequence of that tree under the operator.
pub proof fn lemma_parse_operand(e: Seq<char>, op: char)
    requires
        operand_text(e),
        op == '*' || op == '+' || op == '?',
    ensures
        parse_spec(e) == Ok::<Pattern, ParseError>(Pattern::Sequence(seq![operand_pattern(e)])),
        parse_spec(e + seq![op]) == Ok::<Pattern, ParseError>(
            Pattern::Sequence(seq![repeat(op, operand_pattern(e))]),
        ),
{
    let t = operand_pattern(e);
    reveal_with_fuel(text_of, 2);
    reveal_with_fuel(texts_of, 2);
    if e.len() == 1 {
        assert(text_of(t, false) =~= e);
    } else {
        let inner = e.subrange(1, e.len() - 1);
        theorem_parse_is_grammar(inner, t);
        assert(text_of(t, false) =~= e);
    }
    assert(is_primary(t));
    let alone = Pattern::Sequence(seq![t]);
    let under = Pattern::Sequence(seq![repeat(op, t)]);
    assert(is_expr(alone));
    assert(is_expr(under));
    let v = seq![t];
    let w = seq![repeat(op, t)];
    assert(texts_of(v, 1) == texts_of(v, 0) + text_of(v[0], false));
    assert(texts_of(w, 1) == texts_of(w, 0) + text_of(w[0], false));
    assert(text_of(repeat(op, t), false) == text_of(t, false) + seq![op]);
    assert(text_of(alone, true) =~= e);
    assert(text_of(under, true) =~= e + seq![op]);
    theorem_parse_is_grammar(e, alone);
    theorem_parse_is_grammar(e + seq![op], under);
}

/// A sequence of one pattern has the language of that pattern.
pub proof fn lemma_matches_single(p: Pattern, s: Seq<char>, i: int, j: int)
    ensures
        matches_slice(Pattern::Sequence(seq![p]), s, i, j) == matches_slice(p, s, i, j),
{
    let v = seq![p];
    reveal_with_fuel(matches_upto, 2);
    if matches_slice(Pattern::Sequence(v), s, i, j) {
        let k = v.len();
        assert(k == 1);
        assert(matches_upto(v, k, s, i, j));
        let m = choose|m: int|
            #[trigger] at(m) && matches_upto(v, (k - 1) as nat, s, i, m) && matches_slice(
                v[k - 1],
                s,
                m,
                j,
            );
        assert(matches_upto(v, 0, s, i, m));
        assert(m == i);
        assert(matches_slice(p, s, i, j));
    }
    if matches_slice(p, s, i, j) {
        assert(at(i) && matches_upto(v, 0, s, i, i) && matches_slice(v[0], s, i, j));
        assert(matches_upto(v, 1, s, i, j));
    }
}

pub proof fn lemma_prefix_single(p: Pattern, s: Seq<char>)
    ensures
        matches_prefix(Pattern::Sequence(seq![p]), s) == matches_prefix(p, s),
{
    if matches_prefix(Pattern::Sequence(seq![p]), s) {
        let j = choose|j: int|
            #[trigger] at(j) && matches_slice(Pattern::Sequence(seq![p]), s, 0, j);
        lemma_matches_single(p, s, 0, j);
        assert(at(j) && matches_slice(p, s, 0, j));
    }
    if matches_prefix(p, s) {
        let j = choose|j: int| #[trigger] at(j) && matches_slice(p, s, 0, j);
        lemma_matches_single(p, s, 0, j);
        assert(at(j) && matches_slice(Pattern::Sequence(seq![p]), s, 0, j));
    }
}

/// `e?` and `e*` match the empty slice at the start of every text.
pub proof fn lemma_optional_matches_empty(e: Pattern, s: Seq<char>)
    ensures
        matches_prefix(Pattern::Question(Box::new(e)), s),
        matches_prefix(Pattern::Star(Box::new(e)), s),
{
    assert(at(0) && matches_slice(Pattern::Question(Box::new(e)), s, 0, 0));
    assert(at(0) && matches_times(e, 0, s, 0, 0));
    assert(at(0) && matches_slice(Pattern::Star(Box::new(e)), s, 0, 0));
}

/// On the empty text, `e+` matches exactly where `e` does.
pub proof fn lemma_plus_on_empty(e: Pattern)
    ensures
        matches_prefix(Pattern::Plus(Box::new(e)), Seq::empty()) == matches_prefix(
            e,
            Seq::empty(),
        ),
{
    let s = Seq::<char>::empty();
    let plus = Pattern::Plus(Box::new(e));
    if matches_prefix(plus, s) {
        let j = choose|j: int| #[trigger] at(j) && matches_slice(plus, s, 0, j);
        let n = choose|n: nat| #[trigger] at(n as int) && n >= 1 && matches_times(e, n, s, 0, j);
        let m = choose|m: int|
            #[trigger] at(m) && matches_slice(e, s, 0, m) && matches_times(
                e,
                (n - 1) as nat,
                s,
                m,
                j,
            );
        assert(at(m) && matches_slice(e, s, 0, m));
    }
    if matches_prefix(e, s) {
        let j = choose|j: int| #[trigger] at(j) && matches_slice(e, s, 0, j);
        assert(matches_times(e, 0, s, j, j));
        assert(at(j) && matches_slice(e, s, 0, j) && matches_times(e, 0, s, j, j));
        assert(matches_times(e, 1, s, 0, j));
        assert(at(1) && matches_times(e, 1, s, 0, j));
        assert(at(j) && matches_slice(plus, s, 0, j));
    }
}

/// The text of `n` times the character `c`.
pub open spec fn run_of(c: char, n: nat) -> Seq<char> {
    Seq::new(n, |i: int| c)
}

/// `k` times the literal `c` matches `k` characters of a run of `c`.
pub proof fn lemma_times_on_run(c: char, n: nat, k: nat, i: int)
    requires
        0 <= i,
        i + k <= n,
    ensures
        matches_times(Pattern::Char(c), k, run_of(c, n), i, i + k),
    decreases k,
{
    if k > 0 {
        lemma_times_on_run(c, n, (k - 1) as nat, i + 1);
        assert(at(i + 1) && matches_slice(Pattern::Char(c), run_of(c, n), i, i + 1)
            && matches_times(Pattern::Char(c), (k - 1) as nat, run_of(c, n), i + 1, i + k));
    }
}

/// `e?` matches at the start of every text, for every operand `e` of less
/// than half the address space.
pub proof fn theorem_question_always_matches(e: Seq<char>, s: Seq<char>)
    requires
        operand_text(e),
        2 * (e.len() + 1) < usize::MAX,
    ensures
        matching(e + seq!['?'], s) == Ok::<bool, MatchError>(true),
{
    let p = operand_pattern(e);
    lemma_parse_operand(e, '?');
    theorem_program_size(e + seq!['?']);
    let q = Pattern::Question(Box::new(p));
    lemma_optional_matches_empty(p, s);
    lemma_prefix_single(q, s);
}

/// `e*` matches at the start of every text, for every operand `e` of less
/// than half the address space.
pub proof fn theorem_star_always_matches(e: Seq<char>, s: Seq<char>)
    requires
        operand_text(e),
        2 * (e.len() + 1) < usize::MAX,
    ensures
        matching(e + seq!['*'], s) == Ok::<bool, MatchError>(true),
{
    let p = operand_pattern(e);
    lemma_parse_operand(e, '*');
    theorem_program_size(e + seq!['*']);
    let q = Pattern::Star(Box::new(p));
    lemma_optional_matches_empty(p, s);
    lemma_prefix_single(q, s);
}

/// On the empty text, `e+` gives the answer of `e`, for every operand `e` of
/// less than half the address space.
pub proof fn theorem_plus_on_empty(e: Seq<char>)
    requires
        operand_text(e),
        2 * (e.len() + 1) < usize::MAX,
    ensures
        matching(e + seq!['+'], Seq::empty()) == matching(e, Seq::empty()),
{
    let p = operand_pattern(e);
    lemma_parse_operand(e, '+');
    theorem_program_size(e + seq!['+']);
    theorem_program_size(e);
    let q = Pattern::Plus(Box::new(p));
    lemma_plus_on_empty(p);
    lemma_prefix_single(q, Seq::empty());
    lemma_prefix_single(p, Seq::empty());
}

/// For a literal `c`, the pattern `c+` matches every run of one or more `c`.
pub proof fn theorem_plus_matches_run(c: char, n: nat)
    requires
        !is_meta(c),
        n >= 1,
    ensures
        matching(seq![c, '+'], run_of(c, n)) == Ok::<bool, MatchError>(true),
{
    let e = seq![c];
    assert(operand_text(e));
    assert(e + seq!['+'] =~= seq![c, '+']);
    lemma_parse_operand(e, '+');
    let p = Pattern::Char(c);
    let q = Pattern::Plus(Box::new(p));
    theorem_program_size(seq![c, '+']);
    lemma_times_on_run(c, n, n, 0);
    assert(at(n as int) && n >= 1 && matches_times(p, n, run_of(c, n), 0, n as int));
    assert(at(n as int) && matches_slice(q, run_of(c, n), 0, n as int));
    lemma_prefix_single(q, run_of(c, n));
}

} // verus!

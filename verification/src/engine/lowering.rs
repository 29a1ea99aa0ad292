//! The program of a pattern accepts an input exactly where a slice from the
//! input's first character belongs to the pattern's language.
use super::codegen::{
    code, code_len, code_len_upto, code_upto, lemma_code_len, lemma_code_upto_len, program,
};
use super::language::{
    at, lemma_matches_upto_bounds, matches_prefix, matches_slice, matches_times, matches_upto,
};
use super::parser::Pattern;
use super::paths::{accepts, closed, reach};
use super::Instruction;
use vstd::prelude::*;

verus! {

/// The instructions `frag` stand in `prog` from address `base` on.
pub open spec fn holds(prog: Seq<Instruction>, frag: Seq<Instruction>, base: int) -> bool {
    &&& 0 <= base
    &&& base + frag.len() <= prog.len()
    &&& forall|k: int| 0 <= k < frag.len() ==> prog[base + k] == #[trigger] frag[k]
}

pub proof fn lemma_holds_parts(
    prog: Seq<Instruction>,
    a: Seq<Instruction>,
    c: Seq<Instruction>,
    base: int,
)
    requires
        holds(prog, a + c, base),
    ensures
        holds(prog, a, base),
        holds(prog, c, base + a.len()),
{
    assert forall|k: int| 0 <= k < a.len() implies prog[base + k] == #[trigger] a[k] by {
        assert((a + c)[k] == a[k]);
    }
    assert forall|k: int| 0 <= k < c.len() implies prog[base + a.len() + k] == #[trigger] c[k] by {
        assert((a + c)[a.len() + k] == c[k]);
    }
}

pub proof fn lemma_holds_one(prog: Seq<Instruction>, x: Instruction, base: int)
    requires
        holds(prog, seq![x], base),
    ensures
        base < prog.len(),
        prog[base] == x,
{
    assert(seq![x][0] == x);
}

/// Where the code of `l|r` stands at `b`: the split, the code of `l`, the
/// jump, the code of `r`.
pub proof fn lemma_layout_or(prog: Seq<Instruction>, l: Pattern, r: Pattern, b: int)
    requires
        holds(prog, code(Pattern::Or(Box::new(l), Box::new(r)), b), b),
        b + code_len(l) + code_len(r) + 2 <= usize::MAX,
    ensures
        b + code_len(l) + code_len(r) + 2 <= prog.len(),
        prog[b] == Instruction::Split((b + 1) as usize, (b + code_len(l) + 2) as usize),
        holds(prog, code(l, b + 1), b + 1),
        prog[(b + code_len(l) + 1) as int] == Instruction::Jump((b + code_len(l) + code_len(r) + 2) as usize),
        holds(prog, code(r, b + code_len(l) + 2), b + code_len(l) + 2),
{
    let split = seq![Instruction::Split((b + 1) as usize, (b + code_len(l) + 2) as usize)];
    let jump = seq![Instruction::Jump((b + code_len(l) + code_len(r) + 2) as usize)];
    lemma_code_len(l, b + 1);
    lemma_code_len(r, b + code_len(l) + 2);
    lemma_holds_parts(prog, split + code(l, b + 1) + jump, code(r, b + code_len(l) + 2), b);
    lemma_holds_parts(prog, split + code(l, b + 1), jump, b);
    lemma_holds_parts(prog, split, code(l, b + 1), b);
    lemma_holds_one(prog, split[0], b);
    lemma_holds_one(prog, jump[0], b + code_len(l) + 1);
}

/// Where the code of `e?` stands at `b`: the split, the code of `e`.
pub proof fn lemma_layout_question(prog: Seq<Instruction>, e: Pattern, b: int)
    requires
        holds(prog, code(Pattern::Question(Box::new(e)), b), b),
        b + code_len(e) + 1 <= usize::MAX,
    ensures
        b + code_len(e) + 1 <= prog.len(),
        prog[b] == Instruction::Split((b + 1) as usize, (b + code_len(e) + 1) as usize),
        holds(prog, code(e, b + 1), b + 1),
{
    let split = seq![Instruction::Split((b + 1) as usize, (b + code_len(e) + 1) as usize)];
    lemma_code_len(e, b + 1);
    lemma_holds_parts(prog, split, code(e, b + 1), b);
    lemma_holds_one(prog, split[0], b);
}

/// Where the code of `e+` stands at `b`: the code of `e`, the split.
pub proof fn lemma_layout_plus(prog: Seq<Instruction>, e: Pattern, b: int)
    requires
        holds(prog, code(Pattern::Plus(Box::new(e)), b), b),
        b + code_len(e) + 1 <= usize::MAX,
    ensures
        b + code_len(e) + 1 <= prog.len(),
        holds(prog, code(e, b), b),
        prog[(b + code_len(e)) as int] == Instruction::Split(b as usize, (b + code_len(e) + 1) as usize),
{
    let split = seq![Instruction::Split(b as usize, (b + code_len(e) + 1) as usize)];
    lemma_code_len(e, b);
    lemma_holds_parts(prog, code(e, b), split, b);
    lemma_holds_one(prog, split[0], b + code_len(e));
}

/// Where the code of `e*` stands at `b`: the split, the code of `e`, the
/// jump back.
pub proof fn lemma_layout_star(prog: Seq<Instruction>, e: Pattern, b: int)
    requires
        holds(prog, code(Pattern::Star(Box::new(e)), b), b),
        b + code_len(e) + 2 <= usize::MAX,
    ensures
        b + code_len(e) + 2 <= prog.len(),
        prog[b] == Instruction::Split((b + 1) as usize, (b + code_len(e) + 2) as usize),
        holds(prog, code(e, b + 1), b + 1),
        prog[(b + code_len(e) + 1) as int] == Instruction::Jump(b as usize),
{
    let split = seq![Instruction::Split((b + 1) as usize, (b + code_len(e) + 2) as usize)];
    let jump = seq![Instruction::Jump(b as usize)];
    lemma_code_len(e, b + 1);
    lemma_holds_parts(prog, split + code(e, b + 1), jump, b);
    lemma_holds_parts(prog, split, code(e, b + 1), b);
    lemma_holds_one(prog, split[0], b);
    lemma_holds_one(prog, jump[0], b + code_len(e) + 1);
}

/// Where the code of a sequence stands at `b`, the code of its `k`-th
/// pattern stands behind the code of those before it.
pub proof fn lemma_layout_child(prog: Seq<Instruction>, v: Seq<Pattern>, n: nat, k: nat, b: int)
    requires
        holds(prog, code_upto(v, n, b), b),
        k < n <= v.len(),
    ensures
        holds(prog, code_upto(v, k, b), b),
        holds(prog, code(v[k as int], b + code_len_upto(v, k)), b + code_len_upto(v, k)),
        code_len_upto(v, k) + code_len(v[k as int]) == code_len_upto(v, k + 1),
        code_len_upto(v, k + 1) <= code_len_upto(v, n),
    decreases n,
{
    let m = (n - 1) as nat;
    lemma_code_upto_len(v, m, b);
    lemma_holds_parts(prog, code_upto(v, m, b), code(v[m as int], b + code_len_upto(v, m)), b);
    if k < m {
        lemma_layout_child(prog, v, m, k, b);
    }
}

/// No jump and no split of `frag` has a target above `top`.
pub open spec fn below(frag: Seq<Instruction>, top: int) -> bool {
    forall|k: int|
        0 <= k < frag.len() ==> match #[trigger] frag[k] {
            Instruction::Jump(a) => a <= top,
            Instruction::Split(a, c) => a <= top && c <= top,
            _ => true,
        }
}

/// The code of a pattern holds no `match`.
pub open spec fn open_ended(frag: Seq<Instruction>) -> bool {
    forall|k: int| 0 <= k < frag.len() ==> !(#[trigger] frag[k] is Match)
}

pub proof fn lemma_below_join(a: Seq<Instruction>, c: Seq<Instruction>, low: int, top: int)
    requires
        below(a, low),
        open_ended(a),
        below(c, top),
        open_ended(c),
        low <= top,
    ensures
        below(a + c, top),
        open_ended(a + c),
{
    assert forall|k: int| 0 <= k < (a + c).len() implies match #[trigger] (a + c)[k] {
        Instruction::Jump(x) => x <= top,
        Instruction::Split(x, y) => x <= top && y <= top,
        _ => true,
    } && !((a + c)[k] is Match) by {
        if k < a.len() {
            assert((a + c)[k] == a[k]);
        } else {
            assert((a + c)[k] == c[k - a.len()]);
        }
    }
}

/// The targets of the code of `p` at `b` lie at or before the address behind
/// it.
pub proof fn lemma_code_below(p: Pattern, b: int)
    requires
        0 <= b,
        b + code_len(p) <= usize::MAX,
    ensures
        below(code(p, b), b + code_len(p)),
        open_ended(code(p, b)),
    decreases p, 0nat,
{
    let top = b + code_len(p);
    match p {
        Pattern::Char(c) => {},
        Pattern::Plus(e) => {
            lemma_code_below(*e, b);
            let split = seq![Instruction::Split(b as usize, (b + code_len(*e) + 1) as usize)];
            lemma_below_join(code(*e, b), split, b + code_len(*e), top);
        },
        Pattern::Star(e) => {
            lemma_code_below(*e, b + 1);
            let split = seq![
                Instruction::Split((b + 1) as usize, (b + code_len(*e) + 2) as usize),
            ];
            let jump = seq![Instruction::Jump(b as usize)];
            lemma_below_join(split, code(*e, b + 1), top, top);
            lemma_below_join(split + code(*e, b + 1), jump, top, top);
        },
        Pattern::Question(e) => {
            lemma_code_below(*e, b + 1);
            let split = seq![
                Instruction::Split((b + 1) as usize, (b + code_len(*e) + 1) as usize),
            ];
            lemma_below_join(split, code(*e, b + 1), top, top);
        },
        Pattern::Or(l, r) => {
            lemma_code_below(*l, b + 1);
            lemma_code_below(*r, b + code_len(*l) + 2);
            let split = seq![
                Instruction::Split((b + 1) as usize, (b + code_len(*l) + 2) as usize),
            ];
            let jump = seq![
                Instruction::Jump((b + code_len(*l) + code_len(*r) + 2) as usize),
            ];
            lemma_below_join(split, code(*l, b + 1), top, top);
            lemma_below_join(split + code(*l, b + 1), jump, top, top);
            lemma_below_join(
                split + code(*l, b + 1) + jump,
                code(*r, b + code_len(*l) + 2),
                top,
                top,
            );
        },
        Pattern::Sequence(v) => {
            lemma_code_upto_below(v, v.len(), b);
        },
    }
}

pub proof fn lemma_code_upto_below(v: Seq<Pattern>, k: nat, b: int)
    requires
        0 <= b,
        k <= v.len(),
        b + code_len_upto(v, k) <= usize::MAX,
    ensures
        below(code_upto(v, k, b), b + code_len_upto(v, k)),
        open_ended(code_upto(v, k, b)),
    decreases v, k,
{
    if k > 0 {
        let m = (k - 1) as nat;
        lemma_code_upto_below(v, m, b);
        lemma_code_below(v[m as int], b + code_len_upto(v, m));
        lemma_below_join(
            code_upto(v, m, b),
            code(v[m as int], b + code_len_upto(v, m)),
            b + code_len_upto(v, m),
            b + code_len_upto(v, k),
        );
    }
}

/// The program of a pattern is closed.
pub proof fn lemma_program_closed(p: Pattern)
    requires
        code_len(p) < usize::MAX,
    ensures
        closed(program(p)),
        program(p).len() == code_len(p) + 1,
{
    let prog = program(p);
    lemma_code_len(p, 0);
    lemma_code_below(p, 0);
    assert forall|pc: int| 0 <= pc < prog.len() implies match #[trigger] prog[pc] {
        Instruction::Char(_) => pc + 1 < prog.len(),
        Instruction::Match => true,
        Instruction::Jump(a) => a < prog.len(),
        Instruction::Split(a, c) => a < prog.len() && c < prog.len(),
    } by {
        if pc < code_len(p) {
            assert(prog[pc] == code(p, 0)[pc]);
        }
    }
}

/// From a slice in the language to a path through the code: where a path
/// leads on from behind the code of `p` at the slice's end, a path leads
/// there from the code's first instruction at the slice's start. The result
/// is its length.
pub proof fn lemma_path_of_match(
    prog: Seq<Instruction>,
    input: Seq<char>,
    p: Pattern,
    b: int,
    i: int,
    j: int,
    n: nat,
) -> (k: nat)
    requires
        holds(prog, code(p, b), b),
        b + code_len(p) <= usize::MAX,
        matches_slice(p, input, i, j),
        reach(prog, input, b + code_len(p), j, n),
    ensures
        reach(prog, input, b, i, k),
    decreases p, 0nat, 0nat,
{
    match p {
        Pattern::Char(c) => {
            lemma_holds_one(prog, Instruction::Char(c), b);
            n + 1
        },
        Pattern::Sequence(v) => lemma_path_of_upto(prog, input, v, v.len(), b, i, j, n),
        Pattern::Or(l, r) => {
            lemma_layout_or(prog, *l, *r, b);
            if matches_slice(*l, input, i, j) {
                assert(reach(prog, input, b + code_len(*l) + 1, j, n + 1));
                let k = lemma_path_of_match(prog, input, *l, b + 1, i, j, n + 1);
                k + 1
            } else {
                let k = lemma_path_of_match(prog, input, *r, b + code_len(*l) + 2, i, j, n);
                k + 1
            }
        },
        Pattern::Question(e) => {
            lemma_layout_question(prog, *e, b);
            if matches_slice(*e, input, i, j) {
                let k = lemma_path_of_match(prog, input, *e, b + 1, i, j, n);
                k + 1
            } else {
                n + 1
            }
        },
        Pattern::Star(e) => {
            let t = choose|t: nat| #[trigger] at(t as int) && matches_times(*e, t, input, i, j);
            lemma_path_of_star(prog, input, *e, b, t, i, j, n)
        },
        Pattern::Plus(e) => {
            let t = choose|t: nat|
                #[trigger] at(t as int) && t >= 1 && matches_times(*e, t, input, i, j);
            lemma_path_of_plus(prog, input, *e, b, t, i, j, n)
        },
    }
}

pub proof fn lemma_path_of_upto(
    prog: Seq<Instruction>,
    input: Seq<char>,
    v: Seq<Pattern>,
    cnt: nat,
    b: int,
    i: int,
    j: int,
    n: nat,
) -> (k: nat)
    requires
        cnt <= v.len(),
        holds(prog, code_upto(v, cnt, b), b),
        b + code_len_upto(v, cnt) <= usize::MAX,
        matches_upto(v, cnt, input, i, j),
        reach(prog, input, b + code_len_upto(v, cnt), j, n),
    ensures
        reach(prog, input, b, i, k),
    decreases v, cnt, 0nat,
{
    if cnt == 0 {
        n
    } else {
        let last = (cnt - 1) as nat;
        let m = choose|m: int|
            #[trigger] at(m) && matches_upto(v, last, input, i, m) && matches_slice(
                v[cnt - 1],
                input,
                m,
                j,
            );
        lemma_layout_child(prog, v, cnt, last, b);
        let k = lemma_path_of_match(prog, input, v[cnt - 1], b + code_len_upto(v, last), m, j, n);
        lemma_path_of_upto(prog, input, v, last, b, i, m, k)
    }
}

pub proof fn lemma_path_of_star(
    prog: Seq<Instruction>,
    input: Seq<char>,
    e: Pattern,
    b: int,
    t: nat,
    i: int,
    j: int,
    n: nat,
) -> (k: nat)
    requires
        holds(prog, code(Pattern::Star(Box::new(e)), b), b),
        b + code_len(e) + 2 <= usize::MAX,
        matches_times(e, t, input, i, j),
        reach(prog, input, b + code_len(e) + 2, j, n),
    ensures
        reach(prog, input, b, i, k),
    decreases e, t + 1, 0nat,
{
    lemma_layout_star(prog, e, b);
    if t == 0 {
        n + 1
    } else {
        let m = choose|m: int|
            #[trigger] at(m) && matches_slice(e, input, i, m) && matches_times(
                e,
                (t - 1) as nat,
                input,
                m,
                j,
            );
        let k1 = lemma_path_of_star(prog, input, e, b, (t - 1) as nat, m, j, n);
        assert(reach(prog, input, b + code_len(e) + 1, m, k1 + 1));
        let k2 = lemma_path_of_match(prog, input, e, b + 1, i, m, k1 + 1);
        k2 + 1
    }
}

pub proof fn lemma_path_of_plus(
    prog: Seq<Instruction>,
    input: Seq<char>,
    e: Pattern,
    b: int,
    t: nat,
    i: int,
    j: int,
    n: nat,
) -> (k: nat)
    requires
        holds(prog, code(Pattern::Plus(Box::new(e)), b), b),
        b + code_len(e) + 1 <= usize::MAX,
        t >= 1,
        matches_times(e, t, input, i, j),
        reach(prog, input, b + code_len(e) + 1, j, n),
    ensures
        reach(prog, input, b, i, k),
    decreases e, t + 1, 0nat,
{
    lemma_layout_plus(prog, e, b);
    let m = choose|m: int|
        #[trigger] at(m) && matches_slice(e, input, i, m) && matches_times(
            e,
            (t - 1) as nat,
            input,
            m,
            j,
        );
    if t == 1 {
        assert(reach(prog, input, b + code_len(e), m, n + 1));
        lemma_path_of_match(prog, input, e, b, i, m, n + 1)
    } else {
        let k1 = lemma_path_of_plus(prog, input, e, b, (t - 1) as nat, m, j, n);
        assert(reach(prog, input, b + code_len(e), m, k1 + 1));
        lemma_path_of_match(prog, input, e, b, i, m, k1 + 1)
    }
}

/// From a path through the code to a slice in the language: a path from the
/// first instruction of the code of `p` to `match` leaves that code behind
/// its last instruction, and the input it has consumed until then belongs to
/// the language of `p`. The result is the position reached and the length of
/// the rest of the path.
pub proof fn lemma_match_of_path(
    prog: Seq<Instruction>,
    input: Seq<char>,
    p: Pattern,
    b: int,
    sp: int,
    n: nat,
) -> (r: (int, nat))
    requires
        holds(prog, code(p, b), b),
        b + code_len(p) <= usize::MAX,
        0 <= sp <= input.len(),
        reach(prog, input, b, sp, n),
    ensures
        matches_slice(p, input, sp, r.0),
        r.1 <= n,
        reach(prog, input, b + code_len(p), r.0, r.1),
    decreases p, n, 0nat,
{
    match p {
        Pattern::Char(c) => {
            lemma_holds_one(prog, Instruction::Char(c), b);
            (sp + 1, (n - 1) as nat)
        },
        Pattern::Sequence(v) => {
            let r = lemma_match_of_path_upto(prog, input, v, 0, b, sp, sp, n);
            lemma_matches_upto_bounds(v, v.len(), input, sp, r.0);
            r
        },
        Pattern::Or(l, r) => {
            lemma_layout_or(prog, *l, *r, b);
            let rest = (n - 1) as nat;
            if reach(prog, input, b + 1, sp, rest) {
                let (m, k) = lemma_match_of_path(prog, input, *l, b + 1, sp, rest);
                (m, (k - 1) as nat)
            } else {
                lemma_match_of_path(prog, input, *r, b + code_len(*l) + 2, sp, rest)
            }
        },
        Pattern::Question(e) => {
            lemma_layout_question(prog, *e, b);
            let rest = (n - 1) as nat;
            if reach(prog, input, b + 1, sp, rest) {
                lemma_match_of_path(prog, input, *e, b + 1, sp, rest)
            } else {
                (sp, rest)
            }
        },
        Pattern::Star(e) => {
            lemma_layout_star(prog, *e, b);
            let rest = (n - 1) as nat;
            if reach(prog, input, b + 1, sp, rest) {
                let (m1, k1) = lemma_match_of_path(prog, input, *e, b + 1, sp, rest);
                let (m, k) = lemma_match_of_path(prog, input, p, b, m1, (k1 - 1) as nat);
                let t = choose|t: nat| #[trigger] at(t as int) && matches_times(*e, t, input, m1, m);
                assert(at(m1) && matches_slice(*e, input, sp, m1) && matches_times(
                    *e,
                    t,
                    input,
                    m1,
                    m,
                ));
                assert(matches_times(*e, t + 1, input, sp, m));
                assert(at((t + 1) as int));
                (m, k)
            } else {
                assert(at(0) && matches_times(*e, 0, input, sp, sp));
                (sp, rest)
            }
        },
        Pattern::Plus(e) => {
            lemma_layout_plus(prog, *e, b);
            let (m1, k1) = lemma_match_of_path(prog, input, *e, b, sp, n);
            let rest = (k1 - 1) as nat;
            if reach(prog, input, b, m1, rest) {
                let (m, k) = lemma_match_of_path(prog, input, p, b, m1, rest);
                let t = choose|t: nat|
                    #[trigger] at(t as int) && t >= 1 && matches_times(*e, t, input, m1, m);
                assert(at(m1) && matches_slice(*e, input, sp, m1) && matches_times(
                    *e,
                    t,
                    input,
                    m1,
                    m,
                ));
                assert(matches_times(*e, t + 1, input, sp, m));
                assert(at((t + 1) as int));
                (m, k)
            } else {
                assert(matches_times(*e, 0, input, m1, m1));
                assert(at(m1) && matches_slice(*e, input, sp, m1) && matches_times(
                    *e,
                    0,
                    input,
                    m1,
                    m1,
                ));
                assert(matches_times(*e, 1, input, sp, m1));
                assert(at(1));
                (m1, rest)
            }
        },
    }
}

pub proof fn lemma_match_of_path_upto(
    prog: Seq<Instruction>,
    input: Seq<char>,
    v: Seq<Pattern>,
    done: nat,
    b: int,
    start: int,
    sp: int,
    n: nat,
) -> (r: (int, nat))
    requires
        done <= v.len(),
        holds(prog, code_upto(v, v.len(), b), b),
        b + code_len_upto(v, v.len()) <= usize::MAX,
        0 <= sp <= input.len(),
        matches_upto(v, done, input, start, sp),
        reach(prog, input, b + code_len_upto(v, done), sp, n),
    ensures
        matches_upto(v, v.len(), input, start, r.0),
        r.1 <= n,
        reach(prog, input, b + code_len_upto(v, v.len()), r.0, r.1),
    decreases v, n, v.len() - done,
{
    if done == v.len() {
        (sp, n)
    } else {
        lemma_layout_child(prog, v, v.len(), done, b);
        let (m, k) = lemma_match_of_path(
            prog,
            input,
            v[done as int],
            b + code_len_upto(v, done),
            sp,
            n,
        );
        assert(at(sp) && matches_upto(v, done, input, start, sp) && matches_slice(
            v[done as int],
            input,
            sp,
            m,
        ));
        assert(matches_upto(v, done + 1, input, start, m));
        lemma_match_of_path_upto(prog, input, v, done + 1, b, start, m, k)
    }
}

/// The program of `p` accepts `input` exactly where a slice of `input` from
/// its first character on belongs to the language of `p`.
pub proof fn theorem_program_accepts(p: Pattern, input: Seq<char>)
    requires
        code_len(p) < usize::MAX,
    ensures
        accepts(program(p), input) == matches_prefix(p, input),
{
    let prog = program(p);
    lemma_code_len(p, 0);
    assert(holds(prog, code(p, 0), 0)) by {
        assert forall|k: int| 0 <= k < code(p, 0).len() implies prog[0 + k] == #[trigger] code(
            p,
            0,
        )[k] by {}
    }
    assert(prog[code_len(p) as int] == Instruction::Match);
    if accepts(prog, input) {
        let n = choose|n: nat| reach(prog, input, 0, 0, n);
        let (m, k) = lemma_match_of_path(prog, input, p, 0, 0, n);
        assert(at(m) && matches_slice(p, input, 0, m));
    }
    if matches_prefix(p, input) {
        let j = choose|j: int| #[trigger] at(j) && matches_slice(p, input, 0, j);
        assert(reach(prog, input, 0int + code_len(p), j, 0));
        let k = lemma_path_of_match(prog, input, p, 0, 0, j, 0);
    }
}

} // verus!

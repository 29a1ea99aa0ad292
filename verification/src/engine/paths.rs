//! Paths of the machine, and what the two evaluators find of them.
//!
//! A program accepts an input where some path from the first instruction and
//! the first character reaches `match`. On a program whose targets all lie
//! inside it, both evaluators answer exactly that question.
use super::evaluator::{
    eval_spec, eval_with_cache_spec, lemma_unseen_insert, lemma_unseen_shrinks, memo, run, unseen,
    visit, EvalError,
};
use super::Instruction;
use vstd::prelude::*;

verus! {

/// Some path of at most `n` steps leads from the state `(pc, sp)` to `match`.
pub open spec fn reach(prog: Seq<Instruction>, input: Seq<char>, pc: int, sp: int, n: nat) -> bool
    decreases n,
{
    0 <= pc < prog.len() && match prog[pc] {
        Instruction::Match => true,
        Instruction::Char(c) => n > 0 && 0 <= sp < input.len() && input[sp] == c && reach(
            prog,
            input,
            pc + 1,
            sp + 1,
            (n - 1) as nat,
        ),
        Instruction::Jump(a) => n > 0 && reach(prog, input, a as int, sp, (n - 1) as nat),
        Instruction::Split(a, b) => n > 0 && (reach(prog, input, a as int, sp, (n - 1) as nat)
            || reach(prog, input, b as int, sp, (n - 1) as nat)),
    }
}

/// Some path leads from the first instruction and the first character of
/// `input` to `match`.
pub open spec fn accepts(prog: Seq<Instruction>, input: Seq<char>) -> bool {
    exists|n: nat| reach(prog, input, 0, 0, n)
}

/// The program is not empty, every target lies inside it, and no `char`
/// stands at its end: the program counter cannot leave it.
pub open spec fn closed(prog: Seq<Instruction>) -> bool {
    &&& prog.len() > 0
    &&& forall|pc: int|
        0 <= pc < prog.len() ==> match #[trigger] prog[pc] {
            Instruction::Char(_) => pc + 1 < prog.len(),
            Instruction::Match => true,
            Instruction::Jump(a) => a < prog.len(),
            Instruction::Split(a, b) => a < prog.len() && b < prog.len(),
        }
}

/// As `reach`, on paths that take at most as many jumps and splits in a row
/// as the program has instructions; `idle` of them are taken already.
pub open spec fn reach_within(
    prog: Seq<Instruction>,
    input: Seq<char>,
    pc: int,
    sp: int,
    n: nat,
    idle: int,
) -> bool
    decreases n,
{
    0 <= pc < prog.len() && match prog[pc] {
        Instruction::Match => true,
        Instruction::Char(c) => n > 0 && 0 <= sp < input.len() && input[sp] == c && reach_within(
            prog,
            input,
            pc + 1,
            sp + 1,
            (n - 1) as nat,
            0,
        ),
        Instruction::Jump(a) => n > 0 && idle < prog.len() && reach_within(
            prog,
            input,
            a as int,
            sp,
            (n - 1) as nat,
            idle + 1,
        ),
        Instruction::Split(a, b) => n > 0 && idle < prog.len() && (reach_within(
            prog,
            input,
            a as int,
            sp,
            (n - 1) as nat,
            idle + 1,
        ) || reach_within(prog, input, b as int, sp, (n - 1) as nat, idle + 1)),
    }
}

/// As `reach`, on paths on which no jump and no split enters a state that
/// `avoid` holds for it: `(true, a, s)` bars a jump to `a` at `s`,
/// `(false, a, s)` a split.
pub open spec fn reach_avoiding(
    prog: Seq<Instruction>,
    input: Seq<char>,
    pc: int,
    sp: int,
    n: nat,
    avoid: Set<(bool, int, int)>,
) -> bool
    decreases n,
{
    0 <= pc < prog.len() && match prog[pc] {
        Instruction::Match => true,
        Instruction::Char(c) => n > 0 && 0 <= sp < input.len() && input[sp] == c
            && reach_avoiding(prog, input, pc + 1, sp + 1, (n - 1) as nat, avoid),
        Instruction::Jump(a) => n > 0 && !avoid.contains((true, a as int, sp)) && reach_avoiding(
            prog,
            input,
            a as int,
            sp,
            (n - 1) as nat,
            avoid,
        ),
        Instruction::Split(a, b) => n > 0 && ((!avoid.contains((false, a as int, sp)) && reach_avoiding(
            prog,
            input,
            a as int,
            sp,
            (n - 1) as nat,
            avoid,
        )) || (!avoid.contains((false, b as int, sp)) && reach_avoiding(
            prog,
            input,
            b as int,
            sp,
            (n - 1) as nat,
            avoid,
        ))),
    }
}

/// A path of at most `n` steps is a path of at most `m` steps for `m >= n`.
pub proof fn lemma_reach_more(
    prog: Seq<Instruction>,
    input: Seq<char>,
    pc: int,
    sp: int,
    n: nat,
    m: nat,
)
    requires
        reach(prog, input, pc, sp, n),
        n <= m,
    ensures
        reach(prog, input, pc, sp, m),
    decreases n,
{
    match prog[pc] {
        Instruction::Match => {},
        Instruction::Char(c) => {
            lemma_reach_more(prog, input, pc + 1, sp + 1, (n - 1) as nat, (m - 1) as nat);
        },
        Instruction::Jump(a) => {
            lemma_reach_more(prog, input, a as int, sp, (n - 1) as nat, (m - 1) as nat);
        },
        Instruction::Split(a, b) => {
            if reach(prog, input, a as int, sp, (n - 1) as nat) {
                lemma_reach_more(prog, input, a as int, sp, (n - 1) as nat, (m - 1) as nat);
            } else {
                lemma_reach_more(prog, input, b as int, sp, (n - 1) as nat, (m - 1) as nat);
            }
        },
    }
}

/// The plain evaluator does not fail on a closed program.
pub proof fn lemma_run_ok(prog: Seq<Instruction>, input: Seq<char>, pc: int, sp: int, idle: int)
    requires
        closed(prog),
        0 <= pc < prog.len(),
    ensures
        run(prog, input, pc, sp, idle) is Ok,
    decreases input.len() - sp, prog.len() - idle,
{
    match prog[pc] {
        Instruction::Match => {},
        Instruction::Char(c) => {
            if 0 <= sp < input.len() && input[sp] == c {
                lemma_run_ok(prog, input, pc + 1, sp + 1, 0);
            }
        },
        Instruction::Jump(a) => {
            if idle < prog.len() {
                lemma_run_ok(prog, input, a as int, sp, idle + 1);
            }
        },
        Instruction::Split(a, b) => {
            if idle < prog.len() {
                lemma_run_ok(prog, input, a as int, sp, idle + 1);
                lemma_run_ok(prog, input, b as int, sp, idle + 1);
            }
        },
    }
}

/// Where the plain evaluator answers yes, a path to `match` exists; the
/// result is its length.
pub proof fn lemma_run_sound(
    prog: Seq<Instruction>,
    input: Seq<char>,
    pc: int,
    sp: int,
    idle: int,
) -> (n: nat)
    requires
        run(prog, input, pc, sp, idle) == Ok::<bool, EvalError>(true),
    ensures
        reach(prog, input, pc, sp, n),
    decreases input.len() - sp, prog.len() - idle,
{
    match prog[pc] {
        Instruction::Match => 0,
        Instruction::Char(c) => {
            let k = lemma_run_sound(prog, input, pc + 1, sp + 1, 0);
            k + 1
        },
        Instruction::Jump(a) => {
            let k = lemma_run_sound(prog, input, a as int, sp, idle + 1);
            k + 1
        },
        Instruction::Split(a, b) => {
            if run(prog, input, a as int, sp, idle + 1) == Ok::<bool, EvalError>(true) {
                let k = lemma_run_sound(prog, input, a as int, sp, idle + 1);
                k + 1
            } else {
                let k = lemma_run_sound(prog, input, b as int, sp, idle + 1);
                k + 1
            }
        },
    }
}

/// On a closed program the plain evaluator finds every path that
/// `reach_within` admits.
pub proof fn lemma_run_finds(
    prog: Seq<Instruction>,
    input: Seq<char>,
    pc: int,
    sp: int,
    n: nat,
    idle: int,
)
    requires
        closed(prog),
        reach_within(prog, input, pc, sp, n, idle),
    ensures
        run(prog, input, pc, sp, idle) == Ok::<bool, EvalError>(true),
    decreases n,
{
    match prog[pc] {
        Instruction::Match => {},
        Instruction::Char(c) => {
            lemma_run_finds(prog, input, pc + 1, sp + 1, (n - 1) as nat, 0);
        },
        Instruction::Jump(a) => {
            lemma_run_finds(prog, input, a as int, sp, (n - 1) as nat, idle + 1);
        },
        Instruction::Split(a, b) => {
            lemma_run_ok(prog, input, a as int, sp, idle + 1);
            if reach_within(prog, input, a as int, sp, (n - 1) as nat, idle + 1) {
                lemma_run_finds(prog, input, a as int, sp, (n - 1) as nat, idle + 1);
            } else {
                lemma_run_finds(prog, input, b as int, sp, (n - 1) as nat, idle + 1);
            }
        },
    }
}

/// The length of a shortest path from `(pc, sp)` to `match`.
pub proof fn lemma_shortest(
    prog: Seq<Instruction>,
    input: Seq<char>,
    pc: int,
    sp: int,
    n: nat,
) -> (m: nat)
    requires
        reach(prog, input, pc, sp, n),
    ensures
        m <= n,
        reach(prog, input, pc, sp, m),
        m == 0 || !reach(prog, input, pc, sp, (m - 1) as nat),
    decreases n,
{
    if n > 0 && reach(prog, input, pc, sp, (n - 1) as nat) {
        lemma_shortest(prog, input, pc, sp, (n - 1) as nat)
    } else {
        n
    }
}

/// A shortest path takes no instruction twice without consuming a character
/// in between. `before` holds the instructions taken since the last one was
/// consumed.
pub proof fn lemma_shortest_within(
    prog: Seq<Instruction>,
    input: Seq<char>,
    pc: int,
    sp: int,
    n: nat,
    before: Set<int>,
)
    requires
        reach(prog, input, pc, sp, n),
        n == 0 || !reach(prog, input, pc, sp, (n - 1) as nat),
        before.finite(),
        forall|p: int| before.contains(p) ==> 0 <= p < prog.len() && !reach(prog, input, p, sp, n),
    ensures
        reach_within(prog, input, pc, sp, n, before.len() as int),
    decreases n,
{
    let here = before.insert(pc);
    vstd::set_lib::lemma_int_range(0, prog.len() as int);
    vstd::set_lib::lemma_len_subset(here, vstd::set_lib::set_int_range(0, prog.len() as int));
    assert(here.len() == before.len() + 1);
    match prog[pc] {
        Instruction::Match => {},
        Instruction::Char(c) => {
            let k = (n - 1) as nat;
            if k > 0 && reach(prog, input, pc + 1, sp + 1, (k - 1) as nat) {
                assert(reach(prog, input, pc, sp, k));
            }
            lemma_shortest_within(prog, input, pc + 1, sp + 1, k, Set::empty());
        },
        Instruction::Jump(a) => {
            let k = (n - 1) as nat;
            if k > 0 && reach(prog, input, a as int, sp, (k - 1) as nat) {
                assert(reach(prog, input, pc, sp, k));
            }
            assert forall|p: int| here.contains(p) implies 0 <= p < prog.len() && !reach(
                prog,
                input,
                p,
                sp,
                k,
            ) by {
                if reach(prog, input, p, sp, k) {
                    lemma_reach_more(prog, input, p, sp, k, n);
                }
            }
            lemma_shortest_within(prog, input, a as int, sp, k, here);
        },
        Instruction::Split(a, b) => {
            let k = (n - 1) as nat;
            let x = if reach(prog, input, a as int, sp, k) {
                a as int
            } else {
                b as int
            };
            if k > 0 && reach(prog, input, x, sp, (k - 1) as nat) {
                assert(reach(prog, input, pc, sp, k));
            }
            assert forall|p: int| here.contains(p) implies 0 <= p < prog.len() && !reach(
                prog,
                input,
                p,
                sp,
                k,
            ) by {
                if reach(prog, input, p, sp, k) {
                    lemma_reach_more(prog, input, p, sp, k, n);
                }
            }
            lemma_shortest_within(prog, input, x, sp, k, here);
        },
    }
}

/// On a closed program the plain evaluator says whether the program accepts
/// the input.
pub proof fn theorem_eval_decides(prog: Seq<Instruction>, input: Seq<char>)
    requires
        closed(prog),
    ensures
        eval_spec(prog, input) == Ok::<bool, EvalError>(accepts(prog, input)),
{
    lemma_run_ok(prog, input, 0, 0, 0);
    if eval_spec(prog, input) == Ok::<bool, EvalError>(true) {
        let n = lemma_run_sound(prog, input, 0, 0, 0);
        assert(accepts(prog, input));
    }
    if accepts(prog, input) {
        let n = choose|n: nat| reach(prog, input, 0, 0, n);
        let m = lemma_shortest(prog, input, 0, 0, n);
        lemma_shortest_within(prog, input, 0, 0, m, Set::empty());
        assert(Set::<int>::empty().len() == 0);
        lemma_run_finds(prog, input, 0, 0, m, 0);
    }
    match eval_spec(prog, input) {
        Ok(b) => {
            assert(b == accepts(prog, input));
        },
        Err(_) => {},
    }
}

/// A path that keeps out of a set keeps out of every part of it.
pub proof fn lemma_avoid_less(
    prog: Seq<Instruction>,
    input: Seq<char>,
    pc: int,
    sp: int,
    n: nat,
    small: Set<(bool, int, int)>,
    large: Set<(bool, int, int)>,
)
    requires
        small.subset_of(large),
        reach_avoiding(prog, input, pc, sp, n, large),
    ensures
        reach_avoiding(prog, input, pc, sp, n, small),
    decreases n,
{
    match prog[pc] {
        Instruction::Match => {},
        Instruction::Char(c) => {
            lemma_avoid_less(prog, input, pc + 1, sp + 1, (n - 1) as nat, small, large);
        },
        Instruction::Jump(a) => {
            lemma_avoid_less(prog, input, a as int, sp, (n - 1) as nat, small, large);
        },
        Instruction::Split(a, b) => {
            if !large.contains((false, a as int, sp)) && reach_avoiding(
                prog,
                input,
                a as int,
                sp,
                (n - 1) as nat,
                large,
            ) {
                lemma_avoid_less(prog, input, a as int, sp, (n - 1) as nat, small, large);
            } else {
                lemma_avoid_less(prog, input, b as int, sp, (n - 1) as nat, small, large);
            }
        },
    }
}

/// No state of `dead` starts a path to `match` that stays out of `dead`.
pub open spec fn barren(prog: Seq<Instruction>, input: Seq<char>, dead: Set<(bool, int, int)>) -> bool {
    forall|k: bool, a: int, s: int| #[trigger]
        dead.contains((k, a, s)) ==> forall|n: nat|
            !#[trigger] reach_avoiding(prog, input, a, s, n, dead)
}

/// Where `dead` is barren, a path to `match` can be had that stays out of it.
pub proof fn lemma_avoid_barren(
    prog: Seq<Instruction>,
    input: Seq<char>,
    pc: int,
    sp: int,
    n: nat,
    dead: Set<(bool, int, int)>,
)
    requires
        barren(prog, input, dead),
        reach(prog, input, pc, sp, n),
    ensures
        reach_avoiding(prog, input, pc, sp, n, dead),
    decreases n,
{
    match prog[pc] {
        Instruction::Match => {},
        Instruction::Char(c) => {
            lemma_avoid_barren(prog, input, pc + 1, sp + 1, (n - 1) as nat, dead);
        },
        Instruction::Jump(a) => {
            lemma_avoid_barren(prog, input, a as int, sp, (n - 1) as nat, dead);
        },
        Instruction::Split(a, b) => {
            if reach(prog, input, a as int, sp, (n - 1) as nat) {
                lemma_avoid_barren(prog, input, a as int, sp, (n - 1) as nat, dead);
            } else {
                lemma_avoid_barren(prog, input, b as int, sp, (n - 1) as nat, dead);
            }
        },
    }
}

/// What an evaluation from `seen` to `after` with the outcome `r` has shown:
/// it did not fail; it forgot nothing; where it found no match, no state it
/// has added starts a path to `match` that stays out of `after`.
pub open spec fn fair(
    prog: Seq<Instruction>,
    input: Seq<char>,
    seen: Set<(bool, int, int)>,
    r: Result<bool, EvalError>,
    after: Set<(bool, int, int)>,
) -> bool {
    &&& r is Ok
    &&& seen.subset_of(after)
    &&& r == Ok::<bool, EvalError>(false) ==> forall|k: bool, a: int, s: int| #[trigger]
        after.contains((k, a, s)) && !seen.contains((k, a, s)) ==> forall|n: nat|
            !#[trigger] reach_avoiding(prog, input, a, s, n, after)
}

/// The memoized evaluator on a closed program, from `(pc, sp)`: it is fair;
/// a yes comes with a path of the length returned; after a no, no path from
/// `(pc, sp)` stays out of the states then seen.
pub proof fn lemma_memo_fair(
    prog: Seq<Instruction>,
    input: Seq<char>,
    pc: int,
    sp: int,
    seen: Set<(bool, int, int)>,
) -> (k: nat)
    requires
        closed(prog),
        0 <= pc < prog.len(),
        0 <= sp <= input.len(),
    ensures
        fair(prog, input, seen, memo(prog, input, pc, sp, seen).0, memo(prog, input, pc, sp, seen).1),
        memo(prog, input, pc, sp, seen).0 == Ok::<bool, EvalError>(true) ==> reach(
            prog,
            input,
            pc,
            sp,
            k,
        ),
        memo(prog, input, pc, sp, seen).0 == Ok::<bool, EvalError>(false) ==> forall|n: nat|
            !#[trigger] reach_avoiding(prog, input, pc, sp, n, memo(prog, input, pc, sp, seen).1),
    decreases unseen(prog.len(), input.len(), seen), input.len() - sp, 1int,
{
    let end = memo(prog, input, pc, sp, seen);
    match prog[pc] {
        Instruction::Match => 0,
        Instruction::Char(c) => {
            if sp < input.len() && input[sp] == c {
                let k = lemma_memo_fair(prog, input, pc + 1, sp + 1, seen);
                if end.0 == Ok::<bool, EvalError>(false) {
                    assert forall|n: nat| !#[trigger] reach_avoiding(
                        prog,
                        input,
                        pc,
                        sp,
                        n,
                        end.1,
                    ) by {
                        if n > 0 {
                            assert(!reach_avoiding(
                                prog,
                                input,
                                pc + 1,
                                sp + 1,
                                (n - 1) as nat,
                                end.1,
                            ));
                        }
                    }
                }
                k + 1
            } else {
                0
            }
        },
        Instruction::Jump(a) => {
            let k = lemma_visit_fair(prog, input, true, a as int, sp, seen);
            if end.0 == Ok::<bool, EvalError>(false) {
                assert(end.1.contains((true, a as int, sp)));
            }
            k + 1
        },
        Instruction::Split(a, b) => {
            let first = visit(prog, input, false, a as int, sp, seen);
            let k1 = lemma_visit_fair(prog, input, false, a as int, sp, seen);
            if first.0 == Ok::<bool, EvalError>(false) {
                assert(seen + first.1 =~= first.1);
                lemma_unseen_shrinks(prog.len(), input.len(), seen, first.1);
                let second = visit(prog, input, false, b as int, sp, first.1);
                let k2 = lemma_visit_fair(prog, input, false, b as int, sp, first.1);
                if second.0 == Ok::<bool, EvalError>(false) {
                    assert forall|k: bool, x: int, s: int| #[trigger]
                        second.1.contains((k, x, s)) && !seen.contains(
                            (k, x, s),
                        ) implies forall|n: nat|
                        !#[trigger] reach_avoiding(prog, input, x, s, n, second.1) by {
                        assert forall|n: nat|
                            !#[trigger] reach_avoiding(prog, input, x, s, n, second.1) by {
                            if first.1.contains((k, x, s)) && reach_avoiding(
                                prog,
                                input,
                                x,
                                s,
                                n,
                                second.1,
                            ) {
                                lemma_avoid_less(prog, input, x, s, n, first.1, second.1);
                            }
                        }
                    }
                    assert(end == second);
                    assert(first.1.contains((false, a as int, sp)));
                    assert(end.1.contains((false, a as int, sp)));
                    assert(end.1.contains((false, b as int, sp)));
                }
                k2 + 1
            } else {
                k1 + 1
            }
        },
    }
}

/// As `lemma_memo_fair`, for a jump or a split that enters `(a, sp)`: after
/// a no, the entry is among those seen.
pub proof fn lemma_visit_fair(
    prog: Seq<Instruction>,
    input: Seq<char>,
    by_jump: bool,
    a: int,
    sp: int,
    seen: Set<(bool, int, int)>,
) -> (k: nat)
    requires
        closed(prog),
        0 <= a < prog.len(),
        0 <= sp <= input.len(),
    ensures
        fair(
            prog,
            input,
            seen,
            visit(prog, input, by_jump, a, sp, seen).0,
            visit(prog, input, by_jump, a, sp, seen).1,
        ),
        visit(prog, input, by_jump, a, sp, seen).0 == Ok::<bool, EvalError>(true) ==> reach(
            prog,
            input,
            a,
            sp,
            k,
        ),
        visit(prog, input, by_jump, a, sp, seen).0 == Ok::<bool, EvalError>(false) ==> visit(
            prog,
            input,
            by_jump,
            a,
            sp,
            seen,
        ).1.contains((by_jump, a, sp)),
    decreases unseen(prog.len(), input.len(), seen), input.len() - sp, 0int,
{
    if seen.contains((by_jump, a, sp)) {
        0
    } else {
        lemma_unseen_insert(prog.len(), input.len(), seen, (by_jump, a, sp));
        lemma_memo_fair(prog, input, a, sp, seen.insert((by_jump, a, sp)))
    }
}

/// On a closed program the memoized evaluator says whether the program
/// accepts the input.
pub proof fn theorem_eval_with_cache_decides(prog: Seq<Instruction>, input: Seq<char>)
    requires
        closed(prog),
    ensures
        eval_with_cache_spec(prog, input) == Ok::<bool, EvalError>(accepts(prog, input)),
{
    let k = lemma_memo_fair(prog, input, 0, 0, Set::empty());
    let end = memo(prog, input, 0, 0, Set::empty());
    if end.0 == Ok::<bool, EvalError>(true) {
        assert(accepts(prog, input));
    } else {
        match end.0 {
            Ok(b) => {
                assert(!b);
            },
            Err(_) => {},
        }
        assert(fair(prog, input, Set::empty(), end.0, end.1));
        assert forall|k: bool, a: int, s: int| #[trigger]
            end.1.contains((k, a, s)) implies forall|n: nat|
            !#[trigger] reach_avoiding(prog, input, a, s, n, end.1) by {
            assert(!Set::<(bool, int, int)>::empty().contains((k, a, s)));
        }
        assert(barren(prog, input, end.1));
        if accepts(prog, input) {
            let n = choose|n: nat| reach(prog, input, 0, 0, n);
            lemma_avoid_barren(prog, input, 0, 0, n, end.1);
        }
    }
}

/// On a closed program the two evaluators agree.
pub proof fn theorem_evaluators_agree(prog: Seq<Instruction>, input: Seq<char>)
    requires
        closed(prog),
    ensures
        eval_with_cache_spec(prog, input) == eval_spec(prog, input),
{
    theorem_eval_decides(prog, input);
    theorem_eval_with_cache_decides(prog, input);
}

} // verus!

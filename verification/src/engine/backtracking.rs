//! Backtracking with nothing to stop it, and the evaluators beside it.
//!
//! Depth-first backtracking as such need not end: a program can hold a cycle
//! of jumps and splits that consumes no input. Both evaluators end on every
//! program. Wherever backtracking as such ends, they return what it returns.
use super::evaluator::{eval_spec, eval_with_cache_spec, memo, run, visit, EvalError};
use super::Instruction;
use vstd::prelude::*;

verus! {

/// The outcome of depth-first backtracking from the state `(pc, sp)` where
/// it is found on paths of fewer than `fuel` steps, and `None` where it is
/// not.
pub open spec fn backtrack(
    prog: Seq<Instruction>,
    input: Seq<char>,
    pc: int,
    sp: int,
    fuel: nat,
) -> Option<Result<bool, EvalError>>
    decreases fuel,
{
    if fuel == 0 {
        None
    } else if !(0 <= pc < prog.len()) {
        Some(Err(EvalError::InvalidPC))
    } else {
        match prog[pc] {
            Instruction::Char(c) => if 0 <= sp < input.len() && input[sp] == c {
                backtrack(prog, input, pc + 1, sp + 1, (fuel - 1) as nat)
            } else {
                Some(Ok(false))
            },
            Instruction::Match => Some(Ok(true)),
            Instruction::Jump(a) => backtrack(prog, input, a as int, sp, (fuel - 1) as nat),
            Instruction::Split(a, b) => match backtrack(
                prog,
                input,
                a as int,
                sp,
                (fuel - 1) as nat,
            ) {
                Some(Ok(false)) => backtrack(prog, input, b as int, sp, (fuel - 1) as nat),
                other => other,
            },
        }
    }
}

/// An outcome found with some fuel is found with more.
pub proof fn lemma_backtrack_more(
    prog: Seq<Instruction>,
    input: Seq<char>,
    pc: int,
    sp: int,
    fuel: nat,
    more: nat,
)
    requires
        backtrack(prog, input, pc, sp, fuel) is Some,
        fuel <= more,
    ensures
        backtrack(prog, input, pc, sp, more) == backtrack(prog, input, pc, sp, fuel),
    decreases fuel,
{
    if 0 <= pc < prog.len() {
        let f = (fuel - 1) as nat;
        let m = (more - 1) as nat;
        match prog[pc] {
            Instruction::Char(c) => {
                if 0 <= sp < input.len() && input[sp] == c {
                    lemma_backtrack_more(prog, input, pc + 1, sp + 1, f, m);
                }
            },
            Instruction::Match => {},
            Instruction::Jump(a) => {
                lemma_backtrack_more(prog, input, a as int, sp, f, m);
            },
            Instruction::Split(a, b) => {
                lemma_backtrack_more(prog, input, a as int, sp, f, m);
                if backtrack(prog, input, a as int, sp, f) == Some(Ok::<bool, EvalError>(false)) {
                    lemma_backtrack_more(prog, input, b as int, sp, f, m);
                }
            },
        }
    }
}

/// The least fuel with which the outcome is found.
pub proof fn lemma_least_fuel(
    prog: Seq<Instruction>,
    input: Seq<char>,
    pc: int,
    sp: int,
    fuel: nat,
) -> (least: nat)
    requires
        backtrack(prog, input, pc, sp, fuel) is Some,
    ensures
        1 <= least <= fuel,
        backtrack(prog, input, pc, sp, least) == backtrack(prog, input, pc, sp, fuel),
        backtrack(prog, input, pc, sp, (least - 1) as nat) is None,
    decreases fuel,
{
    if backtrack(prog, input, pc, sp, (fuel - 1) as nat) is Some {
        lemma_backtrack_more(prog, input, pc, sp, (fuel - 1) as nat, fuel);
        lemma_least_fuel(prog, input, pc, sp, (fuel - 1) as nat)
    } else {
        fuel
    }
}

/// From the state `(pc, sp)` the plain evaluator returns what backtracking
/// finds with `fuel`. `before` holds the instructions taken since the last
/// character was consumed: they wait for the outcome of this state, so
/// `fuel` is not enough for them.
pub proof fn lemma_run_follows(
    prog: Seq<Instruction>,
    input: Seq<char>,
    pc: int,
    sp: int,
    fuel: nat,
    before: Set<int>,
)
    requires
        backtrack(prog, input, pc, sp, fuel) is Some,
        before.finite(),
        forall|p: int|
            before.contains(p) ==> 0 <= p < prog.len() && backtrack(prog, input, p, sp, fuel)
                is None,
    ensures
        Some(run(prog, input, pc, sp, before.len() as int)) == backtrack(prog, input, pc, sp, fuel),
    decreases fuel,
{
    if 0 <= pc < prog.len() {
        let least = lemma_least_fuel(prog, input, pc, sp, fuel);
        let f = (least - 1) as nat;
        let here = before.insert(pc);
        vstd::set_lib::lemma_int_range(0, prog.len() as int);
        vstd::set_lib::lemma_len_subset(here, vstd::set_lib::set_int_range(0, prog.len() as int));
        assert(here.len() == before.len() + 1);
        assert forall|p: int| here.contains(p) implies 0 <= p < prog.len() && backtrack(
            prog,
            input,
            p,
            sp,
            f,
        ) is None by {
            if p != pc && backtrack(prog, input, p, sp, f) is Some {
                lemma_backtrack_more(prog, input, p, sp, f, fuel);
            }
        }
        match prog[pc] {
            Instruction::Char(c) => {
                if 0 <= sp < input.len() && input[sp] == c {
                    lemma_run_follows(prog, input, pc + 1, sp + 1, f, Set::empty());
                }
            },
            Instruction::Match => {},
            Instruction::Jump(a) => {
                lemma_run_follows(prog, input, a as int, sp, f, here);
            },
            Instruction::Split(a, b) => {
                lemma_run_follows(prog, input, a as int, sp, f, here);
                if backtrack(prog, input, a as int, sp, f) == Some(Ok::<bool, EvalError>(false)) {
                    lemma_run_follows(prog, input, b as int, sp, f, here);
                }
            },
        }
    }
}

/// Wherever backtracking as such ends, the plain evaluator returns its
/// outcome.
pub proof fn theorem_eval_follows(prog: Seq<Instruction>, input: Seq<char>, fuel: nat)
    requires
        backtrack(prog, input, 0, 0, fuel) is Some,
    ensures
        Some(eval_spec(prog, input)) == backtrack(prog, input, 0, 0, fuel),
{
    lemma_run_follows(prog, input, 0, 0, fuel, Set::empty());
}

/// Backtracking from `(a, s)` ends without a match.
pub open spec fn fails(prog: Seq<Instruction>, input: Seq<char>, a: int, s: int) -> bool {
    exists|g: nat| #[trigger] backtrack(prog, input, a, s, g) == Some(Ok::<bool, EvalError>(false))
}

/// Each state of `seen` either fails or is one for which `fuel` is not
/// enough.
pub open spec fn settled(
    prog: Seq<Instruction>,
    input: Seq<char>,
    seen: Set<(bool, int, int)>,
    fuel: nat,
) -> bool {
    forall|k: bool, a: int, s: int| #[trigger]
        seen.contains((k, a, s)) ==> fails(prog, input, a, s) || backtrack(
            prog,
            input,
            a,
            s,
            fuel,
        ) is None
}

/// What the memoized evaluator has done when it goes from `seen` to
/// `end.1` with the outcome `end.0`, where backtracking finds `found`: the
/// same outcome; nothing forgotten; after a no, every state added fails.
pub open spec fn follows(
    prog: Seq<Instruction>,
    input: Seq<char>,
    seen: Set<(bool, int, int)>,
    end: (Result<bool, EvalError>, Set<(bool, int, int)>),
    found: Option<Result<bool, EvalError>>,
) -> bool {
    &&& Some(end.0) == found
    &&& seen.subset_of(end.1)
    &&& end.0 == Ok::<bool, EvalError>(false) ==> forall|k: bool, a: int, s: int| #[trigger]
        end.1.contains((k, a, s)) ==> seen.contains((k, a, s)) || fails(prog, input, a, s)
}

proof fn lemma_settled_less(
    prog: Seq<Instruction>,
    input: Seq<char>,
    seen: Set<(bool, int, int)>,
    fuel: nat,
    less: nat,
)
    requires
        settled(prog, input, seen, fuel),
        less <= fuel,
    ensures
        settled(prog, input, seen, less),
{
    assert forall|k: bool, a: int, s: int| #[trigger]
        seen.contains((k, a, s)) implies fails(prog, input, a, s) || backtrack(
        prog,
        input,
        a,
        s,
        less,
    ) is None by {
        if backtrack(prog, input, a, s, less) is Some {
            lemma_backtrack_more(prog, input, a, s, less, fuel);
        }
    }
}

/// From the state `(pc, sp)` the memoized evaluator returns what
/// backtracking finds with `fuel`.
pub proof fn lemma_memo_follows(
    prog: Seq<Instruction>,
    input: Seq<char>,
    pc: int,
    sp: int,
    seen: Set<(bool, int, int)>,
    fuel: nat,
)
    requires
        0 <= sp <= input.len(),
        backtrack(prog, input, pc, sp, fuel) is Some,
        settled(prog, input, seen, (fuel - 1) as nat),
    ensures
        follows(
            prog,
            input,
            seen,
            memo(prog, input, pc, sp, seen),
            backtrack(prog, input, pc, sp, fuel),
        ),
    decreases fuel, 0nat,
{
    if 0 <= pc < prog.len() {
        let f = (fuel - 1) as nat;
        match prog[pc] {
            Instruction::Char(c) => {
                if sp < input.len() && input[sp] == c {
                    assert(backtrack(prog, input, pc + 1, sp + 1, f) is Some);
                    assert(f >= 1);
                    lemma_settled_less(prog, input, seen, f, (f - 1) as nat);
                    lemma_memo_follows(prog, input, pc + 1, sp + 1, seen, f);
                }
            },
            Instruction::Match => {},
            Instruction::Jump(a) => {
                lemma_visit_follows(prog, input, true, a as int, sp, seen, f);
            },
            Instruction::Split(a, b) => {
                lemma_visit_follows(prog, input, false, a as int, sp, seen, f);
                let first = visit(prog, input, false, a as int, sp, seen);
                if first.0 == Ok::<bool, EvalError>(false) {
                    assert(seen + first.1 =~= first.1);
                    lemma_visit_follows(prog, input, false, b as int, sp, first.1, f);
                }
            },
        }
    }
}

/// As `lemma_memo_follows`, for a jump or a split that enters `(a, sp)`.
pub proof fn lemma_visit_follows(
    prog: Seq<Instruction>,
    input: Seq<char>,
    by_jump: bool,
    a: int,
    sp: int,
    seen: Set<(bool, int, int)>,
    fuel: nat,
)
    requires
        0 <= sp <= input.len(),
        backtrack(prog, input, a, sp, fuel) is Some,
        settled(prog, input, seen, fuel),
    ensures
        follows(
            prog,
            input,
            seen,
            visit(prog, input, by_jump, a, sp, seen),
            backtrack(prog, input, a, sp, fuel),
        ),
    decreases fuel, 1nat,
{
    if seen.contains((by_jump, a, sp)) {
        let g = choose|g: nat| #[trigger]
            backtrack(prog, input, a, sp, g) == Some(Ok::<bool, EvalError>(false));
        if g <= fuel {
            lemma_backtrack_more(prog, input, a, sp, g, fuel);
        } else {
            lemma_backtrack_more(prog, input, a, sp, fuel, g);
        }
    } else if 0 <= a < prog.len() {
        let least = lemma_least_fuel(prog, input, a, sp, fuel);
        let inside = seen.insert((by_jump, a, sp));
        lemma_settled_less(prog, input, seen, fuel, (least - 1) as nat);
        assert(settled(prog, input, inside, (least - 1) as nat));
        lemma_memo_follows(prog, input, a, sp, inside, least);
        let end = memo(prog, input, a, sp, inside);
        if end.0 == Ok::<bool, EvalError>(false) {
            assert(fails(prog, input, a, sp));
        }
    }
}

/// Wherever backtracking as such ends, the memoized evaluator returns its
/// outcome.
pub proof fn theorem_eval_with_cache_follows(prog: Seq<Instruction>, input: Seq<char>, fuel: nat)
    requires
        backtrack(prog, input, 0, 0, fuel) is Some,
    ensures
        Some(eval_with_cache_spec(prog, input)) == backtrack(prog, input, 0, 0, fuel),
{
    lemma_memo_follows(prog, input, 0, 0, Set::empty(), fuel);
}

} // verus!

//! The virtual machine.
//!
//! A state is a program counter and a position in the input. `char c` moves
//! both forward where the input holds `c` there, and gives up the path where
//! it does not; `match` accepts; `jump` moves the program counter; `split`
//! tries its first target and, where that finds no match, its second.
//!
//! The plain evaluator backtracks and nothing more. The memoized evaluator
//! keeps a cache of the jumps it has followed, each as its target and the
//! position it was followed at, and gives up a jump that the cache holds.
//! Neither runs for ever: the plain one counts the jumps and splits taken
//! since the last character was consumed, the memoized one remembers, beside
//! its cache, the targets that splits have entered.
use super::backtracking::{backtrack, theorem_eval_follows, theorem_eval_with_cache_follows};
use super::paths::{accepts, closed, theorem_eval_decides, theorem_eval_with_cache_decides};
use super::table::{grown_little, theorem_cache_grows_little};
use super::Instruction;
use crate::helper::safe_add;
use std::collections::HashSet;
use vstd::prelude::*;

verus! {

broadcast use vstd::std_specs::hash::group_hash_axioms;

/// Why an evaluation stopped without an answer.
#[derive(Debug, Clone, Copy, PartialEq, Eq, Structural)]
pub enum EvalError {
    /// The program counter cannot be advanced.
    PCOverflow,
    /// The input position cannot be advanced.
    SPOverflow,
    /// The program counter left the program.
    InvalidPC,
    /// Kept for callers that name it; no evaluation returns it.
    InvalidContext,
}

/// The outcome of the plain evaluator from the state `(pc, sp)`.
///
/// `idle` counts the jumps and splits taken since the last character was
/// consumed. A path that would take more of them than the program has
/// instructions is on a cycle that consumes nothing, and is given up as a
/// path without a match.
pub open spec fn run(
    prog: Seq<Instruction>,
    input: Seq<char>,
    pc: int,
    sp: int,
    idle: int,
) -> Result<bool, EvalError>
    decreases input.len() - sp, prog.len() - idle,
{
    if !(0 <= pc < prog.len()) {
        Err(EvalError::InvalidPC)
    } else {
        match prog[pc] {
            Instruction::Char(c) => if 0 <= sp < input.len() && input[sp] == c {
                run(prog, input, pc + 1, sp + 1, 0)
            } else {
                Ok(false)
            },
            Instruction::Match => Ok(true),
            Instruction::Jump(a) => if idle < prog.len() {
                run(prog, input, a as int, sp, idle + 1)
            } else {
                Ok(false)
            },
            Instruction::Split(a, b) => if idle < prog.len() {
                match run(prog, input, a as int, sp, idle + 1) {
                    Ok(false) => run(prog, input, b as int, sp, idle + 1),
                    r => r,
                }
            } else {
                Ok(false)
            },
        }
    }
}

/// The states of a program of `h` instructions on an input of `w`
/// characters, each with the way it is entered: `true` for a jump, `false`
/// for a split.
pub open spec fn grid(h: nat, w: nat) -> Set<(bool, int, int)> {
    Set::new(|s: (bool, int, int)| 0 <= s.1 < h && 0 <= s.2 <= w)
}

/// How many entries are not in `seen`.
pub open spec fn unseen(h: nat, w: nat, seen: Set<(bool, int, int)>) -> nat {
    grid(h, w).difference(seen).len()
}

proof fn lemma_row_finite(k: bool, p: int, w: int)
    requires
        w >= -1,
    ensures
        Set::new(|s: (bool, int, int)| s.0 == k && s.1 == p && 0 <= s.2 <= w).finite(),
    decreases w + 1,
{
    let row = Set::new(|s: (bool, int, int)| s.0 == k && s.1 == p && 0 <= s.2 <= w);
    if w == -1 {
        assert(row =~= Set::<(bool, int, int)>::empty());
    } else {
        lemma_row_finite(k, p, w - 1);
        let below = Set::new(|s: (bool, int, int)| s.0 == k && s.1 == p && 0 <= s.2 <= w - 1);
        assert(row =~= below.insert((k, p, w)));
    }
}

proof fn lemma_half_finite(k: bool, h: nat, w: nat)
    ensures
        Set::new(|s: (bool, int, int)| s.0 == k && 0 <= s.1 < h && 0 <= s.2 <= w).finite(),
    decreases h,
{
    let half = Set::new(|s: (bool, int, int)| s.0 == k && 0 <= s.1 < h && 0 <= s.2 <= w);
    if h == 0 {
        assert(half =~= Set::<(bool, int, int)>::empty());
    } else {
        lemma_half_finite(k, (h - 1) as nat, w);
        lemma_row_finite(k, h - 1, w as int);
        let lower = Set::new(
            |s: (bool, int, int)| s.0 == k && 0 <= s.1 < h - 1 && 0 <= s.2 <= w,
        );
        let row = Set::new(|s: (bool, int, int)| s.0 == k && s.1 == h - 1 && 0 <= s.2 <= w);
        assert(half =~= lower.union(row));
    }
}

pub proof fn lemma_grid_finite(h: nat, w: nat)
    ensures
        grid(h, w).finite(),
{
    lemma_half_finite(true, h, w);
    lemma_half_finite(false, h, w);
    let by_jump = Set::new(|s: (bool, int, int)| s.0 == true && 0 <= s.1 < h && 0 <= s.2 <= w);
    let by_split = Set::new(
        |s: (bool, int, int)| s.0 == false && 0 <= s.1 < h && 0 <= s.2 <= w,
    );
    assert(grid(h, w) =~= by_jump.union(by_split));
}

/// Seeing one more entry leaves fewer unseen.
pub proof fn lemma_unseen_insert(h: nat, w: nat, seen: Set<(bool, int, int)>, s: (bool, int, int))
    requires
        grid(h, w).contains(s),
        !seen.contains(s),
    ensures
        unseen(h, w, seen.insert(s)) < unseen(h, w, seen),
{
    lemma_grid_finite(h, w);
    let before = grid(h, w).difference(seen);
    assert(grid(h, w).difference(seen.insert(s)) =~= before.remove(s));
    assert(before.contains(s));
}

/// Seeing more entries leaves no more unseen.
pub proof fn lemma_unseen_shrinks(
    h: nat,
    w: nat,
    a: Set<(bool, int, int)>,
    b: Set<(bool, int, int)>,
)
    requires
        a.subset_of(b),
    ensures
        unseen(h, w, b) <= unseen(h, w, a),
{
    lemma_grid_finite(h, w);
    vstd::set_lib::lemma_len_subset(grid(h, w).difference(b), grid(h, w).difference(a));
}

/// The outcome of the memoized evaluator from the state `(pc, sp)`, and what
/// it has seen when it ends.
///
/// `seen` holds the states entered so far, each with the way it was entered.
/// `(true, a, s)` says that a jump to `a` was followed at the position `s`:
/// these are what the cache holds, and a jump to a state that it holds is
/// given up as a path without a match. `(false, a, s)` says that a split
/// entered `a` at `s`: these are kept apart from the cache, and a split does
/// not enter a target twice at one position, so that a cycle of splits ends.
pub open spec fn memo(
    prog: Seq<Instruction>,
    input: Seq<char>,
    pc: int,
    sp: int,
    seen: Set<(bool, int, int)>,
) -> (Result<bool, EvalError>, Set<(bool, int, int)>)
    decreases unseen(prog.len(), input.len(), seen), input.len() - sp, 1int,
    when 0 <= sp <= input.len()
    via memo_decreases
{
    if !(0 <= pc < prog.len()) {
        (Err(EvalError::InvalidPC), seen)
    } else {
        match prog[pc] {
            Instruction::Char(c) => if sp < input.len() && input[sp] == c {
                memo(prog, input, pc + 1, sp + 1, seen)
            } else {
                (Ok(false), seen)
            },
            Instruction::Match => (Ok(true), seen),
            Instruction::Jump(a) => visit(prog, input, true, a as int, sp, seen),
            Instruction::Split(a, b) => {
                let first = visit(prog, input, false, a as int, sp, seen);
                if first.0 == Ok::<bool, EvalError>(false) {
                    visit(prog, input, false, b as int, sp, seen + first.1)
                } else {
                    first
                }
            },
        }
    }
}

/// A jump (`by_jump`) or a split enters the state `(a, sp)`: where it was
/// entered that way before, the path is given up without a match; else the
/// entry is recorded and the state evaluated. A jump is recorded before its
/// target is looked at, a split only where its target lies in the program.
pub open spec fn visit(
    prog: Seq<Instruction>,
    input: Seq<char>,
    by_jump: bool,
    a: int,
    sp: int,
    seen: Set<(bool, int, int)>,
) -> (Result<bool, EvalError>, Set<(bool, int, int)>)
    decreases unseen(prog.len(), input.len(), seen), input.len() - sp, 0int,
    when 0 <= sp <= input.len()
    via visit_decreases
{
    if seen.contains((by_jump, a, sp)) {
        (Ok(false), seen)
    } else if !(0 <= a < prog.len()) {
        (
            Err(EvalError::InvalidPC),
            if by_jump {
                seen.insert((by_jump, a, sp))
            } else {
                seen
            },
        )
    } else {
        memo(prog, input, a, sp, seen.insert((by_jump, a, sp)))
    }
}

#[via_fn]
proof fn memo_decreases(
    prog: Seq<Instruction>,
    input: Seq<char>,
    pc: int,
    sp: int,
    seen: Set<(bool, int, int)>,
) {
    assert forall|more: Set<(bool, int, int)>|
        #[trigger] unseen(prog.len(), input.len(), seen + more) <= unseen(
            prog.len(),
            input.len(),
            seen,
        ) by {
        lemma_unseen_shrinks(prog.len(), input.len(), seen, seen + more);
    }
}

#[via_fn]
proof fn visit_decreases(
    prog: Seq<Instruction>,
    input: Seq<char>,
    by_jump: bool,
    a: int,
    sp: int,
    seen: Set<(bool, int, int)>,
) {
    if !seen.contains((by_jump, a, sp)) && 0 <= a < prog.len() {
        lemma_unseen_insert(prog.len(), input.len(), seen, (by_jump, a, sp));
    }
}

/// The jumps followed, as the cache holds them: the target and the position
/// of each.
pub open spec fn jumps_of(seen: Set<(bool, int, int)>) -> Set<(int, int)> {
    Set::new(|c: (int, int)| seen.contains((true, c.0, c.1)))
}

/// `a` is the target of a jump of `prog` (`by_jump`), or of a split.
pub open spec fn targeted(prog: Seq<Instruction>, by_jump: bool, a: int) -> bool {
    exists|i: int|
        0 <= i < prog.len() && match #[trigger] prog[i] {
            Instruction::Jump(x) => by_jump && x == a,
            Instruction::Split(x, y) => !by_jump && (x == a || y == a),
            _ => false,
        }
}

/// What an evaluation from `(pc, sp)` adds to `seen`: nothing is forgotten,
/// and each entry added is a target of the program at a position from `sp`
/// on.
pub open spec fn adds_targets(
    prog: Seq<Instruction>,
    input: Seq<char>,
    sp: int,
    seen: Set<(bool, int, int)>,
    after: Set<(bool, int, int)>,
) -> bool {
    &&& seen.subset_of(after)
    &&& forall|k: bool, a: int, s: int| #[trigger]
        after.contains((k, a, s)) && !seen.contains((k, a, s)) ==> sp <= s <= input.len()
            && targeted(prog, k, a)
}

/// The memoized evaluator adds to what it has seen only targets that it has
/// entered: jump targets to the cache, split targets beside it.
pub proof fn lemma_memo_adds(
    prog: Seq<Instruction>,
    input: Seq<char>,
    pc: int,
    sp: int,
    seen: Set<(bool, int, int)>,
)
    requires
        0 <= sp <= input.len(),
    ensures
        adds_targets(prog, input, sp, seen, memo(prog, input, pc, sp, seen).1),
    decreases unseen(prog.len(), input.len(), seen), input.len() - sp, 1int,
{
    if 0 <= pc < prog.len() {
        match prog[pc] {
            Instruction::Char(c) => {
                if sp < input.len() && input[sp] == c {
                    lemma_memo_adds(prog, input, pc + 1, sp + 1, seen);
                }
            },
            Instruction::Match => {},
            Instruction::Jump(a) => {
                lemma_visit_adds(prog, input, pc, true, a as int, sp, seen);
            },
            Instruction::Split(a, b) => {
                lemma_visit_adds(prog, input, pc, false, a as int, sp, seen);
                let first = visit(prog, input, false, a as int, sp, seen);
                if first.0 == Ok::<bool, EvalError>(false) {
                    assert(seen + first.1 =~= first.1);
                    lemma_unseen_shrinks(prog.len(), input.len(), seen, first.1);
                    lemma_visit_adds(prog, input, pc, false, b as int, sp, first.1);
                }
            },
        }
    }
}

proof fn lemma_visit_adds(
    prog: Seq<Instruction>,
    input: Seq<char>,
    from: int,
    by_jump: bool,
    a: int,
    sp: int,
    seen: Set<(bool, int, int)>,
)
    requires
        0 <= sp <= input.len(),
        0 <= from < prog.len(),
        match prog[from] {
            Instruction::Jump(x) => by_jump && x == a,
            Instruction::Split(x, y) => !by_jump && (x == a || y == a),
            _ => false,
        },
    ensures
        adds_targets(prog, input, sp, seen, visit(prog, input, by_jump, a, sp, seen).1),
    decreases unseen(prog.len(), input.len(), seen), input.len() - sp, 0int,
{
    assert(targeted(prog, by_jump, a));
    if !seen.contains((by_jump, a, sp)) && 0 <= a < prog.len() {
        lemma_unseen_insert(prog.len(), input.len(), seen, (by_jump, a, sp));
        lemma_memo_adds(prog, input, a, sp, seen.insert((by_jump, a, sp)));
    }
}

/// The outcome of the plain evaluator on `input`.
pub open spec fn eval_spec(prog: Seq<Instruction>, input: Seq<char>) -> Result<bool, EvalError> {
    run(prog, input, 0, 0, 0)
}

/// The outcome of the memoized evaluator on `input`.
pub open spec fn eval_with_cache_spec(prog: Seq<Instruction>, input: Seq<char>) -> Result<
    bool,
    EvalError,
> {
    memo(prog, input, 0, 0, Set::empty()).0
}

/// The key under which the state `(pc, sp)` is remembered.
pub open spec fn key_of(pc: int, sp: int) -> u128 {
    (pc * 0x1_0000_0000_0000_0000 + sp) as u128
}

/// What two sets of keys stand for: `cache` holds the jumps followed,
/// `entered` the targets that splits have entered.
pub open spec fn seen_of(cache: Set<u128>, entered: Set<u128>) -> Set<(bool, int, int)> {
    Set::new(
        |s: (bool, int, int)|
            0 <= s.1 <= usize::MAX && 0 <= s.2 <= usize::MAX && if s.0 {
                cache.contains(key_of(s.1, s.2))
            } else {
                entered.contains(key_of(s.1, s.2))
            },
    )
}

/// `k` is the key of a state.
pub open spec fn is_key(k: u128) -> bool {
    exists|pc: int, sp: int|
        0 <= pc <= usize::MAX && 0 <= sp <= usize::MAX && #[trigger] key_of(pc, sp) == k
}

/// A set of keys has lost nothing, and has gained only keys of states.
pub open spec fn grown(before: Set<u128>, after: Set<u128>) -> bool {
    &&& before.subset_of(after)
    &&& forall|k: u128| #[trigger] after.contains(k) && !before.contains(k) ==> is_key(k)
}

/// The key of the state `(pc, sp)`: the program counter in the upper half,
/// the position in the lower.
pub fn key(pc: usize, sp: usize) -> (k: u128)
    ensures
        k == key_of(pc as int, sp as int),
{
    (pc as u128) * 0x1_0000_0000_0000_0000u128 + (sp as u128)
}

proof fn lemma_seen_of_insert(cache: Set<u128>, entered: Set<u128>, pc: int, sp: int)
    requires
        0 <= pc <= usize::MAX,
        0 <= sp <= usize::MAX,
    ensures
        seen_of(cache.insert(key_of(pc, sp)), entered) == seen_of(cache, entered).insert(
            (true, pc, sp),
        ),
        seen_of(cache, entered.insert(key_of(pc, sp))) == seen_of(cache, entered).insert(
            (false, pc, sp),
        ),
        seen_of(cache, entered).contains((true, pc, sp)) == cache.contains(key_of(pc, sp)),
        seen_of(cache, entered).contains((false, pc, sp)) == entered.contains(key_of(pc, sp)),
{
    assert(seen_of(cache.insert(key_of(pc, sp)), entered) =~= seen_of(cache, entered).insert(
        (true, pc, sp),
    ));
    assert(seen_of(cache, entered.insert(key_of(pc, sp))) =~= seen_of(cache, entered).insert(
        (false, pc, sp),
    ));
}

/// The plain evaluator from the state `(pc, sp)`, with `idle` jumps and
/// splits taken since the last character was consumed.
fn eval_depth(inst: &[Instruction], line: &[char], pc: usize, sp: usize, idle: usize) -> (r:
    Result<bool, EvalError>)
    requires
        sp <= line@.len(),
        idle <= inst@.len(),
    ensures
        r == run(inst@, line@, pc as int, sp as int, idle as int),
    decreases line@.len() - sp, inst@.len() - idle,
{
    let mut at = pc;
    let mut pos = sp;
    let mut spent = idle;
    loop
        invariant
            pos <= line@.len(),
            spent <= inst@.len(),
            sp <= pos,
            pos == sp ==> idle <= spent,
            run(inst@, line@, at as int, pos as int, spent as int) == run(
                inst@,
                line@,
                pc as int,
                sp as int,
                idle as int,
            ),
        decreases line@.len() - pos, inst@.len() - spent,
    {
        if at >= inst.len() {
            return Err(EvalError::InvalidPC);
        }
        match inst[at] {
            Instruction::Char(c) => {
                if pos < line.len() && line[pos] == c {
                    let pc_overflow = || -> (e: EvalError)
                        ensures
                            e == EvalError::PCOverflow,
                        { EvalError::PCOverflow };
                    let sp_overflow = || -> (e: EvalError)
                        ensures
                            e == EvalError::SPOverflow,
                        { EvalError::SPOverflow };
                    safe_add(&mut at, &1, pc_overflow)?;
                    safe_add(&mut pos, &1, sp_overflow)?;
                    spent = 0;
                } else {
                    return Ok(false);
                }
            },
            Instruction::Match => {
                return Ok(true);
            },
            Instruction::Jump(addr) => {
                if spent >= inst.len() {
                    return Ok(false);
                }
                spent = spent + 1;
                at = addr;
            },
            Instruction::Split(addr1, addr2) => {
                if spent >= inst.len() {
                    return Ok(false);
                }
                match eval_depth(inst, line, addr1, pos, spent + 1) {
                    Ok(false) => {
                        return eval_depth(inst, line, addr2, pos, spent + 1);
                    },
                    r => {
                        return r;
                    },
                }
            },
        }
    }
}

/// The memoized evaluator from the state `(pc, sp)`. `cache` holds the keys
/// of the jumps followed, `entered` those of the targets that splits have
/// entered. After the call `cache` holds what it held before and the target
/// and position of each jump followed since, and nothing else.
pub fn eval_depth_with_cache(
    inst: &[Instruction],
    line: &[char],
    pc: usize,
    sp: usize,
    cache: &mut HashSet<u128>,
    entered: &mut HashSet<u128>,
) -> (r: Result<bool, EvalError>)
    requires
        sp <= line@.len(),
    ensures
        (r, seen_of(final(cache)@, final(entered)@)) == memo(
            inst@,
            line@,
            pc as int,
            sp as int,
            seen_of(old(cache)@, old(entered)@),
        ),
        adds_targets(
            inst@,
            line@,
            sp as int,
            seen_of(old(cache)@, old(entered)@),
            seen_of(final(cache)@, final(entered)@),
        ),
        grown(old(cache)@, final(cache)@),
        grown(old(entered)@, final(entered)@),
        grown_little(inst@, line@, sp as int, old(cache)@, final(cache)@),
        forall|a: int, s: int|
            0 <= a <= usize::MAX && 0 <= s <= usize::MAX ==> (final(cache)@.contains(
                #[trigger] key_of(a, s),
            ) <==> jumps_of(
                memo(inst@, line@, pc as int, sp as int, seen_of(old(cache)@, old(entered)@)).1,
            ).contains((a, s))),
    decreases unseen(inst@.len(), line@.len(), seen_of(old(cache)@, old(entered)@)),
        line@.len() - sp,
{
    let mut at = pc;
    let mut pos = sp;
    let ghost h = inst@.len();
    let ghost w = line@.len();
    let ghost entry = seen_of(cache@, entered@);
    proof {
        lemma_memo_adds(inst@, line@, pc as int, sp as int, entry);
        assert forall|after: Set<u128>, beside: Set<u128>| #[trigger]
            seen_of(after, beside) == memo(inst@, line@, pc as int, sp as int, entry).1 && grown(
                cache@,
                after,
            ) implies grown_little(inst@, line@, sp as int, cache@, after) by {
            theorem_cache_grows_little(
                inst@,
                line@,
                pc as int,
                sp as int,
                cache@,
                entered@,
                after,
                beside,
            );
        }
    }
    loop
        invariant
            pos <= line@.len(),
            forall|after: Set<u128>, beside: Set<u128>| #[trigger]
                seen_of(after, beside) == memo(inst@, line@, pc as int, sp as int, entry).1
                    && grown(old(cache)@, after) ==> grown_little(
                    inst@,
                    line@,
                    sp as int,
                    old(cache)@,
                    after,
                ),
            h == inst@.len(),
            w == line@.len(),
            entry == seen_of(old(cache)@, old(entered)@),
            memo(inst@, line@, at as int, pos as int, seen_of(cache@, entered@)) == memo(
                inst@,
                line@,
                pc as int,
                sp as int,
                entry,
            ),
            adds_targets(
                inst@,
                line@,
                sp as int,
                entry,
                memo(inst@, line@, pc as int, sp as int, entry).1,
            ),
            unseen(h, w, seen_of(cache@, entered@)) <= unseen(h, w, entry),
            sp <= pos,
            grown(old(cache)@, cache@),
            grown(old(entered)@, entered@),
        decreases unseen(h, w, seen_of(cache@, entered@)), line@.len() - pos,
    {
        let ghost seen = seen_of(cache@, entered@);
        let ghost jumped = cache@;
        let ghost split = entered@;
        if at >= inst.len() {
            return Err(EvalError::InvalidPC);
        }
        match inst[at] {
            Instruction::Char(c) => {
                if pos < line.len() && line[pos] == c {
                    let pc_overflow = || -> (e: EvalError)
                        ensures
                            e == EvalError::PCOverflow,
                        { EvalError::PCOverflow };
                    let sp_overflow = || -> (e: EvalError)
                        ensures
                            e == EvalError::SPOverflow,
                        { EvalError::SPOverflow };
                    safe_add(&mut at, &1, pc_overflow)?;
                    safe_add(&mut pos, &1, sp_overflow)?;
                } else {
                    return Ok(false);
                }
            },
            Instruction::Match => {
                return Ok(true);
            },
            Instruction::Jump(addr) => {
                let ghost next = visit(inst@, line@, true, addr as int, pos as int, seen);
                proof {
                    lemma_seen_of_insert(jumped, split, addr as int, pos as int);
                    assert(is_key(key_of(addr as int, pos as int)));
                }
                if cache.contains(&key(addr, pos)) {
                    proof {
                        assert(next == (Ok::<bool, EvalError>(false), seen));
                    }
                    return Ok(false);
                }
                cache.insert(key(addr, pos));
                if addr >= inst.len() {
                    proof {
                        assert(next == (
                            Err::<bool, EvalError>(EvalError::InvalidPC),
                            seen.insert((true, addr as int, pos as int)),
                        ));
                    }
                    return Err(EvalError::InvalidPC);
                }
                proof {
                    lemma_unseen_insert(h, w, seen, (true, addr as int, pos as int));
                    assert(next == memo(
                        inst@,
                        line@,
                        addr as int,
                        pos as int,
                        seen.insert((true, addr as int, pos as int)),
                    ));
                }
                at = addr;
            },
            Instruction::Split(addr1, addr2) => {
                let ghost first = visit(inst@, line@, false, addr1 as int, pos as int, seen);
                proof {
                    lemma_seen_of_insert(jumped, split, addr1 as int, pos as int);
                    assert(is_key(key_of(addr1 as int, pos as int)));
                }
                if !entered.contains(&key(addr1, pos)) {
                    if addr1 >= inst.len() {
                        proof {
                            assert(first == (Err::<bool, EvalError>(EvalError::InvalidPC), seen));
                        }
                        return Err(EvalError::InvalidPC);
                    }
                    entered.insert(key(addr1, pos));
                    proof {
                        lemma_unseen_insert(h, w, seen, (false, addr1 as int, pos as int));
                        assert(first == memo(
                            inst@,
                            line@,
                            addr1 as int,
                            pos as int,
                            seen.insert((false, addr1 as int, pos as int)),
                        ));
                    }
                    match eval_depth_with_cache(inst, line, addr1, pos, cache, entered) {
                        Ok(false) => {},
                        r => {
                            proof {
                                assert(first == (r, seen_of(cache@, entered@)));
                            }
                            return r;
                        },
                    }
                } else {
                    proof {
                        assert(first == (Ok::<bool, EvalError>(false), seen));
                    }
                }
                let ghost mid = seen_of(cache@, entered@);
                let ghost mid_jumped = cache@;
                let ghost mid_split = entered@;
                let ghost second = visit(inst@, line@, false, addr2 as int, pos as int, mid);
                proof {
                    assert(first == (Ok::<bool, EvalError>(false), mid));
                    assert(seen + mid =~= mid);
                    lemma_unseen_shrinks(h, w, seen, mid);
                    lemma_seen_of_insert(mid_jumped, mid_split, addr2 as int, pos as int);
                    assert(is_key(key_of(addr2 as int, pos as int)));
                }
                if entered.contains(&key(addr2, pos)) {
                    proof {
                        assert(second == (Ok::<bool, EvalError>(false), mid));
                    }
                    return Ok(false);
                }
                if addr2 >= inst.len() {
                    proof {
                        assert(second == (Err::<bool, EvalError>(EvalError::InvalidPC), mid));
                    }
                    return Err(EvalError::InvalidPC);
                }
                entered.insert(key(addr2, pos));
                proof {
                    lemma_unseen_insert(h, w, mid, (false, addr2 as int, pos as int));
                    assert(second == memo(
                        inst@,
                        line@,
                        addr2 as int,
                        pos as int,
                        mid.insert((false, addr2 as int, pos as int)),
                    ));
                }
                return eval_depth_with_cache(inst, line, addr2, pos, cache, entered);
            },
        }
    }
}

/// Evaluates `inst` on `line` from its first character, remembering in a
/// cache the target and the position of each jump followed: a jump to a
/// state that the cache holds is given up as a path without a match. Beside
/// the cache, and for this call alone, the targets that splits have entered
/// are remembered, so that a cycle of splits ends. `is_depth` is reserved and
/// has no effect.
///
/// On a closed program the answer is whether the program accepts the line.
/// On every program it is the outcome of backtracking as such, wherever that
/// ends.
pub fn eval_with_cache(inst: &[Instruction], line: &[char], is_depth: bool) -> (r: Result<
    bool,
    EvalError,
>)
    ensures
        r == eval_with_cache_spec(inst@, line@),
        closed(inst@) ==> r == Ok::<bool, EvalError>(accepts(inst@, line@)),
        forall|fuel: nat| #[trigger]
            backtrack(inst@, line@, 0, 0, fuel) is Some ==> Some(r) == backtrack(
                inst@,
                line@,
                0,
                0,
                fuel,
            ),
{
    let mut cache: HashSet<u128> = HashSet::new();
    let mut entered: HashSet<u128> = HashSet::new();
    proof {
        assert(seen_of(cache@, entered@) =~= Set::<(bool, int, int)>::empty());
        if closed(inst@) {
            theorem_eval_with_cache_decides(inst@, line@);
        }
        assert forall|fuel: nat| #[trigger]
            backtrack(inst@, line@, 0, 0, fuel) is Some implies Some(
            eval_with_cache_spec(inst@, line@),
        ) == backtrack(inst@, line@, 0, 0, fuel) by {
            theorem_eval_with_cache_follows(inst@, line@, fuel);
        }
    }
    if is_depth {
        eval_depth_with_cache(inst, line, 0, 0, &mut cache, &mut entered)
    } else {
        eval_depth_with_cache(inst, line, 0, 0, &mut cache, &mut entered)
    }
}

/// Evaluates `inst` on `line` from its first character by depth-first
/// backtracking; a path that goes round without consuming input is given up.
/// `is_depth` is reserved and has no effect.
///
/// On a closed program the answer is whether the program accepts the line.
/// On every program it is the outcome of backtracking as such, wherever that
/// ends.
pub fn eval(inst: &[Instruction], line: &[char], is_depth: bool) -> (r: Result<bool, EvalError>)
    ensures
        r == eval_spec(inst@, line@),
        closed(inst@) ==> r == Ok::<bool, EvalError>(accepts(inst@, line@)),
        forall|fuel: nat| #[trigger]
            backtrack(inst@, line@, 0, 0, fuel) is Some ==> Some(r) == backtrack(
                inst@,
                line@,
                0,
                0,
                fuel,
            ),
{
    proof {
        if closed(inst@) {
            theorem_eval_decides(inst@, line@);
        }
        assert forall|fuel: nat| #[trigger]
            backtrack(inst@, line@, 0, 0, fuel) is Some implies Some(eval_spec(inst@, line@))
            == backtrack(inst@, line@, 0, 0, fuel) by {
            theorem_eval_follows(inst@, line@, fuel);
        }
    }
    if is_depth {
        eval_depth(inst, line, 0, 0, 0)
    } else {
        eval_depth(inst, line, 0, 0, 0)
    }
}

} // verus!

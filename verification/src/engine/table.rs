//! How much the cache of the memoized evaluator can grow: by one entry for
//! each jump target of the program and each position left in the input.
use super::evaluator::{
    grown, is_key, jumps_of, key_of, lemma_memo_adds, memo, seen_of, targeted,
};
use super::Instruction;
use vstd::prelude::*;

verus! {

/// The addresses that a jump among the first `k` instructions of `prog`
/// leads to.
pub open spec fn jump_targets_before(prog: Seq<Instruction>, k: nat) -> Set<int> {
    Set::new(
        |a: int|
            exists|i: int|
                0 <= i < k && i < prog.len() && match #[trigger] prog[i] {
                    Instruction::Jump(x) => x == a,
                    _ => false,
                },
    )
}

/// The addresses that a jump of `prog` leads to.
pub open spec fn jump_targets(prog: Seq<Instruction>) -> Set<int> {
    jump_targets_before(prog, prog.len())
}

/// The states `(a, s)` with `a` in `targets` and `s` from `lo` up to `hi`.
pub open spec fn states_of(targets: Set<int>, lo: int, hi: int) -> Set<(int, int)> {
    Set::new(|c: (int, int)| targets.contains(c.0) && lo <= c.1 <= hi)
}

proof fn lemma_jump_targets_before(prog: Seq<Instruction>, k: nat)
    requires
        k <= prog.len(),
    ensures
        jump_targets_before(prog, k).finite(),
        jump_targets_before(prog, k).len() <= k,
    decreases k,
{
    let now = jump_targets_before(prog, k);
    if k == 0 {
        assert(now =~= Set::<int>::empty());
    } else {
        let j = (k - 1) as nat;
        let less = jump_targets_before(prog, j);
        lemma_jump_targets_before(prog, j);
        let next = match prog[k - 1] {
            Instruction::Jump(x) => less.insert(x as int),
            _ => less,
        };
        assert forall|a: int| now.contains(a) <==> next.contains(a) by {
            if now.contains(a) {
                let i = choose|i: int|
                    0 <= i < k && i < prog.len() && match #[trigger] prog[i] {
                        Instruction::Jump(x) => x == a,
                        _ => false,
                    };
                if i < j {
                    assert(less.contains(a));
                }
            }
            if next.contains(a) {
                if less.contains(a) {
                    let i = choose|i: int|
                        0 <= i < j && i < prog.len() && match #[trigger] prog[i] {
                            Instruction::Jump(x) => x == a,
                            _ => false,
                        };
                    assert(0 <= i < k);
                } else {
                    assert(prog[k - 1] == Instruction::Jump(a as usize));
                }
            }
        }
        assert(now =~= next);
    }
}

/// A program has no more jump targets than instructions.
pub proof fn lemma_jump_targets(prog: Seq<Instruction>)
    ensures
        jump_targets(prog).finite(),
        jump_targets(prog).len() <= prog.len(),
        forall|a: int| targeted(prog, true, a) ==> #[trigger] jump_targets(prog).contains(a),
{
    lemma_jump_targets_before(prog, prog.len());
    assert forall|a: int| targeted(prog, true, a) implies #[trigger] jump_targets(prog).contains(
        a,
    ) by {
        let i = choose|i: int|
            0 <= i < prog.len() && match #[trigger] prog[i] {
                Instruction::Jump(x) => true && x == a,
                Instruction::Split(x, y) => !true && (x == a || y == a),
                _ => false,
            };
        assert(match prog[i] {
            Instruction::Jump(x) => x == a,
            _ => false,
        });
    }
}

proof fn lemma_column(a: int, lo: int, hi: int)
    requires
        lo - 1 <= hi,
    ensures
        Set::new(|c: (int, int)| c.0 == a && lo <= c.1 <= hi).finite(),
        Set::new(|c: (int, int)| c.0 == a && lo <= c.1 <= hi).len() == hi - lo + 1,
    decreases hi - lo + 1,
{
    let column = Set::new(|c: (int, int)| c.0 == a && lo <= c.1 <= hi);
    if hi == lo - 1 {
        assert(column =~= Set::<(int, int)>::empty());
    } else {
        lemma_column(a, lo, hi - 1);
        let shorter = Set::new(|c: (int, int)| c.0 == a && lo <= c.1 <= hi - 1);
        assert(column =~= shorter.insert((a, hi)));
    }
}

/// As many states as targets times positions.
pub proof fn lemma_states_of(targets: Set<int>, lo: int, hi: int)
    requires
        targets.finite(),
        lo - 1 <= hi,
    ensures
        states_of(targets, lo, hi).finite(),
        states_of(targets, lo, hi).len() == targets.len() * (hi - lo + 1),
    decreases targets.len(),
{
    let all = states_of(targets, lo, hi);
    if targets.len() == 0 {
        assert(targets =~= Set::<int>::empty());
        assert(all =~= Set::<(int, int)>::empty());
        assert(0 * (hi - lo + 1) == 0) by (nonlinear_arith);
    } else {
        let a = targets.choose();
        let rest = targets.remove(a);
        lemma_states_of(rest, lo, hi);
        lemma_column(a, lo, hi);
        let column = Set::new(|c: (int, int)| c.0 == a && lo <= c.1 <= hi);
        let others = states_of(rest, lo, hi);
        assert(all =~= others + column);
        assert(others.disjoint(column));
        vstd::set_lib::lemma_set_disjoint_lens(others, column);
        assert((targets.len() - 1) * (hi - lo + 1) + (hi - lo + 1) == targets.len() * (hi - lo
            + 1)) by (nonlinear_arith);
    }
}

/// The jumps that the memoized evaluator follows from `(pc, sp)`: no more
/// than the program has jump targets, times the positions from `sp` on.
pub proof fn lemma_memo_follows_few(
    prog: Seq<Instruction>,
    input: Seq<char>,
    pc: int,
    sp: int,
    seen: Set<(bool, int, int)>,
)
    requires
        0 <= sp <= input.len(),
    ensures
        jumps_of(memo(prog, input, pc, sp, seen).1).difference(jumps_of(seen)).finite(),
        jumps_of(memo(prog, input, pc, sp, seen).1).difference(jumps_of(seen)).len()
            <= jump_targets(prog).len() * (input.len() - sp + 1),
{
    let after = memo(prog, input, pc, sp, seen).1;
    let followed = jumps_of(after).difference(jumps_of(seen));
    let room = states_of(jump_targets(prog), sp, input.len() as int);
    lemma_memo_adds(prog, input, pc, sp, seen);
    lemma_jump_targets(prog);
    lemma_states_of(jump_targets(prog), sp, input.len() as int);
    assert forall|c: (int, int)| followed.contains(c) implies room.contains(c) by {
        assert(after.contains((true, c.0, c.1)) && !seen.contains((true, c.0, c.1)));
    }
    vstd::set_lib::lemma_len_subset(followed, room);
}

/// A finite cache has stayed finite, and has grown by no more than the
/// program has jump targets, times the positions from `sp` on.
pub open spec fn grown_little(
    prog: Seq<Instruction>,
    input: Seq<char>,
    sp: int,
    cache: Set<u128>,
    cache_after: Set<u128>,
) -> bool {
    cache.finite() ==> cache_after.finite() && cache_after.len() <= cache.len() + jump_targets(
        prog,
    ).len() * (input.len() - sp + 1)
}

/// The cache after a call of the memoized evaluator, where it was finite
/// before: it has grown by no more than the program has jump targets, times
/// the positions from `sp` on.
pub proof fn theorem_cache_grows_little(
    prog: Seq<Instruction>,
    input: Seq<char>,
    pc: int,
    sp: int,
    cache: Set<u128>,
    entered: Set<u128>,
    cache_after: Set<u128>,
    entered_after: Set<u128>,
)
    requires
        0 <= sp <= input.len(),
        seen_of(cache_after, entered_after) == memo(
            prog,
            input,
            pc,
            sp,
            seen_of(cache, entered),
        ).1,
        grown(cache, cache_after),
    ensures
        grown_little(prog, input, sp, cache, cache_after),
{
    if !cache.finite() {
        return ;
    }
    let seen = seen_of(cache, entered);
    let after = memo(prog, input, pc, sp, seen).1;
    let followed = jumps_of(after).difference(jumps_of(seen));
    let to_key = |c: (int, int)| key_of(c.0, c.1);
    let keys = followed.map(to_key);
    lemma_memo_follows_few(prog, input, pc, sp, seen);
    vstd::set_lib::lemma_map_size_bound(followed, keys, to_key);
    assert forall|k: u128| cache_after.contains(k) implies (cache + keys).contains(k) by {
        if !cache.contains(k) {
            assert(is_key(k));
            let (a, s) = choose|a: int, s: int|
                0 <= a <= usize::MAX && 0 <= s <= usize::MAX && #[trigger] key_of(a, s) == k;
            assert(after.contains((true, a, s)));
            assert(!seen.contains((true, a, s)));
            assert(followed.contains((a, s)));
            assert(k == to_key((a, s)));
        }
    }
    vstd::set_lib::lemma_len_union(cache, keys);
    vstd::set_lib::lemma_len_subset(cache_after, cache + keys);
}

} // verus!

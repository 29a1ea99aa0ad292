//! Syntax tree to program.
//!
//! Each construct lowers to a fixed layout; `L:` is the address at that point.
//!
//! ```text
//! e1|e2      split L1, L2          e?       split L1, L2
//!        L1: code of e1                 L1: code of e
//!            jump L3                    L2:
//!        L2: code of e2
//!        L3:
//!
//! e+     L1: code of e             e*   L1: split L2, L3
//!            split L1, L2               L2: code of e
//!        L2:                                jump L1
//!                                       L3:
//! ```
use super::lowering::lemma_program_closed;
use super::parser::{models, Pattern, AST};
use super::paths::closed;
use super::Instruction;
use crate::helper::safe_add;
use vstd::prelude::*;

verus! {

/// Why no program was produced.
#[derive(Debug, Clone, Copy, PartialEq, Eq, Structural)]
pub enum CodeGenError {
    /// The program would be longer than an address can say.
    PCOverflow,
    /// The instruction to patch for `*` was not the split that was emitted.
    FailStar,
    /// The instruction to patch for `|` was not the one that was emitted.
    FailOr,
    /// The instruction to patch for `?` was not the split that was emitted.
    FailQuestion,
}

/// The number of instructions that `p` lowers to.
pub open spec fn code_len(p: Pattern) -> nat
    decreases p, 0nat,
{
    match p {
        Pattern::Char(_) => 1,
        Pattern::Plus(e) => code_len(*e) + 1,
        Pattern::Star(e) => code_len(*e) + 2,
        Pattern::Question(e) => code_len(*e) + 1,
        Pattern::Or(l, r) => code_len(*l) + code_len(*r) + 2,
        Pattern::Sequence(v) => code_len_upto(v, v.len()),
    }
}

/// The number of instructions that the first `k` patterns of `v` lower to.
pub open spec fn code_len_upto(v: Seq<Pattern>, k: nat) -> nat
    decreases v, k,
{
    if k == 0 || k > v.len() {
        0
    } else {
        code_len_upto(v, (k - 1) as nat) + code_len(v[k - 1])
    }
}

/// The instructions that `p` lowers to when its first one stands at address
/// `base`.
pub open spec fn code(p: Pattern, base: int) -> Seq<Instruction>
    decreases p, 0nat,
{
    match p {
        Pattern::Char(c) => seq![Instruction::Char(c)],
        Pattern::Plus(e) => code(*e, base) + seq![
            Instruction::Split(base as usize, (base + code_len(*e) + 1) as usize),
        ],
        Pattern::Star(e) => seq![
            Instruction::Split((base + 1) as usize, (base + code_len(*e) + 2) as usize),
        ] + code(*e, base + 1) + seq![Instruction::Jump(base as usize)],
        Pattern::Question(e) => seq![
            Instruction::Split((base + 1) as usize, (base + code_len(*e) + 1) as usize),
        ] + code(*e, base + 1),
        Pattern::Or(l, r) => seq![
            Instruction::Split((base + 1) as usize, (base + code_len(*l) + 2) as usize),
        ] + code(*l, base + 1) + seq![
            Instruction::Jump((base + code_len(*l) + code_len(*r) + 2) as usize),
        ] + code(*r, base + code_len(*l) + 2),
        Pattern::Sequence(v) => code_upto(v, v.len(), base),
    }
}

/// The instructions of the first `k` patterns of `v`, one after the other,
/// the first at address `base`.
pub open spec fn code_upto(v: Seq<Pattern>, k: nat, base: int) -> Seq<Instruction>
    decreases v, k,
{
    if k == 0 || k > v.len() {
        Seq::empty()
    } else {
        code_upto(v, (k - 1) as nat, base) + code(
            v[k - 1],
            base + code_len_upto(v, (k - 1) as nat),
        )
    }
}

/// The whole program of `p`: its instructions from address 0, then `match`.
pub open spec fn program(p: Pattern) -> Seq<Instruction> {
    code(p, 0) + seq![Instruction::Match]
}

/// `code` emits as many instructions as `code_len` says.
pub proof fn lemma_code_len(p: Pattern, base: int)
    ensures
        code(p, base).len() == code_len(p),
    decreases p, 0nat,
{
    match p {
        Pattern::Char(_) => {},
        Pattern::Plus(e) => lemma_code_len(*e, base),
        Pattern::Star(e) => lemma_code_len(*e, base + 1),
        Pattern::Question(e) => lemma_code_len(*e, base + 1),
        Pattern::Or(l, r) => {
            lemma_code_len(*l, base + 1);
            lemma_code_len(*r, base + code_len(*l) + 2);
        },
        Pattern::Sequence(v) => lemma_code_upto_len(v, v.len(), base),
    }
}

pub proof fn lemma_code_upto_len(v: Seq<Pattern>, k: nat, base: int)
    ensures
        code_upto(v, k, base).len() == code_len_upto(v, k),
    decreases v, k,
{
    if k == 0 || k > v.len() {
    } else {
        lemma_code_upto_len(v, (k - 1) as nat, base);
        lemma_code_len(v[k - 1], base + code_len_upto(v, (k - 1) as nat));
    }
}

/// The program under construction and the address of its next instruction.
#[derive(Debug)]
pub struct Generator {
    pub pc: usize,
    pub insts: Vec<Instruction>,
}

impl Default for Generator {
    fn default() -> (g: Self)
        ensures
            g.pc == 0,
            g.insts@ == Seq::<Instruction>::empty(),
    {
        Generator { pc: 0, insts: Vec::new() }
    }
}

impl Generator {
    /// The address counter agrees with the instructions emitted.
    pub open spec fn wf(&self) -> bool {
        self.pc == self.insts@.len()
    }

    /// `self` after a call that was to emit the code of `p`, where an address
    /// can say every position of that code.
    pub open spec fn emitted(&self, before: &Generator, p: Pattern) -> bool {
        &&& self.wf()
        &&& self.insts@ == before.insts@ + code(p, before.pc as int)
    }

    /// Increment the program counter
    pub fn inc_pc(&mut self) -> (r: Result<(), CodeGenError>)
        ensures
            old(self).pc < usize::MAX ==> r is Ok && final(self).pc == old(self).pc + 1,
            old(self).pc == usize::MAX ==> r == Err::<(), CodeGenError>(CodeGenError::PCOverflow)
                && final(self).pc == old(self).pc,
            final(self).insts == old(self).insts,
    {
        let overflow = || -> (e: CodeGenError)
            ensures
                e == CodeGenError::PCOverflow,
            { CodeGenError::PCOverflow };
        safe_add(&mut self.pc, &1, overflow)
    }

    /// Generate Code from AST
    pub fn gen_expr(&mut self, ast: &AST) -> (r: Result<(), CodeGenError>)
        requires
            old(self).wf(),
        ensures
            old(self).pc + code_len(ast@) <= usize::MAX ==> r is Ok && final(self).emitted(
                old(self),
                ast@,
            ),
            old(self).pc + code_len(ast@) > usize::MAX ==> r == Err::<(), CodeGenError>(
                CodeGenError::PCOverflow,
            ),
        decreases ast@, 1nat,
    {
        match ast {
            AST::Char(c) => self.gen_char(*c)?,
            AST::Or(e1, e2) => self.gen_or(e1, e2)?,
            AST::Plus(e) => self.gen_plus(e)?,
            AST::Star(e) => self.gen_star(e)?,
            AST::Question(e) => self.gen_question(e)?,
            AST::Sequence(v) => self.gen_seq(v)?,
        }
        Ok(())
    }

    pub fn gen_seq(&mut self, exprs: &Vec<AST>) -> (r: Result<(), CodeGenError>)
        requires
            old(self).wf(),
        ensures
            old(self).pc + code_len(Pattern::Sequence(models(exprs@))) <= usize::MAX ==> r is Ok
                && final(self).emitted(old(self), Pattern::Sequence(models(exprs@))),
            old(self).pc + code_len(Pattern::Sequence(models(exprs@))) > usize::MAX ==> r == Err::<
                (),
                CodeGenError,
            >(CodeGenError::PCOverflow),
        decreases Pattern::Sequence(models(exprs@)), 0nat,
    {
        let ghost v = models(exprs@);
        let ghost base = self.pc as int;
        let ghost start = self.insts@;
        let mut i: usize = 0;
        while i < exprs.len()
            invariant
                i <= exprs.len(),
                v == models(exprs@),
                base == old(self).pc,
                start == old(self).insts@,
                self.wf(),
                self.pc == base + code_len_upto(v, i as nat),
                self.insts@ == start + code_upto(v, i as nat, base),
            decreases exprs.len() - i,
        {
            proof {
                assert(v[i as int] == exprs[i as int]@);
                lemma_code_len_upto_grows(v, (i + 1) as nat, v.len());
                let ghost whole = Pattern::Sequence(v);
                assert(decreases_to!(whole => whole->Sequence_0));
                assert(decreases_to!(v => v[i as int]));
            }
            self.gen_expr(&exprs[i])?;
            proof {
                assert(self.insts@ =~= start + code_upto(v, (i + 1) as nat, base));
                lemma_code_len(v[i as int], base + code_len_upto(v, i as nat));
            }
            i += 1;
        }
        Ok(())
    }

    pub fn gen_char(&mut self, c: char) -> (r: Result<(), CodeGenError>)
        requires
            old(self).wf(),
        ensures
            old(self).pc + 1 <= usize::MAX ==> r is Ok && final(self).emitted(
                old(self),
                Pattern::Char(c),
            ),
            old(self).pc + 1 > usize::MAX ==> r == Err::<(), CodeGenError>(
                CodeGenError::PCOverflow,
            ),
    {
        let inst = Instruction::Char(c);
        self.insts.push(inst);
        self.inc_pc()?;
        proof {
            assert(self.insts@ =~= old(self).insts@ + code(Pattern::Char(c), old(self).pc as int));
        }
        Ok(())
    }

    /// Code Generator for OR operator
    pub fn gen_or(&mut self, e1: &AST, e2: &AST) -> (r: Result<(), CodeGenError>)
        requires
            old(self).wf(),
        ensures
            old(self).pc + code_len(e1@) + code_len(e2@) + 2 <= usize::MAX ==> r is Ok && final(self).emitted(old(self), Pattern::Or(Box::new(e1@), Box::new(e2@))),
            old(self).pc + code_len(e1@) + code_len(e2@) + 2 > usize::MAX ==> r == Err::<
                (),
                CodeGenError,
            >(CodeGenError::PCOverflow),
        decreases Pattern::Or(Box::new(e1@), Box::new(e2@)), 0nat,
    {
        let ghost base = self.pc as int;
        let ghost start = self.insts@;
        proof {
            lemma_code_len(e1@, base + 1);
            lemma_code_len(e2@, base + code_len(e1@) + 2);
            let ghost whole = Pattern::Or(Box::new(e1@), Box::new(e2@));
            assert(decreases_to!(whole => *whole->Or_0));
            assert(decreases_to!(whole => *whole->Or_1));
        }
        // split L1, L2
        let split_addr = self.pc;
        self.inc_pc()?;
        let split = Instruction::Split(self.pc, 0);  // L2 is not known yet
        self.insts.push(split);

        // L1: code of e1
        self.gen_expr(e1)?;

        // jump L3
        let jmp_addr = self.pc;
        self.insts.push(Instruction::Jump(0));  // L3 is not known yet

        self.inc_pc()?;
        match self.insts[split_addr] {
            Instruction::Split(l1, _) => {
                self.insts.set(split_addr, Instruction::Split(l1, self.pc));
            },
            _ => {
                return Err(CodeGenError::FailOr);
            },
        }

        // L2: code of e2
        self.gen_expr(e2)?;

        match self.insts[jmp_addr] {
            Instruction::Jump(_) => {
                self.insts.set(jmp_addr, Instruction::Jump(self.pc));
            },
            _ => {
                return Err(CodeGenError::FailOr);
            },
        }
        proof {
            assert(self.insts@ =~= start + code(
                Pattern::Or(Box::new(e1@), Box::new(e2@)),
                base,
            ));
        }
        Ok(())
    }

    /// Code Generator for ?
    pub fn gen_question(&mut self, e: &AST) -> (r: Result<(), CodeGenError>)
        requires
            old(self).wf(),
        ensures
            old(self).pc + code_len(e@) + 1 <= usize::MAX ==> r is Ok && final(self).emitted(
                old(self),
                Pattern::Question(Box::new(e@)),
            ),
            old(self).pc + code_len(e@) + 1 > usize::MAX ==> r == Err::<(), CodeGenError>(
                CodeGenError::PCOverflow,
            ),
        decreases Pattern::Question(Box::new(e@)), 0nat,
    {
        let ghost base = self.pc as int;
        let ghost start = self.insts@;
        proof {
            lemma_code_len(e@, base + 1);
            let ghost whole = Pattern::Question(Box::new(e@));
            assert(decreases_to!(whole => *whole->Question_0));
        }
        // split L1, L2
        let split_addr = self.pc;
        self.inc_pc()?;
        let split = Instruction::Split(self.pc, 0);  // L2 is not known yet
        self.insts.push(split);

        // L1: code of e
        self.gen_expr(e)?;

        match self.insts[split_addr] {
            Instruction::Split(l1, _) => {
                self.insts.set(split_addr, Instruction::Split(l1, self.pc));
                proof {
                    assert(self.insts@ =~= start + code(Pattern::Question(Box::new(e@)), base));
                }
                Ok(())
            },
            _ => Err(CodeGenError::FailQuestion),
        }
    }

    /// Code Generator for plus
    pub fn gen_plus(&mut self, e: &AST) -> (r: Result<(), CodeGenError>)
        requires
            old(self).wf(),
        ensures
            old(self).pc + code_len(e@) + 1 <= usize::MAX ==> r is Ok && final(self).emitted(
                old(self),
                Pattern::Plus(Box::new(e@)),
            ),
            old(self).pc + code_len(e@) + 1 > usize::MAX ==> r == Err::<(), CodeGenError>(
                CodeGenError::PCOverflow,
            ),
        decreases Pattern::Plus(Box::new(e@)), 0nat,
    {
        let ghost base = self.pc as int;
        let ghost start = self.insts@;
        proof {
            lemma_code_len(e@, base);
            let ghost whole = Pattern::Plus(Box::new(e@));
            assert(decreases_to!(whole => *whole->Plus_0));
        }
        // L1: code of e
        let l1 = self.pc;
        self.gen_expr(e)?;

        // split L1, L2
        self.inc_pc()?;
        let split = Instruction::Split(l1, self.pc);
        self.insts.push(split);
        proof {
            assert(self.insts@ =~= start + code(Pattern::Plus(Box::new(e@)), base));
        }
        Ok(())
    }

    /// Code Generator for star
    pub fn gen_star(&mut self, e: &AST) -> (r: Result<(), CodeGenError>)
        requires
            old(self).wf(),
        ensures
            old(self).pc + code_len(e@) + 2 <= usize::MAX ==> r is Ok && final(self).emitted(
                old(self),
                Pattern::Star(Box::new(e@)),
            ),
            old(self).pc + code_len(e@) + 2 > usize::MAX ==> r == Err::<(), CodeGenError>(
                CodeGenError::PCOverflow,
            ),
        decreases Pattern::Star(Box::new(e@)), 0nat,
    {
        let ghost base = self.pc as int;
        let ghost start = self.insts@;
        proof {
            lemma_code_len(e@, base + 1);
            let ghost whole = Pattern::Star(Box::new(e@));
            assert(decreases_to!(whole => *whole->Star_0));
        }
        // L1: split L2, L3
        let l1 = self.pc;
        self.inc_pc()?;
        let split = Instruction::Split(self.pc, 0);  // L3 is not known yet
        self.insts.push(split);

        // L2: code of e
        self.gen_expr(e)?;

        // jump L1
        self.inc_pc()?;
        self.insts.push(Instruction::Jump(l1));

        match self.insts[l1] {
            Instruction::Split(l2, _) => {
                self.insts.set(l1, Instruction::Split(l2, self.pc));
                proof {
                    assert(self.insts@ =~= start + code(Pattern::Star(Box::new(e@)), base));
                }
                Ok(())
            },
            _ => Err(CodeGenError::FailStar),
        }
    }

    /// The code of `ast`, then `match`.
    pub fn gen_code(&mut self, ast: &AST) -> (r: Result<(), CodeGenError>)
        requires
            old(self).wf(),
        ensures
            old(self).pc + code_len(ast@) < usize::MAX ==> r is Ok && final(self).wf() && final(self).insts@ == old(self).insts@ + code(ast@, old(self).pc as int)
                + seq![Instruction::Match],
            old(self).pc + code_len(ast@) >= usize::MAX ==> r == Err::<(), CodeGenError>(
                CodeGenError::PCOverflow,
            ),
    {
        proof {
            lemma_code_len(ast@, self.pc as int);
        }
        self.gen_expr(ast)?;
        self.inc_pc()?;
        self.insts.push(Instruction::Match);
        Ok(())
    }
}

/// The first `k` patterns of `v` lower to no more instructions than the first
/// `n` do.
pub proof fn lemma_code_len_upto_grows(v: Seq<Pattern>, k: nat, n: nat)
    requires
        k <= n <= v.len(),
    ensures
        code_len_upto(v, k) <= code_len_upto(v, n),
    decreases n,
{
    if k < n {
        lemma_code_len_upto_grows(v, k, (n - 1) as nat);
    }
}

/// Compiles `ast`. The program is `program(ast@)`; it is refused only where
/// it would hold more instructions than an address can count. The program
/// is closed: every target lies inside it, and it ends in `match`.
pub fn get_code(ast: &AST) -> (r: Result<Vec<Instruction>, CodeGenError>)
    ensures
        code_len(ast@) < usize::MAX ==> r is Ok && r->Ok_0@ == program(ast@),
        code_len(ast@) >= usize::MAX ==> r == Err::<Vec<Instruction>, CodeGenError>(
            CodeGenError::PCOverflow,
        ),
        r is Ok ==> closed(r->Ok_0@) && r->Ok_0@.len() == code_len(ast@) + 1 && r->Ok_0@.last()
            == Instruction::Match,
{
    proof {
        if code_len(ast@) < usize::MAX {
            lemma_program_closed(ast@);
        }
    }
    let mut generator = Generator::default();
    generator.gen_code(ast)?;
    Ok(generator.insts)
}

} // verus!

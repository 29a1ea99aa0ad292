//! Instructions and programs as text.
use super::Instruction;
use vstd::prelude::*;

verus! {

/// The character of a decimal digit.
pub open spec fn digit(d: nat) -> char {
    if d == 0 {
        '0'
    } else if d == 1 {
        '1'
    } else if d == 2 {
        '2'
    } else if d == 3 {
        '3'
    } else if d == 4 {
        '4'
    } else if d == 5 {
        '5'
    } else if d == 6 {
        '6'
    } else if d == 7 {
        '7'
    } else if d == 8 {
        '8'
    } else {
        '9'
    }
}

/// The decimal digits of `n`, the most significant first.
pub open spec fn digits(n: nat) -> Seq<char>
    decreases n,
{
    if n < 10 {
        seq![digit(n)]
    } else {
        digits(n / 10).push(digit(n % 10))
    }
}

/// The decimal digits of `n`, with zeros in front where there are fewer
/// than four.
pub open spec fn padded(n: nat) -> Seq<char> {
    if n < 10 {
        seq!['0', '0', '0'] + digits(n)
    } else if n < 100 {
        seq!['0', '0'] + digits(n)
    } else if n < 1000 {
        seq!['0'] + digits(n)
    } else {
        digits(n)
    }
}

/// The text of an instruction: its name, then its character or its
/// addresses.
pub open spec fn instruction_text(inst: Instruction) -> Seq<char> {
    match inst {
        Instruction::Char(c) => seq!['c', 'h', 'a', 'r', ' ', c],
        Instruction::Match => seq!['m', 'a', 't', 'c', 'h'],
        Instruction::Jump(a) => seq!['j', 'u', 'm', 'p', ' '] + padded(a as nat),
        Instruction::Split(a, b) => seq!['s', 'p', 'l', 'i', 't', ' '] + padded(a as nat) + seq![
            ',',
            ' ',
        ] + padded(b as nat),
    }
}

/// The line of a listing for the instruction `inst` at address `n`.
pub open spec fn line_text(n: nat, inst: Instruction) -> Seq<char> {
    padded(n) + seq![':', ' '] + instruction_text(inst)
}

/// `String::push` of std: the character is appended to the end of the
/// string, and nothing else of the string changes.
#[verifier::external_body]
fn push_char(s: &mut String, c: char)
    ensures
        final(s)@ == old(s)@.push(c),
{
    s.push(c)
}

fn digit_char(d: usize) -> (c: char)
    requires
        d < 10,
    ensures
        c == digit(d as nat),
{
    if d == 0 {
        '0'
    } else if d == 1 {
        '1'
    } else if d == 2 {
        '2'
    } else if d == 3 {
        '3'
    } else if d == 4 {
        '4'
    } else if d == 5 {
        '5'
    } else if d == 6 {
        '6'
    } else if d == 7 {
        '7'
    } else if d == 8 {
        '8'
    } else {
        '9'
    }
}

fn push_digits(s: &mut String, n: usize)
    ensures
        final(s)@ == old(s)@ + digits(n as nat),
    decreases n,
{
    if n >= 10 {
        push_digits(s, n / 10);
    }
    push_char(s, digit_char(n % 10));
    proof {
        if n >= 10 {
            assert(final(s)@ =~= old(s)@ + digits((n / 10) as nat).push(digit((n % 10) as nat)));
        } else {
            assert(final(s)@ =~= old(s)@ + seq![digit(n as nat)]);
        }
    }
}

fn push_padded(s: &mut String, n: usize)
    ensures
        final(s)@ == old(s)@ + padded(n as nat),
{
    if n < 1000 {
        push_char(s, '0');
    }
    if n < 100 {
        push_char(s, '0');
    }
    if n < 10 {
        push_char(s, '0');
    }
    let ghost zeros = s@;
    push_digits(s, n);
    proof {
        if n < 10 {
            assert(zeros =~= old(s)@ + seq!['0', '0', '0']);
        } else if n < 100 {
            assert(zeros =~= old(s)@ + seq!['0', '0']);
        } else if n < 1000 {
            assert(zeros =~= old(s)@ + seq!['0']);
        }
        assert(final(s)@ =~= old(s)@ + padded(n as nat));
    }
}

fn push_word(s: &mut String, word: &str)
    ensures
        final(s)@ == old(s)@ + word@,
{
    s.append(word);
}

fn push_instruction(s: &mut String, inst: &Instruction)
    ensures
        final(s)@ == old(s)@ + instruction_text(*inst),
{
    match inst {
        Instruction::Char(c) => {
            proof {
                reveal_strlit("char ");
            }
            push_word(s, "char ");
            push_char(s, *c);
            proof {
                assert("char "@ =~= seq!['c', 'h', 'a', 'r', ' ']);
                assert(final(s)@ =~= old(s)@ + instruction_text(*inst));
            }
        },
        Instruction::Match => {
            proof {
                reveal_strlit("match");
            }
            push_word(s, "match");
            proof {
                assert("match"@ =~= seq!['m', 'a', 't', 'c', 'h']);
            }
        },
        Instruction::Jump(addr) => {
            proof {
                reveal_strlit("jump ");
            }
            push_word(s, "jump ");
            push_padded(s, *addr);
            proof {
                assert("jump "@ =~= seq!['j', 'u', 'm', 'p', ' ']);
                assert(final(s)@ =~= old(s)@ + instruction_text(*inst));
            }
        },
        Instruction::Split(addr1, addr2) => {
            proof {
                reveal_strlit("split ");
                reveal_strlit(", ");
            }
            push_word(s, "split ");
            push_padded(s, *addr1);
            push_word(s, ", ");
            push_padded(s, *addr2);
            proof {
                assert("split "@ =~= seq!['s', 'p', 'l', 'i', 't', ' ']);
                assert(", "@ =~= seq![',', ' ']);
                assert(final(s)@ =~= old(s)@ + instruction_text(*inst));
            }
        },
    }
}

impl Instruction {
    /// The instruction as text: `char c`, `match`, `jump NNNN` or
    /// `split NNNN, NNNN`.
    pub fn to_string(&self) -> (s: String)
        ensures
            s@ == instruction_text(*self),
    {
        let mut s = String::new();
        push_instruction(&mut s, self);
        proof {
            assert(s@ =~= instruction_text(*self));
        }
        s
    }
}

/// The line of a listing for the instruction `inst` at address `n`:
/// `NNNN: ` and the instruction.
pub fn listing_line(n: usize, inst: &Instruction) -> (s: String)
    ensures
        s@ == line_text(n as nat, *inst),
{
    let mut s = String::new();
    push_padded(&mut s, n);
    proof {
        reveal_strlit(": ");
    }
    push_word(&mut s, ": ");
    push_instruction(&mut s, inst);
    proof {
        assert(": "@ =~= seq![':', ' ']);
        assert(s@ =~= line_text(n as nat, *inst));
    }
    s
}

/// The listing of a program: one line for each instruction, in order.
pub fn listing(code: &[Instruction]) -> (lines: Vec<String>)
    ensures
        lines@.len() == code@.len(),
        forall|i: int| 0 <= i < code@.len() ==> (#[trigger] lines@[i])@ == line_text(i as nat, code@[i]),
{
    let mut lines: Vec<String> = Vec::new();
    let mut n: usize = 0;
    while n < code.len()
        invariant
            n <= code@.len(),
            lines@.len() == n,
            forall|i: int| 0 <= i < n ==> (#[trigger] lines@[i])@ == line_text(i as nat, code@[i]),
        decreases code@.len() - n,
    {
        lines.push(listing_line(n, &code[n]));
        n += 1;
    }
    lines
}

} // verus!

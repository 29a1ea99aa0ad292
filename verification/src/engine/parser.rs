//! Pattern text to syntax tree.
//!
//! The grammar, loosest binding first:
//!
//! ```text
//! expr    ::= seq ( '|' seq )*
//! seq     ::= atom*
//! atom    ::= primary ( '*' | '+' | '?' )?
//! primary ::= '(' expr ')' | literal
//! literal ::= any character except ( ) | * + ?
//! ```
//!
//! An alternative beside a `|` must hold at least one atom; `()` is an atom
//! and stands for the empty sequence.
use super::grammar::{is_expr, text_of, theorem_parse_is_grammar};
use vstd::prelude::*;

verus! {

/// Syntax tree of a pattern.
#[derive(Debug)]
pub enum AST {
    Char(char),
    Plus(Box<AST>),
    Star(Box<AST>),
    Question(Box<AST>),
    Or(Box<AST>, Box<AST>),
    Sequence(Vec<AST>),
}

/// The mathematical value of a syntax tree.
pub enum Pattern {
    Char(char),
    Plus(Box<Pattern>),
    Star(Box<Pattern>),
    Question(Box<Pattern>),
    Or(Box<Pattern>, Box<Pattern>),
    Sequence(Seq<Pattern>),
}

/// Why a pattern text was rejected.
#[derive(Debug, Clone, Copy, PartialEq, Eq, Structural)]
pub enum ParseError {
    /// `*`, `+` or `?` with nothing before it that it could repeat.
    EmptyOperand,
    /// An alternative beside `|` that holds no atom.
    EmptyAlternative,
    /// The text ends inside a group.
    UnclosedParen,
    /// `)` without an open group.
    UnmatchedCloseParen,
    /// The text ends inside a group, directly after `|`.
    UnexpectedEnd,
}

pub open spec fn model(a: AST) -> Pattern
    decreases a,
{
    match a {
        AST::Char(c) => Pattern::Char(c),
        AST::Plus(e) => Pattern::Plus(Box::new(model(*e))),
        AST::Star(e) => Pattern::Star(Box::new(model(*e))),
        AST::Question(e) => Pattern::Question(Box::new(model(*e))),
        AST::Or(l, r) => Pattern::Or(Box::new(model(*l)), Box::new(model(*r))),
        AST::Sequence(v) => Pattern::Sequence(models(v@)),
    }
}

/// The values of a list of trees, in order.
pub open spec fn models(v: Seq<AST>) -> Seq<Pattern>
    decreases v,
{
    Seq::new(v.len(), |i: int| if 0 <= i < v.len() { model(v[i]) } else { Pattern::Sequence(Seq::empty()) })
}

impl View for AST {
    type V = Pattern;

    open spec fn view(&self) -> Pattern {
        model(*self)
    }
}

pub open spec fn is_meta(c: char) -> bool {
    c == '(' || c == ')' || c == '|' || c == '*' || c == '+' || c == '?'
}

/// A group that is still open: the alternatives that a `|` has closed, folded
/// to the left, and the atoms of the alternative being read.
pub struct Group {
    pub alts: Option<Pattern>,
    pub items: Seq<Pattern>,
}

/// What is known after reading a prefix of the text: the groups that enclose
/// the current one (outermost first), the current group, and whether the last
/// character ended a primary that a postfix operator may follow.
pub struct Scan {
    pub outer: Seq<Group>,
    pub cur: Group,
    pub operand: bool,
}

pub open spec fn fresh() -> Group {
    Group { alts: None, items: Seq::empty() }
}

/// The tree of a finished group.
pub open spec fn close(g: Group) -> Pattern {
    match g.alts {
        None => Pattern::Sequence(g.items),
        Some(l) => Pattern::Or(Box::new(l), Box::new(Pattern::Sequence(g.items))),
    }
}

/// `|` was read and nothing after it yet.
pub open spec fn dangling(g: Group) -> bool {
    g.alts is Some && g.items.len() == 0
}

pub open spec fn repeat(op: char, p: Pattern) -> Pattern {
    if op == '*' {
        Pattern::Star(Box::new(p))
    } else if op == '+' {
        Pattern::Plus(Box::new(p))
    } else {
        Pattern::Question(Box::new(p))
    }
}

/// Reads one character.
pub open spec fn step(st: Scan, c: char) -> Result<Scan, ParseError> {
    if c == '(' {
        Ok(Scan { outer: st.outer.push(st.cur), cur: fresh(), operand: false })
    } else if c == ')' {
        if dangling(st.cur) {
            Err(ParseError::EmptyAlternative)
        } else if st.outer.len() == 0 {
            Err(ParseError::UnmatchedCloseParen)
        } else {
            let parent = st.outer.last();
            Ok(
                Scan {
                    outer: st.outer.drop_last(),
                    cur: Group { alts: parent.alts, items: parent.items.push(close(st.cur)) },
                    operand: true,
                },
            )
        }
    } else if c == '|' {
        if st.cur.items.len() == 0 {
            Err(ParseError::EmptyAlternative)
        } else {
            Ok(
                Scan {
                    outer: st.outer,
                    cur: Group { alts: Some(close(st.cur)), items: Seq::empty() },
                    operand: false,
                },
            )
        }
    } else if c == '*' || c == '+' || c == '?' {
        if !st.operand || st.cur.items.len() == 0 {
            Err(ParseError::EmptyOperand)
        } else {
            Ok(
                Scan {
                    outer: st.outer,
                    cur: Group {
                        alts: st.cur.alts,
                        items: st.cur.items.drop_last().push(repeat(c, st.cur.items.last())),
                    },
                    operand: false,
                },
            )
        }
    } else {
        Ok(
            Scan {
                outer: st.outer,
                cur: Group { alts: st.cur.alts, items: st.cur.items.push(Pattern::Char(c)) },
                operand: true,
            },
        )
    }
}

/// The state before anything is read.
pub open spec fn start() -> Scan {
    Scan { outer: Seq::empty(), cur: fresh(), operand: false }
}

/// The state that the first `n` characters of `text` lead to from `st`, or
/// the first error met on the way.
pub open spec fn scan_from(st: Scan, text: Seq<char>, n: nat) -> Result<Scan, ParseError>
    decreases n,
{
    if n == 0 {
        Ok(st)
    } else {
        match scan_from(st, text, (n - 1) as nat) {
            Err(e) => Err(e),
            Ok(before) => step(before, text[n - 1]),
        }
    }
}

/// The state after the first `n` characters of `text`, or the first error
/// met on the way.
pub open spec fn scan(text: Seq<char>, n: nat) -> Result<Scan, ParseError> {
    scan_from(start(), text, n)
}

/// What the end of the text makes of the state reached.
pub open spec fn finish(st: Scan) -> Result<Pattern, ParseError> {
    if st.outer.len() > 0 {
        if dangling(st.cur) {
            Err(ParseError::UnexpectedEnd)
        } else {
            Err(ParseError::UnclosedParen)
        }
    } else if dangling(st.cur) {
        Err(ParseError::EmptyAlternative)
    } else {
        Ok(close(st.cur))
    }
}

/// The tree of a pattern text, or the reason why it has none.
pub open spec fn parse_spec(text: Seq<char>) -> Result<Pattern, ParseError> {
    match scan(text, text.len()) {
        Err(e) => Err(e),
        Ok(st) => finish(st),
    }
}

/// The state that the whole of `text` leads to from `st`.
pub open spec fn scan_all(st: Scan, text: Seq<char>) -> Result<Scan, ParseError> {
    scan_from(st, text, text.len())
}

/// Scanning looks at no character behind the ones it counts.
pub proof fn lemma_scan_prefix(st: Scan, a: Seq<char>, b: Seq<char>, n: nat)
    requires
        n <= a.len(),
        n <= b.len(),
        forall|i: int| 0 <= i < n ==> a[i] == b[i],
    ensures
        scan_from(st, a, n) == scan_from(st, b, n),
    decreases n,
{
    if n > 0 {
        lemma_scan_prefix(st, a, b, (n - 1) as nat);
    }
}

/// Scanning `a + b` is scanning `a`, then `b` from the state reached.
pub proof fn lemma_scan_concat(st: Scan, a: Seq<char>, b: Seq<char>, k: nat)
    requires
        k <= b.len(),
    ensures
        scan_from(st, a + b, a.len() + k) == match scan_all(st, a) {
            Err(e) => Err(e),
            Ok(mid) => scan_from(mid, b, k),
        },
    decreases k,
{
    if k == 0 {
        lemma_scan_prefix(st, a + b, a, a.len());
    } else {
        lemma_scan_concat(st, a, b, (k - 1) as nat);
        assert((a + b)[a.len() + k - 1] == b[k - 1]);
    }
}

/// A literal, as a tree of its own.
fn literal(c: char) -> (a: AST)
    ensures
        a@ == Pattern::Char(c),
{
    AST::Char(c)
}

/// Puts `prev` under the postfix operator `op`.
fn wrap(op: char, prev: AST) -> (a: AST)
    requires
        op == '*' || op == '+' || op == '?',
    ensures
        a@ == repeat(op, prev@),
{
    if op == '*' {
        AST::Star(Box::new(prev))
    } else if op == '+' {
        AST::Plus(Box::new(prev))
    } else {
        AST::Question(Box::new(prev))
    }
}

/// An open group as the parser holds it.
pub struct Frame {
    pub alts: Option<AST>,
    pub items: Vec<AST>,
}

impl View for Frame {
    type V = Group;

    open spec fn view(&self) -> Group {
        Group {
            alts: match self.alts {
                None => None,
                Some(a) => Some(a@),
            },
            items: models(self.items@),
        }
    }
}

pub open spec fn groups(v: Seq<Frame>) -> Seq<Group> {
    Seq::new(v.len(), |i: int| v[i]@)
}

/// Folds a finished alternative into the ones before it.
fn close_group(alts: Option<AST>, items: Vec<AST>) -> (a: AST)
    ensures
        a@ == close((Frame { alts, items })@),
{
    proof {
        reveal_with_fuel(model, 2);
    }
    match alts {
        None => AST::Sequence(items),
        Some(l) => AST::Or(Box::new(l), Box::new(AST::Sequence(items))),
    }
}

/// An error, once met, is the result for every longer prefix.
pub proof fn lemma_scan_error_stays(st: Scan, text: Seq<char>, i: nat, n: nat)
    requires
        i <= n,
        scan_from(st, text, i) is Err,
    ensures
        scan_from(st, text, n) == scan_from(st, text, i),
    decreases n,
{
    if i < n {
        lemma_scan_error_stays(st, text, i, (n - 1) as nat);
    }
}

/// The characters of `s`, in order.
pub fn chars_of(s: &str) -> (v: Vec<char>)
    ensures
        v@ == s@,
{
    let mut v: Vec<char> = Vec::new();
    for c in it: s.chars()
        invariant
            it.seq() == s@,
            v@ == s@.take(it.index() as int),
    {
        v.push(c);
    }
    v
}

/// Parses the whole of `text`.
pub fn parse_chars(text: &Vec<char>) -> (r: Result<AST, ParseError>)
    ensures
        match r {
            Ok(a) => parse_spec(text@) == Ok::<Pattern, ParseError>(a@),
            Err(e) => parse_spec(text@) == Err::<Pattern, ParseError>(e),
        },
{
    let mut stack: Vec<Frame> = Vec::new();
    let mut alts: Option<AST> = None;
    let mut items: Vec<AST> = Vec::new();
    let mut operand = false;
    let mut i: usize = 0;
    proof {
        assert(groups(stack@) =~= Seq::<Group>::empty());
        assert(models(items@) =~= Seq::<Pattern>::empty());
    }
    while i < text.len()
        invariant
            i <= text.len(),
            scan(text@, i as nat) == Ok::<Scan, ParseError>(
                Scan { outer: groups(stack@), cur: (Frame { alts, items })@, operand },
            ),
        decreases text.len() - i,
    {
        let c = text[i];
        let ghost before = Scan { outer: groups(stack@), cur: (Frame { alts, items })@, operand };
        proof {
            assert(scan(text@, (i + 1) as nat) == step(before, c));
            if step(before, c) is Err {
                lemma_scan_error_stays(start(), text@, (i + 1) as nat, text@.len());
            }
        }
        if c == '(' {
            stack.push(Frame { alts, items });
            alts = None;
            items = Vec::new();
            operand = false;
            proof {
                assert(groups(stack@) =~= before.outer.push(before.cur));
                assert(models(items@) =~= Seq::<Pattern>::empty());
            }
        } else if c == ')' {
            if alts.is_some() && items.len() == 0 {
                return Err(ParseError::EmptyAlternative);
            }
            let inner = close_group(alts, items);
            match stack.pop() {
                None => {
                    return Err(ParseError::UnmatchedCloseParen);
                },
                Some(parent) => {
                    alts = parent.alts;
                    items = parent.items;
                    let ghost old_items = items@;
                    items.push(inner);
                    operand = true;
                    proof {
                        assert(groups(stack@) =~= before.outer.drop_last());
                        assert(models(items@) =~= models(old_items).push(inner@));
                    }
                },
            }
        } else if c == '|' {
            if items.len() == 0 {
                return Err(ParseError::EmptyAlternative);
            }
            alts = Some(close_group(alts, items));
            items = Vec::new();
            operand = false;
            proof {
                assert(models(items@) =~= Seq::<Pattern>::empty());
            }
        } else if c == '*' || c == '+' || c == '?' {
            if !operand {
                return Err(ParseError::EmptyOperand);
            }
            let ghost old_items = items@;
            match items.pop() {
                None => {
                    return Err(ParseError::EmptyOperand);
                },
                Some(prev) => {
                    items.push(wrap(c, prev));
                    proof {
                        assert(models(items@) =~= models(old_items).drop_last().push(
                            repeat(c, models(old_items).last()),
                        ));
                    }
                },
            }
            operand = false;
        } else {
            let ghost old_items = items@;
            items.push(literal(c));
            operand = true;
            proof {
                assert(models(items@) =~= models(old_items).push(Pattern::Char(c)));
            }
        }
        i += 1;
    }
    if stack.len() > 0 {
        if alts.is_some() && items.len() == 0 {
            Err(ParseError::UnexpectedEnd)
        } else {
            Err(ParseError::UnclosedParen)
        }
    } else if alts.is_some() && items.len() == 0 {
        Err(ParseError::EmptyAlternative)
    } else {
        Ok(close_group(alts, items))
    }
}

/// Parses a pattern. The tree, or the refusal, is what `parse_spec` gives
/// for the text. A tree returned is a tree of the grammar that, written out,
/// is the text; a text is refused only where the grammar has no tree for it.
pub fn parse(expr: &str) -> (r: Result<AST, ParseError>)
    ensures
        match r {
            Ok(a) => parse_spec(expr@) == Ok::<Pattern, ParseError>(a@),
            Err(e) => parse_spec(expr@) == Err::<Pattern, ParseError>(e),
        },
        match r {
            Ok(a) => is_expr(a@) && text_of(a@, true) == expr@,
            Err(_) => forall|t: Pattern| is_expr(t) ==> #[trigger] text_of(t, true) != expr@,
        },
{
    let text = chars_of(expr);
    let r = parse_chars(&text);
    proof {
        match &r {
            Ok(a) => {
                theorem_parse_is_grammar(expr@, a@);
            },
            Err(_) => {
                assert forall|t: Pattern| is_expr(t) implies #[trigger] text_of(t, true)
                    != expr@ by {
                    theorem_parse_is_grammar(expr@, t);
                }
            },
        }
    }
    r
}

} // verus!

use regex_zero::engine::codegen::{get_code, CodeGenError, Generator};
use regex_zero::engine::evaluator::{eval, eval_depth_with_cache, eval_with_cache, key, EvalError};
use std::collections::HashSet;
use regex_zero::engine::listing::{listing, listing_line};
use regex_zero::engine::parser::{chars_of, parse, ParseError, AST};
use regex_zero::engine::Instruction::{Char, Jump, Match, Split};
use regex_zero::engine::{do_matching, do_matching_with_cache, match_line, Instruction, MatchError};

fn both(pattern: &str, input: &str) -> bool {
    let plain = do_matching(pattern, input, true).unwrap();
    let cached = do_matching_with_cache(pattern, input, true).unwrap();
    assert_eq!(plain, cached);
    plain
}

fn program(pattern: &str) -> Vec<Instruction> {
    get_code(&parse(pattern).unwrap()).unwrap()
}

#[test]
fn worked_examples() {
    assert!(both("abc|def", "def"));
    assert!(both("(abc)*", "abcabc"));
    assert!(both("(ab|cd)+", "abcdcd"));
    assert!(both("abc?", "ab"));
    assert!(!both("abc|def", "efa"));
    assert!(!both("(ab|cd)+", ""));
    assert!(!both("abc?", "acb"));
    assert!(both("a?a?a?a?aaaa", "aaaa"));
}

#[test]
fn ambiguous_alternation_with_cache() {
    let input = format!("q{}te", "i".repeat(24));
    assert_eq!(do_matching_with_cache("q(i+|t)+a", &input, true), Ok(false));
    let longer = format!("q{}te", "i".repeat(200));
    assert_eq!(do_matching_with_cache("q(i+|t)+a", &longer, true), Ok(false));
    let accepted = format!("q{}ta", "i".repeat(200));
    assert_eq!(do_matching_with_cache("q(i+|t)+a", &accepted, true), Ok(true));
}

#[test]
fn ambiguous_alternation_plain() {
    let input = format!("q{}te", "i".repeat(10));
    assert_eq!(do_matching("q(i+|t)+a", &input, true), Ok(false));
    let accepted = format!("q{}ta", "i".repeat(10));
    assert_eq!(do_matching("q(i+|t)+a", &accepted, true), Ok(true));
}

#[test]
fn flag_has_no_effect() {
    assert_eq!(do_matching("ab*", "abbb", false), Ok(true));
    assert_eq!(do_matching("ab*", "b", false), Ok(false));
    assert_eq!(do_matching_with_cache("ab*", "abbb", false), Ok(true));
    assert_eq!(do_matching_with_cache("ab*", "b", false), Ok(false));
}

#[test]
fn match_is_anchored_at_the_start() {
    assert!(!both("abc", "xabc"));
    assert!(both("abc", "abcx"));
    for pattern in ["a(b|c)*d", "(ab)+", "x?y", "a|bc"] {
        for prefix in ["ad", "abcbd", "abab", "y", "xy", "bc", "a"] {
            if both(pattern, prefix) {
                for suffix in ["", "z", "abc", "dd"] {
                    let longer = format!("{prefix}{suffix}");
                    assert!(both(pattern, &longer));
                }
            }
        }
    }
}

#[test]
fn literal_pattern_matches_what_begins_with_it() {
    for s in ["", "a", "abc", "hello world", "héllo"] {
        assert!(both(s, s));
        for t in ["", "a", "ab", "abc", "abcd", "hello world!", "héllo", "hello", "x"] {
            assert_eq!(both(s, t), t.starts_with(s));
        }
    }
}

#[test]
fn optional_and_star_match_the_empty_text() {
    for e in ["a", "(ab)", "(a|b)", "(a*)", "()", "((a)(b))"] {
        assert!(both(&format!("{e}?"), ""));
        assert!(both(&format!("{e}*"), ""));
        assert!(both(&format!("{e}?"), "zzz"));
        assert!(both(&format!("{e}*"), "zzz"));
    }
}

#[test]
fn plus_on_the_empty_text_is_its_operand() {
    for e in ["a", "(ab)", "(a|b)", "(a*)", "()", "(a?)", "((a)(b)*)"] {
        assert_eq!(both(&format!("{e}+"), ""), both(e, ""));
    }
    assert!(!both("a+", ""));
    assert!(both("(a*)+", ""));
}

#[test]
fn plus_matches_every_run() {
    for n in 1..40usize {
        assert!(both("e+", &"e".repeat(n)));
    }
    assert!(!both("e+", "f"));
}

#[test]
fn alternation_order_does_not_change_acceptance() {
    for (a, b) in [("a", "b"), ("ab", "a"), ("abc", "abd"), ("x", "xy")] {
        for s in ["", "a", "b", "ab", "abd", "abc", "xy", "x", "ya"] {
            assert_eq!(both(&format!("{a}|{b}"), s), both(&format!("{b}|{a}"), s));
        }
    }
    assert_eq!(
        do_matching("|b", "b", true),
        Err(MatchError::Parse(ParseError::EmptyAlternative))
    );
    assert_eq!(
        do_matching("b|", "b", true),
        Err(MatchError::Parse(ParseError::EmptyAlternative))
    );
}

#[test]
fn evaluators_agree() {
    let patterns = [
        "a", "ab|cd", "(a|b)*c", "a?a?aa", "(a*)*", "(a*)*b", "(a?)+", "()+", "()*a", "(a|ab)(c|bcd)d",
        "(x+x+)+y", "((a)|(b))+", "a(b(c(d)?)?)?",
    ];
    let inputs = ["", "a", "b", "aa", "ab", "abcd", "aab", "aaab", "abcdd", "xxxxxxxx", "xxxxy", "abd"];
    for pattern in patterns {
        for input in inputs {
            both(pattern, input);
        }
    }
}

#[test]
fn cycles_that_consume_nothing_end() {
    assert!(both("(a*)*", "b"));
    assert!(!both("(a*)*b", "aac"));
    assert!(both("(a*)*b", "aab"));
    assert!(both("(a?)+", "b"));
    assert!(both("()+", ""));
    assert!(!both("()+a", "b"));
    assert!(both("(()|a)+b", "aab"));

    let around = [Instruction::Jump(0)];
    assert_eq!(eval(&around, &['a'], true), Ok(false));
    assert_eq!(eval_with_cache(&around, &['a'], true), Ok(false));
    let forked = [Instruction::Split(0, 1), Instruction::Match];
    assert_eq!(eval(&forked, &[], true), Ok(true));
    assert_eq!(eval_with_cache(&forked, &[], true), Ok(true));
    let stuck = [Instruction::Split(0, 0)];
    assert_eq!(eval(&stuck, &[], true), Ok(false));
    assert_eq!(eval_with_cache(&stuck, &[], true), Ok(false));
}

#[test]
fn program_counter_outside_the_program() {
    assert_eq!(eval(&[], &[], true), Err(EvalError::InvalidPC));
    assert_eq!(eval_with_cache(&[], &[], true), Err(EvalError::InvalidPC));
    let off = [Instruction::Jump(5)];
    assert_eq!(eval(&off, &[], true), Err(EvalError::InvalidPC));
    assert_eq!(eval_with_cache(&off, &[], true), Err(EvalError::InvalidPC));
    let end = [Instruction::Char('a')];
    assert_eq!(eval(&end, &['a'], true), Err(EvalError::InvalidPC));
    assert_eq!(eval_with_cache(&end, &['a'], true), Err(EvalError::InvalidPC));
    assert_eq!(eval(&end, &['b'], true), Ok(false));
    let second = [Instruction::Split(1, 7), Instruction::Char('a'), Instruction::Match];
    assert_eq!(eval(&second, &['a'], true), Ok(true));
    assert_eq!(eval(&second, &['b'], true), Err(EvalError::InvalidPC));
    assert_eq!(eval_with_cache(&second, &['a'], true), Ok(true));
    assert_eq!(eval_with_cache(&second, &['b'], true), Err(EvalError::InvalidPC));
    let first = [Instruction::Split(7, 1), Instruction::Match];
    assert_eq!(eval(&first, &[], true), Err(EvalError::InvalidPC));
    assert_eq!(eval_with_cache(&first, &[], true), Err(EvalError::InvalidPC));
}

#[test]
fn first_branch_is_tried_first() {
    // The first target fails with an error that the second would not meet.
    let greedy = [Instruction::Split(2, 1), Instruction::Match, Instruction::Jump(9)];
    assert_eq!(eval(&greedy, &[], true), Err(EvalError::InvalidPC));
    let lazy = [Instruction::Split(1, 2), Instruction::Match, Instruction::Jump(9)];
    assert_eq!(eval(&lazy, &[], true), Ok(true));
    assert_eq!(eval_with_cache(&greedy, &[], true), Err(EvalError::InvalidPC));
    assert_eq!(eval_with_cache(&lazy, &[], true), Ok(true));
}

#[test]
fn lowering_of_each_construct() {
    assert_eq!(program(""), vec![Match]);
    assert_eq!(program("a"), vec![Char('a'), Match]);
    assert_eq!(program("ab"), vec![Char('a'), Char('b'), Match]);
    assert_eq!(program("a|b"), vec![Split(1, 3), Char('a'), Jump(4), Char('b'), Match]);
    assert_eq!(program("a?"), vec![Split(1, 2), Char('a'), Match]);
    assert_eq!(program("a+"), vec![Char('a'), Split(0, 2), Match]);
    assert_eq!(program("a*"), vec![Split(1, 3), Char('a'), Jump(0), Match]);
    assert_eq!(program("()"), vec![Match]);
    assert_eq!(
        program("x(a|b)*y"),
        vec![
            Char('x'),
            Split(2, 7),
            Split(3, 5),
            Char('a'),
            Jump(6),
            Char('b'),
            Jump(1),
            Char('y'),
            Match
        ]
    );
    assert_eq!(
        program("a|b|c"),
        vec![Split(1, 6), Split(2, 4), Char('a'), Jump(5), Char('b'), Jump(7), Char('c'), Match]
    );
}

#[test]
fn programs_end_in_match_and_stay_inside() {
    for pattern in ["", "a", "(a|b)*c", "a?b+c*", "((a))", "(a|(b|c))+"] {
        let code = program(pattern);
        assert_eq!(code.last(), Some(&Instruction::Match));
        for inst in &code {
            match inst {
                Instruction::Jump(a) => assert!(*a < code.len()),
                Instruction::Split(a, b) => assert!(*a < code.len() && *b < code.len()),
                _ => {}
            }
        }
    }
}

#[test]
fn address_counter_overflow() {
    let mut full = Generator { pc: usize::MAX, insts: Vec::new() };
    assert_eq!(full.inc_pc(), Err(CodeGenError::PCOverflow));
    assert_eq!(full.pc, usize::MAX);
    let mut fresh = Generator::default();
    assert_eq!(fresh.inc_pc(), Ok(()));
    assert_eq!(fresh.pc, 1);
    assert!(fresh.insts.is_empty());
}

#[test]
fn generator_appends_to_what_it_holds() {
    let mut g = Generator::default();
    g.gen_char('x').unwrap();
    g.gen_expr(&parse("a|b").unwrap()).unwrap();
    g.gen_code(&parse("c*").unwrap()).unwrap();
    assert_eq!(
        g.insts,
        vec![
            Char('x'),
            Split(2, 4),
            Char('a'),
            Jump(5),
            Char('b'),
            Split(6, 8),
            Char('c'),
            Jump(5),
            Match
        ]
    );
    assert_eq!(g.pc, 9);
}

fn shape(pattern: &str) -> String {
    format!("{:?}", parse(pattern).unwrap())
}

#[test]
fn trees() {
    assert_eq!(shape(""), "Sequence([])");
    assert_eq!(shape("ab"), "Sequence([Char('a'), Char('b')])");
    assert_eq!(
        shape("a|b|c"),
        "Or(Or(Sequence([Char('a')]), Sequence([Char('b')])), Sequence([Char('c')]))"
    );
    assert_eq!(shape("ab*"), "Sequence([Char('a'), Star(Char('b'))])");
    assert_eq!(shape("(ab)+"), "Sequence([Plus(Sequence([Char('a'), Char('b')]))])");
    assert_eq!(shape("a?"), "Sequence([Question(Char('a'))])");
    assert_eq!(shape("()"), "Sequence([Sequence([])])");
    assert_eq!(
        shape("(a|b)c"),
        "Sequence([Or(Sequence([Char('a')]), Sequence([Char('b')])), Char('c')])"
    );
    assert_eq!(shape("()|b"), "Or(Sequence([Sequence([])]), Sequence([Char('b')]))");
    assert!(matches!(parse("a"), Ok(AST::Sequence(v)) if matches!(v[..], [AST::Char('a')])));
}

fn refusal(pattern: &str) -> ParseError {
    let direct = parse(pattern).unwrap_err();
    assert_eq!(do_matching(pattern, "bbb", true), Err(MatchError::Parse(direct)));
    assert_eq!(do_matching_with_cache(pattern, "bbb", true), Err(MatchError::Parse(direct)));
    direct
}

#[test]
fn malformed_patterns() {
    assert_eq!(refusal("+b"), ParseError::EmptyOperand);
    assert_eq!(refusal("*b"), ParseError::EmptyOperand);
    assert_eq!(refusal("?b"), ParseError::EmptyOperand);
    assert_eq!(refusal("a|+b"), ParseError::EmptyOperand);
    assert_eq!(refusal("a**"), ParseError::EmptyOperand);
    assert_eq!(refusal("(+)"), ParseError::EmptyOperand);
    assert_eq!(refusal("|b"), ParseError::EmptyAlternative);
    assert_eq!(refusal("a|"), ParseError::EmptyAlternative);
    assert_eq!(refusal("a||b"), ParseError::EmptyAlternative);
    assert_eq!(refusal("(|b)"), ParseError::EmptyAlternative);
    assert_eq!(refusal("(a|)"), ParseError::EmptyAlternative);
    assert_eq!(refusal("a|)"), ParseError::EmptyAlternative);
    assert_eq!(refusal("(a"), ParseError::UnclosedParen);
    assert_eq!(refusal("("), ParseError::UnclosedParen);
    assert_eq!(refusal("((a)"), ParseError::UnclosedParen);
    assert_eq!(refusal("a)"), ParseError::UnmatchedCloseParen);
    assert_eq!(refusal(")"), ParseError::UnmatchedCloseParen);
    assert_eq!(refusal("(a))"), ParseError::UnmatchedCloseParen);
    assert_eq!(refusal("(a|"), ParseError::UnexpectedEnd);
    assert_eq!(refusal("x(a|b|"), ParseError::UnexpectedEnd);
    // The first fault from the left decides.
    assert_eq!(refusal(")+"), ParseError::UnmatchedCloseParen);
    assert_eq!(refusal("+)"), ParseError::EmptyOperand);
}

#[test]
fn characters_not_bytes() {
    assert_eq!(chars_of("aé日"), vec!['a', 'é', '日']);
    assert!(both("é+日", "ééé日本"));
    assert!(!both("é", "e"));
    assert_eq!(program("é"), vec![Instruction::Char('é'), Instruction::Match]);
}

#[test]
fn instructions_as_text() {
    assert_eq!(Instruction::Char('a').to_string(), "char a");
    assert_eq!(Instruction::Char('é').to_string(), "char é");
    assert_eq!(Instruction::Match.to_string(), "match");
    assert_eq!(Instruction::Jump(5).to_string(), "jump 0005");
    assert_eq!(Instruction::Jump(0).to_string(), "jump 0000");
    assert_eq!(Instruction::Jump(42).to_string(), "jump 0042");
    assert_eq!(Instruction::Jump(999).to_string(), "jump 0999");
    assert_eq!(Instruction::Jump(1000).to_string(), "jump 1000");
    assert_eq!(Instruction::Jump(123456).to_string(), "jump 123456");
    assert_eq!(Instruction::Split(1, 30).to_string(), "split 0001, 0030");
    assert_eq!(
        Instruction::Jump(usize::MAX).to_string(),
        format!("jump {:>04}", usize::MAX)
    );
    assert_eq!(listing_line(7, &Instruction::Match), "0007: match");
    assert_eq!(listing_line(10000, &Instruction::Char('x')), "10000: char x");
}

#[test]
fn listing_of_a_program() {
    let lines = listing(&program("a|b"));
    assert_eq!(
        lines,
        vec!["0000: split 0001, 0003", "0001: char a", "0002: jump 0004", "0003: char b", "0004: match"]
    );
    assert!(listing(&[]).is_empty());
}

#[test]
fn search_in_a_line() {
    assert_eq!(match_line("abc", "xxabcxx"), Ok(true));
    assert_eq!(match_line("abc", "abc"), Ok(true));
    assert_eq!(match_line("abc", "xxabxcx"), Ok(false));
    assert_eq!(match_line("c", "abc"), Ok(true));
    assert_eq!(match_line("(ab)+c", "zzababcz"), Ok(true));
    assert_eq!(match_line("é", "日本é"), Ok(true));
    // A line without characters offers no place to match at.
    assert_eq!(match_line("a*", ""), Ok(false));
    assert_eq!(match_line("+", ""), Ok(false));
    assert_eq!(match_line("a*", "b"), Ok(true));
    assert_eq!(match_line("+b", "bbb"), Err(MatchError::Parse(ParseError::EmptyOperand)));
    assert_eq!(match_line("(a", "bbb"), Err(MatchError::Parse(ParseError::UnclosedParen)));
}

#[test]
fn entry_points_at_the_root() {
    assert_eq!(regex_zero::do_matching("a(bc)+|c(def)*", "cdefdefdef", true), Ok(true));
    assert_eq!(regex_zero::do_matching_with_cache("a(bc)+|c(def)*", "cdefdefdef", true), Ok(true));
    assert_eq!(regex_zero::match_line("a(bc)+", "xxabcbc"), Ok(true));
}

fn keys(states: &[(usize, usize)]) -> HashSet<u128> {
    states.iter().map(|(pc, sp)| key(*pc, *sp)).collect()
}

fn cached(
    inst: &[Instruction],
    line: &str,
    before: &[(usize, usize)],
) -> (Result<bool, EvalError>, HashSet<u128>) {
    let text = chars_of(line);
    let mut cache = keys(before);
    let mut entered: HashSet<u128> = HashSet::new();
    let r = eval_depth_with_cache(inst, &text, 0, 0, &mut cache, &mut entered);
    (r, cache)
}

#[test]
fn key_of_a_state() {
    assert_eq!(key(0, 0), 0);
    assert_eq!(key(0, 7), 7);
    assert_eq!(key(1, 0), 1u128 << 64);
    assert_eq!(key(3, 5), (3u128 << 64) + 5);
    assert_ne!(key(1, 2), key(2, 1));
}

#[test]
fn cache_holds_the_jumps_followed() {
    let code = program("(ab)*c");
    assert_eq!(
        code,
        vec![Split(1, 4), Char('a'), Char('b'), Jump(0), Char('c'), Match]
    );
    assert_eq!(cached(&code, "ababc", &[]), (Ok(true), keys(&[(0, 2), (0, 4)])));
    assert_eq!(cached(&code, "abab", &[]), (Ok(false), keys(&[(0, 2), (0, 4)])));
    assert_eq!(cached(&code, "c", &[]), (Ok(true), keys(&[])));
}

#[test]
fn cache_after_a_cycle_of_jumps() {
    let code = program("(a*)*");
    assert_eq!(
        code,
        vec![Split(1, 5), Split(2, 4), Char('a'), Jump(1), Jump(0), Match]
    );
    assert_eq!(cached(&code, "b", &[]), (Ok(true), keys(&[(0, 0)])));
}

#[test]
fn splits_add_nothing_to_the_cache() {
    let twice = [Split(1, 1), Match];
    assert_eq!(cached(&twice, "", &[]), (Ok(true), keys(&[])));
    let round = program("(a?)+");
    assert_eq!(cached(&round, "", &[]), (Ok(true), keys(&[])));
    assert_eq!(cached(&round, "b", &[]), (Ok(true), keys(&[])));
    let stuck = [Split(0, 0)];
    assert_eq!(cached(&stuck, "", &[]), (Ok(false), keys(&[])));
}

#[test]
fn cache_keeps_what_it_held() {
    let code = program("(ab)*c");
    // The jump back at position 2 is held already: the path is given up.
    assert_eq!(cached(&code, "ababc", &[(0, 2)]), (Ok(false), keys(&[(0, 2)])));
    assert_eq!(
        cached(&code, "ababc", &[(0, 4), (9, 9)]),
        (Ok(false), keys(&[(0, 2), (0, 4), (9, 9)]))
    );
    assert_eq!(
        cached(&code, "ababc", &[(3, 1)]),
        (Ok(true), keys(&[(3, 1), (0, 2), (0, 4)]))
    );
}

#[test]
fn jump_out_of_the_program_is_recorded() {
    let off = [Jump(5)];
    assert_eq!(cached(&off, "", &[]), (Err(EvalError::InvalidPC), keys(&[(5, 0)])));
    let fork = [Split(5, 1), Match];
    assert_eq!(cached(&fork, "", &[]), (Err(EvalError::InvalidPC), keys(&[])));
}

#[test]
fn cache_grows_by_jump_targets_times_positions() {
    for (pattern, line) in [("(ab)*c", "abababab"), ("(a|b)*c", "abbaabab"), ("(a*)*b", "aaaa"), ("q(i+|t)+a", "qiiititie")] {
        let code = program(pattern);
        let targets: HashSet<usize> = code
            .iter()
            .filter_map(|inst| match inst {
                Jump(a) => Some(*a),
                _ => None,
            })
            .collect();
        let (_, cache) = cached(&code, line, &[]);
        assert!(cache.len() <= targets.len() * (line.chars().count() + 1));
        for k in &cache {
            let target = (*k >> 64) as usize;
            assert!(targets.contains(&target));
        }
    }
}

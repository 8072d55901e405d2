use regex_vm::engine::codegen::get_code;
use regex_vm::engine::evaluator::{eval, EvalError};
use regex_vm::engine::parser::{parse, ParseError};
use regex_vm::engine::{chars_of, do_matching, line_matches, match_chars, Instruction, MatchError};
use regex_vm::helper::{safe_add, SafeAdd};

fn compile(pattern: &str) -> Vec<Instruction> {
    let chars: Vec<char> = pattern.chars().collect();
    let ast = parse(&chars).unwrap();
    get_code(&ast).unwrap()
}

fn parse_error(pattern: &str) -> ParseError {
    let chars: Vec<char> = pattern.chars().collect();
    parse(&chars).unwrap_err()
}

#[test]
fn test_safe_add() {
    let n: usize = 10;
    assert_eq!(Some(30), n.safe_add(&20));

    let n: usize = !0;
    assert_eq!(None, n.safe_add(&1));

    let mut n: usize = 10;
    assert!(safe_add(&mut n, &20, || ()).is_ok());

    let mut n: usize = !0;
    assert!(safe_add(&mut n, &1, || ()).is_err());
}

#[test]
fn test_matching() {
    assert!(do_matching("+b", "bbb").is_err());
    assert!(do_matching("*b", "bbb").is_err());
    assert!(do_matching("|b", "bbb").is_err());
    assert!(do_matching("?b", "bbb").is_err());

    assert!(do_matching("abc|def", "def").unwrap());
    assert!(do_matching("(abc)*", "abcabc").unwrap());
    assert!(do_matching("(ab|cd)+", "abcdcd").unwrap());
    assert!(do_matching("abc?", "ab").unwrap());

    assert!(!do_matching("abc|def", "efa").unwrap());
    assert!(!do_matching("(ab|cd)+", "").unwrap());
    assert!(!do_matching("abc?", "acb").unwrap());
}

#[test]
fn safe_add_updates_in_place() {
    let mut n: usize = 10;
    assert_eq!(safe_add(&mut n, &20, || "overflow"), Ok(()));
    assert_eq!(n, 30);
    let mut m: usize = usize::MAX;
    assert_eq!(safe_add(&mut m, &1, || "overflow"), Err("overflow"));
    assert_eq!(m, usize::MAX);
}

#[test]
fn matching_is_a_prefix_test() {
    let line: Vec<char> = "ab".chars().collect();
    assert_eq!(eval(&compile("abc?"), &line), Ok(true));
    assert!(do_matching("abc", "abcdef").unwrap());
    assert!(!do_matching("abc", "xabc").unwrap());
    assert!(!do_matching("abc", "ab").unwrap());
}

#[test]
fn parse_errors_name_the_stage_and_position() {
    for p in ["+b", "*b", "|b", "?b"] {
        assert_eq!(do_matching(p, "bbb"), Err(MatchError::Parse(ParseError::MissingOperand(0))));
    }
    assert_eq!(parse_error("a**"), ParseError::MissingOperand(2));
    assert_eq!(parse_error("a||b"), ParseError::MissingOperand(2));
    assert_eq!(parse_error("()"), ParseError::MissingOperand(1));
    assert_eq!(parse_error("(ab"), ParseError::UnmatchedLeftParen(0));
    assert_eq!(parse_error("x(a(b)"), ParseError::UnmatchedLeftParen(1));
    assert_eq!(parse_error("ab)"), ParseError::UnmatchedRightParen(2));
    assert_eq!(parse_error("a|"), ParseError::UnexpectedEnd(2));
    assert_eq!(parse_error("("), ParseError::UnexpectedEnd(1));
}

#[test]
fn empty_pattern_matches_everything() {
    assert_eq!(compile(""), vec![Instruction::Match]);
    assert!(do_matching("", "").unwrap());
    assert!(do_matching("", "xyz").unwrap());
}

#[test]
fn code_for_each_construct() {
    assert_eq!(compile("ab"), vec![Instruction::Char('a'), Instruction::Char('b'), Instruction::Match]);
    assert_eq!(compile("a*"), vec![Instruction::Split(1, 3), Instruction::Char('a'), Instruction::Jump(0), Instruction::Match]);
    assert_eq!(compile("a+"), vec![Instruction::Char('a'), Instruction::Split(0, 2), Instruction::Match]);
    assert_eq!(compile("a?"), vec![Instruction::Split(1, 2), Instruction::Char('a'), Instruction::Match]);
    assert_eq!(
        compile("a|b|c"),
        vec![Instruction::Split(1, 3), Instruction::Char('a'), Instruction::Jump(7), Instruction::Split(4, 6), Instruction::Char('b'), Instruction::Jump(7), Instruction::Char('c'), Instruction::Match]
    );
    assert_eq!(compile("(a)"), compile("a"));
}

#[test]
fn compiling_twice_gives_the_same_program() {
    for p in ["abc|(de|cd)+", "(a*)*b?", "x(y|z)+w"] {
        assert_eq!(compile(p), compile(p));
    }
}

#[test]
fn compiled_targets_are_in_range() {
    for p in ["abc|(de|cd)+", "(a*)*b?", "((a|b)?c)+|d*", ""] {
        let code = compile(p);
        assert_eq!(code.last(), Some(&Instruction::Match));
        for ins in &code {
            match ins {
                Instruction::Jump(a) => assert!(*a < code.len()),
                Instruction::Split(a, b) => assert!(*a < code.len() && *b < code.len()),
                _ => {}
            }
        }
    }
}

#[test]
fn star_plus_and_question() {
    assert!(do_matching("(ab|cd)+", "cd").unwrap());
    assert!(!do_matching("(ab|cd)+", "ce").unwrap());
    assert!(do_matching("a*b", "aaab").unwrap());
    assert!(do_matching("a*b", "b").unwrap());
    assert!(!do_matching("a+b", "b").unwrap());
    assert!(do_matching("ab?c", "ac").unwrap());
    assert!(do_matching("ab?c", "abc").unwrap());
    assert!(!do_matching("ab?c", "abbc").unwrap());
}

#[test]
fn loops_without_progress_terminate() {
    assert!(do_matching("(a*)*b", "aab").unwrap());
    assert!(!do_matching("(a*)*b", "aac").unwrap());
    assert!(do_matching("(a?)+c", "c").unwrap());
}

#[test]
fn evaluation_is_idempotent() {
    let code = compile("(ab|cd)+e");
    let line: Vec<char> = "abcde".chars().collect();
    let first = eval(&code, &line);
    assert_eq!(first, Ok(true));
    assert_eq!(eval(&code, &line), first);
    let other: Vec<char> = "abcdx".chars().collect();
    assert_eq!(eval(&code, &other), Ok(false));
    assert_eq!(eval(&code, &other), Ok(false));
}

#[test]
fn corrupt_programs_fault() {
    let line: Vec<char> = "a".chars().collect();
    assert_eq!(eval(&[], &line), Err(EvalError::InvalidPC));
    assert_eq!(eval(&[Instruction::Jump(5)], &line), Err(EvalError::InvalidPC));
    assert_eq!(eval(&[Instruction::Char('a')], &line), Err(EvalError::InvalidPC));
    assert_eq!(eval(&[Instruction::Char('b')], &line), Ok(false));
    assert_eq!(eval(&[Instruction::Split(3, 1), Instruction::Match], &line), Err(EvalError::InvalidPC));
}

#[test]
fn characters_of_a_string() {
    assert_eq!(chars_of("aé漢"), vec!['a', 'é', '漢']);
    assert_eq!(chars_of(""), Vec::<char>::new());
    assert!(do_matching("é+x", "ééx").unwrap());
}

#[test]
fn line_matches_tries_every_offset() {
    assert_eq!(line_matches("cd+", "abcddx"), Ok(true));
    assert_eq!(line_matches("cd+", "abcx"), Ok(false));
    assert_eq!(line_matches("x", "x"), Ok(true));
    assert_eq!(line_matches("", ""), Ok(false));
    assert_eq!(line_matches("", "a"), Ok(true));
    assert_eq!(line_matches("(a", "aaa"), Err(MatchError::Parse(ParseError::UnmatchedLeftParen(0))));
    assert_eq!(line_matches("(a", ""), Ok(false));
}

#[test]
fn match_chars_agrees_with_do_matching() {
    let pattern: Vec<char> = "(ab|cd)+".chars().collect();
    let line: Vec<char> = "cdab".chars().collect();
    assert_eq!(match_chars(&pattern, &line), Ok(true));
    assert_eq!(match_chars(&pattern, &line), do_matching("(ab|cd)+", "cdab"));
}

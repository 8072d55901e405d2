//! The matching pipeline: pattern text to syntax tree, tree to program,
//! program and input to a verdict.
use codegen::{get_code, lemma_pattern_size, lemma_program_well_formed, program, size, CodeGenError};
use evaluator::{eval, eval_result, lemma_match_extends, lemma_well_formed_runs_ok, EvalError};
use parser::{parse, parse_pattern, ParseError};
use vstd::prelude::*;
use vstd::string::StrSliceExecFns;

pub mod codegen;
pub mod evaluator;
pub mod parser;

verus! {

/// One instruction of the matching machine. Addresses index the program.
#[derive(Debug, Clone, Copy, PartialEq, Eq, Structural)]
pub enum Instruction {
    /// Consume one input character equal to the operand.
    Char(char),
    /// Accept.
    Match,
    /// Continue at the given address.
    Jump(usize),
    /// Try the first address; if that fails, the second, from the same input position.
    Split(usize, usize),
}

/// A failure of the pipeline, tagged with the stage it came from.
#[derive(Debug, Clone, Copy, PartialEq, Eq, Structural)]
pub enum MatchError {
    /// The pattern is malformed.
    Parse(ParseError),
    /// The program would be too large to address.
    CodeGen(CodeGenError),
    /// The machine faulted.
    Eval(EvalError),
}

/// The verdict on `pattern` and `line`: parse, compile, run, and report the
/// first failure with its stage.
pub open spec fn matching_result(pattern: Seq<char>, line: Seq<char>) -> Result<bool, MatchError> {
    match parse_pattern(pattern) {
        Err(e) => Err(MatchError::Parse(e)),
        Ok(t) => {
            if size(t) >= usize::MAX {
                Err(MatchError::CodeGen(CodeGenError::PCOverflow))
            } else {
                match eval_result(program(t), line) {
                    Ok(b) => Ok(b),
                    Err(e) => Err(MatchError::Eval(e)),
                }
            }
        },
    }
}

/// The characters of a string, in order.
pub fn chars_of(s: &str) -> (r: Vec<char>)
    ensures
        r@ == s@,
{
    let n = s.unicode_len();
    let mut out: Vec<char> = Vec::new();
    let mut i: usize = 0;
    while i < n
        invariant
            n == s@.len(),
            0 <= i <= n,
            out@ == s@.take(i as int),
        decreases n - i,
    {
        out.push(s.get_char(i));
        i = i + 1;
        proof {
            assert(out@ =~= s@.take(i as int));
        }
    }
    proof {
        assert(s@.take(i as int) =~= s@);
    }
    out
}

/// Matches the pattern `expr` against `line` from its first character.
///
/// `Ok(true)` when the pattern matches some prefix of `line`, `Ok(false)`
/// when it matches none, and `Err` with the stage that failed otherwise.
pub fn do_matching(expr: &str, line: &str) -> (r: Result<bool, MatchError>)
    ensures
        r == matching_result(expr@, line@),
{
    let pattern = chars_of(expr);
    let line = chars_of(line);
    match_chars(pattern.as_slice(), line.as_slice())
}

/// [`do_matching`] on character sequences.
pub fn match_chars(pattern: &[char], line: &[char]) -> (r: Result<bool, MatchError>)
    ensures
        r == matching_result(pattern@, line@),
{
    let ast = match parse(pattern) {
        Ok(a) => a,
        Err(e) => {
            return Err(MatchError::Parse(e));
        },
    };
    let code = match get_code(&ast) {
        Ok(c) => c,
        Err(e) => {
            return Err(MatchError::CodeGen(e));
        },
    };
    match eval(code.as_slice(), line) {
        Ok(b) => Ok(b),
        Err(e) => Err(MatchError::Eval(e)),
    }
}

/// Whether `pattern` matches `line` at some character offset of `from` or
/// later: offsets are tried left to right, and the first failure ends the
/// scan.
pub open spec fn scan_result(pattern: Seq<char>, line: Seq<char>, from: nat) -> Result<bool, MatchError>
    decreases line.len() - from,
{
    if from >= line.len() {
        Ok(false)
    } else {
        match matching_result(pattern, line.subrange(from as int, line.len() as int)) {
            Ok(true) => Ok(true),
            Ok(false) => scan_result(pattern, line, from + 1),
            Err(e) => Err(e),
        }
    }
}

fn suffix(line: &[char], from: usize) -> (r: Vec<char>)
    requires
        from <= line@.len(),
    ensures
        r@ == line@.subrange(from as int, line@.len() as int),
{
    let mut out: Vec<char> = Vec::new();
    let mut i: usize = from;
    while i < line.len()
        invariant
            from <= i <= line@.len(),
            out@ == line@.subrange(from as int, i as int),
        decreases line@.len() - i,
    {
        out.push(line[i]);
        i = i + 1;
        proof {
            assert(out@ =~= line@.subrange(from as int, i as int));
        }
    }
    out
}

/// Whether `expr` matches `line` starting at any of its character offsets.
/// An empty line has no offsets and never matches.
pub fn line_matches(expr: &str, line: &str) -> (r: Result<bool, MatchError>)
    ensures
        r == scan_result(expr@, line@, 0),
{
    let pattern = chars_of(expr);
    let chars = chars_of(line);
    let mut i: usize = 0;
    while i < chars.len()
        invariant
            i <= chars@.len(),
            pattern@ == expr@,
            chars@ == line@,
            scan_result(expr@, line@, 0) == scan_result(expr@, line@, i as nat),
        decreases chars@.len() - i,
    {
        let rest = suffix(chars.as_slice(), i);
        match match_chars(pattern.as_slice(), rest.as_slice()) {
            Ok(true) => {
                return Ok(true);
            },
            Ok(false) => {},
            Err(e) => {
                return Err(e);
            },
        }
        i = i + 1;
    }
    Ok(false)
}

/// Only parsing rejects a pattern: compiling and running a pattern that
/// parses never fail, on any input. (A pattern is never longer than
/// `isize::MAX` characters, the bound on a string's length in bytes.)
pub proof fn lemma_errors_only_from_parsing(pattern: Seq<char>, line: Seq<char>)
    requires
        pattern.len() <= isize::MAX,
    ensures
        matching_result(pattern, line) is Err ==> matching_result(pattern, line) matches Err(MatchError::Parse(_)),
        parse_pattern(pattern) is Ok ==> matching_result(pattern, line) is Ok,
{
    lemma_pattern_size(pattern);
    if let Ok(t) = parse_pattern(pattern) {
        lemma_program_well_formed(t);
        lemma_well_formed_runs_ok(program(t), line, 0, 0, program(t).len());
    }
}

/// Matching is a prefix test: when a pattern matches a line, it matches
/// that line with any input appended.
pub proof fn lemma_prefix_match(pattern: Seq<char>, line: Seq<char>, extra: Seq<char>)
    requires
        matching_result(pattern, line) == Ok::<bool, MatchError>(true),
    ensures
        matching_result(pattern, line + extra) == Ok::<bool, MatchError>(true),
{
    let t = parse_pattern(pattern)->Ok_0;
    lemma_program_well_formed(t);
    lemma_match_extends(program(t), line, extra, 0, 0, program(t).len());
}

} // verus!

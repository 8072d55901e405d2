//! The backtracking machine that runs a program against an input.
use super::Instruction;
use crate::helper::safe_add;
use vstd::prelude::*;

verus! {

/// Why a run was abandoned. None of these means "no match".
#[derive(Debug, Clone, Copy, PartialEq, Eq, Structural)]
pub enum EvalError {
    /// The program counter could not be advanced without overflow.
    PCOverflow,
    /// The input position could not be advanced without overflow.
    SPOverflow,
    /// The program counter left the program.
    InvalidPC,
}

/// The outcome of running `prog` on `line` from instruction `pc` and input
/// position `sp`.
///
/// `budget` is the number of control transfers (`Jump`, `Split`) the path may
/// still take before it consumes another character; consuming a character
/// renews it to the program length. A path that runs out has gone round a loop
/// without consuming input, revisiting a state it already explores, and is
/// abandoned as a failed branch.
pub open spec fn run(prog: Seq<Instruction>, line: Seq<char>, pc: nat, sp: nat, budget: nat) -> Result<bool, EvalError>
    decreases line.len() - sp, budget,
{
    if pc >= prog.len() {
        Err(EvalError::InvalidPC)
    } else {
        match prog[pc as int] {
            Instruction::Char(c) => {
                if sp < line.len() && line[sp as int] == c {
                    run(prog, line, pc + 1, sp + 1, prog.len())
                } else {
                    Ok(false)
                }
            },
            Instruction::Match => Ok(true),
            Instruction::Jump(addr) => {
                if budget == 0 {
                    Ok(false)
                } else {
                    run(prog, line, addr as nat, sp, (budget - 1) as nat)
                }
            },
            Instruction::Split(addr1, addr2) => {
                if budget == 0 {
                    Ok(false)
                } else {
                    match run(prog, line, addr1 as nat, sp, (budget - 1) as nat) {
                        Ok(false) => run(prog, line, addr2 as nat, sp, (budget - 1) as nat),
                        other => other,
                    }
                }
            },
        }
    }
}

/// The verdict of a whole program on an input: a run from the first
/// instruction at the first character.
pub open spec fn eval_result(prog: Seq<Instruction>, line: Seq<char>) -> Result<bool, EvalError> {
    run(prog, line, 0, 0, prog.len())
}

/// Every address a program holds is one of its instructions, and no
/// `Char` is its last instruction.
pub open spec fn well_formed(prog: Seq<Instruction>) -> bool {
    forall|i: int|
        0 <= i < prog.len() ==> match #[trigger] prog[i] {
            Instruction::Char(_) => i + 1 < prog.len(),
            Instruction::Match => true,
            Instruction::Jump(a) => a < prog.len(),
            Instruction::Split(a, b) => a < prog.len() && b < prog.len(),
        }
}

/// A well-formed program never faults: from any of its instructions it
/// reports match or no match.
pub proof fn lemma_well_formed_runs_ok(prog: Seq<Instruction>, line: Seq<char>, pc: nat, sp: nat, budget: nat)
    requires
        well_formed(prog),
        pc < prog.len(),
    ensures
        run(prog, line, pc, sp, budget) is Ok,
    decreases line.len() - sp, budget,
{
    match prog[pc as int] {
        Instruction::Char(c) => {
            if sp < line.len() && line[sp as int] == c {
                lemma_well_formed_runs_ok(prog, line, pc + 1, sp + 1, prog.len());
            }
        },
        Instruction::Match => {},
        Instruction::Jump(addr) => {
            if budget > 0 {
                lemma_well_formed_runs_ok(prog, line, addr as nat, sp, (budget - 1) as nat);
            }
        },
        Instruction::Split(addr1, addr2) => {
            if budget > 0 {
                lemma_well_formed_runs_ok(prog, line, addr1 as nat, sp, (budget - 1) as nat);
                lemma_well_formed_runs_ok(prog, line, addr2 as nat, sp, (budget - 1) as nat);
            }
        },
    }
}

/// Depth-first search from instruction `pc` at input position `sp`: the loop
/// follows characters and jumps, and each `Split` recurses into its preferred
/// branch before the other.
fn eval_depth(inst: &[Instruction], line: &[char], pc0: usize, sp0: usize, budget0: usize) -> (r: Result<bool, EvalError>)
    requires
        sp0 <= line@.len(),
    ensures
        r == run(inst@, line@, pc0 as nat, sp0 as nat, budget0 as nat),
    decreases line@.len() - sp0, budget0,
{
    let mut pc: usize = pc0;
    let mut sp: usize = sp0;
    let mut budget: usize = budget0;
    loop
        invariant
            sp <= line@.len(),
            sp0 <= sp,
            sp == sp0 ==> budget <= budget0,
            run(inst@, line@, pc as nat, sp as nat, budget as nat)
                == run(inst@, line@, pc0 as nat, sp0 as nat, budget0 as nat),
        decreases line@.len() - sp, budget,
    {
        if pc >= inst.len() {
            return Err(EvalError::InvalidPC);
        }
        match inst[pc] {
            Instruction::Char(c) => {
                if sp < line.len() && line[sp] == c {
                    match safe_add(&mut pc, &1, || EvalError::PCOverflow) {
                        Ok(()) => {},
                        Err(e) => return Err(e),
                    }
                    match safe_add(&mut sp, &1, || EvalError::SPOverflow) {
                        Ok(()) => {},
                        Err(e) => return Err(e),
                    }
                    budget = inst.len();
                } else {
                    return Ok(false);
                }
            },
            Instruction::Match => {
                return Ok(true);
            },
            Instruction::Jump(addr) => {
                if budget == 0 {
                    return Ok(false);
                }
                pc = addr;
                budget = budget - 1;
            },
            Instruction::Split(addr1, addr2) => {
                if budget == 0 {
                    return Ok(false);
                }
                return match eval_depth(inst, line, addr1, sp, budget - 1) {
                    Ok(false) => eval_depth(inst, line, addr2, sp, budget - 1),
                    other => other,
                };
            },
        }
    }
}

/// Runs the program `inst` against `line`, starting at the first instruction
/// and the first character. `Ok(true)`: some path reaches `Match` (the
/// pattern matches a prefix of `line`); `Ok(false)`: no path does.
pub fn eval(inst: &[Instruction], line: &[char]) -> (r: Result<bool, EvalError>)
    ensures
        r == eval_result(inst@, line@),
        well_formed(inst@) && inst@.len() > 0 ==> r is Ok,
{
    proof {
        if well_formed(inst@) && inst@.len() > 0 {
            lemma_well_formed_runs_ok(inst@, line@, 0, 0, inst@.len());
        }
    }
    eval_depth(inst, line, 0, 0, inst.len())
}

/// Evaluation keeps no state between runs: two runs of the same program on
/// the same input give the same verdict.
pub proof fn lemma_eval_idempotent(prog: Seq<Instruction>, line: Seq<char>, r1: Result<bool, EvalError>, r2: Result<bool, EvalError>)
    requires
        r1 == eval_result(prog, line),
        r2 == eval_result(prog, line),
    ensures
        r1 == r2,
{
}

/// On a well-formed program a match only looks at the input it consumes:
/// input appended after a matching line leaves the match in place.
pub proof fn lemma_match_extends(
    prog: Seq<Instruction>,
    line: Seq<char>,
    extra: Seq<char>,
    pc: nat,
    sp: nat,
    budget: nat,
)
    requires
        well_formed(prog),
        pc < prog.len(),
        run(prog, line, pc, sp, budget) == Ok::<bool, EvalError>(true),
    ensures
        run(prog, line + extra, pc, sp, budget) == Ok::<bool, EvalError>(true),
    decreases line.len() - sp, budget,
{
    let longer = line + extra;
    match prog[pc as int] {
        Instruction::Char(c) => {
            assert(longer[sp as int] == line[sp as int]);
            lemma_match_extends(prog, line, extra, pc + 1, sp + 1, prog.len());
        },
        Instruction::Match => {},
        Instruction::Jump(addr) => {
            lemma_match_extends(prog, line, extra, addr as nat, sp, (budget - 1) as nat);
        },
        Instruction::Split(addr1, addr2) => {
            let b = (budget - 1) as nat;
            lemma_well_formed_runs_ok(prog, line, addr1 as nat, sp, b);
            lemma_well_formed_runs_ok(prog, longer, addr1 as nat, sp, b);
            if run(prog, line, addr1 as nat, sp, b) == Ok::<bool, EvalError>(true) {
                lemma_match_extends(prog, line, extra, addr1 as nat, sp, b);
            } else {
                lemma_match_extends(prog, line, extra, addr2 as nat, sp, b);
            }
        },
    }
}

} // verus!

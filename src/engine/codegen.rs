//! Compilation of a syntax tree into a flat program for the matching machine.
//!
//! Code is produced in two passes: the size of each subtree is computed
//! first, so every address is known when its instruction is emitted.
use super::parser::{
    lemma_views_index, mk_alternation, mk_sequence, parse_alt, parse_atom, parse_pattern,
    parse_postfix, parse_seq, starts_atom, views, Ast, ParseError, Term,
};
use super::evaluator::well_formed;
use super::Instruction;
use vstd::prelude::*;

verus! {

/// Compilation gives up when the program's addresses would not fit a `usize`.
#[derive(Debug, Clone, Copy, PartialEq, Eq, Structural)]
pub enum CodeGenError {
    PCOverflow,
}

/// The number of instructions a term compiles to.
pub open spec fn size(t: Term) -> nat
    decreases t, 0nat,
{
    match t {
        Term::Literal(_) => 1,
        Term::Sequence(ts) => seq_size(ts),
        Term::Alternation(ts) => alt_size(ts),
        Term::Star(b) => size(*b) + 2,
        Term::Plus(b) => size(*b) + 1,
        Term::Question(b) => size(*b) + 1,
    }
}

/// The total size of a list of terms, laid out back to back.
pub open spec fn seq_size(ts: Seq<Term>) -> nat
    decreases ts, 0nat,
{
    if ts.len() == 0 {
        0
    } else {
        seq_size(ts.drop_last()) + size(ts.last())
    }
}

/// The size of an alternation: its branches, plus a `Split` before and a
/// `Jump` after each branch but the last.
pub open spec fn alt_size(ts: Seq<Term>) -> nat
    decreases ts, 1nat,
{
    if ts.len() == 0 {
        0
    } else {
        seq_size(ts) + 2 * (ts.len() - 1) as nat
    }
}

/// The code of term `t` placed at address `base`.
pub open spec fn code(t: Term, base: nat) -> Seq<Instruction>
    decreases t,
{
    match t {
        Term::Literal(c) => seq![Instruction::Char(c)],
        Term::Sequence(ts) => seq_code(ts, base),
        Term::Alternation(ts) => {
            if ts.len() == 0 {
                Seq::empty()
            } else {
                let end = base + alt_size(ts);
                let last = base + seq_size(ts.drop_last()) + 2 * ts.drop_last().len();
                alt_code(ts.drop_last(), base, end) + code(ts.last(), last)
            }
        },
        Term::Star(b) => {
            seq![Instruction::Split((base + 1) as usize, (base + size(*b) + 2) as usize)]
                + code(*b, base + 1)
                + seq![Instruction::Jump(base as usize)]
        },
        Term::Plus(b) => code(*b, base) + seq![Instruction::Split(base as usize, (base + size(*b) + 1) as usize)],
        Term::Question(b) => {
            seq![Instruction::Split((base + 1) as usize, (base + size(*b) + 1) as usize)]
                + code(*b, base + 1)
        },
    }
}

/// The code of a list of terms, back to back from address `base`.
pub open spec fn seq_code(ts: Seq<Term>, base: nat) -> Seq<Instruction>
    decreases ts,
{
    if ts.len() == 0 {
        Seq::empty()
    } else {
        seq_code(ts.drop_last(), base) + code(ts.last(), base + seq_size(ts.drop_last()))
    }
}

/// The leading branches of an alternation from address `base`: each is
/// preceded by a `Split` to itself or to what follows it, and followed by a
/// `Jump` to `end`.
pub open spec fn alt_code(ts: Seq<Term>, base: nat, end: nat) -> Seq<Instruction>
    decreases ts,
{
    if ts.len() == 0 {
        Seq::empty()
    } else {
        let at = base + seq_size(ts.drop_last()) + 2 * ts.drop_last().len();
        alt_code(ts.drop_last(), base, end)
            + seq![Instruction::Split((at + 1) as usize, (at + size(ts.last()) + 2) as usize)]
            + code(ts.last(), at + 1)
            + seq![Instruction::Jump(end as usize)]
    }
}

/// The whole program of a term: its code from address 0, then `Match`.
pub open spec fn program(t: Term) -> Seq<Instruction> {
    code(t, 0) + seq![Instruction::Match]
}

/// Every `Jump` and `Split` in `s` targets an address no greater than `hi`.
pub open spec fn targets_at_most(s: Seq<Instruction>, hi: nat) -> bool {
    forall|i: int|
        0 <= i < s.len() ==> match #[trigger] s[i] {
            Instruction::Jump(a) => a <= hi,
            Instruction::Split(a, b) => a <= hi && b <= hi,
            _ => true,
        }
}

proof fn lemma_targets_concat(a: Seq<Instruction>, b: Seq<Instruction>, hi: nat)
    requires
        targets_at_most(a, hi),
        targets_at_most(b, hi),
    ensures
        targets_at_most(a + b, hi),
{
    assert forall|i: int| 0 <= i < (a + b).len() implies match #[trigger] (a + b)[i] {
        Instruction::Jump(x) => x <= hi,
        Instruction::Split(x, y) => x <= hi && y <= hi,
        _ => true,
    } by {
        if i < a.len() {
            assert((a + b)[i] == a[i]);
        } else {
            assert((a + b)[i] == b[i - a.len()]);
        }
    }
}

proof fn lemma_targets_weaken(a: Seq<Instruction>, lo: nat, hi: nat)
    requires
        targets_at_most(a, lo),
        lo <= hi,
    ensures
        targets_at_most(a, hi),
{
    assert forall|i: int| 0 <= i < a.len() implies match #[trigger] a[i] {
        Instruction::Jump(x) => x <= hi,
        Instruction::Split(x, y) => x <= hi && y <= hi,
        _ => true,
    } by {
        assert(targets_at_most(a, lo));
    }
}

/// The code of a term has exactly `size` instructions.
pub proof fn lemma_code_len(t: Term, base: nat)
    ensures
        code(t, base).len() == size(t),
    decreases t, 1nat,
{
    match t {
        Term::Literal(c) => {
            assert(size(t) == 1);
            assert(code(t, base) == seq![Instruction::Char(c)]);
        },
        Term::Sequence(ts) => lemma_seq_code_len(ts, base),
        Term::Alternation(ts) => {
            if ts.len() > 0 {
                let end = base + alt_size(ts);
                let last = base + seq_size(ts.drop_last()) + 2 * ts.drop_last().len();
                lemma_alt_code_len(ts.drop_last(), base, end);
                lemma_code_len(ts.last(), last);
                assert(seq_size(ts) == seq_size(ts.drop_last()) + size(ts.last()));
                assert(code(t, base) == alt_code(ts.drop_last(), base, end) + code(ts.last(), last));
                assert(size(t) == alt_size(ts));
            }
        },
        Term::Star(b) => lemma_code_len(*b, base + 1),
        Term::Plus(b) => lemma_code_len(*b, base),
        Term::Question(b) => lemma_code_len(*b, base + 1),
    }
}

pub proof fn lemma_seq_code_len(ts: Seq<Term>, base: nat)
    ensures
        seq_code(ts, base).len() == seq_size(ts),
    decreases ts, 0nat,
{
    if ts.len() > 0 {
        lemma_seq_code_len(ts.drop_last(), base);
        lemma_code_len(ts.last(), base + seq_size(ts.drop_last()));
    }
}

pub proof fn lemma_alt_code_len(ts: Seq<Term>, base: nat, end: nat)
    ensures
        alt_code(ts, base, end).len() == seq_size(ts) + 2 * ts.len(),
    decreases ts, 0nat,
{
    if ts.len() > 0 {
        let at = base + seq_size(ts.drop_last()) + 2 * ts.drop_last().len();
        lemma_alt_code_len(ts.drop_last(), base, end);
        lemma_code_len(ts.last(), at + 1);
    }
}

/// Every address in the code of `t` at `base` lies within the code or is the
/// address right after it.
pub proof fn lemma_code_targets(t: Term, base: nat)
    ensures
        targets_at_most(code(t, base), base + size(t)),
    decreases t, 1nat,
{
    lemma_code_len(t, base);
    match t {
        Term::Literal(_) => {},
        Term::Sequence(ts) => lemma_seq_code_targets(ts, base),
        Term::Alternation(ts) => {
            if ts.len() > 0 {
                let end = base + alt_size(ts);
                let last = base + seq_size(ts.drop_last()) + 2 * ts.drop_last().len();
                lemma_alt_code_targets(ts.drop_last(), base, end);
                lemma_code_targets(ts.last(), last);
                lemma_targets_weaken(code(ts.last(), last), last + size(ts.last()), end);
                lemma_targets_concat(alt_code(ts.drop_last(), base, end), code(ts.last(), last), end);
            }
        },
        Term::Star(b) => {
            let head = seq![Instruction::Split((base + 1) as usize, (base + size(*b) + 2) as usize)];
            let tail = seq![Instruction::Jump(base as usize)];
            lemma_code_targets(*b, base + 1);
            lemma_targets_weaken(code(*b, base + 1), base + 1 + size(*b), base + size(t));
            assert(targets_at_most(head, base + size(t)));
            assert(targets_at_most(tail, base + size(t)));
            lemma_targets_concat(head, code(*b, base + 1), base + size(t));
            lemma_targets_concat(head + code(*b, base + 1), tail, base + size(t));
        },
        Term::Plus(b) => {
            let tail = seq![Instruction::Split(base as usize, (base + size(*b) + 1) as usize)];
            lemma_code_targets(*b, base);
            lemma_targets_weaken(code(*b, base), base + size(*b), base + size(t));
            assert(targets_at_most(tail, base + size(t)));
            lemma_targets_concat(code(*b, base), tail, base + size(t));
        },
        Term::Question(b) => {
            let head = seq![Instruction::Split((base + 1) as usize, (base + size(*b) + 1) as usize)];
            lemma_code_targets(*b, base + 1);
            assert(targets_at_most(head, base + size(t)));
            lemma_targets_concat(head, code(*b, base + 1), base + size(t));
        },
    }
}

pub proof fn lemma_seq_code_targets(ts: Seq<Term>, base: nat)
    ensures
        targets_at_most(seq_code(ts, base), base + seq_size(ts)),
    decreases ts, 0nat,
{
    if ts.len() > 0 {
        let at = base + seq_size(ts.drop_last());
        lemma_seq_code_targets(ts.drop_last(), base);
        lemma_code_targets(ts.last(), at);
        lemma_targets_weaken(seq_code(ts.drop_last(), base), at, base + seq_size(ts));
        lemma_targets_concat(seq_code(ts.drop_last(), base), code(ts.last(), at), base + seq_size(ts));
    }
}

pub proof fn lemma_alt_code_targets(ts: Seq<Term>, base: nat, end: nat)
    requires
        base + seq_size(ts) + 2 * ts.len() <= end,
    ensures
        targets_at_most(alt_code(ts, base, end), end),
    decreases ts, 0nat,
{
    if ts.len() > 0 {
        let at = base + seq_size(ts.drop_last()) + 2 * ts.drop_last().len();
        let head = seq![Instruction::Split((at + 1) as usize, (at + size(ts.last()) + 2) as usize)];
        let tail = seq![Instruction::Jump(end as usize)];
        lemma_alt_code_targets(ts.drop_last(), base, end);
        lemma_code_targets(ts.last(), at + 1);
        lemma_targets_weaken(code(ts.last(), at + 1), at + 1 + size(ts.last()), end);
        assert(targets_at_most(head, end));
        assert(targets_at_most(tail, end));
        lemma_targets_concat(alt_code(ts.drop_last(), base, end), head, end);
        lemma_targets_concat(alt_code(ts.drop_last(), base, end) + head, code(ts.last(), at + 1), end);
        lemma_targets_concat(alt_code(ts.drop_last(), base, end) + head + code(ts.last(), at + 1), tail, end);
    }
}

proof fn lemma_seq_size_prefix(ts: Seq<Term>, i: int)
    requires
        0 <= i <= ts.len(),
    ensures
        seq_size(ts.take(i)) <= seq_size(ts),
    decreases ts.len(),
{
    if i == ts.len() {
        assert(ts.take(i) =~= ts);
    } else {
        assert(ts.take(i) =~= ts.drop_last().take(i));
        lemma_seq_size_prefix(ts.drop_last(), i);
    }
}

/// The number of instructions `ast` compiles to, or `None` when that number
/// does not fit a `usize`.
fn code_size(ast: &Ast) -> (r: Option<usize>)
    ensures
        r == (if size(ast@) <= usize::MAX { Some(size(ast@) as usize) } else { None::<usize> }),
    decreases ast, 1nat,
{
    match ast {
        Ast::Literal(c) => {
            assert(size(ast@) == 1);
            Some(1)
        },
        Ast::Sequence(v) => {
            assert(size(ast@) == seq_size(views(v@)));
            list_size(v)
        },
        Ast::Alternation(v) => {
            proof {
                lemma_views_index(v@);
            }
            assert(size(ast@) == alt_size(views(v@)));
            match list_size(v) {
                None => None,
                Some(n) => {
                    if v.len() == 0 {
                        Some(0)
                    } else {
                        let k: usize = v.len() - 1;
                        match k.checked_mul(2) {
                            None => None,
                            Some(m) => n.checked_add(m),
                        }
                    }
                },
            }
        },
        Ast::Star(b) => match code_size(b) {
            None => None,
            Some(n) => n.checked_add(2),
        },
        Ast::Plus(b) => match code_size(b) {
            None => None,
            Some(n) => n.checked_add(1),
        },
        Ast::Question(b) => match code_size(b) {
            None => None,
            Some(n) => n.checked_add(1),
        },
    }
}

/// The total number of instructions a list of trees compiles to, or `None`
/// when that number does not fit a `usize`.
fn list_size(v: &Vec<Ast>) -> (r: Option<usize>)
    ensures
        r == (if seq_size(views(v@)) <= usize::MAX {
            Some(seq_size(views(v@)) as usize)
        } else {
            None::<usize>
        }),
    decreases v, 0nat,
{
    let ghost ts = views(v@);
    proof {
        lemma_views_index(v@);
    }
    let mut total: usize = 0;
    let mut i: usize = 0;
    while i < v.len()
        invariant
            0 <= i <= v@.len(),
            ts == views(v@),
            ts.len() == v@.len(),
            forall|j: int| 0 <= j < v@.len() ==> #[trigger] ts[j] == v@[j]@,
            total == seq_size(ts.take(i as int)),
        decreases v@.len() - i,
    {
        let s = code_size(&v[i]);
        proof {
            assert(ts.take(i + 1).drop_last() =~= ts.take(i as int));
            assert(ts.take(i + 1).last() == v@[i as int]@);
            lemma_seq_size_prefix(ts, i + 1);
        }
        match s {
            None => {
                return None;
            },
            Some(n) => match total.checked_add(n) {
                None => {
                    return None;
                },
                Some(t) => {
                    total = t;
                },
            },
        }
        i = i + 1;
    }
    proof {
        assert(ts.take(i as int) =~= ts);
    }
    Some(total)
}

/// Appends the code of `ast`, placed at the current end of `code`.
fn emit(ast: &Ast, out: &mut Vec<Instruction>)
    requires
        old(out)@.len() + size(ast@) < usize::MAX,
    ensures
        final(out)@ == old(out)@ + code(ast@, old(out)@.len()),
    decreases ast,
{
    let ghost start = out@;
    let base: usize = out.len();
    proof {
        lemma_code_len(ast@, base as nat);
    }
    match ast {
        Ast::Literal(c) => {
            assert(ast@ == Term::Literal(*c));
            out.push(Instruction::Char(*c));
        },
        Ast::Sequence(v) => {
            let ghost ts = views(v@);
            proof {
                lemma_views_index(v@);
            }
            assert(ast@ == Term::Sequence(ts));
            let mut i: usize = 0;
            while i < v.len()
                invariant
                    0 <= i <= v@.len(),
                    *ast == Ast::Sequence(*v),
                    ts == views(v@),
                    ts.len() == v@.len(),
                    forall|j: int| 0 <= j < v@.len() ==> #[trigger] ts[j] == v@[j]@,
                    base + seq_size(ts) < usize::MAX,
                    out@ == start + seq_code(ts.take(i as int), base as nat),
                    start.len() == base,
                decreases v@.len() - i,
            {
                proof {
                    assert(ts.take(i + 1).drop_last() =~= ts.take(i as int));
                    assert(ts.take(i + 1).last() == v@[i as int]@);
                    lemma_seq_size_prefix(ts, i + 1);
                    lemma_seq_code_len(ts.take(i as int), base as nat);
                }
                proof {
                    assert(decreases_to!(*ast => (*ast)->Sequence_0));
                    assert(decreases_to!(*v => v[i as int]));
                }
                emit(&v[i], out);
                proof {
                    assert(out@ =~= start + seq_code(ts.take(i + 1), base as nat));
                }
                i = i + 1;
            }
            proof {
                assert(ts.take(i as int) =~= ts);
            }
        },
        Ast::Alternation(v) => {
            let ghost ts = views(v@);
            proof {
                lemma_views_index(v@);
            }
            assert(ast@ == Term::Alternation(ts));
            let n: usize = v.len();
            if n == 0 {
                assert(out@ =~= start + code(ast@, base as nat));
                return;
            }
            let total: usize = match code_size(ast) {
                Some(t) => t,
                None => {
                    return;
                },
            };
            let end: usize = base + total;
            let mut i: usize = 0;
            while i + 1 < n
                invariant
                    0 <= i < n,
                    n == v@.len(),
                    *ast == Ast::Alternation(*v),
                    ts == views(v@),
                    ts.len() == v@.len(),
                    forall|j: int| 0 <= j < v@.len() ==> #[trigger] ts[j] == v@[j]@,
                    end == base + alt_size(ts),
                    end < usize::MAX,
                    out@ == start + alt_code(ts.take(i as int), base as nat, end as nat),
                    start.len() == base,
                decreases n - i,
            {
                let ghost pre = out@;
                proof {
                    assert(ts.take(i + 1).drop_last() =~= ts.take(i as int));
                    assert(ts.take(i + 1).last() == v@[i as int]@);
                    lemma_seq_size_prefix(ts.drop_last(), i + 1);
                    assert(ts.drop_last().take(i + 1) =~= ts.take(i + 1));
                    lemma_alt_code_len(ts.take(i as int), base as nat, end as nat);
                }
                let at: usize = out.len();
                let s: usize = match code_size(&v[i]) {
                    Some(s) => s,
                    None => {
                        return;
                    },
                };
                out.push(Instruction::Split(at + 1, at + s + 2));
                proof {
                    assert(decreases_to!(*ast => (*ast)->Alternation_0));
                    assert(decreases_to!(*v => v[i as int]));
                }
                emit(&v[i], out);
                out.push(Instruction::Jump(end));
                proof {
                    assert(out@ =~= start + alt_code(ts.take(i + 1), base as nat, end as nat));
                }
                i = i + 1;
            }
            proof {
                assert(ts.take(i as int) =~= ts.drop_last());
                lemma_alt_code_len(ts.drop_last(), base as nat, end as nat);
                lemma_seq_size_prefix(ts, i as int);
                assert(ts.take(i as int) =~= ts.drop_last());
            }
            emit(&v[i], out);
            proof {
                assert(out@ =~= start + code(ast@, base as nat));
            }
        },
        Ast::Star(b) => {
            let s: usize = match code_size(b) {
                Some(s) => s,
                None => {
                    return;
                },
            };
            out.push(Instruction::Split(base + 1, base + s + 2));
            emit(b, out);
            out.push(Instruction::Jump(base));
            assert(out@ =~= start + code(ast@, base as nat));
        },
        Ast::Plus(b) => {
            let s: usize = match code_size(b) {
                Some(s) => s,
                None => {
                    return;
                },
            };
            emit(b, out);
            out.push(Instruction::Split(base, base + s + 1));
            assert(out@ =~= start + code(ast@, base as nat));
        },
        Ast::Question(b) => {
            let s: usize = match code_size(b) {
                Some(s) => s,
                None => {
                    return;
                },
            };
            out.push(Instruction::Split(base + 1, base + s + 1));
            emit(b, out);
            assert(out@ =~= start + code(ast@, base as nat));
        },
    }
}

/// Compiles a syntax tree into a program: the code of the tree from address
/// 0, then `Match`. Fails only when the program would have more than
/// `usize::MAX` instructions.
pub fn get_code(ast: &Ast) -> (r: Result<Vec<Instruction>, CodeGenError>)
    ensures
        match r {
            Ok(prog) => size(ast@) < usize::MAX && prog@ == program(ast@),
            Err(e) => size(ast@) >= usize::MAX && e == CodeGenError::PCOverflow,
        },
{
    match code_size(ast) {
        None => Err(CodeGenError::PCOverflow),
        Some(n) => {
            if n == usize::MAX {
                return Err(CodeGenError::PCOverflow);
            }
            let mut out: Vec<Instruction> = Vec::new();
            emit(ast, &mut out);
            out.push(Instruction::Match);
            assert(out@ =~= program(ast@));
            Ok(out)
        },
    }
}

/// Every program the compiler produces is well formed: each `Jump` and
/// `Split` targets one of its instructions, and it ends in `Match`, so no
/// `Char` is its last instruction.
pub proof fn lemma_program_well_formed(t: Term)
    requires
        size(t) < usize::MAX,
    ensures
        well_formed(program(t)),
        program(t).len() == size(t) + 1,
{
    lemma_code_len(t, 0);
    lemma_code_targets(t, 0);
    let p = program(t);
    assert forall|i: int| 0 <= i < p.len() implies match #[trigger] p[i] {
        Instruction::Char(_) => i + 1 < p.len(),
        Instruction::Match => true,
        Instruction::Jump(a) => a < p.len(),
        Instruction::Split(a, b) => a < p.len() && b < p.len(),
    } by {
        if i < size(t) {
            assert(p[i] == code(t, 0)[i]);
        } else {
            assert(p[i] == Instruction::Match);
        }
    }
}

/// Compilation is deterministic: trees with the same value compile to the
/// same program.
pub proof fn lemma_compile_deterministic(a: Ast, b: Ast)
    requires
        a@ == b@,
    ensures
        program(a@) == program(b@),
{
}

proof fn lemma_seq_size_prepend(x: Term, r: Seq<Term>)
    ensures
        seq_size(seq![x] + r) == size(x) + seq_size(r),
    decreases r.len(),
{
    let xr = seq![x] + r;
    if r.len() > 0 {
        assert(xr.drop_last() =~= seq![x] + r.drop_last());
        assert(xr.last() == r.last());
        lemma_seq_size_prepend(x, r.drop_last());
        assert(seq_size(xr) == seq_size(xr.drop_last()) + size(xr.last()));
        assert(seq_size(r) == seq_size(r.drop_last()) + size(r.last()));
    } else {
        assert(xr.drop_last() =~= Seq::<Term>::empty());
        assert(xr.last() == x);
        assert(seq_size(Seq::<Term>::empty()) == 0);
        assert(seq_size(xr) == seq_size(xr.drop_last()) + size(xr.last()));
    }
}

proof fn lemma_mk_sequence_size(ts: Seq<Term>)
    ensures
        size(mk_sequence(ts)) == seq_size(ts),
{
    if ts.len() == 1 {
        assert(ts.drop_last() =~= Seq::<Term>::empty());
        assert(seq_size(Seq::<Term>::empty()) == 0);
        assert(seq_size(ts) == seq_size(ts.drop_last()) + size(ts.last()));
    } else {
        assert(size(Term::Sequence(ts)) == seq_size(ts));
    }
}

proof fn lemma_mk_alternation_size(ts: Seq<Term>)
    requires
        ts.len() >= 1,
    ensures
        size(mk_alternation(ts)) == alt_size(ts),
{
    if ts.len() == 1 {
        assert(ts.drop_last() =~= Seq::<Term>::empty());
        assert(seq_size(Seq::<Term>::empty()) == 0);
        assert(seq_size(ts) == seq_size(ts.drop_last()) + size(ts.last()));
    } else {
        assert(size(Term::Alternation(ts)) == alt_size(ts));
    }
}

/// Branches parsed from `i` to `j` compile to fewer than `2 * (j - i)`
/// instructions.
proof fn lemma_parse_alt_size(s: Seq<char>, i: nat)
    ensures
        parse_alt(s, i) matches Ok((ts, j)) ==> ts.len() >= 1 && alt_size(ts) + 1 <= 2 * (j - i) && j <= s.len(),
    decreases s.len() - i, 3nat,
{
    lemma_parse_seq_size(s, i);
    if let Ok((items, j)) = parse_seq(s, i) {
        let first = mk_sequence(items);
        lemma_mk_sequence_size(items);
        if i < j && j < s.len() && s[j as int] == '|' {
            lemma_parse_alt_size(s, j + 1);
            if let Ok((rest, k)) = parse_alt(s, j + 1) {
                lemma_seq_size_prepend(first, rest);
                assert(alt_size(seq![first] + rest) == size(first) + seq_size(rest) + 2 * rest.len());
            }
        } else {
            lemma_seq_size_prepend(first, Seq::<Term>::empty());
        }
    }
}

proof fn lemma_parse_seq_size(s: Seq<char>, i: nat)
    ensures
        parse_seq(s, i) matches Ok((ts, j)) ==> ts.len() >= 1 && seq_size(ts) + 1 <= 2 * (j - i) && j <= s.len(),
    decreases s.len() - i, 2nat,
{
    lemma_parse_postfix_size(s, i);
    if let Ok((t, j)) = parse_postfix(s, i) {
        if i < j && starts_atom(s, j) {
            lemma_parse_seq_size(s, j);
            if let Ok((rest, k)) = parse_seq(s, j) {
                lemma_seq_size_prepend(t, rest);
            }
        } else {
            lemma_seq_size_prepend(t, Seq::<Term>::empty());
        }
    }
}

proof fn lemma_parse_postfix_size(s: Seq<char>, i: nat)
    ensures
        parse_postfix(s, i) matches Ok((t, j)) ==> size(t) + 1 <= 2 * (j - i) && j <= s.len(),
    decreases s.len() - i, 1nat,
{
    lemma_parse_atom_size(s, i);
}

proof fn lemma_parse_atom_size(s: Seq<char>, i: nat)
    ensures
        parse_atom(s, i) matches Ok((t, j)) ==> size(t) + 1 <= 2 * (j - i) && j <= s.len(),
    decreases s.len() - i, 0nat,
{
    if i < s.len() && s[i as int] == '(' {
        lemma_parse_alt_size(s, i + 1);
        if let Ok((ts, j)) = parse_alt(s, i + 1) {
            lemma_mk_alternation_size(ts);
        }
    }
}

/// A pattern of `n` characters compiles to at most `2 * n` instructions
/// before the final `Match`.
pub proof fn lemma_pattern_size(s: Seq<char>)
    ensures
        parse_pattern(s) matches Ok(t) ==> size(t) <= 2 * s.len(),
{
    if s.len() == 0 {
        let e = Seq::<Term>::empty();
        assert(seq_size(e) == 0);
        assert(size(Term::Sequence(e)) == seq_size(e));
        assert(parse_pattern(s) == Ok::<Term, ParseError>(Term::Sequence(e)));
    } else {
        lemma_parse_alt_size(s, 0);
        if let Ok((ts, j)) = parse_alt(s, 0) {
            lemma_mk_alternation_size(ts);
        }
    }
}

} // verus!

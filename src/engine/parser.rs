//! Pattern syntax: literal characters, grouping with `(` `)`, alternation
//! with `|`, and the postfix quantifiers `*`, `+`, `?`.
use vstd::prelude::*;

verus! {

/// The syntax tree of a pattern.
#[derive(Debug)]
pub enum Ast {
    /// Exactly this character.
    Literal(char),
    /// The children in order.
    Sequence(Vec<Ast>),
    /// Any one child; earlier children are preferred.
    Alternation(Vec<Ast>),
    /// Zero or more repetitions, as many as possible first.
    Star(Box<Ast>),
    /// One or more repetitions, as many as possible first.
    Plus(Box<Ast>),
    /// Zero or one occurrence, one preferred.
    Question(Box<Ast>),
}

/// The mathematical value of a syntax tree: the same shape, with sequences
/// for child lists.
pub enum Term {
    Literal(char),
    Sequence(Seq<Term>),
    Alternation(Seq<Term>),
    Star(Box<Term>),
    Plus(Box<Term>),
    Question(Box<Term>),
}

impl View for Ast {
    type V = Term;

    open spec fn view(&self) -> Term
        decreases self,
    {
        match self {
            Ast::Literal(c) => Term::Literal(*c),
            Ast::Sequence(v) => Term::Sequence(views(v@)),
            Ast::Alternation(v) => Term::Alternation(views(v@)),
            Ast::Star(b) => Term::Star(Box::new((**b).view())),
            Ast::Plus(b) => Term::Plus(Box::new((**b).view())),
            Ast::Question(b) => Term::Question(Box::new((**b).view())),
        }
    }
}

/// The values of a list of syntax trees.
pub open spec fn views(s: Seq<Ast>) -> Seq<Term>
    decreases s,
{
    if s.len() == 0 {
        Seq::empty()
    } else {
        views(s.drop_last()).push(s.last().view())
    }
}

/// The values of a list are the values of its elements, position by position.
pub proof fn lemma_views_index(s: Seq<Ast>)
    ensures
        views(s).len() == s.len(),
        forall|i: int| 0 <= i < s.len() ==> #[trigger] views(s)[i] == s[i]@,
    decreases s.len(),
{
    if s.len() > 0 {
        lemma_views_index(s.drop_last());
        assert(views(s) == views(s.drop_last()).push(s.last().view()));
        assert forall|i: int| 0 <= i < s.len() implies #[trigger] views(s)[i] == s[i]@ by {
            if i < s.len() - 1 {
                assert(s.drop_last()[i] == s[i]);
            }
        }
    }
}

proof fn lemma_literal_view(c: char)
    ensures
        Ast::Literal(c)@ == Term::Literal(c),
{
}

/// Views of a list with one more tree in front.
pub proof fn lemma_views_prepend(a: Ast, s: Seq<Ast>)
    ensures
        views(seq![a] + s) == seq![a@] + views(s),
{
    lemma_views_index(seq![a] + s);
    lemma_views_index(s);
    assert forall|i: int| 0 <= i < s.len() + 1 implies #[trigger] views(seq![a] + s)[i] == (seq![a@] + views(s))[i] by {
        if i > 0 {
            assert((seq![a] + s)[i] == s[i - 1]);
        }
    }
    assert(views(seq![a] + s) =~= seq![a@] + views(s));
}

/// Why a pattern is malformed. Each carries the character offset where the
/// problem was found.
#[derive(Debug, Clone, Copy, PartialEq, Eq, Structural)]
pub enum ParseError {
    /// A quantifier, `|` or `)` where an operand was expected.
    MissingOperand(usize),
    /// A `(` whose group is never closed.
    UnmatchedLeftParen(usize),
    /// A `)` with no open group.
    UnmatchedRightParen(usize),
    /// The pattern ended where an operand was expected.
    UnexpectedEnd(usize),
}

pub open spec fn is_quantifier(c: char) -> bool {
    c == '*' || c == '+' || c == '?'
}

/// Whether an operand starts at position `i`: any character but the
/// reserved `)`, `|`, `*`, `+`, `?`.
pub open spec fn starts_atom(s: Seq<char>, i: nat) -> bool {
    i < s.len() && s[i as int] != ')' && s[i as int] != '|' && !is_quantifier(s[i as int])
}

/// A concatenation of the given terms; a single term stands for itself.
pub open spec fn mk_sequence(ts: Seq<Term>) -> Term {
    if ts.len() == 1 {
        ts[0]
    } else {
        Term::Sequence(ts)
    }
}

/// A choice among the given terms; a single term stands for itself.
pub open spec fn mk_alternation(ts: Seq<Term>) -> Term {
    if ts.len() == 1 {
        ts[0]
    } else {
        Term::Alternation(ts)
    }
}

/// The term `t` under the quantifier `q`.
pub open spec fn quantify(q: char, t: Term) -> Term {
    if q == '*' {
        Term::Star(Box::new(t))
    } else if q == '+' {
        Term::Plus(Box::new(t))
    } else {
        Term::Question(Box::new(t))
    }
}

/// Branches separated by `|`, from position `i`: the list of branches and
/// the position after them.
pub open spec fn parse_alt(s: Seq<char>, i: nat) -> Result<(Seq<Term>, nat), ParseError>
    decreases s.len() - i, 3nat,
{
    match parse_seq(s, i) {
        Err(e) => Err(e),
        Ok((items, j)) => {
            if i < j && j < s.len() && s[j as int] == '|' {
                match parse_alt(s, j + 1) {
                    Err(e) => Err(e),
                    Ok((rest, k)) => Ok((seq![mk_sequence(items)] + rest, k)),
                }
            } else {
                Ok((seq![mk_sequence(items)], j))
            }
        },
    }
}

/// One or more quantified operands in a row, from position `i`.
pub open spec fn parse_seq(s: Seq<char>, i: nat) -> Result<(Seq<Term>, nat), ParseError>
    decreases s.len() - i, 2nat,
{
    match parse_postfix(s, i) {
        Err(e) => Err(e),
        Ok((t, j)) => {
            if i < j && starts_atom(s, j) {
                match parse_seq(s, j) {
                    Err(e) => Err(e),
                    Ok((rest, k)) => Ok((seq![t] + rest, k)),
                }
            } else {
                Ok((seq![t], j))
            }
        },
    }
}

/// An operand with at most one quantifier after it, from position `i`.
pub open spec fn parse_postfix(s: Seq<char>, i: nat) -> Result<(Term, nat), ParseError>
    decreases s.len() - i, 1nat,
{
    match parse_atom(s, i) {
        Err(e) => Err(e),
        Ok((t, j)) => {
            if j < s.len() && is_quantifier(s[j as int]) {
                if j + 1 < s.len() && is_quantifier(s[j + 1int]) {
                    Err(ParseError::MissingOperand((j + 1) as usize))
                } else {
                    Ok((quantify(s[j as int], t), j + 1))
                }
            } else {
                Ok((t, j))
            }
        },
    }
}

/// A literal character or a parenthesized group, from position `i`.
pub open spec fn parse_atom(s: Seq<char>, i: nat) -> Result<(Term, nat), ParseError>
    decreases s.len() - i, 0nat,
{
    if i >= s.len() {
        Err(ParseError::UnexpectedEnd(i as usize))
    } else if s[i as int] == '(' {
        match parse_alt(s, i + 1) {
            Err(e) => Err(e),
            Ok((ts, j)) => {
                if j < s.len() && s[j as int] == ')' {
                    Ok((mk_alternation(ts), j + 1))
                } else {
                    Err(ParseError::UnmatchedLeftParen(i as usize))
                }
            },
        }
    } else if !starts_atom(s, i) {
        Err(ParseError::MissingOperand(i as usize))
    } else {
        Ok((Term::Literal(s[i as int]), i + 1))
    }
}

/// The meaning of a whole pattern. The empty pattern is the empty sequence,
/// which matches the empty string.
pub open spec fn parse_pattern(s: Seq<char>) -> Result<Term, ParseError> {
    if s.len() == 0 {
        Ok(Term::Sequence(Seq::empty()))
    } else {
        match parse_alt(s, 0) {
            Err(e) => Err(e),
            Ok((ts, j)) => {
                if j < s.len() {
                    Err(ParseError::UnmatchedRightParen(j as usize))
                } else {
                    Ok(mk_alternation(ts))
                }
            },
        }
    }
}

fn make_sequence(v: Vec<Ast>) -> (r: Ast)
    ensures
        r@ == mk_sequence(views(v@)),
{
    proof {
        lemma_views_index(v@);
    }
    if v.len() == 1 {
        let mut v = v;
        match v.pop() {
            Some(a) => a,
            None => Ast::Sequence(v),
        }
    } else {
        Ast::Sequence(v)
    }
}

fn make_alternation(v: Vec<Ast>) -> (r: Ast)
    ensures
        r@ == mk_alternation(views(v@)),
{
    proof {
        lemma_views_index(v@);
    }
    if v.len() == 1 {
        let mut v = v;
        match v.pop() {
            Some(a) => a,
            None => Ast::Alternation(v),
        }
    } else {
        Ast::Alternation(v)
    }
}

fn singleton(a: Ast) -> (r: Vec<Ast>)
    ensures
        views(r@) == seq![a@],
{
    let mut v: Vec<Ast> = Vec::new();
    v.push(a);
    proof {
        lemma_views_index(v@);
        assert(views(v@) =~= seq![a@]);
    }
    v
}

fn prepend(a: Ast, v: Vec<Ast>) -> (r: Vec<Ast>)
    ensures
        views(r@) == seq![a@] + views(v@),
{
    let ghost a_ghost = a;
    let ghost old_v = v@;
    let mut v = v;
    v.insert(0, a);
    proof {
        assert(v@ =~= seq![a_ghost] + old_v);
        lemma_views_prepend(a_ghost, old_v);
    }
    v
}

fn alternatives(s: &[char], i: usize) -> (r: Result<(Vec<Ast>, usize), ParseError>)
    requires
        i <= s@.len(),
    ensures
        match parse_alt(s@, i as nat) {
            Ok((ts, k)) => r matches Ok((v, j)) && views(v@) == ts && j == k,
            Err(e) => r == Err::<(Vec<Ast>, usize), ParseError>(e),
        },
        r matches Ok((_, j)) ==> i < j <= s@.len(),
    decreases s@.len() - i, 3nat,
{
    let (items, j) = match sequence(s, i) {
        Err(e) => {
            return Err(e);
        },
        Ok(p) => p,
    };
    let first = make_sequence(items);
    if j < s.len() && s[j] == '|' {
        match alternatives(s, j + 1) {
            Err(e) => Err(e),
            Ok((rest, k)) => Ok((prepend(first, rest), k)),
        }
    } else {
        Ok((singleton(first), j))
    }
}

fn sequence(s: &[char], i: usize) -> (r: Result<(Vec<Ast>, usize), ParseError>)
    requires
        i <= s@.len(),
    ensures
        match parse_seq(s@, i as nat) {
            Ok((ts, k)) => r matches Ok((v, j)) && views(v@) == ts && j == k,
            Err(e) => r == Err::<(Vec<Ast>, usize), ParseError>(e),
        },
        r matches Ok((_, j)) ==> i < j <= s@.len(),
    decreases s@.len() - i, 2nat,
{
    let (t, j) = match postfix(s, i) {
        Err(e) => {
            return Err(e);
        },
        Ok(p) => p,
    };
    if j < s.len() && s[j] != ')' && s[j] != '|' && s[j] != '*' && s[j] != '+' && s[j] != '?' {
        match sequence(s, j) {
            Err(e) => Err(e),
            Ok((rest, k)) => Ok((prepend(t, rest), k)),
        }
    } else {
        Ok((singleton(t), j))
    }
}

fn postfix(s: &[char], i: usize) -> (r: Result<(Ast, usize), ParseError>)
    requires
        i <= s@.len(),
    ensures
        match parse_postfix(s@, i as nat) {
            Ok((t, k)) => r matches Ok((a, j)) && a@ == t && j == k,
            Err(e) => r == Err::<(Ast, usize), ParseError>(e),
        },
        r matches Ok((_, j)) ==> i < j <= s@.len(),
    decreases s@.len() - i, 1nat,
{
    let (a, j) = match atom(s, i) {
        Err(e) => {
            return Err(e);
        },
        Ok(p) => p,
    };
    if j < s.len() && (s[j] == '*' || s[j] == '+' || s[j] == '?') {
        if j + 1 < s.len() && (s[j + 1] == '*' || s[j + 1] == '+' || s[j + 1] == '?') {
            Err(ParseError::MissingOperand(j + 1))
        } else {
            let q = s[j];
            let b = Box::new(a);
            let quantified = if q == '*' {
                Ast::Star(b)
            } else if q == '+' {
                Ast::Plus(b)
            } else {
                Ast::Question(b)
            };
            Ok((quantified, j + 1))
        }
    } else {
        Ok((a, j))
    }
}

fn atom(s: &[char], i: usize) -> (r: Result<(Ast, usize), ParseError>)
    requires
        i <= s@.len(),
    ensures
        match parse_atom(s@, i as nat) {
            Ok((t, k)) => r matches Ok((a, j)) && a@ == t && j == k,
            Err(e) => r == Err::<(Ast, usize), ParseError>(e),
        },
        r matches Ok((_, j)) ==> i < j <= s@.len(),
    decreases s@.len() - i, 0nat,
{
    if i >= s.len() {
        return Err(ParseError::UnexpectedEnd(i));
    }
    let c = s[i];
    if c == '(' {
        match alternatives(s, i + 1) {
            Err(e) => Err(e),
            Ok((branches, j)) => {
                if j < s.len() && s[j] == ')' {
                    Ok((make_alternation(branches), j + 1))
                } else {
                    Err(ParseError::UnmatchedLeftParen(i))
                }
            },
        }
    } else if c == ')' || c == '|' || c == '*' || c == '+' || c == '?' {
        Err(ParseError::MissingOperand(i))
    } else {
        let a = Ast::Literal(c);
        proof {
            lemma_literal_view(c);
        }
        Ok((a, i + 1))
    }
}

/// Parses a pattern into its syntax tree.
///
/// Reserved characters are `(`, `)`, `|`, `*`, `+` and `?`; every other
/// character is a literal. Alternation binds loosest, then concatenation,
/// then the postfix quantifiers. The empty pattern is accepted.
pub fn parse(pattern: &[char]) -> (r: Result<Ast, ParseError>)
    ensures
        match parse_pattern(pattern@) {
            Ok(t) => r matches Ok(a) && a@ == t,
            Err(e) => r == Err::<Ast, ParseError>(e),
        },
{
    if pattern.len() == 0 {
        let empty: Vec<Ast> = Vec::new();
        proof {
            assert(views(empty@) =~= Seq::<Term>::empty());
        }
        return Ok(Ast::Sequence(empty));
    }
    match alternatives(pattern, 0) {
        Err(e) => Err(e),
        Ok((branches, j)) => {
            if j < pattern.len() {
                Err(ParseError::UnmatchedRightParen(j))
            } else {
                Ok(make_alternation(branches))
            }
        },
    }
}

} // verus!

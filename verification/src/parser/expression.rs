//! Reading expressions: operands, operators and the match construct.

use crate::ast::{clauses_view, expressions_view, Expression, Match, Matcher, Name, Operand};
use crate::model::{Arms, Expr, Operator, Term};
use crate::parser::grammar;
use crate::parser::grammar::{ascii, ClauseModel, Parsed};
use crate::parser::lexical;
use crate::parser::shunting_yard::{ShuntingYard, Yard};
use crate::parser::Error;
use vstd::prelude::*;

verus! {

/// A match clause as read: one with a matcher, or the default.
#[derive(Debug, PartialEq, Eq)]
pub enum Clause {
    Matcher(Matcher),
    Default_,
}

impl View for Clause {
    type V = Option<Expr>;

    open spec fn view(&self) -> Option<Expr> {
        match *self {
            Clause::Matcher(m) => Some(m@),
            Clause::Default_ => None,
        }
    }
}

/// The models of a sequence of clauses as read.
pub open spec fn read_clauses_view(v: Seq<(Clause, Expression)>) -> Seq<ClauseModel> {
    Seq::new(v.len(), |i: int| (v[i].0@, v[i].1@))
}

/// What was read agrees with what the grammar gives.
pub open spec fn agrees<T: View>(r: Result<(T, usize), Error>, m: Parsed<T::V>) -> bool {
    match r {
        Ok((v, j)) => m == Ok::<(T::V, int), Error>((v@, j as int)),
        Err(e) => m == Err::<(T::V, int), Error>(e),
    }
}

/// What was read lies beyond `i` and within the text.
pub open spec fn advances<T>(r: Result<(T, usize), Error>, s: Seq<u8>, i: usize) -> bool {
    r matches Ok((_, j)) ==> i < j <= s.len()
}

/// The value of the default, if the clauses end with the one default among
/// them.
pub fn default_clause_of(clauses: &Vec<(Clause, Expression)>) -> (r: Option<Expression>)
    ensures
        match r {
            Some(e) => grammar::default_of(read_clauses_view(clauses@)) == Some(e@),
            None => grammar::default_of(read_clauses_view(clauses@)) is None,
        },
{
    let ghost all = read_clauses_view(clauses@);
    if clauses.len() == 0 {
        return None;
    }
    let last = clauses.len() - 1;
    let mut i: usize = 0;
    while i < last
        invariant
            last == clauses.len() - 1,
            all == read_clauses_view(clauses@),
            i <= last,
            forall|k: int| 0 <= k < i ==> (#[trigger] all[k]).0 is Some,
        decreases last - i,
    {
        match &clauses[i].0 {
            Clause::Default_ => {
                assert(all[i as int].0 is None);
                return None;
            },
            Clause::Matcher(_) => {},
        }
        i += 1;
    }
    match &clauses[last].0 {
        Clause::Default_ => Some(clauses[last].1.clone()),
        Clause::Matcher(_) => {
            assert(all.last().0 is Some);
            None
        },
    }
}

/// The clauses that hold a matcher, in order.
pub fn matchers_of(clauses: Vec<(Clause, Expression)>) -> (r: Vec<(Matcher, Expression)>)
    ensures
        clauses_view(r@) == grammar::matchers_of(read_clauses_view(clauses@)),
{
    let ghost all = read_clauses_view(clauses@);
    let mut matchers: Vec<(Matcher, Expression)> = Vec::new();
    let mut i: usize = 0;
    assert(all.take(0) =~= Seq::empty());
    assert(clauses_view(matchers@) =~= Seq::empty());
    while i < clauses.len()
        invariant
            i <= clauses.len(),
            all == read_clauses_view(clauses@),
            clauses_view(matchers@) == grammar::matchers_of(all.take(i as int)),
        decreases clauses.len() - i,
    {
        assert(all.take(i + 1).drop_last() =~= all.take(i as int));
        let ghost before = clauses_view(matchers@);
        match &clauses[i].0 {
            Clause::Matcher(matcher) => {
                matchers.push((matcher.clone(), clauses[i].1.clone()));
                assert(clauses_view(matchers@) =~= before.push((matcher@, clauses@[i as int].1@)));
            },
            Clause::Default_ => {},
        }
        i += 1;
    }
    assert(all.take(i as int) =~= all);
    matchers
}

} // verus!

verus! {

/// Reads an expression at position `i`.
#[verifier::rlimit(40)]
pub fn expression_at(s: &[u8], i: usize) -> (r: Result<(Expression, usize), Error>)
    requires
        i <= s.len(),
    ensures
        agrees(r, grammar::expression(s@, i as int)),
        advances(r, s@, i),
    decreases s.len() - i, 2int,
{
    let start = lexical::skip_space(s, i);
    match operand_at(s, start) {
        Err(e) => Err(e),
        Ok((first, j)) => {
            let mut yard = ShuntingYard::new(first);
            let mut pos = lexical::skip_space(s, j);
            let ghost begin = (pos, yard@);
            let mut more = true;
            while more
                invariant
                    i < pos <= s.len(),
                    grammar::expression_tail(s@, pos as int, yard@) == grammar::expression_tail(
                        s@,
                        begin.0 as int,
                        begin.1,
                    ),
                    !more ==> grammar::expression_tail(s@, pos as int, yard@) == (
                        yard@.finish(),
                        pos as int,
                    ),
                decreases
                        s.len() - pos + if more {
                            1int
                        } else {
                            0int
                        },
            {
                match lexical::operator(s, pos) {
                    Err(_) => {
                        more = false;
                    },
                    Ok((op, k)) => {
                        let k = lexical::skip_space(s, k);
                        match operand_at(s, k) {
                            Err(_) => {
                                more = false;
                            },
                            Ok((next, l)) => {
                                yard.push(op, next);
                                pos = lexical::skip_space(s, l);
                            },
                        }
                    },
                }
            }
            Ok((yard.into_expression(), pos))
        },
    }
}

/// Reads an operand at position `i`.
#[verifier::rlimit(40)]
pub fn operand_at(s: &[u8], i: usize) -> (r: Result<(Operand, usize), Error>)
    requires
        i <= s.len(),
    ensures
        agrees(r, grammar::operand(s@, i as int)),
        advances(r, s@, i),
    decreases s.len() - i, 1int,
{
    if let Ok((n, j)) = lexical::integer(s, i) {
        return Ok((Operand::I64(n), j));
    }
    if let Ok((e, j)) = group_at(s, i) {
        return Ok((Operand::Group(Box::new(e)), j));
    }
    if let Ok((n, j)) = lexical::variable_substitution(s, i) {
        return Ok((Operand::VarSubstitution(n), j));
    }
    if let Ok(((n, args), j)) = function_application_at(s, i) {
        let r = Operand::FnApplication(n, args);
        proof {
            crate::ast::lemma_operand_view(r);
        }
        return Ok((r, j));
    }
    if let Ok((m, j)) = match_at(s, i) {
        let r = Operand::Match(m);
        proof {
            crate::ast::lemma_operand_view(r);
        }
        return Ok((r, j));
    }
    Err(Error::Operand)
}

/// Reads an expression in parentheses at position `i`.
pub fn group_at(s: &[u8], i: usize) -> (r: Result<(Expression, usize), Error>)
    requires
        i <= s.len(),
    ensures
        match r {
            Ok((e, j)) => grammar::group(s@, i as int) == Ok::<_, Error>(
                (Term::Group(Box::new(e@)), j as int),
            ),
            Err(e) => grammar::group(s@, i as int) == Err::<(Term, int), Error>(e),
        },
        advances(r, s@, i),
    decreases s.len() - i, 0int,
{
    proof {
        reveal_strlit("(");
        reveal_strlit(")");
    }
    match lexical::expect(s, i, "(") {
        Err(e) => Err(e),
        Ok(j) => match expression_at(s, j) {
            Err(e) => Err(e),
            Ok((e, k)) => match lexical::expect(s, k, ")") {
                Err(e) => Err(e),
                Ok(l) => Ok((e, l)),
            },
        },
    }
}

/// Reads a function application at position `i`: the name and the arguments.
#[verifier::rlimit(40)]
pub fn function_application_at(s: &[u8], i: usize) -> (r: Result<
    ((Name, Vec<Expression>), usize),
    Error,
>)
    requires
        i <= s.len(),
    ensures
        match r {
            Ok(((n, args), j)) => grammar::function_application(s@, i as int) == Ok::<_, Error>(
                (Term::FnApplication(n@, expressions_view(args@)), j as int),
            ),
            Err(e) => grammar::function_application(s@, i as int) == Err::<(Term, int), Error>(e),
        },
        advances(r, s@, i),
    decreases s.len() - i, 0int,
{
    proof {
        reveal_strlit("(");
        reveal_strlit(")");
    }
    match lexical::name(s, i) {
        Err(e) => Err(e),
        Ok((n, j)) => match lexical::expect(s, lexical::skip_space(s, j), "(") {
            Err(e) => Err(e),
            Ok(k) => {
                let (args, l) = expressions_at(s, k);
                match lexical::expect(s, lexical::skip_space(s, l), ")") {
                    Err(e) => Err(e),
                    Ok(m) => Ok(((n, args), lexical::skip_space(s, m))),
                }
            },
        },
    }
}

/// Reads expressions separated by commas at position `i`.
#[verifier::rlimit(40)]
pub fn expressions_at(s: &[u8], i: usize) -> (r: (Vec<Expression>, usize))
    requires
        i <= s.len(),
    ensures
        grammar::expressions(s@, i as int) == (expressions_view(r.0@), r.1 as int),
        i <= r.1 <= s.len(),
    decreases s.len() - i, 3int,
{
    let mut list: Vec<Expression> = Vec::new();
    match expression_at(s, i) {
        Err(_) => {
            assert(expressions_view(list@) =~= Seq::empty());
            (list, i)
        },
        Ok((e, j)) => {
            list.push(e);
            let mut pos = j;
            let mut more = true;
            assert(expressions_view(list@) =~= seq![e@]);
            while more
                invariant
                    i < pos <= s.len(),
                    grammar::expressions(s@, i as int) == (
                        expressions_view(list@) + grammar::more_expressions(s@, pos as int).0,
                        grammar::more_expressions(s@, pos as int).1,
                    ),
                    !more ==> grammar::more_expressions(s@, pos as int) == (
                        Seq::<Expr>::empty(),
                        pos as int,
                    ),
                decreases
                        s.len() - pos + if more {
                            1int
                        } else {
                            0int
                        },
            {
                proof {
                    reveal_strlit(",");
                }
                match lexical::expect(s, lexical::skip_space(s, pos), ",") {
                    Err(_) => {
                        more = false;
                    },
                    Ok(k) => match expression_at(s, k) {
                        Err(_) => {
                            more = false;
                        },
                        Ok((e, l)) => {
                            let ghost before = expressions_view(list@);
                            list.push(e);
                            assert(expressions_view(list@) =~= before.push(e@));
                            assert(before + (seq![e@] + grammar::more_expressions(s@, l as int).0)
                                =~= before.push(e@) + grammar::more_expressions(s@, l as int).0);
                            pos = l;
                        },
                    },
                }
            }
            assert(expressions_view(list@) + Seq::<Expr>::empty() =~= expressions_view(list@));
            (list, pos)
        },
    }
}

/// Reads the end of a match at position `i`.
fn match_end_at(s: &[u8], i: usize) -> (r: Result<usize, Error>)
    requires
        i <= s.len(),
    ensures
        match r {
            Ok(j) => grammar::match_end(s@, i as int) == Ok::<int, Error>(j as int) && i < j
                <= s.len(),
            Err(e) => grammar::match_end(s@, i as int) == Err::<int, Error>(e),
        },
{
    proof {
        reveal_strlit("}");
        reveal_strlit(",");
    }
    let j = match lexical::expect(s, lexical::skip_space(s, i), ",") {
        Ok(j) => j,
        Err(_) => i,
    };
    match lexical::expect(s, lexical::skip_space(s, j), "}") {
        Err(e) => Err(e),
        Ok(k) => Ok(lexical::skip_space(s, k)),
    }
}

/// Reads a match at position `i`.
#[verifier::rlimit(40)]
pub fn match_at(s: &[u8], i: usize) -> (r: Result<(Match, usize), Error>)
    requires
        i <= s.len(),
    ensures
        match r {
            Ok((m, j)) => grammar::match_(s@, i as int) == Ok::<_, Error>(
                (Term::Match(Box::new(m@)), j as int),
            ),
            Err(e) => grammar::match_(s@, i as int) == Err::<(Term, int), Error>(e),
        },
        advances(r, s@, i),
    decreases s.len() - i, 0int,
{
    proof {
        reveal_strlit("match ");
        reveal_strlit("{");
    }
    match lexical::expect(s, lexical::skip_space(s, i), "match ") {
        Err(e) => Err(e),
        Ok(j) => match expression_at(s, j) {
            Err(e) => Err(e),
            Ok((with, k)) => match lexical::expect(s, lexical::skip_space(s, k), "{") {
                Err(e) => Err(e),
                Ok(l) => {
                    let (clauses, m) = match_clauses_at(s, l);
                    match default_clause_of(&clauses) {
                        None => Err(Error::MatchDefault),
                        Some(default) => match match_end_at(s, m) {
                            Err(e) => Err(e),
                            Ok(n) => Ok((Match::new(with, matchers_of(clauses), default), n)),
                        },
                    }
                },
            },
        },
    }
}

/// Reads match clauses separated by commas at position `i`.
#[verifier::rlimit(40)]
pub fn match_clauses_at(s: &[u8], i: usize) -> (r: (Vec<(Clause, Expression)>, usize))
    requires
        i <= s.len(),
    ensures
        grammar::match_clauses(s@, i as int) == (read_clauses_view(r.0@), r.1 as int),
        i <= r.1 <= s.len(),
    decreases s.len() - i, 4int,
{
    let mut list: Vec<(Clause, Expression)> = Vec::new();
    match match_clause_at(s, i) {
        Err(_) => {
            assert(read_clauses_view(list@) =~= Seq::empty());
            (list, i)
        },
        Ok((c, j)) => {
            let ghost first = (c.0@, c.1@);
            list.push(c);
            let mut pos = j;
            let mut more = true;
            assert(read_clauses_view(list@) =~= seq![first]);
            while more
                invariant
                    i < pos <= s.len(),
                    grammar::match_clauses(s@, i as int) == (
                        read_clauses_view(list@) + grammar::more_match_clauses(s@, pos as int).0,
                        grammar::more_match_clauses(s@, pos as int).1,
                    ),
                    !more ==> grammar::more_match_clauses(s@, pos as int) == (
                        Seq::<ClauseModel>::empty(),
                        pos as int,
                    ),
                decreases
                        s.len() - pos + if more {
                            1int
                        } else {
                            0int
                        },
            {
                proof {
                    reveal_strlit(",");
                }
                match lexical::expect(s, lexical::skip_space(s, pos), ",") {
                    Err(_) => {
                        more = false;
                    },
                    Ok(k) => match match_clause_at(s, k) {
                        Err(_) => {
                            more = false;
                        },
                        Ok((c, l)) => {
                            let ghost before = read_clauses_view(list@);
                            let ghost next = (c.0@, c.1@);
                            list.push(c);
                            assert(read_clauses_view(list@) =~= before.push(next));
                            assert(before + (seq![next] + grammar::more_match_clauses(
                                s@,
                                l as int,
                            ).0) =~= before.push(next) + grammar::more_match_clauses(
                                s@,
                                l as int,
                            ).0);
                            pos = l;
                        },
                    },
                }
            }
            assert(read_clauses_view(list@) + Seq::<ClauseModel>::empty() =~= read_clauses_view(
                list@,
            ));
            (list, pos)
        },
    }
}

/// Reads a match clause at position `i`.
#[verifier::rlimit(40)]
pub fn match_clause_at(s: &[u8], i: usize) -> (r: Result<((Clause, Expression), usize), Error>)
    requires
        i <= s.len(),
    ensures
        match r {
            Ok((c, j)) => grammar::match_clause(s@, i as int) == Ok::<_, Error>(
                ((c.0@, c.1@), j as int),
            ),
            Err(e) => grammar::match_clause(s@, i as int) == Err::<(ClauseModel, int), Error>(e),
        },
        advances(r, s@, i),
    decreases s.len() - i, 3int,
{
    proof {
        reveal_strlit("_");
        reveal_strlit("=>");
    }
    let head: Result<(Clause, usize), Error> = match expression_at(s, i) {
        Ok((e, j)) => Ok((Clause::Matcher(Matcher::Value(e)), j)),
        Err(_) => match lexical::expect(s, lexical::skip_space(s, i), "_") {
            Ok(j) => Ok((Clause::Default_, lexical::skip_space(s, j))),
            Err(e) => Err(e),
        },
    };
    match head {
        Err(e) => Err(e),
        Ok((clause, j)) => match lexical::expect(s, lexical::skip_space(s, j), "=>") {
            Err(e) => Err(e),
            Ok(k) => match expression_at(s, k) {
                Err(e) => Err(e),
                Ok((value, l)) => Ok(((clause, value), l)),
            },
        },
    }
}

} // verus!

verus! {

/// The text from position `j` on.
pub open spec fn rest_of(input: Seq<u8>, j: int) -> Seq<u8> {
    input.subrange(j, input.len() as int)
}

fn rest(input: &[u8], j: usize) -> (r: &[u8])
    requires
        j <= input.len(),
    ensures
        r@ == rest_of(input@, j as int),
{
    vstd::slice::slice_subrange(input, j, input.len())
}

/// What was read from the start of the text agrees with what the grammar
/// gives there, and the rest is the text behind it.
pub open spec fn reads<T: View>(r: Result<(&[u8], T), Error>, input: Seq<u8>, m: Parsed<T::V>) -> bool {
    match r {
        Ok((rest, v)) => m matches Ok((w, j)) && w == v@ && 0 <= j <= input.len() && rest@
            == rest_of(input, j),
        Err(e) => m == Err::<(T::V, int), Error>(e),
    }
}

/// Reads an expression from the start of the text.
pub fn expression(input: &[u8]) -> (r: Result<(&[u8], Expression), Error>)
    ensures
        reads(r, input@, grammar::expression(input@, 0)),
{
    match expression_at(input, 0) {
        Ok((e, j)) => Ok((rest(input, j), e)),
        Err(e) => Err(e),
    }
}

/// Reads expressions separated by commas from the start of the text, as many
/// as there are.
pub fn expressions(input: &[u8]) -> (r: (&[u8], Vec<Expression>))
    ensures
        grammar::expressions(input@, 0).0 == expressions_view(r.1@),
        0 <= grammar::expressions(input@, 0).1 <= input@.len(),
        r.0@ == rest_of(input@, grammar::expressions(input@, 0).1),
{
    let (list, j) = expressions_at(input, 0);
    (rest(input, j), list)
}

/// Reads an operator sign from the start of the text.
pub fn operator(input: &[u8]) -> (r: Result<(&[u8], Operator), Error>)
    ensures
        match r {
            Ok((rest, op)) => grammar::operator(input@, 0) == Ok::<_, Error>((op, 1int)) && rest@
                == rest_of(input@, 1),
            Err(e) => grammar::operator(input@, 0) == Err::<(Operator, int), Error>(e),
        },
{
    match lexical::operator(input, 0) {
        Ok((op, j)) => Ok((rest(input, j), op)),
        Err(e) => Err(e),
    }
}

/// Reads an operand from the start of the text.
pub fn operand(input: &[u8]) -> (r: Result<(&[u8], Operand), Error>)
    ensures
        reads(r, input@, grammar::operand(input@, 0)),
{
    match operand_at(input, 0) {
        Ok((o, j)) => Ok((rest(input, j), o)),
        Err(e) => Err(e),
    }
}

/// Reads an integer literal from the start of the text.
pub fn i64(input: &[u8]) -> (r: Result<(&[u8], i64), Error>)
    ensures
        match r {
            Ok((rest, n)) => grammar::integer(input@, 0) matches Ok((m, j)) && m == n && 0 <= j
                <= input@.len() && rest@ == rest_of(input@, j),
            Err(e) => grammar::integer(input@, 0) == Err::<(i64, int), Error>(e),
        },
{
    match lexical::integer(input, 0) {
        Ok((n, j)) => Ok((rest(input, j), n)),
        Err(e) => Err(e),
    }
}

/// Reads a variable from the start of the text.
pub fn variable_substitution(input: &[u8]) -> (r: Result<(&[u8], Name), Error>)
    ensures
        reads(r, input@, grammar::variable_substitution(input@, 0)),
{
    match lexical::variable_substitution(input, 0) {
        Ok((n, j)) => Ok((rest(input, j), n)),
        Err(e) => Err(e),
    }
}

/// Reads a function application from the start of the text: the name and the
/// arguments.
pub fn function_application(input: &[u8]) -> (r: Result<(&[u8], (Name, Vec<Expression>)), Error>)
    ensures
        match r {
            Ok((rest, (n, args))) => grammar::function_application(input@, 0) matches Ok((t, j))
                && t == Term::FnApplication(n@, expressions_view(args@)) && 0 <= j <= input@.len()
                && rest@ == rest_of(input@, j),
            Err(e) => grammar::function_application(input@, 0) == Err::<(Term, int), Error>(e),
        },
{
    match function_application_at(input, 0) {
        Ok((application, j)) => Ok((rest(input, j), application)),
        Err(e) => Err(e),
    }
}

/// Reads a match from the start of the text.
pub fn match_(input: &[u8]) -> (r: Result<(&[u8], Match), Error>)
    ensures
        match r {
            Ok((rest, m)) => grammar::match_(input@, 0) matches Ok((t, j)) && t == Term::Match(
                Box::new(m@),
            ) && 0 <= j <= input@.len() && rest@ == rest_of(input@, j),
            Err(e) => grammar::match_(input@, 0) == Err::<(Term, int), Error>(e),
        },
{
    match match_at(input, 0) {
        Ok((m, j)) => Ok((rest(input, j), m)),
        Err(e) => Err(e),
    }
}

} // verus!

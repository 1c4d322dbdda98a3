//! The parser: from source bytes to a program.

pub mod expression;
pub mod grammar;
pub mod lexical;
pub mod shunting_yard;

use crate::ast::{names_view, statements_view, Expression, Name, Program, Statement, Statements};
use crate::model::{Ident, Prog, Stmt};
use crate::parser::expression::{advances, agrees, expression_at};
use crate::parser::grammar::ascii;
use vstd::prelude::*;

verus! {

/// Why a text is not a program: the production that was not met.
#[derive(Debug, Clone, Copy, PartialEq, Eq, Structural)]
pub enum Error {
    /// The text ended where the grammar needed more.
    Incomplete,
    /// A keyword or a punctuation mark was not found.
    Token,
    /// No operator sign.
    Operator,
    /// No integer literal, or one that does not fit in 64 bits.
    Integer,
    /// No name, or a reserved word.
    Name,
    /// A name followed by `(` is no variable.
    Variable,
    /// None of the forms of an operand.
    Operand,
    /// The clauses of a match do not end with the one default among them.
    MatchDefault,
    /// Text follows the end of the program.
    Trailing,
}

} // verus!

verus! {

/// Reads names separated by commas at position `i`.
#[verifier::rlimit(40)]
fn names_at(s: &[u8], i: usize) -> (r: (Vec<Name>, usize))
    requires
        i <= s.len(),
    ensures
        grammar::names(s@, i as int) == (names_view(r.0@), r.1 as int),
        i <= r.1 <= s.len(),
{
    let mut list: Vec<Name> = Vec::new();
    match lexical::name(s, i) {
        Err(_) => {
            assert(names_view(list@) =~= Seq::empty());
            (list, i)
        },
        Ok((n, j)) => {
            let ghost first = n@;
            list.push(n);
            let mut pos = j;
            let mut more = true;
            assert(names_view(list@) =~= seq![first]);
            while more
                invariant
                    i < pos <= s.len(),
                    grammar::names(s@, i as int) == (
                        names_view(list@) + grammar::more_names(s@, pos as int).0,
                        grammar::more_names(s@, pos as int).1,
                    ),
                    !more ==> grammar::more_names(s@, pos as int) == (
                        Seq::<Ident>::empty(),
                        pos as int,
                    ),
                decreases
                        s.len() - pos + if more {
                            1int
                        } else {
                            0int
                        },
            {
                proof {
                    reveal_strlit(",");
                }
                match lexical::expect(s, lexical::skip_space(s, pos), ",") {
                    Err(_) => {
                        more = false;
                    },
                    Ok(k) => match lexical::name(s, lexical::skip_space(s, k)) {
                        Err(_) => {
                            more = false;
                        },
                        Ok((n, l)) => {
                            let ghost before = names_view(list@);
                            let ghost next = n@;
                            list.push(n);
                            assert(names_view(list@) =~= before.push(next));
                            assert(before + (seq![next] + grammar::more_names(s@, l as int).0)
                                =~= before.push(next) + grammar::more_names(s@, l as int).0);
                            pos = l;
                        },
                    },
                }
            }
            assert(names_view(list@) + Seq::<Ident>::empty() =~= names_view(list@));
            (list, pos)
        },
    }
}

/// Reads `=`, an expression and `;` at position `i`.
fn definition_at(s: &[u8], i: usize) -> (r: Result<(Expression, usize), Error>)
    requires
        i <= s.len(),
    ensures
        agrees(r, grammar::definition(s@, i as int)),
        advances(r, s@, i),
{
    proof {
        reveal_strlit("=");
        reveal_strlit(";");
    }
    match lexical::expect(s, lexical::skip_space(s, i), "=") {
        Err(e) => Err(e),
        Ok(j) => match expression_at(s, j) {
            Err(e) => Err(e),
            Ok((e, k)) => match lexical::expect(s, k, ";") {
                Err(e) => Err(e),
                Ok(l) => Ok((e, l)),
            },
        },
    }
}

/// Reads a statement at position `i`.
#[verifier::rlimit(40)]
fn statement_at(s: &[u8], i: usize) -> (r: Result<(Statement, usize), Error>)
    requires
        i <= s.len(),
    ensures
        agrees(r, grammar::statement(s@, i as int)),
        advances(r, s@, i),
{
    proof {
        reveal_strlit(")");
    }
    match lexical::name(s, i) {
        Err(e) => Err(e),
        Ok((n, j)) => {
            let k = lexical::skip_space(s, j);
            if k < s.len() && s[k] == 40 {
                let (params, l) = names_at(s, lexical::skip_space(s, k + 1));
                match lexical::expect(s, lexical::skip_space(s, l), ")") {
                    Err(e) => Err(e),
                    Ok(m) => match definition_at(s, m) {
                        Err(e) => Err(e),
                        Ok((e, o)) => Ok((Statement::FnDefinition(n, params, e), o)),
                    },
                }
            } else {
                match definition_at(s, k) {
                    Err(e) => Err(e),
                    Ok((e, o)) => Ok((Statement::VarAssignment(n, e), o)),
                }
            }
        },
    }
}

/// Reads statements at position `i`, as many as there are.
#[verifier::rlimit(40)]
fn statements_at(s: &[u8], i: usize) -> (r: (Vec<Statement>, usize))
    requires
        i <= s.len(),
    ensures
        grammar::statements(s@, i as int) == (statements_view(r.0@), r.1 as int),
        i <= r.1 <= s.len(),
{
    let mut list: Vec<Statement> = Vec::new();
    let mut pos = i;
    let mut more = true;
    assert(statements_view(list@) =~= Seq::empty());
    while more
        invariant
            i <= pos <= s.len(),
            grammar::statements(s@, i as int) == (
                statements_view(list@) + grammar::statements(s@, pos as int).0,
                grammar::statements(s@, pos as int).1,
            ),
            !more ==> grammar::statements(s@, pos as int) == (Seq::<Stmt>::empty(), pos as int),
        decreases
                s.len() - pos + if more {
                    1int
                } else {
                    0int
                },
    {
        match statement_at(s, lexical::skip_space(s, pos)) {
            Err(_) => {
                more = false;
            },
            Ok((st, j)) => {
                let ghost before = statements_view(list@);
                let ghost next = st@;
                list.push(st);
                assert(statements_view(list@) =~= before.push(next));
                assert(before + (seq![next] + grammar::statements(s@, j as int).0) =~= before.push(
                    next,
                ) + grammar::statements(s@, j as int).0);
                pos = j;
            },
        }
    }
    assert(statements_view(list@) + Seq::<Stmt>::empty() =~= statements_view(list@));
    (list, pos)
}

/// Reads a keyword, the names it declares and `;` at position `i`.
fn declaration_at(s: &[u8], i: usize, keyword: &str) -> (r: Result<(Vec<Name>, usize), Error>)
    requires
        i <= s.len(),
        vstd::string::is_ascii(keyword),
    ensures
        match r {
            Ok((declared, j)) => grammar::declaration(s@, i as int, ascii(keyword@)) == Ok::<
                _,
                Error,
            >((names_view(declared@), j as int)) && j <= s.len(),
            Err(e) => grammar::declaration(s@, i as int, ascii(keyword@)) == Err::<
                (Seq<Ident>, int),
                Error,
            >(e),
        },
{
    proof {
        reveal_strlit(";");
    }
    match lexical::expect(s, lexical::skip_space(s, i), keyword) {
        Err(e) => Err(e),
        Ok(j) => {
            let (declared, k) = names_at(s, lexical::skip_space(s, j));
            match lexical::expect(s, lexical::skip_space(s, k), ";") {
                Err(e) => Err(e),
                Ok(l) => Ok((declared, l)),
            }
        },
    }
}

/// Reads a program: the whole text must be one.
#[verifier::rlimit(40)]
pub fn parse(s: &[u8]) -> (r: Result<Program, Error>)
    ensures
        match r {
            Ok(p) => grammar::program(s@) == Ok::<Prog, Error>(p@),
            Err(e) => grammar::program(s@) == Err::<Prog, Error>(e),
        },
{
    proof {
        reveal_strlit("inputs");
        reveal_strlit("outputs");
    }
    match declaration_at(s, 0, "inputs") {
        Err(e) => Err(e),
        Ok((inputs, i)) => {
            let (body, j) = statements_at(s, i);
            match declaration_at(s, j, "outputs") {
                Err(e) => Err(e),
                Ok((outputs, k)) => if lexical::skip_space(s, k) == s.len() {
                    Ok(Program::new(inputs, Statements(body), outputs))
                } else {
                    Err(Error::Trailing)
                },
            }
        },
    }
}

} // verus!

verus! {

/// Renders the program and reads its text again. A plain program comes
/// back in its canonical form, and a well-formed one as it was.
pub fn reparse(program: &Program) -> (r: Result<Program, Error>)
    ensures
        match r {
            Ok(q) => grammar::program(
                vstd::utf8::encode_utf8(crate::render::render_program(program@)),
            ) == Ok::<Prog, Error>(q@),
            Err(e) => grammar::program(
                vstd::utf8::encode_utf8(crate::render::render_program(program@)),
            ) == Err::<Prog, Error>(e),
        },
        crate::round_trip::plain(program@) ==> (r matches Ok(q) && q@
            == crate::round_trip::canonical(program@)),
        crate::round_trip::well_formed(program@) ==> (r matches Ok(q) && q@ == program@),
{
    let text = program.to_string();
    proof {
        if crate::round_trip::well_formed(program@) {
            crate::round_trip::lemma_canonical(program@);
        }
        if crate::round_trip::plain(program@) {
            crate::encoding::lemma_text_bytes(program@);
            crate::round_trip::lemma_parse_plain(program@);
        }
    }
    parse(text.as_str().as_bytes())
}

} // verus!

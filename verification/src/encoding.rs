//! The text of a program whose names are valid is ASCII: its bytes are its
//! characters, one for one.

use crate::model::{Arms, Expr, Ident, Prog, Stmt, Term};
use crate::parser::grammar::ascii;
use crate::render;
use crate::round_trip::{plain, plain_expression, plain_statement, plain_term, valid_name};
use vstd::prelude::*;
use vstd::utf8::{encode_utf8, is_ascii_chars, is_ascii_chars_encode_utf8};

verus! {

/// Parts that are ASCII, joined by a separator that is ASCII, are ASCII.
proof fn lemma_join_rest(parts: Seq<Seq<char>>, sep: Seq<char>)
    requires
        forall|k: int| 0 <= k < parts.len() ==> is_ascii_chars(#[trigger] parts[k]),
        is_ascii_chars(sep),
    ensures
        is_ascii_chars(render::join_rest(parts, sep)),
        is_ascii_chars(render::join(parts, sep)),
    decreases parts.len(),
{
    if parts.len() > 0 {
        let rest = parts.drop_first();
        assert forall|k: int| 0 <= k < rest.len() implies is_ascii_chars(#[trigger] rest[k]) by {
            assert(rest[k] == parts[k + 1]);
        }
        lemma_join_rest(rest, sep);
    }
}

/// Parts that are ASCII, one behind the other, are ASCII.
proof fn lemma_flatten(parts: Seq<Seq<char>>)
    requires
        forall|k: int| 0 <= k < parts.len() ==> is_ascii_chars(#[trigger] parts[k]),
    ensures
        is_ascii_chars(parts.flatten()),
    decreases parts.len(),
{
    if parts.len() > 0 {
        let rest = parts.drop_first();
        assert forall|k: int| 0 <= k < rest.len() implies is_ascii_chars(#[trigger] rest[k]) by {
            assert(rest[k] == parts[k + 1]);
        }
        lemma_flatten(rest);
    }
}

/// The digits of a number are ASCII.
proof fn lemma_nat(n: nat)
    ensures
        is_ascii_chars(render::render_nat(n)),
    decreases n,
{
    if n >= 10 {
        lemma_nat(n / 10);
    }
}

/// The text of a plain expression is ASCII.
pub proof fn lemma_expression(e: Expr)
    requires
        plain_expression(e),
    ensures
        is_ascii_chars(render::render_expression(e)),
    decreases e, 0nat,
{
    reveal_strlit(" ");
    reveal_strlit("(");
    reveal_strlit(")");
    reveal_strlit("+");
    reveal_strlit("-");
    reveal_strlit("*");
    reveal_strlit("/");
    match e {
        Expr::Operand(t) => {
            lemma_term(t);
        },
        Expr::Operation(op, l, r) => {
            lemma_expression(*l);
            lemma_expression(*r);
            assert(is_ascii_chars(render::render_side(op, *l)));
            assert(is_ascii_chars(render::render_side(op, *r)));
            assert(is_ascii_chars(render::render_operator(op)));
        },
    }
}

/// The text of a plain operand is ASCII.
pub proof fn lemma_term(t: Term)
    requires
        plain_term(t),
    ensures
        is_ascii_chars(render::render_term(t)),
    decreases t, 0nat,
{
    reveal_strlit("(");
    reveal_strlit(")");
    reveal_strlit(", ");
    match t {
        Term::I64(n) => {
            if n < 0 {
                lemma_nat((-n) as nat);
            } else {
                lemma_nat(n as nat);
            }
        },
        Term::Group(e) => {
            lemma_expression(*e);
        },
        Term::VarSubstitution(n) => {},
        Term::FnApplication(n, args) => {
            let parts = render::render_expressions(args);
            assert forall|k: int| 0 <= k < parts.len() implies is_ascii_chars(
                #[trigger] parts[k],
            ) by {
                lemma_expression(args[k]);
            }
            lemma_join_rest(parts, ", "@);
        },
        Term::Match(m) => {
            lemma_match(*m);
        },
    }
}

/// The text of a plain match is ASCII.
proof fn lemma_match(m: Arms)
    requires
        plain_term(Term::Match(Box::new(m))),
    ensures
        is_ascii_chars(render::render_match(m)),
    decreases m, 0nat,
{
    reveal_strlit("match ");
    reveal_strlit(" { ");
    reveal_strlit(" => ");
    reveal_strlit(", ");
    reveal_strlit("_ => ");
    reveal_strlit("}");
    lemma_expression(m.with);
    lemma_expression(m.default);
    let parts = render::render_clauses(m.clauses);
    assert forall|k: int| 0 <= k < parts.len() implies is_ascii_chars(#[trigger] parts[k]) by {
        lemma_expression(m.clauses[k].0);
        lemma_expression(m.clauses[k].1);
    }
    lemma_flatten(parts);
}

/// The text of a plain statement is ASCII.
proof fn lemma_statement(s: Stmt)
    requires
        plain_statement(s),
    ensures
        is_ascii_chars(render::render_statement(s)),
{
    reveal_strlit(" = ");
    reveal_strlit(";");
    reveal_strlit("(");
    reveal_strlit(") = ");
    reveal_strlit(", ");
    match s {
        Stmt::VarAssignment(n, e) => {
            lemma_expression(e);
        },
        Stmt::FnDefinition(n, params, e) => {
            lemma_expression(e);
            lemma_join_rest(params, ", "@);
        },
    }
}

/// The text of a declaration of valid names is ASCII.
proof fn lemma_declaration(keyword: Seq<char>, names: Seq<Ident>)
    requires
        is_ascii_chars(keyword),
        forall|k: int| 0 <= k < names.len() ==> valid_name(#[trigger] names[k]),
    ensures
        is_ascii_chars(render::render_declaration(keyword, names)),
{
    reveal_strlit(";");
    reveal_strlit(" ");
    reveal_strlit(", ");
    lemma_join_rest(names, ", "@);
}

/// The bytes of the text of a plain program are its characters, one
/// for one: what `as_bytes` gives of the text is what the parser is held to.
pub proof fn lemma_text_bytes(p: Prog)
    requires
        plain(p),
    ensures
        is_ascii_chars(render::render_program(p)),
        encode_utf8(render::render_program(p)) == ascii(render::render_program(p)),
{
    reveal_strlit("inputs");
    reveal_strlit("outputs");
    reveal_strlit("\n");
    lemma_declaration("inputs"@, p.inputs);
    lemma_declaration("outputs"@, p.outputs);
    let parts = Seq::new(p.statements.len(), |i: int| render::render_statement(p.statements[i]));
    assert forall|k: int| 0 <= k < parts.len() implies is_ascii_chars(#[trigger] parts[k]) by {
        lemma_statement(p.statements[k]);
    }
    lemma_join_rest(parts, "\n"@);
    let text = render::render_program(p);
    assert(is_ascii_chars(text));
    is_ascii_chars_encode_utf8(text);
    assert(encode_utf8(text) =~= ascii(text));
}

} // verus!

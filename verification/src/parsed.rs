//! What the parser gives is well-formed: the names are names of the grammar,
//! and the operations are nested as their precedence has it.

use crate::model::{Arms, Expr, Ident, Operator, Prog, Stmt, Term};
use crate::parser::grammar;
use crate::parser::grammar::{ascii, chars, ClauseModel};
use crate::parser::shunting_yard::Yard;
use crate::parser::Error;
use crate::round_trip::{
    valid_name, well_formed, well_formed_expression, well_formed_statement, well_formed_term,
};
use vstd::prelude::*;

verus! {

/// Every byte between a position and where `skip_name` stops is a byte of a
/// name.
proof fn lemma_skip_name_bytes(s: Seq<u8>, i: int)
    requires
        0 <= i <= s.len(),
    ensures
        i <= grammar::skip_name(s, i) <= s.len(),
        forall|k: int| i <= k < grammar::skip_name(s, i) ==> grammar::is_name_byte(#[trigger] s[k]),
    decreases s.len() - i,
{
    if i < s.len() && grammar::is_name_byte(s[i]) {
        lemma_skip_name_bytes(s, i + 1);
    }
}

/// A name that is read is a name of the grammar, and ends within the text.
pub proof fn lemma_name(s: Seq<u8>, i: int)
    requires
        0 <= i <= s.len(),
    ensures
        grammar::name(s, i) matches Ok((n, j)) ==> valid_name(n) && i < j <= s.len(),
{
    if grammar::name(s, i) is Ok {
        lemma_skip_name_bytes(s, i + 1);
        let j = grammar::skip_name(s, i + 1);
        let w = s.subrange(i, j);
        let n = chars(w);
        assert(ascii(n) =~= w) by {
            assert forall|k: int| 0 <= k < w.len() implies ascii(n)[k] == w[k] by {
                assert(grammar::is_name_byte(s[i + k]));
            }
        }
        assert forall|k: int| 0 <= k < n.len() implies 'a' <= #[trigger] n[k] <= 'z' || n[k]
            == '_' by {
            assert(grammar::is_name_byte(s[i + k]));
        }
    }
}

/// The operations that wait in the resolver are nested as their precedence
/// has it: each binds tighter than the one below it, no looser than its left
/// side, and looser than what was read last.
pub open spec fn orderly(y: Yard) -> bool {
    &&& well_formed_expression(y.last)
    &&& forall|k: int|
        0 <= k < y.pending.len() ==> well_formed_expression((#[trigger] y.pending[k]).0)
            && y.pending[k].0.root_precedence() >= y.pending[k].1.precedence()
    &&& forall|a: int, b: int|
        0 <= a < b < y.pending.len() ==> (#[trigger] y.pending[a]).1.precedence()
            < (#[trigger] y.pending[b]).1.precedence()
    &&& y.pending.len() > 0 ==> y.last.root_precedence() > y.pending.last().1.precedence()
}

/// Folding an orderly resolver gives a well-formed tree.
pub proof fn lemma_finish(y: Yard)
    requires
        orderly(y),
    ensures
        well_formed_expression(y.finish()),
    decreases y.pending.len(),
{
    if y.pending.len() > 0 {
        lemma_fold_top(y);
        lemma_finish(y.fold_top());
    }
}

/// Folding the topmost operation of an orderly resolver leaves it orderly.
proof fn lemma_fold_top(y: Yard)
    requires
        orderly(y),
        y.pending.len() > 0,
    ensures
        orderly(y.fold_top()),
        y.fold_top().last.root_precedence() == y.pending.last().1.precedence(),
{
    let top = y.pending.last();
    let folded = y.fold_top();
    assert(y.pending[y.pending.len() - 1] == top);
    assert forall|k: int| 0 <= k < folded.pending.len() implies well_formed_expression(
        (#[trigger] folded.pending[k]).0,
    ) && folded.pending[k].0.root_precedence() >= folded.pending[k].1.precedence() by {
        assert(folded.pending[k] == y.pending[k]);
    }
    assert forall|a: int, b: int| 0 <= a < b < folded.pending.len() implies (
    #[trigger] folded.pending[a]).1.precedence() < (#[trigger] folded.pending[b]).1.precedence() by {
        assert(folded.pending[a] == y.pending[a]);
        assert(folded.pending[b] == y.pending[b]);
    }
    if folded.pending.len() > 0 {
        assert(folded.pending.last() == y.pending[y.pending.len() - 2]);
    }
}

/// Reducing an orderly resolver for an operator leaves it orderly, with what
/// was read last binding no looser than the operator, and the operator
/// binding tighter than what still waits.
proof fn lemma_reduce(y: Yard, op: Operator)
    requires
        orderly(y),
        y.last.root_precedence() >= op.precedence(),
    ensures
        orderly(y.reduce(op)),
        y.reduce(op).last.root_precedence() >= op.precedence(),
        y.reduce(op).pending.len() > 0 ==> y.reduce(op).pending.last().1.precedence()
            < op.precedence(),
    decreases y.pending.len(),
{
    if y.pending.len() > 0 && y.pending.last().1.precedence() >= op.precedence() {
        lemma_fold_top(y);
        lemma_reduce(y.fold_top(), op);
    }
}

/// An operator and a well-formed operand pushed on an orderly resolver, whose
/// last part is an operand, leave it so.
#[verifier::rlimit(40)]
pub proof fn lemma_push(y: Yard, op: Operator, t: Term)
    requires
        orderly(y),
        y.last is Operand,
        well_formed_term(t),
    ensures
        orderly(y.push(op, t)),
        y.push(op, t).last is Operand,
{
    lemma_reduce(y, op);
    let reduced = y.reduce(op);
    let pushed = y.push(op, t);
    assert forall|k: int| 0 <= k < pushed.pending.len() implies well_formed_expression(
        (#[trigger] pushed.pending[k]).0,
    ) && pushed.pending[k].0.root_precedence() >= pushed.pending[k].1.precedence() by {
        if k < reduced.pending.len() {
            assert(pushed.pending[k] == reduced.pending[k]);
        }
    }
    assert forall|a: int, b: int| 0 <= a < b < pushed.pending.len() implies (
    #[trigger] pushed.pending[a]).1.precedence() < (#[trigger] pushed.pending[b]).1.precedence() by {
        assert(pushed.pending[a] == reduced.pending[a]);
        if b < reduced.pending.len() {
            assert(pushed.pending[b] == reduced.pending[b]);
        } else {
            assert(reduced.pending[a].1.precedence() <= reduced.pending.last().1.precedence()) by {
                if a < reduced.pending.len() - 1 {
                    assert(reduced.pending[reduced.pending.len() - 1] == reduced.pending.last());
                }
            }
        }
    }
}

} // verus!

verus! {

/// Every expression of the list is well-formed.
pub open spec fn all_well_formed(es: Seq<Expr>) -> bool {
    forall|k: int| 0 <= k < es.len() ==> well_formed_expression(#[trigger] es[k])
}

/// Every matcher and every value of the clauses is well-formed.
pub open spec fn clauses_well_formed(cs: Seq<ClauseModel>) -> bool {
    forall|k: int|
        0 <= k < cs.len() ==> well_formed_expression((#[trigger] cs[k]).1) && (cs[k].0 matches Some(
            m,
        ) ==> well_formed_expression(m))
}

/// Of well-formed clauses the default and the clauses with a matcher are
/// well-formed.
proof fn lemma_clauses_parts(cs: Seq<ClauseModel>)
    requires
        clauses_well_formed(cs),
    ensures
        grammar::default_of(cs) matches Some(d) ==> well_formed_expression(d),
        forall|k: int|
            0 <= k < grammar::matchers_of(cs).len() ==> well_formed_expression(
                (#[trigger] grammar::matchers_of(cs)[k]).0,
            ) && well_formed_expression(grammar::matchers_of(cs)[k].1),
    decreases cs.len(),
{
    if cs.len() > 0 {
        let before = cs.drop_last();
        assert forall|k: int| 0 <= k < before.len() implies well_formed_expression(
            (#[trigger] before[k]).1,
        ) && (before[k].0 matches Some(m) ==> well_formed_expression(m)) by {
            assert(before[k] == cs[k]);
        }
        lemma_clauses_parts(before);
        assert(cs[cs.len() - 1] == cs.last());
        let all = grammar::matchers_of(cs);
        let earlier = grammar::matchers_of(before);
        assert forall|k: int| 0 <= k < all.len() implies well_formed_expression(
            (#[trigger] all[k]).0,
        ) && well_formed_expression(all[k].1) by {
            if k < earlier.len() {
                assert(all[k] == earlier[k]);
            }
        }
    }
}

/// An expression that is read is well-formed.
pub proof fn lemma_expression(s: Seq<u8>, i: int)
    requires
        0 <= i <= s.len(),
    ensures
        grammar::expression(s, i) matches Ok((e, j)) ==> well_formed_expression(e),
    decreases s.len() - i, 2nat,
{
    grammar::lemma_skip_bounds(s, i);
    let start = grammar::skip_space(s, i);
    lemma_operand(s, start);
    match grammar::beyond(s, start, grammar::operand(s, start)) {
        Ok((first, j)) => {
            grammar::lemma_skip_bounds(s, j);
            lemma_tail(s, grammar::skip_space(s, j), Yard::new(first));
        },
        Err(_) => {},
    }
}

/// What is read behind the start of an expression, resolved with an orderly
/// resolver, is well-formed.
pub proof fn lemma_tail(s: Seq<u8>, i: int, yard: Yard)
    requires
        0 <= i <= s.len(),
        orderly(yard),
        yard.last is Operand,
    ensures
        well_formed_expression(grammar::expression_tail(s, i, yard).0),
    decreases s.len() - i, 0nat,
{
    lemma_finish(yard);
    match grammar::operator(s, i) {
        Ok((op, j)) => {
            grammar::lemma_skip_bounds(s, j);
            let k = grammar::skip_space(s, j);
            lemma_operand(s, k);
            match grammar::beyond(s, k, grammar::operand(s, k)) {
                Ok((next, l)) => {
                    grammar::lemma_skip_bounds(s, l);
                    lemma_push(yard, op, next);
                    lemma_tail(s, grammar::skip_space(s, l), yard.push(op, next));
                },
                Err(_) => {},
            }
        },
        Err(_) => {},
    }
}

/// An operand that is read is well-formed.
pub proof fn lemma_operand(s: Seq<u8>, i: int)
    requires
        0 <= i <= s.len(),
    ensures
        grammar::operand(s, i) matches Ok((t, j)) ==> well_formed_term(t),
    decreases s.len() - i, 1nat,
{
    lemma_group(s, i);
    lemma_name(s, i);
    lemma_application(s, i);
    lemma_match(s, i);
}

/// A group that is read is well-formed.
pub proof fn lemma_group(s: Seq<u8>, i: int)
    requires
        0 <= i <= s.len(),
    ensures
        grammar::group(s, i) matches Ok((t, j)) ==> well_formed_term(t),
    decreases s.len() - i, 0nat,
{
    reveal_strlit("(");
    match grammar::expect(s, i, ascii("("@)) {
        Ok(j) => {
            lemma_expression(s, j);
        },
        Err(_) => {},
    }
}

/// A function application that is read is well-formed.
pub proof fn lemma_application(s: Seq<u8>, i: int)
    requires
        0 <= i <= s.len(),
    ensures
        grammar::function_application(s, i) matches Ok((t, j)) ==> well_formed_term(t),
    decreases s.len() - i, 0nat,
{
    reveal_strlit("(");
    lemma_name(s, i);
    match grammar::name(s, i) {
        Ok((n, j)) => {
            grammar::lemma_skip_bounds(s, j);
            match grammar::expect(s, grammar::skip_space(s, j), ascii("("@)) {
                Ok(k) => {
                    lemma_expressions(s, k);
                },
                Err(_) => {},
            }
        },
        Err(_) => {},
    }
}

/// The expressions of a list that is read are well-formed.
pub proof fn lemma_expressions(s: Seq<u8>, i: int)
    requires
        0 <= i <= s.len(),
    ensures
        all_well_formed(grammar::expressions(s, i).0),
    decreases s.len() - i, 3nat,
{
    lemma_expression(s, i);
    match grammar::beyond(s, i, grammar::expression(s, i)) {
        Ok((e, j)) => {
            lemma_more_expressions(s, j);
            let rest = grammar::more_expressions(s, j).0;
            assert forall|k: int| 0 <= k < (seq![e] + rest).len() implies well_formed_expression(
                #[trigger] (seq![e] + rest)[k],
            ) by {
                if k > 0 {
                    assert((seq![e] + rest)[k] == rest[k - 1]);
                }
            }
        },
        Err(_) => {},
    }
}

/// The expressions that are read behind the first of a list are well-formed.
pub proof fn lemma_more_expressions(s: Seq<u8>, i: int)
    requires
        0 <= i <= s.len(),
    ensures
        all_well_formed(grammar::more_expressions(s, i).0),
    decreases s.len() - i, 0nat,
{
    reveal_strlit(",");
    grammar::lemma_skip_bounds(s, i);
    match grammar::expect(s, grammar::skip_space(s, i), ascii(","@)) {
        Ok(j) => {
            lemma_expression(s, j);
            match grammar::beyond(s, j, grammar::expression(s, j)) {
                Ok((e, k)) => {
                    lemma_more_expressions(s, k);
                    let rest = grammar::more_expressions(s, k).0;
                    assert forall|n: int|
                        0 <= n < (seq![e] + rest).len() implies well_formed_expression(
                        #[trigger] (seq![e] + rest)[n],
                    ) by {
                        if n > 0 {
                            assert((seq![e] + rest)[n] == rest[n - 1]);
                        }
                    }
                },
                Err(_) => {},
            }
        },
        Err(_) => {},
    }
}

/// A match that is read is well-formed.
#[verifier::rlimit(40)]
pub proof fn lemma_match(s: Seq<u8>, i: int)
    requires
        0 <= i <= s.len(),
    ensures
        grammar::match_(s, i) matches Ok((t, j)) ==> well_formed_term(t),
    decreases s.len() - i, 0nat,
{
    reveal_strlit("match ");
    reveal_strlit("{");
    grammar::lemma_skip_bounds(s, i);
    match grammar::expect(s, grammar::skip_space(s, i), ascii("match "@)) {
        Ok(j) => {
            lemma_expression(s, j);
            match grammar::beyond(s, j, grammar::expression(s, j)) {
                Ok((with, k)) => {
                    grammar::lemma_skip_bounds(s, k);
                    match grammar::expect(s, grammar::skip_space(s, k), ascii("{"@)) {
                        Ok(l) => {
                            lemma_clauses(s, l);
                            lemma_clauses_parts(grammar::match_clauses(s, l).0);
                        },
                        Err(_) => {},
                    }
                },
                Err(_) => {},
            }
        },
        Err(_) => {},
    }
}

/// The clauses that are read are well-formed.
pub proof fn lemma_clauses(s: Seq<u8>, i: int)
    requires
        0 <= i <= s.len(),
    ensures
        clauses_well_formed(grammar::match_clauses(s, i).0),
    decreases s.len() - i, 4nat,
{
    lemma_clause(s, i);
    match grammar::beyond(s, i, grammar::match_clause(s, i)) {
        Ok((c, j)) => {
            lemma_more_clauses(s, j);
            let rest = grammar::more_match_clauses(s, j).0;
            assert forall|k: int| 0 <= k < (seq![c] + rest).len() implies well_formed_expression(
                (#[trigger] (seq![c] + rest)[k]).1,
            ) && ((seq![c] + rest)[k].0 matches Some(m) ==> well_formed_expression(m)) by {
                if k > 0 {
                    assert((seq![c] + rest)[k] == rest[k - 1]);
                }
            }
        },
        Err(_) => {},
    }
}

/// The clauses that are read behind the first are well-formed.
pub proof fn lemma_more_clauses(s: Seq<u8>, i: int)
    requires
        0 <= i <= s.len(),
    ensures
        clauses_well_formed(grammar::more_match_clauses(s, i).0),
    decreases s.len() - i, 0nat,
{
    reveal_strlit(",");
    grammar::lemma_skip_bounds(s, i);
    match grammar::expect(s, grammar::skip_space(s, i), ascii(","@)) {
        Ok(j) => {
            lemma_clause(s, j);
            match grammar::beyond(s, j, grammar::match_clause(s, j)) {
                Ok((c, k)) => {
                    lemma_more_clauses(s, k);
                    let rest = grammar::more_match_clauses(s, k).0;
                    assert forall|n: int|
                        0 <= n < (seq![c] + rest).len() implies well_formed_expression(
                        (#[trigger] (seq![c] + rest)[n]).1,
                    ) && ((seq![c] + rest)[n].0 matches Some(m) ==> well_formed_expression(m)) by {
                        if n > 0 {
                            assert((seq![c] + rest)[n] == rest[n - 1]);
                        }
                    }
                },
                Err(_) => {},
            }
        },
        Err(_) => {},
    }
}

/// A clause that is read is well-formed.
#[verifier::rlimit(40)]
pub proof fn lemma_clause(s: Seq<u8>, i: int)
    requires
        0 <= i <= s.len(),
    ensures
        grammar::match_clause(s, i) matches Ok((c, j)) ==> well_formed_expression(c.1) && (
        c.0 matches Some(m) ==> well_formed_expression(m)),
    decreases s.len() - i, 3nat,
{
    reveal_strlit("_");
    reveal_strlit("=>");
    grammar::lemma_skip_bounds(s, i);
    lemma_expression(s, i);
    let head: grammar::Parsed<Option<Expr>> = match grammar::beyond(
        s,
        i,
        grammar::expression(s, i),
    ) {
        Ok((e, j)) => Ok((Some(e), j)),
        Err(_) => match grammar::expect(s, grammar::skip_space(s, i), ascii("_"@)) {
            Ok(j) => Ok((None, grammar::skip_space(s, j))),
            Err(e) => Err(e),
        },
    };
    match head {
        Ok((matcher, j)) => {
            if i < j <= s.len() {
                grammar::lemma_skip_bounds(s, j);
                match grammar::expect(s, grammar::skip_space(s, j), ascii("=>"@)) {
                    Ok(k) => {
                        lemma_expression(s, k);
                    },
                    Err(_) => {},
                }
            }
        },
        Err(_) => {},
    }
}

} // verus!

verus! {

/// Every name of the list is a name of the grammar.
pub open spec fn all_valid(names: Seq<Ident>) -> bool {
    forall|k: int| 0 <= k < names.len() ==> valid_name(#[trigger] names[k])
}

/// The names that are read behind the first of a list are names of the
/// grammar.
proof fn lemma_more_names(s: Seq<u8>, i: int)
    requires
        0 <= i <= s.len(),
    ensures
        all_valid(grammar::more_names(s, i).0),
        i <= grammar::more_names(s, i).1 <= s.len(),
    decreases s.len() - i,
{
    reveal_strlit(",");
    grammar::lemma_skip_bounds(s, i);
    match grammar::expect(s, grammar::skip_space(s, i), ascii(","@)) {
        Ok(j) => {
            grammar::lemma_skip_bounds(s, j);
            lemma_name(s, grammar::skip_space(s, j));
            match grammar::name(s, grammar::skip_space(s, j)) {
                Ok((n, k)) => {
                    lemma_more_names(s, k);
                    let rest = grammar::more_names(s, k).0;
                    assert forall|m: int| 0 <= m < (seq![n] + rest).len() implies valid_name(
                        #[trigger] (seq![n] + rest)[m],
                    ) by {
                        if m > 0 {
                            assert((seq![n] + rest)[m] == rest[m - 1]);
                        }
                    }
                },
                Err(_) => {},
            }
        },
        Err(_) => {},
    }
}

/// The names of a list that is read are names of the grammar.
proof fn lemma_names(s: Seq<u8>, i: int)
    requires
        0 <= i <= s.len(),
    ensures
        all_valid(grammar::names(s, i).0),
        i <= grammar::names(s, i).1 <= s.len(),
{
    lemma_name(s, i);
    match grammar::name(s, i) {
        Ok((n, j)) => {
            lemma_more_names(s, j);
            let rest = grammar::more_names(s, j).0;
            assert forall|m: int| 0 <= m < (seq![n] + rest).len() implies valid_name(
                #[trigger] (seq![n] + rest)[m],
            ) by {
                if m > 0 {
                    assert((seq![n] + rest)[m] == rest[m - 1]);
                }
            }
        },
        Err(_) => {},
    }
}

/// The expression of a definition that is read is well-formed.
proof fn lemma_definition(s: Seq<u8>, i: int)
    requires
        0 <= i <= s.len(),
    ensures
        grammar::definition(s, i) matches Ok((e, j)) ==> well_formed_expression(e),
{
    grammar::lemma_skip_bounds(s, i);
    match grammar::expect(s, grammar::skip_space(s, i), ascii("="@)) {
        Ok(j) => {
            lemma_expression(s, j);
        },
        Err(_) => {},
    }
}

/// A statement that is read is well-formed.
#[verifier::rlimit(40)]
pub proof fn lemma_statement(s: Seq<u8>, i: int)
    requires
        0 <= i <= s.len(),
    ensures
        grammar::statement(s, i) matches Ok((st, j)) ==> well_formed_statement(st),
{
    lemma_name(s, i);
    match grammar::name(s, i) {
        Ok((n, j)) => {
            grammar::lemma_skip_bounds(s, j);
            let k = grammar::skip_space(s, j);
            if k < s.len() && s[k] == ('(' as u8) {
                grammar::lemma_skip_bounds(s, k + 1);
                lemma_names(s, grammar::skip_space(s, k + 1));
                let l = grammar::names(s, grammar::skip_space(s, k + 1)).1;
                grammar::lemma_skip_bounds(s, l);
                match grammar::expect(s, grammar::skip_space(s, l), ascii(")"@)) {
                    Ok(m) => {
                        lemma_definition(s, m);
                    },
                    Err(_) => {},
                }
            } else {
                lemma_definition(s, k);
            }
        },
        Err(_) => {},
    }
}

/// The statements that are read are well-formed.
pub proof fn lemma_statements(s: Seq<u8>, i: int)
    requires
        0 <= i <= s.len(),
    ensures
        forall|k: int|
            0 <= k < grammar::statements(s, i).0.len() ==> well_formed_statement(
                #[trigger] grammar::statements(s, i).0[k],
            ),
        i <= grammar::statements(s, i).1 <= s.len(),
    decreases s.len() - i,
{
    grammar::lemma_skip_bounds(s, i);
    let start = grammar::skip_space(s, i);
    lemma_statement(s, start);
    match grammar::beyond(s, start, grammar::statement(s, start)) {
        Ok((st, j)) => {
            lemma_statements(s, j);
            let rest = grammar::statements(s, j).0;
            assert forall|k: int| 0 <= k < (seq![st] + rest).len() implies well_formed_statement(
                #[trigger] (seq![st] + rest)[k],
            ) by {
                if k > 0 {
                    assert((seq![st] + rest)[k] == rest[k - 1]);
                }
            }
        },
        Err(_) => {},
    }
}

/// The names of a declaration that is read are names of the grammar.
proof fn lemma_declaration(s: Seq<u8>, i: int, keyword: Seq<u8>)
    requires
        0 <= i <= s.len(),
    ensures
        grammar::declaration(s, i, keyword) matches Ok((names, j)) ==> all_valid(names) && i <= j
            <= s.len(),
{
    reveal_strlit(";");
    grammar::lemma_skip_bounds(s, i);
    match grammar::expect(s, grammar::skip_space(s, i), keyword) {
        Ok(j) => {
            grammar::lemma_skip_bounds(s, j);
            lemma_names(s, grammar::skip_space(s, j));
            let k = grammar::names(s, grammar::skip_space(s, j)).1;
            grammar::lemma_skip_bounds(s, k);
        },
        Err(_) => {},
    }
}

/// A program that is read is well-formed.
pub proof fn lemma_program(s: Seq<u8>)
    ensures
        grammar::program(s) matches Ok(p) ==> well_formed(p),
{
    lemma_declaration(s, 0, ascii("inputs"@));
    match grammar::declaration(s, 0, ascii("inputs"@)) {
        Ok((inputs, i)) => {
            lemma_statements(s, i);
            let j = grammar::statements(s, i).1;
            lemma_declaration(s, j, ascii("outputs"@));
        },
        Err(_) => {},
    }
}

/// The text of a program that was read is read as the same program: what
/// the parser gives, rendered and parsed again, is unchanged.
pub proof fn lemma_reparse(s: Seq<u8>)
    ensures
        grammar::program(s) matches Ok(p) ==> grammar::program(
            ascii(crate::render::render_program(p)),
        ) == Ok::<Prog, Error>(p),
{
    lemma_program(s);
    match grammar::program(s) {
        Ok(p) => {
            crate::round_trip::lemma_round_trip(p);
        },
        Err(_) => {},
    }
}

} // verus!

//! The grammar, as functions from a text and a position to what is read there.
//!
//! Each function reads the production at position `i` of the text `s` and
//! gives the value read with the position behind it, or the production that
//! was not met. Choices are ordered and repetitions greedy.

use crate::model::{Arms, Expr, Ident, Operator, Prog, Stmt, Term};
use crate::parser::shunting_yard::Yard;
use crate::parser::Error;
use vstd::prelude::*;

verus! {

/// What a production gives: the value and the position behind it.
pub type Parsed<T> = Result<(T, int), Error>;

/// A match clause as read: the matcher, or `None` for the default, and the value.
pub type ClauseModel = (Option<Expr>, Expr);

/// The bytes of a text whose characters are all ASCII.
pub open spec fn ascii(w: Seq<char>) -> Seq<u8> {
    Seq::new(w.len(), |k: int| w[k] as u8)
}

/// The characters of a text given as ASCII bytes.
pub open spec fn chars(w: Seq<u8>) -> Seq<char> {
    Seq::new(w.len(), |k: int| w[k] as char)
}

/// Whether the byte is whitespace: a space, a tab, a carriage return or a
/// newline.
pub open spec fn is_space(b: u8) -> bool {
    b == (' ' as u8) || b == ('\t' as u8) || b == ('\r' as u8) || b == ('\n' as u8)
}

/// Whether the byte is a decimal digit.
pub open spec fn is_digit(b: u8) -> bool {
    ('0' as u8) <= b <= ('9' as u8)
}

/// Whether the byte is a lowercase letter.
pub open spec fn is_lower(b: u8) -> bool {
    ('a' as u8) <= b <= ('z' as u8)
}

/// Whether the byte may stand in a name: a lowercase letter or an underscore.
pub open spec fn is_name_byte(b: u8) -> bool {
    is_lower(b) || b == ('_' as u8)
}

/// The first position from `i` on that holds no whitespace.
pub open spec fn skip_space(s: Seq<u8>, i: int) -> int
    decreases s.len() - i,
{
    if 0 <= i < s.len() && is_space(s[i]) {
        skip_space(s, i + 1)
    } else {
        i
    }
}

/// The first position from `i` on that holds no digit.
pub open spec fn skip_digits(s: Seq<u8>, i: int) -> int
    decreases s.len() - i,
{
    if 0 <= i < s.len() && is_digit(s[i]) {
        skip_digits(s, i + 1)
    } else {
        i
    }
}

/// The first position from `i` on that holds no byte of a name.
pub open spec fn skip_name(s: Seq<u8>, i: int) -> int
    decreases s.len() - i,
{
    if 0 <= i < s.len() && is_name_byte(s[i]) {
        skip_name(s, i + 1)
    } else {
        i
    }
}

/// Reads the fixed text `word`.
pub open spec fn expect(s: Seq<u8>, i: int, word: Seq<u8>) -> Result<int, Error> {
    let n = if word.len() <= s.len() - i {
        word.len() as int
    } else {
        s.len() - i
    };
    if s.subrange(i, i + n) != word.take(n) {
        Err(Error::Token)
    } else if n < word.len() {
        Err(Error::Incomplete)
    } else {
        Ok(i + n)
    }
}

/// The words that are no names.
pub open spec fn is_reserved(w: Seq<u8>) -> bool {
    w == ascii("inputs"@) || w == ascii("outputs"@) || w == ascii("if"@) || w == ascii("match"@)
        || w == ascii("_"@)
}

/// Reads a name: a lowercase letter, then lowercase letters and underscores,
/// as many as there are; a reserved word is none.
pub open spec fn name(s: Seq<u8>, i: int) -> Parsed<Ident> {
    if i >= s.len() {
        Err(Error::Incomplete)
    } else if !is_lower(s[i]) {
        Err(Error::Name)
    } else {
        let j = skip_name(s, i + 1);
        if is_reserved(s.subrange(i, j)) {
            Err(Error::Name)
        } else {
            Ok((chars(s.subrange(i, j)), j))
        }
    }
}

/// The number that the decimal digits from `from` up to `to` stand for.
pub open spec fn decimal(s: Seq<u8>, from: int, to: int) -> nat
    decreases to - from,
{
    if to <= from {
        0
    } else {
        (decimal(s, from, to - 1) * 10 + (s[to - 1] - ('0' as u8))) as nat
    }
}

/// Reads an integer literal: an optional `-`, then digits, as many as there
/// are. Its value must fit in 64 bits.
pub open spec fn integer(s: Seq<u8>, i: int) -> Parsed<i64> {
    if i >= s.len() {
        Err(Error::Incomplete)
    } else {
        let negative = s[i] == ('-' as u8);
        let from = if negative {
            i + 1
        } else {
            i
        };
        if from >= s.len() {
            Err(Error::Incomplete)
        } else if !is_digit(s[from]) {
            Err(Error::Integer)
        } else {
            let to = skip_digits(s, from);
            let value = if negative {
                -decimal(s, from, to)
            } else {
                decimal(s, from, to) as int
            };
            if i64::MIN <= value <= i64::MAX {
                Ok((value as i64, to))
            } else {
                Err(Error::Integer)
            }
        }
    }
}

/// Reads an operator sign.
pub open spec fn operator(s: Seq<u8>, i: int) -> Parsed<Operator> {
    if i >= s.len() {
        Err(Error::Incomplete)
    } else if s[i] == ('+' as u8) {
        Ok((Operator::Add, i + 1))
    } else if s[i] == ('-' as u8) {
        Ok((Operator::Subtract, i + 1))
    } else if s[i] == ('*' as u8) {
        Ok((Operator::Multiply, i + 1))
    } else if s[i] == ('/' as u8) {
        Ok((Operator::Divide, i + 1))
    } else {
        Err(Error::Operator)
    }
}

/// Reads a variable: a name that no `(` follows. Whitespace behind the name is
/// read too.
pub open spec fn variable_substitution(s: Seq<u8>, i: int) -> Parsed<Ident> {
    match name(s, i) {
        Err(e) => Err(e),
        Ok((n, j)) => {
            let k = skip_space(s, j);
            if k >= s.len() {
                Err(Error::Incomplete)
            } else if s[k] == ('(' as u8) {
                Err(Error::Variable)
            } else {
                Ok((n, k))
            }
        },
    }
}

/// The result, if it lies beyond `i` and within the text. A production that
/// is met reads at least one byte, so nothing else ever comes.
pub open spec fn beyond<T>(s: Seq<u8>, i: int, r: Parsed<T>) -> Parsed<T> {
    match r {
        Ok((_, j)) => if i < j <= s.len() {
            r
        } else {
            Err(Error::Incomplete)
        },
        Err(_) => r,
    }
}

/// The positions that `skip_space`, `skip_digits` and `skip_name` give lie
/// between the start and the end of the text.
pub proof fn lemma_skip_bounds(s: Seq<u8>, i: int)
    requires
        0 <= i <= s.len(),
    ensures
        i <= skip_space(s, i) <= s.len(),
        i <= skip_digits(s, i) <= s.len(),
        i <= skip_name(s, i) <= s.len(),
    decreases s.len() - i,
{
    if i < s.len() {
        lemma_skip_bounds(s, i + 1);
    }
}

} // verus!

verus! {

/// The value of the default, if the clauses end with the one default among
/// them: the last clause holds no matcher, and every clause before it holds
/// one.
pub open spec fn default_of(clauses: Seq<ClauseModel>) -> Option<Expr> {
    if clauses.len() > 0 && clauses.last().0 is None && forall|k: int|
        0 <= k < clauses.len() - 1 ==> (#[trigger] clauses[k]).0 is Some {
        Some(clauses.last().1)
    } else {
        None
    }
}

/// The clauses that hold a matcher, in order.
pub open spec fn matchers_of(clauses: Seq<ClauseModel>) -> Seq<(Expr, Expr)>
    decreases clauses.len(),
{
    if clauses.len() == 0 {
        Seq::empty()
    } else {
        let before = matchers_of(clauses.drop_last());
        match clauses.last().0 {
            Some(matcher) => before.push((matcher, clauses.last().1)),
            None => before,
        }
    }
}

/// Reads the end of a match: a comma if there is one, then `}`. Whitespace
/// behind it is read too.
pub open spec fn match_end(s: Seq<u8>, i: int) -> Result<int, Error> {
    let j = match expect(s, skip_space(s, i), ascii(","@)) {
        Ok(j) => j,
        Err(_) => i,
    };
    match expect(s, skip_space(s, j), ascii("}"@)) {
        Err(e) => Err(e),
        Ok(k) => Ok(skip_space(s, k)),
    }
}

/// Reads an expression: an operand, then operators and operands in turn, as
/// many as there are, resolved by precedence. Whitespace around each is read
/// too.
pub open spec fn expression(s: Seq<u8>, i: int) -> Parsed<Expr>
    decreases s.len() - i, 2int,
    when 0 <= i <= s.len()
{
    let start = skip_space(s, i);
    proof {
        lemma_skip_bounds(s, i);
    }
    match beyond(s, start, operand(s, start)) {
        Err(e) => Err(e),
        Ok((first, j)) => {
            proof {
                lemma_skip_bounds(s, j);
            }
            Ok(expression_tail(s, skip_space(s, j), Yard::new(first)))
        },
    }
}

/// Reads the operators and operands that follow the start of an expression.
pub open spec fn expression_tail(s: Seq<u8>, i: int, yard: Yard) -> (Expr, int)
    decreases s.len() - i, 0int,
    when 0 <= i <= s.len()
{
    match operator(s, i) {
        Err(_) => (yard.finish(), i),
        Ok((op, j)) => {
            proof {
                lemma_skip_bounds(s, j);
            }
            let k = skip_space(s, j);
            match beyond(s, k, operand(s, k)) {
                Err(_) => (yard.finish(), i),
                Ok((next, l)) => {
                    proof {
                        lemma_skip_bounds(s, l);
                    }
                    expression_tail(s, skip_space(s, l), yard.push(op, next))
                },
            }
        },
    }
}

/// Reads an operand: the first that is met of an integer, a group, a
/// variable, a function application and a match.
pub open spec fn operand(s: Seq<u8>, i: int) -> Parsed<Term>
    decreases s.len() - i, 1int,
    when 0 <= i <= s.len()
{
    match integer(s, i) {
        Ok((n, j)) => Ok((Term::I64(n), j)),
        Err(_) => match group(s, i) {
            Ok(r) => Ok(r),
            Err(_) => match variable_substitution(s, i) {
                Ok((n, j)) => Ok((Term::VarSubstitution(n), j)),
                Err(_) => match function_application(s, i) {
                    Ok(r) => Ok(r),
                    Err(_) => match match_(s, i) {
                        Ok(r) => Ok(r),
                        Err(_) => Err(Error::Operand),
                    },
                },
            },
        },
    }
}

/// Reads an expression in parentheses.
pub open spec fn group(s: Seq<u8>, i: int) -> Parsed<Term>
    decreases s.len() - i, 0int,
    when 0 <= i <= s.len()
{
    proof {
        reveal_strlit("(");
    }
    match expect(s, i, ascii("("@)) {
        Err(e) => Err(e),
        Ok(j) => match expression(s, j) {
            Err(e) => Err(e),
            Ok((e, k)) => match expect(s, k, ascii(")"@)) {
                Err(e) => Err(e),
                Ok(l) => Ok((Term::Group(Box::new(e)), l)),
            },
        },
    }
}

/// Reads a function application: a name, then the arguments in parentheses.
pub open spec fn function_application(s: Seq<u8>, i: int) -> Parsed<Term>
    decreases s.len() - i, 0int,
    when 0 <= i <= s.len()
{
    match name(s, i) {
        Err(e) => Err(e),
        Ok((n, j)) => {
            proof {
                lemma_skip_bounds(s, i + 1);
                lemma_skip_bounds(s, j);
            }
            match expect(s, skip_space(s, j), ascii("("@)) {
                Err(e) => Err(e),
                Ok(k) => {
                    let (args, l) = expressions(s, k);
                    match expect(s, skip_space(s, l), ascii(")"@)) {
                        Err(e) => Err(e),
                        Ok(m) => Ok((Term::FnApplication(n, args), skip_space(s, m))),
                    }
                },
            }
        },
    }
}

/// Reads expressions separated by commas, as many as there are.
pub open spec fn expressions(s: Seq<u8>, i: int) -> (Seq<Expr>, int)
    decreases s.len() - i, 3int,
    when 0 <= i <= s.len()
{
    match beyond(s, i, expression(s, i)) {
        Err(_) => (Seq::empty(), i),
        Ok((e, j)) => {
            let (rest, k) = more_expressions(s, j);
            (seq![e] + rest, k)
        },
    }
}

/// Reads the commas and expressions that follow the first expression of a list.
pub open spec fn more_expressions(s: Seq<u8>, i: int) -> (Seq<Expr>, int)
    decreases s.len() - i, 0int,
    when 0 <= i <= s.len()
{
    proof {
        lemma_skip_bounds(s, i);
        reveal_strlit(",");
    }
    match expect(s, skip_space(s, i), ascii(","@)) {
        Err(_) => (Seq::empty(), i),
        Ok(j) => match beyond(s, j, expression(s, j)) {
            Err(_) => (Seq::empty(), i),
            Ok((e, k)) => {
                let (rest, l) = more_expressions(s, k);
                (seq![e] + rest, l)
            },
        },
    }
}

/// Reads a match: the keyword, the scrutinee, and the clauses in braces, of
/// which the last, and no other, is the default. A comma may follow it.
pub open spec fn match_(s: Seq<u8>, i: int) -> Parsed<Term>
    decreases s.len() - i, 0int,
    when 0 <= i <= s.len()
{
    proof {
        lemma_skip_bounds(s, i);
        reveal_strlit("match ");
    }
    match expect(s, skip_space(s, i), ascii("match "@)) {
        Err(e) => Err(e),
        Ok(j) => match beyond(s, j, expression(s, j)) {
            Err(e) => Err(e),
            Ok((with, k)) => {
                proof {
                    lemma_skip_bounds(s, k);
                }
                match expect(s, skip_space(s, k), ascii("{"@)) {
                    Err(e) => Err(e),
                    Ok(l) => {
                        let (clauses, m) = match_clauses(s, l);
                        match default_of(clauses) {
                            None => Err(Error::MatchDefault),
                            Some(default) => match match_end(s, m) {
                                Err(e) => Err(e),
                                Ok(n) => Ok(
                                    (
                                        Term::Match(
                                            Box::new(
                                                Arms {
                                                    with,
                                                    clauses: matchers_of(clauses),
                                                    default,
                                                },
                                            ),
                                        ),
                                        n,
                                    ),
                                ),
                            },
                        }
                    },
                }
            },
        },
    }
}

/// Reads match clauses separated by commas, as many as there are.
pub open spec fn match_clauses(s: Seq<u8>, i: int) -> (Seq<ClauseModel>, int)
    decreases s.len() - i, 4int,
    when 0 <= i <= s.len()
{
    match beyond(s, i, match_clause(s, i)) {
        Err(_) => (Seq::empty(), i),
        Ok((c, j)) => {
            let (rest, k) = more_match_clauses(s, j);
            (seq![c] + rest, k)
        },
    }
}

/// Reads the commas and clauses that follow the first clause of a match.
pub open spec fn more_match_clauses(s: Seq<u8>, i: int) -> (Seq<ClauseModel>, int)
    decreases s.len() - i, 0int,
    when 0 <= i <= s.len()
{
    proof {
        lemma_skip_bounds(s, i);
        reveal_strlit(",");
    }
    match expect(s, skip_space(s, i), ascii(","@)) {
        Err(_) => (Seq::empty(), i),
        Ok(j) => match beyond(s, j, match_clause(s, j)) {
            Err(_) => (Seq::empty(), i),
            Ok((c, k)) => {
                let (rest, l) = more_match_clauses(s, k);
                (seq![c] + rest, l)
            },
        },
    }
}

/// Reads a match clause: an expression or `_`, then `=>` and the value.
pub open spec fn match_clause(s: Seq<u8>, i: int) -> Parsed<ClauseModel>
    decreases s.len() - i, 3int,
    when 0 <= i <= s.len()
{
    proof {
        lemma_skip_bounds(s, i);
    }
    let head: Parsed<Option<Expr>> = match beyond(s, i, expression(s, i)) {
        Ok((e, j)) => Ok((Some(e), j)),
        Err(_) => match expect(s, skip_space(s, i), ascii("_"@)) {
            Ok(j) => Ok((None, skip_space(s, j))),
            Err(e) => Err(e),
        },
    };
    match head {
        Err(e) => Err(e),
        Ok((matcher, j)) => {
            proof {
                if 0 <= j <= s.len() {
                    lemma_skip_bounds(s, j);
                }
            }
            if !(i < j <= s.len()) {
                Err(Error::Incomplete)
            } else {
                match expect(s, skip_space(s, j), ascii("=>"@)) {
                    Err(e) => Err(e),
                    Ok(k) => match expression(s, k) {
                        Err(e) => Err(e),
                        Ok((value, l)) => Ok(((matcher, value), l)),
                    },
                }
            }
        },
    }
}

} // verus!

verus! {

/// Reads names separated by commas, as many as there are.
pub open spec fn names(s: Seq<u8>, i: int) -> (Seq<Ident>, int) {
    match name(s, i) {
        Err(_) => (Seq::empty(), i),
        Ok((n, j)) => {
            let (rest, k) = more_names(s, j);
            (seq![n] + rest, k)
        },
    }
}

/// Reads the commas and names that follow the first name of a list.
pub open spec fn more_names(s: Seq<u8>, i: int) -> (Seq<Ident>, int)
    decreases s.len() - i,
    when 0 <= i <= s.len()
{
    proof {
        lemma_skip_bounds(s, i);
        reveal_strlit(",");
    }
    match expect(s, skip_space(s, i), ascii(","@)) {
        Err(_) => (Seq::empty(), i),
        Ok(j) => {
            proof {
                lemma_skip_bounds(s, j);
                if skip_space(s, j) < s.len() {
                    lemma_skip_bounds(s, skip_space(s, j) + 1);
                }
            }
            match name(s, skip_space(s, j)) {
                Err(_) => (Seq::empty(), i),
                Ok((n, k)) => {
                    let (rest, l) = more_names(s, k);
                    (seq![n] + rest, l)
                },
            }
        },
    }
}

/// Reads what follows the head of a statement: `=`, the expression and `;`.
pub open spec fn definition(s: Seq<u8>, i: int) -> Parsed<Expr> {
    match expect(s, skip_space(s, i), ascii("="@)) {
        Err(e) => Err(e),
        Ok(j) => match expression(s, j) {
            Err(e) => Err(e),
            Ok((e, k)) => match expect(s, k, ascii(";"@)) {
                Err(e) => Err(e),
                Ok(l) => Ok((e, l)),
            },
        },
    }
}

/// Reads a statement: a name, the parameters in parentheses if it defines a
/// function, then `=`, the expression and `;`.
pub open spec fn statement(s: Seq<u8>, i: int) -> Parsed<Stmt> {
    match name(s, i) {
        Err(e) => Err(e),
        Ok((n, j)) => {
            let k = skip_space(s, j);
            if k < s.len() && s[k] == ('(' as u8) {
                let (params, l) = names(s, skip_space(s, k + 1));
                match expect(s, skip_space(s, l), ascii(")"@)) {
                    Err(e) => Err(e),
                    Ok(m) => match definition(s, m) {
                        Err(e) => Err(e),
                        Ok((e, o)) => Ok((Stmt::FnDefinition(n, params, e), o)),
                    },
                }
            } else {
                match definition(s, k) {
                    Err(e) => Err(e),
                    Ok((e, o)) => Ok((Stmt::VarAssignment(n, e), o)),
                }
            }
        },
    }
}

/// Reads statements, as many as there are, with whitespace before each.
pub open spec fn statements(s: Seq<u8>, i: int) -> (Seq<Stmt>, int)
    decreases s.len() - i,
    when 0 <= i <= s.len()
{
    proof {
        lemma_skip_bounds(s, i);
    }
    let start = skip_space(s, i);
    match beyond(s, start, statement(s, start)) {
        Err(_) => (Seq::empty(), i),
        Ok((st, j)) => {
            let (rest, k) = statements(s, j);
            (seq![st] + rest, k)
        },
    }
}

/// Reads a keyword, the names it declares and `;`.
pub open spec fn declaration(s: Seq<u8>, i: int, keyword: Seq<u8>) -> Parsed<Seq<Ident>> {
    match expect(s, skip_space(s, i), keyword) {
        Err(e) => Err(e),
        Ok(j) => {
            let (declared, k) = names(s, skip_space(s, j));
            match expect(s, skip_space(s, k), ascii(";"@)) {
                Err(e) => Err(e),
                Ok(l) => Ok((declared, l)),
            }
        },
    }
}

/// Reads a program: the inputs, the statements and the outputs. Only
/// whitespace may follow.
pub open spec fn program(s: Seq<u8>) -> Result<Prog, Error> {
    match declaration(s, 0, ascii("inputs"@)) {
        Err(e) => Err(e),
        Ok((inputs, i)) => {
            let (body, j) = statements(s, i);
            match declaration(s, j, ascii("outputs"@)) {
                Err(e) => Err(e),
                Ok((outputs, k)) => if skip_space(s, k) == s.len() {
                    Ok(Prog { inputs, statements: body, outputs })
                } else {
                    Err(Error::Trailing)
                },
            }
        },
    }
}

} // verus!

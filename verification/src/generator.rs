//! Random programs for testing, drawn from a source of randomness.

use crate::ast::{
    names_view, Expression, Match, Matcher, Name, Operand, Program, Statement, Statements,
};
use crate::model::{Expr, Ident, Operator, Term};
use crate::parser::grammar;
use crate::parser::grammar::{ascii, chars};
use crate::parser::lexical;
use crate::resolution::{
    check_arguments, check_clauses, check_expression, check_term, names_set, scope_after,
    textually_scoped, Arities,
};
use crate::round_trip::{plain, plain_expression, plain_statement, plain_term, valid_name};
use crate::text::push_char;
use quickcheck::Arbitrary;
use quickcheck::Gen;
use vstd::prelude::*;

verus! {

/// `quickcheck::Gen`, the generator of random numbers; nothing of its state
/// is known.
#[verifier::external_type_specification]
#[verifier::external_body]
pub struct ExGen(Gen);

/// `Gen::new`: a generator seeded at random. Nothing is claimed of it.
pub assume_specification[ Gen::new ](size: usize) -> (r: Gen)
;

/// `Gen::from_size_and_seed`: a generator seeded with the number given.
/// Nothing is claimed of it.
pub assume_specification[ Gen::from_size_and_seed ](size: usize, seed: u64) -> (r: Gen)
;

/// `Gen::choose`: one of the items of the slice, or `None` if the slice is
/// empty.
pub assume_specification<'a, T>[ Gen::choose::<T> ](g: &mut Gen, slice: &'a [T]) -> (r: Option<
    &'a T,
>)
    ensures
        slice@.len() == 0 ==> r is None,
        slice@.len() > 0 ==> r is Some && slice@.contains(*r->Some_0),
;

/// `<i64 as quickcheck::Arbitrary>::arbitrary`: an integer drawn from the
/// generator. Nothing is claimed of it.
#[verifier::external_body]
fn arbitrary_i64(g: &mut Gen) -> (r: i64) {
    i64::arbitrary(g)
}

/// Where the draws come from, and the size that what is generated stays
/// within: no list is longer and nothing nests deeper.
pub struct Source {
    /// The generator of random numbers.
    pub gen: Gen,
    /// The size.
    pub size: usize,
}

impl Source {
    /// A source of the size, seeded at random.
    pub fn new(size: usize) -> (r: Source)
        ensures
            r.size == size,
    {
        Source { gen: Gen::new(size), size }
    }

    /// A source of the size that draws the same whenever the seed is the same.
    pub fn from_size_and_seed(size: usize, seed: u64) -> (r: Source)
        ensures
            r.size == size,
    {
        Source { gen: Gen::from_size_and_seed(size, seed), size }
    }
}

/// What is left of a size at a level of nesting.
pub open spec fn remaining(size: usize, level: usize) -> usize {
    if size > level {
        (size - level) as usize
    } else {
        0
    }
}

/// The expression nests at most `depth` deep. Operations, function
/// applications and matches count; groups do not.
pub open spec fn nests_within(e: Expr, depth: nat) -> bool
    decreases e, 0nat,
{
    match e {
        Expr::Operand(t) => term_nests_within(t, depth),
        Expr::Operation(_, l, r) => {
            &&& depth >= 1
            &&& nests_within(*l, (depth - 1) as nat)
            &&& nests_within(*r, (depth - 1) as nat)
        },
    }
}

/// The operand nests at most `depth` deep.
pub open spec fn term_nests_within(t: Term, depth: nat) -> bool
    decreases t, 0nat,
{
    match t {
        Term::I64(_) => true,
        Term::VarSubstitution(_) => true,
        Term::Group(e) => nests_within(*e, depth),
        Term::FnApplication(_, args) => {
            &&& depth >= 1
            &&& forall|k: int|
                0 <= k < args.len() ==> nests_within(#[trigger] args[k], (depth - 1) as nat)
        },
        Term::Match(m) => {
            &&& depth >= 1
            &&& nests_within(m.with, (depth - 1) as nat)
            &&& nests_within(m.default, (depth - 1) as nat)
            &&& forall|k: int|
                0 <= k < m.clauses.len() ==> nests_within(
                    (#[trigger] m.clauses[k]).0,
                    (depth - 1) as nat,
                ) && nests_within(m.clauses[k].1, (depth - 1) as nat)
        },
    }
}

/// What nests at most so deep nests at most deeper.
pub proof fn lemma_nests_deeper(e: Expr, depth: nat, deeper: nat)
    requires
        nests_within(e, depth),
        depth <= deeper,
    ensures
        nests_within(e, deeper),
    decreases e, 0nat,
{
    match e {
        Expr::Operand(t) => {
            lemma_term_nests_deeper(t, depth, deeper);
        },
        Expr::Operation(_, l, r) => {
            lemma_nests_deeper(*l, (depth - 1) as nat, (deeper - 1) as nat);
            lemma_nests_deeper(*r, (depth - 1) as nat, (deeper - 1) as nat);
        },
    }
}

/// An operand that nests at most so deep nests at most deeper.
pub proof fn lemma_term_nests_deeper(t: Term, depth: nat, deeper: nat)
    requires
        term_nests_within(t, depth),
        depth <= deeper,
    ensures
        term_nests_within(t, deeper),
    decreases t, 0nat,
{
    match t {
        Term::Group(e) => {
            lemma_nests_deeper(*e, depth, deeper);
        },
        Term::FnApplication(_, args) => {
            assert forall|k: int| 0 <= k < args.len() implies nests_within(
                #[trigger] args[k],
                (deeper - 1) as nat,
            ) by {
                lemma_nests_deeper(args[k], (depth - 1) as nat, (deeper - 1) as nat);
            }
        },
        Term::Match(m) => {
            lemma_nests_deeper(m.with, (depth - 1) as nat, (deeper - 1) as nat);
            lemma_nests_deeper(m.default, (depth - 1) as nat, (deeper - 1) as nat);
            assert forall|k: int| 0 <= k < m.clauses.len() implies nests_within(
                (#[trigger] m.clauses[k]).0,
                (deeper - 1) as nat,
            ) && nests_within(m.clauses[k].1, (deeper - 1) as nat) by {
                lemma_nests_deeper(m.clauses[k].0, (depth - 1) as nat, (deeper - 1) as nat);
                lemma_nests_deeper(m.clauses[k].1, (depth - 1) as nat, (deeper - 1) as nat);
            }
        },
        _ => {},
    }
}

/// No two of the clauses have the same matcher.
pub open spec fn distinct_matchers(clauses: Seq<(Expr, Expr)>) -> bool {
    forall|a: int, b: int| 0 <= a < b < clauses.len() ==> clauses[a].0 != clauses[b].0
}

/// The number, or one if it is zero.
pub open spec fn at_least_one(n: usize) -> nat {
    if n == 0 {
        1
    } else {
        n as nat
    }
}

/// The statement stays within the budget: its expression nests less deep,
/// and is an operand where the budget is at most 2, and a function has at
/// most so many parameters, or one, no two of them with the same name.
pub open spec fn statement_within(s: crate::model::Stmt, budget: usize) -> bool {
    match s {
        crate::model::Stmt::VarAssignment(_, e) => {
            &&& nests_within(e, remaining(budget, 1) as nat)
            &&& budget <= 2 ==> e is Operand
        },
        crate::model::Stmt::FnDefinition(_, params, e) => {
            &&& nests_within(e, remaining(budget, 1) as nat)
            &&& budget <= 2 ==> e is Operand
            &&& params.len() <= at_least_one(budget)
            &&& forall|a: int, b: int| 0 <= a < b < params.len() ==> params[a] != params[b]
        },
    }
}

/// The list holds what the other holds, in the same places, and behind it
/// what was added.
pub open spec fn extends(after: Seq<Name>, before: Seq<Name>) -> bool {
    before.len() <= after.len() && after.take(before.len() as int) == before
}

/// The numbers from 0 on that are below `n`, in order.
fn numbers_below(n: usize) -> (r: Vec<usize>)
    ensures
        r@.len() == n,
        forall|k: int| 0 <= k < n ==> r@[k] == k,
{
    let mut numbers: Vec<usize> = Vec::new();
    let mut i: usize = 0;
    while i < n
        invariant
            i <= n,
            numbers.len() == i,
            forall|k: int| 0 <= k < i ==> numbers@[k] == k,
        decreases n - i,
    {
        numbers.push(i);
        i += 1;
    }
    numbers
}

/// The number that was drawn, or 0 where there was none to draw.
fn number_drawn(choice: Option<&usize>) -> (r: usize)
    ensures
        r == match choice {
            Some(number) => *number,
            None => 0,
        },
{
    match choice {
        Some(number) => *number,
        None => 0,
    }
}

/// A number below `n`, drawn from the source: one of the numbers from 0 on
/// that are below `n`.
pub fn below(g: &mut Source, n: usize) -> (r: usize)
    requires
        n > 0,
    ensures
        final(g).size == old(g).size,
        r < n,
{
    let numbers = numbers_below(n);
    number_drawn(g.gen.choose(numbers.as_slice()))
}

} // verus!

verus! {

/// The arities of the functions listed; of two entries of one name the later
/// one holds.
pub open spec fn signatures(fns: Seq<(Name, usize)>) -> Arities
    decreases fns.len(),
{
    if fns.len() == 0 {
        Map::empty()
    } else {
        signatures(fns.drop_last()).insert(fns.last().0@, fns.last().1 as nat)
    }
}

/// No two of the functions listed have the same name.
pub open spec fn distinct_functions(fns: Seq<(Name, usize)>) -> bool {
    forall|i: int, j: int| 0 <= i < j < fns.len() ==> fns[i].0@ != fns[j].0@
}

/// No two of the names are the same.
pub open spec fn distinct_names(names: Seq<Name>) -> bool {
    forall|i: int, j: int| 0 <= i < j < names.len() ==> names[i]@ != names[j]@
}

/// Every name listed is a name of the grammar.
pub open spec fn valid_names(names: Seq<Name>) -> bool {
    forall|k: int| 0 <= k < names.len() ==> valid_name((#[trigger] names[k])@)
}

/// The variables and functions can be used in a program: their names are
/// names of the grammar, and no two functions have the same name.
pub open spec fn usable(vars: Seq<Name>, fns: Seq<(Name, usize)>) -> bool {
    &&& valid_names(vars)
    &&& distinct_functions(fns)
    &&& forall|k: int| 0 <= k < fns.len() ==> valid_name((#[trigger] fns[k]).0@)
}

/// The set of the names listed.
pub open spec fn scope_of(names: Seq<Name>) -> Set<Ident> {
    names_set(names_view(names))
}

/// Among functions of distinct names each one listed has the arity listed.
pub proof fn lemma_signature(fns: Seq<(Name, usize)>, k: int)
    requires
        distinct_functions(fns),
        0 <= k < fns.len(),
    ensures
        signatures(fns).contains_key(fns[k].0@),
        signatures(fns)[fns[k].0@] == fns[k].1,
    decreases fns.len(),
{
    if k < fns.len() - 1 {
        lemma_signature(fns.drop_last(), k);
    }
}

/// A name is among those listed exactly if it is in their set.
pub proof fn lemma_scope_of(names: Seq<Name>, n: Ident)
    ensures
        scope_of(names).contains(n) <==> exists|k: int|
            0 <= k < names.len() && (#[trigger] names[k])@ == n,
{
    let models = names_view(names);
    if models.contains(n) {
        let k = choose|k: int| 0 <= k < models.len() && models[k] == n;
        assert(names[k]@ == n);
    }
    if exists|k: int| 0 <= k < names.len() && (#[trigger] names[k])@ == n {
        let k = choose|k: int| 0 <= k < names.len() && (#[trigger] names[k])@ == n;
        assert(models[k] == n);
    }
}

/// The operator at a position in the order of precedence, loosest first; the
/// tightest for every position behind the last.
pub fn operator_at(position: usize) -> (r: Operator)
    ensures
        r.precedence() == if position < 3 {
            position as int
        } else {
            3
        },
{
    match position {
        0 => Operator::Subtract,
        1 => Operator::Add,
        2 => Operator::Divide,
        _ => Operator::Multiply,
    }
}

/// One of the four operators, drawn from the source.
pub fn arbitrary_operator(g: &mut Source) -> (r: Operator)
    ensures
        final(g).size == old(g).size,
{
    operator_at(below(g, 4))
}

/// The bytes from `first` up to `last`, then `extra` if there is one.
fn alphabet(first: u8, last: u8, extra: Option<u8>) -> (r: Vec<u8>)
    requires
        first <= last,
    ensures
        r.len() > 0,
        forall|k: int|
            0 <= k < r.len() ==> first <= #[trigger] r@[k] <= last || Some(r@[k]) == extra,
{
    let mut bytes: Vec<u8> = Vec::new();
    let mut b = first;
    bytes.push(b);
    while b < last
        invariant
            first <= b <= last,
            bytes.len() > 0,
            forall|k: int| 0 <= k < bytes.len() ==> first <= #[trigger] bytes@[k] <= last,
        decreases last - b,
    {
        b += 1;
        bytes.push(b);
    }
    if let Some(e) = extra {
        bytes.push(e);
    }
    bytes
}

/// A name of at most as many characters as are left of the size at the
/// level, or of one: a lowercase letter, then lowercase letters and
/// underscores. A reserved word that is drawn has its last letter replaced
/// by an underscore.
#[verifier::rlimit(40)]
pub fn arbitrary_name(g: &mut Source, level: usize) -> (r: Name)
    ensures
        final(g).size == old(g).size,
        valid_name(r@),
        r@.len() <= at_least_one(remaining(old(g).size, level)),
{
    let size = g.size;
    let size = if size > level {
        size - level
    } else {
        1
    };
    let len = 1 + below(g, size);
    let letters = alphabet(97, 122, None);
    let letters_and_underscore = alphabet(97, 122, Some(95));
    let mut bytes: Vec<u8> = Vec::new();
    let mut i: usize = 0;
    while i < len
        invariant
            g.size == old(g).size,
            i <= len,
            bytes.len() == i,
            letters.len() > 0,
            letters_and_underscore.len() > 0,
            forall|k: int| 0 <= k < letters.len() ==> 97 <= #[trigger] letters@[k] <= 122,
            forall|k: int|
                0 <= k < letters_and_underscore.len() ==> 97
                    <= #[trigger] letters_and_underscore@[k] <= 122 || letters_and_underscore@[k]
                    == 95,
            i > 0 ==> grammar::is_lower(bytes@[0]),
            forall|k: int| 0 <= k < i ==> grammar::is_name_byte(#[trigger] bytes@[k]),
        decreases len - i,
    {
        let choice = if i == 0 {
            g.gen.choose(letters.as_slice())
        } else {
            g.gen.choose(letters_and_underscore.as_slice())
        };
        let b: u8 = match choice {
            Some(b) => *b,
            None => 97,
        };
        bytes.push(b);
        i += 1;
    }
    proof {
        reveal_strlit("inputs");
        reveal_strlit("outputs");
        reveal_strlit("if");
        reveal_strlit("match");
        reveal_strlit("_");
    }
    if lexical::is_word(bytes.as_slice(), 0, len, "inputs") || lexical::is_word(
        bytes.as_slice(),
        0,
        len,
        "outputs",
    ) || lexical::is_word(bytes.as_slice(), 0, len, "if") || lexical::is_word(
        bytes.as_slice(),
        0,
        len,
        "match",
    ) {
        // A reserved word becomes a name by an underscore in place of its
        // last letter.
        let ghost word = bytes@;
        assert(word.subrange(0, len as int) =~= word);
        assert(len >= 2);
        bytes.pop();
        bytes.push(95);
        assert(!grammar::is_reserved(bytes@)) by {
            assert(bytes@.len() == len);
            assert(bytes@[len - 1] == 95);
            assert(bytes@[0] == word[0]);
        }
    } else {
        assert(bytes@.subrange(0, len as int) =~= bytes@);
        assert(bytes@ != ascii("_"@)) by {
            assert(bytes@[0] != 95);
        }
    }
    let mut text = String::new();
    let mut k: usize = 0;
    while k < bytes.len()
        invariant
            k <= bytes.len(),
            text@ == chars(bytes@.take(k as int)),
        decreases bytes.len() - k,
    {
        push_char(&mut text, bytes[k] as char);
        assert(chars(bytes@.take(k + 1)) =~= chars(bytes@.take(k as int)).push(
            bytes@[k as int] as char,
        ));
        k += 1;
    }
    assert(bytes@.take(k as int) =~= bytes@);
    assert(ascii(text@) =~= bytes@);
    Name(text)
}

} // verus!

verus! {

/// An expression that nests at most `budget` deep and uses only the variables
/// and functions given.
fn expression_within(g: &mut Source, budget: usize, vars: &Vec<Name>, fns: &Vec<(Name, usize)>) -> (r:
    Expression)
    requires
        usable(vars@, fns@),
    ensures
        final(g).size == old(g).size,
        plain_expression(r@),
        check_expression(r@, scope_of(vars@), signatures(fns@)) is Ok,
        nests_within(r@, budget as nat),
        budget <= 1 ==> r is Operand,
    decreases budget, 1nat,
{
    let inner = if budget > 0 {
        budget - 1
    } else {
        0
    };
    if budget <= 1 {
        let operand = operand_within(g, inner, vars, fns);
        proof {
            lemma_term_nests_deeper(operand@, inner as nat, budget as nat);
        }
        return Expression::Operand(operand);
    }
    if below(g, 2) == 0 {
        let operand = operand_within(g, inner, vars, fns);
        proof {
            lemma_term_nests_deeper(operand@, inner as nat, budget as nat);
        }
        Expression::Operand(operand)
    } else {
        let operator = arbitrary_operator(g);
        let left = side_within(g, operator, inner, vars, fns);
        let right = side_within(g, operator, inner, vars, fns);
        Expression::Operation(operator, Box::new(left), Box::new(right))
    }
}

/// One side of an operation: an expression, put in a group if it is an
/// operation of lower precedence than the operator.
fn side_within(
    g: &mut Source,
    operator: Operator,
    budget: usize,
    vars: &Vec<Name>,
    fns: &Vec<(Name, usize)>,
) -> (r: Expression)
    requires
        usable(vars@, fns@),
    ensures
        final(g).size == old(g).size,
        plain_expression(r@),
        check_expression(r@, scope_of(vars@), signatures(fns@)) is Ok,
        !crate::render::needs_parentheses(operator, r@),
        nests_within(r@, budget as nat),
    decreases budget, 2nat,
{
    let side = expression_within(g, budget, vars, fns);
    let lower = match &side {
        Expression::Operation(inner, _, _) => inner.rank() < operator.rank(),
        Expression::Operand(_) => false,
    };
    if lower {
        let group = Operand::Group(Box::new(side));
        assert(check_term(group@, scope_of(vars@), signatures(fns@)) is Ok);
        assert(plain_term(group@));
        assert(term_nests_within(group@, budget as nat));
        Expression::Operand(group)
    } else {
        side
    }
}

/// An operand that nests at most `budget` deep and uses only the variables
/// and functions given.
#[verifier::rlimit(40)]
fn operand_within(g: &mut Source, budget: usize, vars: &Vec<Name>, fns: &Vec<(Name, usize)>) -> (r:
    Operand)
    requires
        usable(vars@, fns@),
    ensures
        final(g).size == old(g).size,
        plain_term(r@),
        check_term(r@, scope_of(vars@), signatures(fns@)) is Ok,
        term_nests_within(r@, budget as nat),
        budget <= 1 ==> r is I64,
        !(r is Group),
        vars@.len() == 0 ==> !(r is VarSubstitution),
        fns@.len() == 0 ==> !(r is FnApplication),
    decreases budget, 0nat,
{
    if budget <= 1 {
        return Operand::I64(arbitrary_i64(&mut g.gen));
    }
    let kind = below(g, 4);
    if kind == 0 {
        Operand::I64(arbitrary_i64(&mut g.gen))
    } else if kind == 1 {
        match g.gen.choose(vars.as_slice()) {
            Some(name) => {
                proof {
                    lemma_scope_of(vars@, name@);
                    let k = choose|k: int| 0 <= k < vars@.len() && vars@[k] == *name;
                    assert(vars@[k]@ == name@);
                }
                Operand::VarSubstitution(name.clone())
            },
            None => Operand::I64(arbitrary_i64(&mut g.gen)),
        }
    } else if kind == 2 {
        match g.gen.choose(fns.as_slice()) {
            Some(function) => {
                proof {
                    let k = choose|k: int| 0 <= k < fns@.len() && fns@[k] == *function;
                    lemma_signature(fns@, k);
                }
                let count = function.1;
                let mut args: Vec<Expression> = Vec::new();
                let mut i: usize = 0;
                while i < count
                    invariant
                        g.size == old(g).size,
                        usable(vars@, fns@),
                        budget > 1,
                        i <= count,
                        args.len() == i,
                        forall|k: int| 0 <= k < i ==> plain_expression((#[trigger] args@[k])@),
                        forall|k: int|
                            0 <= k < i ==> nests_within(
                                (#[trigger] args@[k])@,
                                (budget - 1) as nat,
                            ),
                        forall|k: int|
                            0 <= k < i ==> check_expression(
                                (#[trigger] args@[k])@,
                                scope_of(vars@),
                                signatures(fns@),
                            ) is Ok,
                    decreases count - i,
                {
                    let arg = expression_within(g, budget - 1, vars, fns);
                    args.push(arg);
                    i += 1;
                }
                let r = Operand::FnApplication(function.0.clone(), args);
                proof {
                    crate::ast::lemma_operand_view(r);
                    lemma_arguments_checked(
                        crate::ast::expressions_view(args@),
                        0,
                        scope_of(vars@),
                        signatures(fns@),
                    );
                }
                r
            },
            None => Operand::I64(arbitrary_i64(&mut g.gen)),
        }
    } else {
        let m = match_within(g, budget - 1, vars, fns);
        let r = Operand::Match(m);
        proof {
            crate::ast::lemma_operand_view(r);
            lemma_term_nests_deeper(r@, (budget - 1) as nat, budget as nat);
        }
        r
    }
}

/// Arguments that each pass the check pass it together.
proof fn lemma_arguments_checked(
    args: Seq<crate::model::Expr>,
    from: nat,
    vars: Set<Ident>,
    fns: Arities,
)
    requires
        forall|k: int| from <= k < args.len() ==> check_expression(#[trigger] args[k], vars, fns) is Ok,
    ensures
        check_arguments(args, from, vars, fns) is Ok,
    decreases args.len() - from,
{
    if from < args.len() {
        lemma_arguments_checked(args, from + 1, vars, fns);
    }
}

/// Clauses that each pass the check pass it together.
proof fn lemma_clauses_checked(m: crate::model::Arms, from: nat, vars: Set<Ident>, fns: Arities)
    requires
        forall|k: int|
            from <= k < m.clauses.len() ==> check_expression((#[trigger] m.clauses[k]).0, vars, fns) is Ok
                && check_expression(m.clauses[k].1, vars, fns) is Ok,
    ensures
        check_clauses(m, from, vars, fns) is Ok,
    decreases m.clauses.len() - from,
{
    if from < m.clauses.len() {
        lemma_clauses_checked(m, from + 1, vars, fns);
    }
}

/// A matcher that nests at most `budget` deep: an expression one level
/// further down.
fn matcher_within(g: &mut Source, budget: usize, vars: &Vec<Name>, fns: &Vec<(Name, usize)>) -> (r:
    Matcher)
    requires
        usable(vars@, fns@),
    ensures
        final(g).size == old(g).size,
        plain_expression(r@),
        check_expression(r@, scope_of(vars@), signatures(fns@)) is Ok,
        nests_within(r@, budget as nat),
        budget <= 2 ==> r@ is Operand,
    decreases budget, 2nat,
{
    let inner = if budget > 0 {
        budget - 1
    } else {
        0
    };
    let value = expression_within(g, inner, vars, fns);
    proof {
        lemma_nests_deeper(value@, inner as nat, budget as nat);
    }
    Matcher::Value(value)
}

/// Clauses that a match of the budget may hold, over the variables and
/// functions given: each part is plain, uses only what is given and nests
/// less deep than the budget, and no two clauses have the same matcher.
pub open spec fn clauses_within(
    clauses: Seq<(Matcher, Expression)>,
    budget: usize,
    vars: Seq<Name>,
    fns: Seq<(Name, usize)>,
) -> bool {
    &&& forall|k: int|
        0 <= k < clauses.len() ==> plain_expression((#[trigger] clauses[k]).0@)
            && plain_expression(clauses[k].1@)
    &&& forall|k: int|
        0 <= k < clauses.len() ==> check_expression(
            (#[trigger] clauses[k]).0@,
            scope_of(vars),
            signatures(fns),
        ) is Ok && check_expression(clauses[k].1@, scope_of(vars), signatures(fns)) is Ok
    &&& forall|k: int|
        0 <= k < clauses.len() ==> nests_within((#[trigger] clauses[k]).0@, (budget - 1) as nat)
            && nests_within(clauses[k].1@, (budget - 1) as nat)
    &&& forall|a: int, b: int|
        0 <= a < b < clauses.len() ==> (#[trigger] clauses[a]).0@ != (#[trigger] clauses[b]).0@
    &&& budget <= 3 ==> forall|k: int|
        0 <= k < clauses.len() ==> (#[trigger] clauses[k]).0@ is Operand
    &&& budget <= 2 ==> forall|k: int|
        0 <= k < clauses.len() ==> (#[trigger] clauses[k]).1@ is Operand
}

/// The parts of a match of a small budget are operands: the scrutinee, the
/// values and the default where the budget is at most 2, the matchers where
/// it is at most 3.
pub open spec fn operands_within(m: crate::model::Arms, budget: nat) -> bool {
    &&& budget <= 2 ==> m.with is Operand && m.default is Operand && forall|k: int|
        0 <= k < m.clauses.len() ==> (#[trigger] m.clauses[k]).1 is Operand
    &&& budget <= 3 ==> forall|k: int|
        0 <= k < m.clauses.len() ==> (#[trigger] m.clauses[k]).0 is Operand
}

/// Draws a matcher and, unless one of the clauses has it, a value, and adds
/// the two as a clause.
fn add_clause(
    g: &mut Source,
    budget: usize,
    vars: &Vec<Name>,
    fns: &Vec<(Name, usize)>,
    clauses: &mut Vec<(Matcher, Expression)>,
)
    requires
        budget >= 1,
        usable(vars@, fns@),
        clauses_within(old(clauses)@, budget, vars@, fns@),
    ensures
        final(g).size == old(g).size,
        clauses_within(final(clauses)@, budget, vars@, fns@),
        final(clauses)@.len() == old(clauses)@.len() || (final(clauses)@.len() == old(
            clauses,
        )@.len() + 1 && final(clauses)@.drop_last() == old(clauses)@),
        final(clauses)@.len() == old(clauses)@.len() ==> final(clauses)@ == old(clauses)@,
        old(clauses)@.len() == 0 ==> final(clauses)@.len() == 1,
    decreases budget, 3nat,
{
    let matcher = matcher_within(g, budget - 1, vars, fns);
    if !has_matcher(clauses, &matcher) {
        let value = expression_within(g, budget - 1, vars, fns);
        clauses.push((matcher, value));
        assert(clauses@.drop_last() =~= old(clauses)@);
    }
}

/// A match that nests at most `budget` deep, with at most `budget + 1`
/// clauses, no two with the same matcher.
#[verifier::rlimit(40)]
fn match_within(g: &mut Source, budget: usize, vars: &Vec<Name>, fns: &Vec<(Name, usize)>) -> (r:
    Match)
    requires
        budget >= 1,
        usable(vars@, fns@),
    ensures
        final(g).size == old(g).size,
        plain_term(Term::Match(Box::new(r@))),
        check_term(Term::Match(Box::new(r@)), scope_of(vars@), signatures(fns@)) is Ok,
        term_nests_within(Term::Match(Box::new(r@)), budget as nat),
        1 <= r@.clauses.len() <= budget + 1,
        distinct_matchers(r@.clauses),
        operands_within(r@, budget as nat),
    decreases budget, 4nat,
{
    let mut clauses: Vec<(Matcher, Expression)> = Vec::new();
    add_clause(g, budget, vars, fns, &mut clauses);
    let mut i: usize = 0;
    while i < budget
        invariant
            g.size == old(g).size,
            budget >= 1,
            usable(vars@, fns@),
            i <= budget,
            1 <= clauses.len() <= i + 1,
            clauses_within(clauses@, budget, vars@, fns@),
        decreases budget - i,
    {
        add_clause(g, budget, vars, fns, &mut clauses);
        i += 1;
    }
    let with = expression_within(g, budget - 1, vars, fns);
    let default = expression_within(g, budget - 1, vars, fns);
    let r = Match::new(with, clauses, default);
    proof {
        lemma_clauses_checked(r@, 0, scope_of(vars@), signatures(fns@));
    }
    r
}

/// Whether one of the clauses has the matcher.
fn has_matcher(clauses: &Vec<(Matcher, Expression)>, matcher: &Matcher) -> (r: bool)
    ensures
        r == exists|k: int| 0 <= k < clauses.len() && (#[trigger] clauses@[k]).0@ == matcher@,
{
    let Matcher::Value(wanted) = matcher;
    let mut i: usize = 0;
    while i < clauses.len()
        invariant
            i <= clauses.len(),
            matcher@ == wanted@,
            forall|k: int| 0 <= k < i ==> (#[trigger] clauses@[k]).0@ != matcher@,
        decreases clauses.len() - i,
    {
        let Matcher::Value(held) = &clauses[i].0;
        if held.same(wanted) {
            return true;
        }
        i += 1;
    }
    false
}

} // verus!

verus! {

/// Whether the name is among those listed.
fn has_name(names: &Vec<Name>, name: &Name) -> (r: bool)
    ensures
        r == scope_of(names@).contains(name@),
{
    let mut i: usize = 0;
    while i < names.len()
        invariant
            i <= names.len(),
            forall|k: int| 0 <= k < i ==> (#[trigger] names@[k])@ != name@,
        decreases names.len() - i,
    {
        if names[i].same(name) {
            proof {
                lemma_scope_of(names@, name@);
            }
            return true;
        }
        i += 1;
    }
    proof {
        lemma_scope_of(names@, name@);
    }
    false
}

/// Adds the name to those listed, unless it is among them.
#[verifier::rlimit(40)]
fn add_name(names: &mut Vec<Name>, name: Name)
    requires
        distinct_names(old(names)@),
    ensures
        distinct_names(final(names)@),
        scope_of(final(names)@) == scope_of(old(names)@).insert(name@),
        valid_names(old(names)@) && valid_name(name@) ==> valid_names(final(names)@),
        final(names)@ == if scope_of(old(names)@).contains(name@) {
            old(names)@
        } else {
            old(names)@.push(name)
        },
{
    if !has_name(names, &name) {
        let ghost n = name@;
        proof {
            lemma_scope_of(names@, n);
        }
        names.push(name);
        assert(names_view(names@) =~= names_view(old(names)@).push(n));
        assert(scope_of(names@) =~= scope_of(old(names)@).insert(n)) by {
            assert forall|m: Ident| scope_of(names@).contains(m) <==> scope_of(old(names)@).contains(
                m,
            ) || m == n by {
                lemma_scope_of(names@, m);
                lemma_scope_of(old(names)@, m);
                if scope_of(old(names)@).contains(m) {
                    let k = choose|k: int|
                        0 <= k < old(names)@.len() && (#[trigger] old(names)@[k])@ == m;
                    assert(names@[k]@ == m);
                }
                if m == n {
                    assert(names@[names@.len() - 1]@ == m);
                }
            }
        }
    } else {
        assert(scope_of(names@) =~= scope_of(names@).insert(name@));
    }
}

/// The functions listed but the one of the name.
#[verifier::rlimit(40)]
fn without(fns: &Vec<(Name, usize)>, name: &Name) -> (r: Vec<(Name, usize)>)
    requires
        distinct_functions(fns@),
    ensures
        distinct_functions(r@),
        signatures(r@) == signatures(fns@).remove(name@),
        forall|k: int| 0 <= k < r.len() ==> (#[trigger] r@[k]).0@ != name@,
        forall|k: int|
            0 <= k < r.len() ==> exists|j: int|
                0 <= j < fns.len() && (#[trigger] fns@[j]).0@ == (#[trigger] r@[k]).0@,
{
    let mut kept: Vec<(Name, usize)> = Vec::new();
    let mut i: usize = 0;
    assert(fns@.take(0) =~= Seq::empty());
    assert(signatures(kept@) =~= signatures(fns@.take(0)).remove(name@));
    while i < fns.len()
        invariant
            distinct_functions(fns@),
            distinct_functions(kept@),
            i <= fns.len(),
            signatures(kept@) == signatures(fns@.take(i as int)).remove(name@),
            forall|k: int| 0 <= k < kept.len() ==> (#[trigger] kept@[k]).0@ != name@,
            forall|k: int|
                0 <= k < kept.len() ==> exists|j: int|
                    0 <= j < i && (#[trigger] fns@[j]).0@ == (#[trigger] kept@[k]).0@,
        decreases fns.len() - i,
    {
        let ghost before = kept@;
        assert(fns@.take(i + 1).drop_last() =~= fns@.take(i as int));
        if !fns[i].0.same(name) {
            kept.push((fns[i].0.clone(), fns[i].1));
            assert(kept@.drop_last() =~= before);
            assert(signatures(kept@) =~= signatures(fns@.take(i + 1)).remove(name@));
            assert forall|k: int| 0 <= k < kept.len() implies exists|j: int|
                0 <= j < i + 1 && (#[trigger] fns@[j]).0@ == (#[trigger] kept@[k]).0@ by {
                if k < before.len() {
                    let j = choose|j: int|
                        0 <= j < i && (#[trigger] fns@[j]).0@ == (#[trigger] before[k]).0@;
                    assert(fns@[j].0@ == kept@[k].0@);
                } else {
                    assert(fns@[i as int].0@ == kept@[k].0@);
                }
            }
            assert(distinct_functions(kept@)) by {
                assert forall|a: int, b: int| 0 <= a < b < kept@.len() implies kept@[a].0@
                    != kept@[b].0@ by {
                    if b == before.len() {
                        let j = choose|j: int|
                            0 <= j < i && (#[trigger] fns@[j]).0@ == (#[trigger] before[a]).0@;
                        assert(fns@[j].0@ != fns@[i as int].0@);
                    } else {
                        assert(before[a].0@ != before[b].0@);
                    }
                }
            }
        } else {
            assert(signatures(kept@) =~= signatures(fns@.take(i + 1)).remove(name@));
            assert forall|k: int| 0 <= k < kept.len() implies exists|j: int|
                0 <= j < i + 1 && (#[trigger] fns@[j]).0@ == (#[trigger] kept@[k]).0@ by {
                let j = choose|j: int|
                    0 <= j < i && (#[trigger] fns@[j]).0@ == (#[trigger] kept@[k]).0@;
                assert(fns@[j].0@ == kept@[k].0@);
            }
        }
        i += 1;
    }
    assert(fns@.take(i as int) =~= fns@);
    kept
}

/// A statement: an assignment of an expression over the variables and
/// functions in scope, or the definition of a function whose body sees its
/// parameters and the functions of other names. What it binds is added to
/// the scope.
#[verifier::rlimit(40)]
pub fn arbitrary_statement(
    g: &mut Source,
    level: usize,
    vars: &mut Vec<Name>,
    fns: &mut Vec<(Name, usize)>,
) -> (r: Statement)
    requires
        distinct_names(old(vars)@),
        usable(old(vars)@, old(fns)@),
    ensures
        final(g).size == old(g).size,
        distinct_names(final(vars)@),
        usable(final(vars)@, final(fns)@),
        plain_statement(r@),
        scope_after(seq![r@], 0, scope_of(old(vars)@), signatures(old(fns)@)) == Some(
            (scope_of(final(vars)@), signatures(final(fns)@)),
        ),
        statement_within(r@, remaining(old(g).size, level)),
        extends(final(vars)@, old(vars)@),
        r is VarAssignment ==> final(fns)@ == old(fns)@,
        r is FnDefinition ==> final(vars)@ == old(vars)@,
{
    let size = g.size;
    let budget = if size > level {
        size - level
    } else {
        0
    };
    let inner = if budget > 0 {
        budget - 1
    } else {
        0
    };
    if below(g, 2) == 0 {
        let name = arbitrary_name(g, 0);
        let e = expression_within(g, inner, vars, fns);
        let r = Statement::VarAssignment(name.clone(), e);
        add_name(vars, name);
        proof {
            reveal_with_fuel(scope_after, 2);
            assert(vars@.take(old(vars)@.len() as int) =~= old(vars)@);
        }
        r
    } else {
        let name = arbitrary_name(g, 0);
        let mut params: Vec<Name> = Vec::new();
        let wanted = if budget == 0 {
            below(g, 2)
        } else if budget == usize::MAX {
            below(g, budget)
        } else {
            below(g, budget + 1)
        };
        let mut i: usize = 0;
        while i < wanted
            invariant
                g.size == old(g).size,
                i <= wanted,
                params.len() <= i,
                distinct_names(params@),
                valid_names(params@),
            decreases wanted - i,
        {
            let param = arbitrary_name(g, 0);
            add_name(&mut params, param);
            i += 1;
        }
        let others = without(fns, &name);
        assert forall|k: int| 0 <= k < others@.len() implies valid_name(
            (#[trigger] others@[k]).0@,
        ) by {
            let j = choose|j: int|
                0 <= j < fns@.len() && (#[trigger] fns@[j]).0@ == (#[trigger] others@[k]).0@;
        }
        let body = expression_within(g, inner, &params, &others);
        let ghost before = signatures(fns@);
        let count = params.len();
        let mut defined = others;
        defined.push((name.clone(), count));
        assert(defined@.drop_last() =~= others@);
        assert(signatures(defined@) =~= before.insert(name@, count as nat));
        assert(usable(vars@, defined@)) by {
            assert forall|k: int| 0 <= k < defined@.len() implies valid_name(
                (#[trigger] defined@[k]).0@,
            ) by {
                if k < others@.len() {
                    assert(defined@[k] == others@[k]);
                }
            }
            assert forall|a: int, b: int| 0 <= a < b < defined@.len() implies defined@[a].0@
                != defined@[b].0@ by {
                assert(defined@[a] == others@[a]);
                if b < others@.len() {
                    assert(defined@[b] == others@[b]);
                }
            }
        }
        *fns = defined;
        let r = Statement::FnDefinition(name, params, body);
        proof {
            reveal_with_fuel(scope_after, 2);
            assert(names_view(params@).len() == params@.len());
            assert forall|a: int, b: int| 0 <= a < b < params@.len() implies names_view(
                params@,
            )[a] != names_view(params@)[b] by {
                assert(params@[a]@ != params@[b]@);
            }
            assert(vars@.take(old(vars)@.len() as int) =~= old(vars)@);
        }
        r
    }
}

} // verus!

verus! {

/// What is left of the source's size at a level of nesting.
fn budget_at(g: &Source, level: usize) -> (r: usize)
    ensures
        r == remaining(g.size, level),
{
    let size = g.size;
    if size > level {
        size - level
    } else {
        0
    }
}

/// The number behind `limit`, or the limit itself where the machine has no
/// number behind it.
fn next_after(limit: usize) -> (r: usize)
    ensures
        r == if limit == usize::MAX {
            limit
        } else {
            (limit + 1) as usize
        },
{
    if limit == usize::MAX {
        limit
    } else {
        limit + 1
    }
}

/// A number from 0 up to `limit`, drawn from the source.
fn up_to(g: &mut Source, limit: usize) -> (r: usize)
    ensures
        final(g).size == old(g).size,
        r <= limit,
{
    below(g, next_after(limit))
}

/// An expression over the variables and functions given, nested no deeper
/// than what is left of the source's size at the level.
pub fn arbitrary_expression(
    g: &mut Source,
    level: usize,
    vars: &Vec<Name>,
    fns: &Vec<(Name, usize)>,
) -> (r: Expression)
    requires
        usable(vars@, fns@),
    ensures
        final(g).size == old(g).size,
        plain_expression(r@),
        check_expression(r@, scope_of(vars@), signatures(fns@)) is Ok,
        nests_within(r@, remaining(old(g).size, level) as nat),
        remaining(old(g).size, level) <= 1 ==> r is Operand,
{
    let budget = budget_at(g, level);
    expression_within(g, budget, vars, fns)
}

/// An operand over the variables and functions given: an integer, one of
/// the variables, an application of one of the functions, or a match; never
/// a group.
pub fn arbitrary_operand(g: &mut Source, level: usize, vars: &Vec<Name>, fns: &Vec<(Name, usize)>) -> (r:
    Operand)
    requires
        usable(vars@, fns@),
    ensures
        final(g).size == old(g).size,
        plain_term(r@),
        check_term(r@, scope_of(vars@), signatures(fns@)) is Ok,
        term_nests_within(r@, remaining(old(g).size, level) as nat),
        remaining(old(g).size, level) <= 1 ==> r is I64,
        !(r is Group),
        vars@.len() == 0 ==> !(r is VarSubstitution),
        fns@.len() == 0 ==> !(r is FnApplication),
{
    let budget = budget_at(g, level);
    operand_within(g, budget, vars, fns)
}

/// A matcher over the variables and functions given.
pub fn arbitrary_matcher(g: &mut Source, level: usize, vars: &Vec<Name>, fns: &Vec<(Name, usize)>) -> (r:
    Matcher)
    requires
        usable(vars@, fns@),
    ensures
        final(g).size == old(g).size,
        plain_expression(r@),
        check_expression(r@, scope_of(vars@), signatures(fns@)) is Ok,
        nests_within(r@, remaining(old(g).size, level) as nat),
        remaining(old(g).size, level) <= 2 ==> r@ is Operand,
{
    let budget = budget_at(g, level);
    matcher_within(g, budget, vars, fns)
}

/// A match over the variables and functions given, no two of its clauses
/// with the same matcher.
pub fn arbitrary_match(g: &mut Source, level: usize, vars: &Vec<Name>, fns: &Vec<(Name, usize)>) -> (r:
    Match)
    requires
        usable(vars@, fns@),
    ensures
        final(g).size == old(g).size,
        plain_term(crate::model::Term::Match(Box::new(r@))),
        check_term(
            crate::model::Term::Match(Box::new(r@)),
            scope_of(vars@),
            signatures(fns@),
        ) is Ok,
        term_nests_within(
            Term::Match(Box::new(r@)),
            at_least_one(remaining(old(g).size, level)),
        ),
        1 <= r@.clauses.len() <= at_least_one(remaining(old(g).size, level)) + 1,
        distinct_matchers(r@.clauses),
        operands_within(r@, at_least_one(remaining(old(g).size, level))),
{
    let budget = budget_at(g, level);
    if budget == 0 {
        match_within(g, 1, vars, fns)
    } else {
        match_within(g, budget, vars, fns)
    }
}

/// Statements, at most as many as the source's size, each over what stands
/// before it. What they bind is added to the scope.
pub fn arbitrary_statements(g: &mut Source, vars: &mut Vec<Name>, fns: &mut Vec<(Name, usize)>) -> (r:
    Statements)
    requires
        distinct_names(old(vars)@),
        usable(old(vars)@, old(fns)@),
    ensures
        final(g).size == old(g).size,
        distinct_names(final(vars)@),
        usable(final(vars)@, final(fns)@),
        forall|k: int| 0 <= k < r@.len() ==> plain_statement(#[trigger] r@[k]),
        scope_after(r@, 0, scope_of(old(vars)@), signatures(old(fns)@)) == Some(
            (scope_of(final(vars)@), signatures(final(fns)@)),
        ),
        r@.len() <= old(g).size,
        forall|k: int|
            0 <= k < r@.len() ==> statement_within(#[trigger] r@[k], remaining(old(g).size, 1)),
        extends(final(vars)@, old(vars)@),
{
    let size = g.size;
    let wanted = up_to(g, size);
    let mut list: Vec<Statement> = Vec::new();
    let mut i: usize = 0;
    assert(crate::ast::statements_view(list@) =~= Seq::empty());
    assert(vars@.take(vars@.len() as int) =~= vars@);
    while i < wanted
        invariant
            g.size == old(g).size,
            i <= wanted,
            wanted <= g.size,
            list.len() == i,
            distinct_names(vars@),
            usable(vars@, fns@),
            extends(vars@, old(vars)@),
            forall|k: int|
                0 <= k < list@.len() ==> plain_statement(
                    #[trigger] crate::ast::statements_view(list@)[k],
                ),
            forall|k: int|
                0 <= k < list@.len() ==> statement_within(
                    #[trigger] crate::ast::statements_view(list@)[k],
                    remaining(g.size, 1),
                ),
            scope_after(
                crate::ast::statements_view(list@),
                0,
                scope_of(old(vars)@),
                signatures(old(fns)@),
            ) == Some((scope_of(vars@), signatures(fns@))),
        decreases wanted - i,
    {
        let ghost before = crate::ast::statements_view(list@);
        let ghost held = vars@;
        let statement = arbitrary_statement(g, 1, vars, fns);
        assert(vars@.take(old(vars)@.len() as int) =~= held.take(old(vars)@.len() as int));
        proof {
            crate::resolution::lemma_scope_after_push(
                before,
                statement@,
                0,
                scope_of(old(vars)@),
                signatures(old(fns)@),
            );
        }
        list.push(statement);
        assert(crate::ast::statements_view(list@) =~= before.push(list@[list@.len() - 1]@));
        i += 1;
    }
    Statements(list)
}

/// A program over the variables and functions given: inputs of distinct
/// names, statements that each use only what stands before them, and outputs
/// that are bound at the end.
#[verifier::rlimit(40)]
pub fn arbitrary_program(g: &mut Source, vars: &mut Vec<Name>, fns: &mut Vec<(Name, usize)>) -> (r:
    Program)
    requires
        distinct_names(old(vars)@),
        usable(old(vars)@, old(fns)@),
    ensures
        final(g).size == old(g).size,
        distinct_names(final(vars)@),
        usable(final(vars)@, final(fns)@),
        plain(r@),
        distinct_names(r.inputs@),
        distinct_names(r.outputs@),
        scope_after(
            r@.statements,
            0,
            scope_of(old(vars)@).union(names_set(r@.inputs)),
            signatures(old(fns)@),
        ) == Some((scope_of(final(vars)@), signatures(final(fns)@))),
        forall|k: int|
            0 <= k < r@.outputs.len() ==> scope_of(final(vars)@).contains(#[trigger] r@.outputs[k]),
        r@.inputs.len() <= old(g).size,
        r@.statements.len() <= old(g).size,
        r@.outputs.len() <= old(g).size,
        forall|k: int|
            0 <= k < r@.statements.len() ==> statement_within(
                #[trigger] r@.statements[k],
                remaining(old(g).size, 1),
            ),
        extends(final(vars)@, old(vars)@),
{
    let size = g.size;
    // Inputs of distinct names.
    let mut inputs: Vec<Name> = Vec::new();
    let wanted = up_to(g, size);
    let mut i: usize = 0;
    assert(scope_of(vars@) =~= scope_of(old(vars)@).union(scope_of(inputs@)));
    assert(vars@.take(vars@.len() as int) =~= vars@);
    while i < wanted
        invariant
            g.size == old(g).size,
            i <= wanted,
            inputs.len() <= i,
            extends(vars@, old(vars)@),
            distinct_names(inputs@),
            distinct_names(vars@),
            valid_names(inputs@),
            valid_names(vars@),
            fns@ == old(fns)@,
            scope_of(vars@) == scope_of(old(vars)@).union(scope_of(inputs@)),
        decreases wanted - i,
    {
        let input = arbitrary_name(g, 1);
        let ghost before = (scope_of(vars@), scope_of(inputs@));
        let ghost held = vars@;
        add_name(vars, input.clone());
        add_name(&mut inputs, input);
        assert(scope_of(vars@) =~= scope_of(old(vars)@).union(scope_of(inputs@)));
        assert(vars@.take(old(vars)@.len() as int) =~= held.take(old(vars)@.len() as int));
        i += 1;
    }
    let ghost held = vars@;
    let statements = arbitrary_statements(g, vars, fns);
    assert(vars@.take(old(vars)@.len() as int) =~= held.take(old(vars)@.len() as int));
    // Outputs drawn from the variables, none twice.
    let mut pool = crate::ast::clone_names(vars);
    proof {
        assert(names_view(pool@).len() == pool@.len());
        assert(names_view(vars@).len() == vars@.len());
        assert forall|k: int| 0 <= k < pool@.len() implies (#[trigger] pool@[k])@ == vars@[k]@ by {
            assert(names_view(pool@)[k] == pool@[k]@);
            assert(names_view(vars@)[k] == vars@[k]@);
        }
        assert forall|k: int| 0 <= k < pool@.len() implies scope_of(vars@).contains(
            (#[trigger] pool@[k])@,
        ) by {
            lemma_scope_of(vars@, pool@[k]@);
            assert(vars@[k]@ == pool@[k]@);
        }
    }
    let mut outputs: Vec<Name> = Vec::new();
    let wanted = up_to(g, size);
    let mut i: usize = 0;
    while i < wanted && pool.len() > 0
        invariant
            g.size == old(g).size,
            outputs.len() <= i <= wanted,
            distinct_names(pool@),
            distinct_names(outputs@),
            valid_names(pool@),
            valid_names(outputs@),
            forall|k: int| 0 <= k < pool@.len() ==> scope_of(vars@).contains((#[trigger] pool@[k])@),
            forall|k: int|
                0 <= k < outputs@.len() ==> scope_of(vars@).contains((#[trigger] outputs@[k])@),
            forall|a: int, b: int|
                0 <= a < pool@.len() && 0 <= b < outputs@.len() ==> (#[trigger] pool@[a])@
                    != (#[trigger] outputs@[b])@,
        decreases pool.len(),
    {
        let at = below(g, pool.len());
        let ghost before = pool@;
        let name = pool.remove(at);
        assert forall|k: int| 0 <= k < pool@.len() implies (#[trigger] pool@[k])@ != name@ by {
            if k < at {
                assert(pool@[k] == before[k]);
            } else {
                assert(pool@[k] == before[k + 1]);
            }
        }
        outputs.push(name);
        i += 1;
    }
    let r = Program::new(inputs, statements, outputs);
    assert forall|k: int| 0 <= k < r@.outputs.len() implies scope_of(vars@).contains(
        #[trigger] r@.outputs[k],
    ) && valid_name(r@.outputs[k]) by {
        assert(r@.outputs[k] == r.outputs@[k]@);
    }
    assert forall|k: int| 0 <= k < r@.inputs.len() implies valid_name(#[trigger] r@.inputs[k]) by {
        assert(r@.inputs[k] == r.inputs@[k]@);
    }
    assert(names_view(r.inputs@).len() == r.inputs@.len());
    assert(names_view(r.outputs@).len() == r.outputs@.len());
    r
}

impl Operator {
    /// One of the four operators.
    pub fn arbitrary(g: &mut Source) -> (r: Operator)
        ensures
            final(g).size == old(g).size,
    {
        arbitrary_operator(g)
    }
}

impl Name {
    /// A name as the grammar has it.
    pub fn arbitrary(g: &mut Source) -> (r: Name)
        ensures
            final(g).size == old(g).size,
            valid_name(r@),
            r@.len() <= at_least_one(old(g).size),
    {
        arbitrary_name(g, 0)
    }
}

impl Expression {
    /// An expression without variables or function applications.
    pub fn arbitrary(g: &mut Source) -> (r: Expression)
        ensures
            final(g).size == old(g).size,
            plain_expression(r@),
            check_expression(r@, Set::empty(), Map::empty()) is Ok,
            nests_within(r@, old(g).size as nat),
            old(g).size <= 1 ==> r is Operand,
    {
        let vars: Vec<Name> = Vec::new();
        let fns: Vec<(Name, usize)> = Vec::new();
        assert(scope_of(vars@) =~= Set::empty());
        arbitrary_expression(g, 0, &vars, &fns)
    }
}

impl Operand {
    /// An operand without variables or function applications: an integer or
    /// a match.
    pub fn arbitrary(g: &mut Source) -> (r: Operand)
        ensures
            final(g).size == old(g).size,
            plain_term(r@),
            check_term(r@, Set::empty(), Map::empty()) is Ok,
            term_nests_within(r@, old(g).size as nat),
            old(g).size <= 1 ==> r is I64,
            r is I64 || r is Match,
    {
        let vars: Vec<Name> = Vec::new();
        let fns: Vec<(Name, usize)> = Vec::new();
        assert(scope_of(vars@) =~= Set::empty());
        arbitrary_operand(g, 0, &vars, &fns)
    }
}

impl Matcher {
    /// A matcher without variables or function applications.
    pub fn arbitrary(g: &mut Source) -> (r: Matcher)
        ensures
            final(g).size == old(g).size,
            plain_expression(r@),
            check_expression(r@, Set::empty(), Map::empty()) is Ok,
            nests_within(r@, old(g).size as nat),
            old(g).size <= 2 ==> r@ is Operand,
    {
        let vars: Vec<Name> = Vec::new();
        let fns: Vec<(Name, usize)> = Vec::new();
        assert(scope_of(vars@) =~= Set::empty());
        arbitrary_matcher(g, 0, &vars, &fns)
    }
}

impl Match {
    /// A match without variables or function applications.
    pub fn arbitrary(g: &mut Source) -> (r: Match)
        ensures
            final(g).size == old(g).size,
            plain_term(crate::model::Term::Match(Box::new(r@))),
            check_term(crate::model::Term::Match(Box::new(r@)), Set::empty(), Map::empty()) is Ok,
            term_nests_within(Term::Match(Box::new(r@)), at_least_one(old(g).size)),
            1 <= r@.clauses.len() <= at_least_one(old(g).size) + 1,
            distinct_matchers(r@.clauses),
            operands_within(r@, at_least_one(old(g).size)),
    {
        let vars: Vec<Name> = Vec::new();
        let fns: Vec<(Name, usize)> = Vec::new();
        assert(scope_of(vars@) =~= Set::empty());
        arbitrary_match(g, 0, &vars, &fns)
    }
}

impl Statement {
    /// A statement that uses nothing from outside.
    pub fn arbitrary(g: &mut Source) -> (r: Statement)
        ensures
            final(g).size == old(g).size,
            plain_statement(r@),
            scope_after(seq![r@], 0, Set::empty(), Map::empty()) is Some,
            statement_within(r@, old(g).size),
    {
        let mut vars: Vec<Name> = Vec::new();
        let mut fns: Vec<(Name, usize)> = Vec::new();
        assert(scope_of(vars@) =~= Set::empty());
        arbitrary_statement(g, 0, &mut vars, &mut fns)
    }
}

impl Statements {
    /// Statements that each use only what stands before them.
    pub fn arbitrary(g: &mut Source) -> (r: Statements)
        ensures
            final(g).size == old(g).size,
            forall|k: int| 0 <= k < r@.len() ==> plain_statement(#[trigger] r@[k]),
            scope_after(r@, 0, Set::empty(), Map::empty()) is Some,
            r@.len() <= old(g).size,
            forall|k: int|
                0 <= k < r@.len() ==> statement_within(#[trigger] r@[k], remaining(old(g).size, 1)),
    {
        let mut vars: Vec<Name> = Vec::new();
        let mut fns: Vec<(Name, usize)> = Vec::new();
        assert(scope_of(vars@) =~= Set::empty());
        arbitrary_statements(g, &mut vars, &mut fns)
    }
}

impl Program {
    /// A program whose statements each use only what stands before them in
    /// the text, with inputs of distinct names and outputs that are bound.
    pub fn arbitrary(g: &mut Source) -> (r: Program)
        ensures
            final(g).size == old(g).size,
            textually_scoped(r@),
            plain(r@),
            distinct_names(r.inputs@),
            distinct_names(r.outputs@),
            r@.inputs.len() <= old(g).size,
            r@.statements.len() <= old(g).size,
            r@.outputs.len() <= old(g).size,
            forall|k: int|
                0 <= k < r@.statements.len() ==> statement_within(
                    #[trigger] r@.statements[k],
                    remaining(old(g).size, 1),
                ),
    {
        let mut vars: Vec<Name> = Vec::new();
        let mut fns: Vec<(Name, usize)> = Vec::new();
        assert(scope_of(vars@) =~= Set::empty());
        let r = arbitrary_program(g, &mut vars, &mut fns);
        assert(Set::<Ident>::empty().union(names_set(r@.inputs)) =~= names_set(r@.inputs));
        r
    }
}

} // verus!

//! A minimal arithmetic language: a program declares named inputs, a sequence
//! of assignments and function definitions, and named outputs. Values are
//! 64-bit signed integers.
//!
//! The crate holds the syntax tree, its text, a parser, a tree-walking
//! interpreter, the checks and the lowering that precede compilation, and a
//! generator of random programs. Every executable function is specified against a
//! mathematical model and proved to meet that specification:
//!
//! - [`model`] holds the values that contracts speak of, and [`ast`] the
//!   syntax tree with its views into the model;
//! - [`render`] defines the text of a tree, and [`parser`] reads text by the
//!   grammar in [`parser::grammar`];
//! - [`round_trip`], [`parsed`] and [`encoding`] prove that parsing inverts
//!   rendering;
//! - [`semantics`] defines what a program evaluates to, and [`interpreter`]
//!   evaluates it;
//! - [`resolution`] defines which programs use only what is bound, which
//!   [`compiler`] checks, and proves that such programs meet no unbound name
//!   when they run;
//! - [`lowering`] turns a checked program into the resolved code of
//!   [`code`], which gives what the program gives;
//! - [`generator`] draws random programs that use only what is bound where
//!   it is used.

pub mod ast;
pub mod code;
pub mod compiler;
pub mod encoding;
pub mod generator;
pub mod interpreter;
pub mod lowering;
pub mod model;
pub mod parsed;
pub mod parser;
pub mod render;
pub mod resolution;
pub mod round_trip;
pub mod semantics;
pub mod text;

pub use ast::{
    Expression, Match, Matcher, Name, Operand, Program, Statement, Statements, Token,
};
pub use model::Operator;

use vstd::prelude::*;

verus! {

/// What went wrong, and in which part.
#[derive(Debug, Clone, Copy, PartialEq, Eq, Structural)]
pub enum Error {
    /// The text is no program.
    ParseError(parser::Error),
    /// The program has no result on the inputs.
    InterpreterError(interpreter::Error),
    /// The program cannot be compiled.
    CompilerError(compiler::Error),
}

/// What interpreting a source text on the inputs gives, where function
/// applications may nest `depth` deep: the outputs of the program that the
/// text is, or the first error.
pub open spec fn interpretation(s: Seq<u8>, inputs: Seq<i64>, depth: nat) -> Result<
    Seq<i64>,
    Error,
> {
    match parser::grammar::program(s) {
        Err(e) => Err(Error::ParseError(e)),
        Ok(p) => match semantics::execute(p, inputs, depth) {
            Err(e) => Err(Error::InterpreterError(e)),
            Ok(outputs) => Ok(outputs),
        },
    }
}

/// The result is what interpreting the text on the inputs gives.
pub open spec fn interprets_to(
    r: Result<Vec<i64>, Error>,
    s: Seq<u8>,
    inputs: Seq<i64>,
    depth: nat,
) -> bool {
    match r {
        Ok(outputs) => interpretation(s, inputs, depth) == Ok::<Seq<i64>, Error>(outputs@),
        Err(e) => interpretation(s, inputs, depth) == Err::<Seq<i64>, Error>(e),
    }
}

/// Interpretation is deterministic: two results for the same text, the same
/// inputs and the same depth are the same outputs, or the same error.
pub proof fn lemma_interpretation_is_deterministic(
    first: Result<Vec<i64>, Error>,
    second: Result<Vec<i64>, Error>,
    s: Seq<u8>,
    inputs: Seq<i64>,
    depth: nat,
)
    requires
        interprets_to(first, s, inputs, depth),
        interprets_to(second, s, inputs, depth),
    ensures
        match (first, second) {
            (Ok(a), Ok(b)) => a@ == b@,
            (Err(a), Err(b)) => a == b,
            _ => false,
        },
{
}

/// The depth changes nothing but where the limit on nesting is met: a text
/// that is interpreted to outputs, or to another error than that of the
/// limit, is interpreted to the same where function applications may nest
/// deeper.
pub proof fn lemma_interpretation_at_greater_depth(
    s: Seq<u8>,
    inputs: Seq<i64>,
    depth: nat,
    deeper: nat,
)
    requires
        depth <= deeper,
        interpretation(s, inputs, depth) != Err::<Seq<i64>, Error>(
            Error::InterpreterError(interpreter::Error::RecursionLimit),
        ),
    ensures
        interpretation(s, inputs, deeper) == interpretation(s, inputs, depth),
{
    match parser::grammar::program(s) {
        Ok(p) => semantics::lemma_depth_is_enough(p, inputs, depth, deeper),
        Err(_) => {},
    }
}

/// Parses the source text and runs the program on the inputs, with function
/// applications nesting at most `depth` deep.
pub fn interpret_within(s: &[u8], inputs: &Vec<i64>, depth: usize) -> (r: Result<Vec<i64>, Error>)
    ensures
        interprets_to(r, s@, inputs@, depth as nat),
{
    match parser::parse(s) {
        Err(e) => Err(Error::ParseError(e)),
        Ok(program) => match interpreter::execute_within(&program, inputs, depth) {
            Err(e) => Err(Error::InterpreterError(e)),
            Ok(outputs) => Ok(outputs),
        },
    }
}

/// Parses the source text and runs the program on the inputs. Function
/// applications may nest [`interpreter::MAX_CALL_DEPTH`] deep; where another
/// depth is wanted, [`interpret_within`] takes it.
pub fn interpret(s: &[u8], inputs: &Vec<i64>) -> (r: Result<Vec<i64>, Error>)
    ensures
        interprets_to(r, s@, inputs@, interpreter::MAX_CALL_DEPTH as nat),
{
    interpret_within(s, inputs, interpreter::MAX_CALL_DEPTH)
}

} // verus!

use vstd::prelude::*;
use crate::rational::Rational;

verus! {

/// A lexical unit of an expression or equation.
#[derive(Clone, Copy, Debug, PartialEq, Eq, Structural)]
pub enum Token {
    Number(Rational),
    /// One of `+ - * / ^`.
    Operator(char),
    LeftParen,
    RightParen,
    /// The single unknown `X`.
    Variable,
    Equals,
}

/// Every way in which tokenizing, converting, building or evaluating fails.
#[derive(Clone, Copy, Debug, PartialEq, Eq, Structural)]
pub enum ErrorKind {
    UnknownCharacter(char),
    MalformedNumber,
    UnmatchedParen,
    UnexpectedToken,
    MissingOperand,
    InsufficientOperands,
    MalformedExpression,
    DivisionByZero,
    /// A result whose numerator or denominator does not fit in 64 bits.
    Overflow,
    /// A power whose exponent is not a whole number has no exact value.
    NonIntegerPower,
    UnsupportedOperator(char),
    /// Numeric evaluation met the unknown; the input belongs to the solver.
    UnknownPresent,
    NonlinearTerm,
    VariableOnRightSide,
    DivisionByVariable,
    NoVariableTerm,
    UnknownToken,
}

/// One line of an evaluation or solving trace.
#[derive(Clone, Copy, Debug, PartialEq, Eq, Structural)]
pub enum Step {
    /// A number pushed on the evaluation stack.
    Push(Rational),
    /// `left op right = result`.
    Apply(Rational, char, Rational, Rational),
    /// An `=` met by numeric evaluation, which skips it.
    SkipEquals,
    /// A constant term pushed by the solver.
    PushConstant(Rational),
    /// The unknown pushed by the solver.
    PushUnknown,
    /// A constant added to the right-hand side.
    AddToRight(Rational),
    /// Two linear terms combined: `(x1 X + c1) op (x2 X + c2)`.
    Combine(Rational, Rational, char, Rational, Rational),
    /// The left side's constant moved to the right-hand side.
    MoveConstant(Rational),
    /// The final solve: `X = (rhs - constant) / coefficient`.
    Solve(Rational, Rational, Rational),
}

/// Every number carried by the tokens is well formed.
pub open spec fn tokens_wf(s: Seq<Token>) -> bool {
    forall|i: int| 0 <= i < s.len() ==> (#[trigger] s[i] matches Token::Number(n) ==> n.wf())
}

} // verus!

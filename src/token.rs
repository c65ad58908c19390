use vstd::prelude::*;

verus! {

/// A binary arithmetic operator.
#[derive(Clone, Copy, Debug, PartialEq, Eq, Structural)]
pub enum Operator {
    Add,
    Subtract,
    Multiply,
    Divide,
}

/// A grouping delimiter.
#[derive(Clone, Copy, Debug, PartialEq, Eq, Structural)]
pub enum Bracket {
    OpeningParenthesis,
    ClosingParenthesis,
}

/// One lexical unit of an expression.
#[derive(Clone, Copy, Debug, PartialEq, Eq, Structural)]
pub enum Token {
    Number(i128),
    Br(Bracket),
    Op(Operator),
}

/// The ways in which evaluating a line can fail.
#[derive(Clone, Copy, Debug, PartialEq, Eq, Structural)]
pub enum CalcError {
    /// A digit run that does not read as an integer.
    MalformedNumber,
    /// A literal or an intermediate result outside the range of `i128`.
    IntegerOverflow,
    /// A closing bracket without an opening one, or an opening bracket left open.
    MismatchedBracket,
    /// An operator with fewer than two operands available.
    StackUnderflow,
    /// A division whose right operand is zero.
    DivisionByZero,
    /// More than one value left once the whole expression is reduced.
    TrailingOperands,
}

/// Whether `v` is within the range of `i128`.
pub open spec fn in_i128(v: int) -> bool {
    i128::MIN <= v <= i128::MAX
}

/// The sequence view of a vector result.
pub open spec fn seq_result<T>(r: Result<Vec<T>, CalcError>) -> Result<Seq<T>, CalcError> {
    match r {
        Ok(v) => Ok(v@),
        Err(e) => Err(e),
    }
}

/// Rank of an operator: multiplication and division bind tighter than addition and subtraction.
pub open spec fn operator_rank(op: Operator) -> nat {
    match op {
        Operator::Multiply | Operator::Divide => 3,
        Operator::Add | Operator::Subtract => 2,
    }
}

/// Sentinel rank of a bracket, above that of every operator.
pub open spec fn bracket_rank() -> nat {
    6
}

impl Operator {
    pub fn operator_precedence(&self) -> (r: u8)
        ensures
            r as nat == operator_rank(*self),
    {
        match self {
            Operator::Multiply => 3,
            Operator::Divide => 3,
            Operator::Subtract => 2,
            Operator::Add => 2,
        }
    }
}

impl Bracket {
    pub fn operator_precedence(&self) -> (r: u8)
        ensures
            r as nat == bracket_rank(),
            forall|op: Operator| operator_rank(op) < r,
    {
        6
    }
}

} // verus!

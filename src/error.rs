use vstd::prelude::*;

verus! {

/// Why an expression could not be turned into a tree. Positions count
/// symbols (equally, tokens) from zero.
#[derive(Debug, PartialEq)]
pub enum EvalError {
    /// No symbol was left after whitespace was removed.
    EmptyExpression,
    /// A symbol that is no operator is no decimal literal either.
    MalformedNumber(String, usize),
    /// An operator stands where an operand is needed.
    UnexpectedToken(usize),
    /// The tokens end where an operand is needed.
    UnexpectedEnd,
    /// An operand follows a complete expression.
    TrailingTokens(usize),
}

/// The model of [`EvalError`].
pub enum SpecError {
    EmptyExpression,
    MalformedNumber(Seq<char>, int),
    UnexpectedToken(int),
    UnexpectedEnd,
    TrailingTokens(int),
}

impl View for EvalError {
    type V = SpecError;

    open spec fn view(&self) -> SpecError {
        match self {
            EvalError::EmptyExpression => SpecError::EmptyExpression,
            EvalError::MalformedNumber(s, i) => SpecError::MalformedNumber(s@, *i as int),
            EvalError::UnexpectedToken(i) => SpecError::UnexpectedToken(*i as int),
            EvalError::UnexpectedEnd => SpecError::UnexpectedEnd,
            EvalError::TrailingTokens(i) => SpecError::TrailingTokens(*i as int),
        }
    }
}

} // verus!

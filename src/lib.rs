//! Evaluation of flat arithmetic expressions over decimal literals and the
//! four binary operators, with the usual precedence and left associativity.
//!
//! The text is lexed into symbols, the symbols are read as tokens, and the
//! tokens are folded into a binary tree by precedence climbing. Each stage
//! is stated over a model of its input and proved against it. Reducing the
//! tree to a number is floating-point arithmetic and is left to the caller.

pub mod error;
pub mod lexer;
pub mod polish;
pub mod token;
pub mod tree;

pub use error::{EvalError, SpecError};
pub use lexer::Evaluator;
pub use token::{Operator, SpecToken, Token};
pub use tree::{Expr, SpecExpr};

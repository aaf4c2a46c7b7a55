//! A stack evaluator for arithmetic written in reverse Polish notation.
//!
//! The evaluator is generic in the type of the numbers it moves around: it
//! never looks inside a value. The caller supplies how a token is read as a
//! number and how an operator combines two numbers; everything else (cutting
//! the input into tokens, recognising operators, the discipline of the
//! operand stack, the final check) is done and proved here.

pub mod eval;
pub mod operator;
pub mod stack;
pub mod token;
pub mod whitespace;

pub use eval::rpn;
pub use operator::Operator;
pub use stack::{apply2, RpnError};
pub use token::tokenize;

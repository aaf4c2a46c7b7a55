//! The four binary operators and the tokens that denote them.

use vstd::prelude::*;

verus! {

/// A binary arithmetic operator.
#[derive(Clone, Copy, Debug, PartialEq, Eq, Hash, Structural)]
pub enum Operator {
    /// `+`: the left operand plus the right one.
    Add,
    /// `-`: the left operand minus the right one.
    Subtract,
    /// `*`: the left operand times the right one.
    Multiply,
    /// `/`: the left operand divided by the right one.
    Divide,
}

/// The operator that a token denotes, if any: exactly the one-character
/// tokens `+`, `-`, `*` and `/` denote one.
pub open spec fn operator_of(token: Seq<char>) -> Option<Operator> {
    if token.len() != 1 {
        None
    } else if token[0] == '+' {
        Some(Operator::Add)
    } else if token[0] == '-' {
        Some(Operator::Subtract)
    } else if token[0] == '*' {
        Some(Operator::Multiply)
    } else if token[0] == '/' {
        Some(Operator::Divide)
    } else {
        None
    }
}

impl Operator {
    /// Reads a token as an operator.
    pub fn from_token(token: &str) -> (r: Option<Operator>)
        ensures
            r == operator_of(token@),
    {
        if token.unicode_len() != 1 {
            return None;
        }
        let c = token.get_char(0);
        if c == '+' {
            Some(Operator::Add)
        } else if c == '-' {
            Some(Operator::Subtract)
        } else if c == '*' {
            Some(Operator::Multiply)
        } else if c == '/' {
            Some(Operator::Divide)
        } else {
            None
        }
    }
}

} // verus!

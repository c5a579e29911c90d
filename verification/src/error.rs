use vstd::prelude::*;
use vstd::string::StringExecFns;

verus! {

/// Why an expression could not be evaluated.
#[derive(Clone, Copy, Debug, PartialEq, Eq, Structural)]
pub enum EvalError {
    /// The text holds a character that is no digit, point, operator,
    /// parenthesis or space.
    InvalidCharacter(char),
    /// An operator was applied while fewer than two operands were waiting.
    InsufficientOperands,
    /// The right operand of a division was zero.
    DivisionByZero,
    /// A symbol other than `+ - * /` was applied as an operator.
    UnknownOperator,
    /// The evaluation did not end with exactly one operand: none was left,
    /// or more than one.
    IncompleteExpression,
}

/// The text that describes an error.
pub open spec fn spec_message(error: EvalError) -> Seq<char> {
    match error {
        EvalError::InvalidCharacter(c) => "Invalid character: "@.push(c),
        EvalError::InsufficientOperands => "Not enough operands"@,
        EvalError::DivisionByZero => "Division by zero"@,
        EvalError::UnknownOperator => "Unknown operator"@,
        EvalError::IncompleteExpression => "Incomplete expression"@,
    }
}

impl EvalError {
    /// Describes the error in words.
    pub fn message(&self) -> (text: String)
        ensures
            text@ == spec_message(*self),
    {
        match self {
            EvalError::InvalidCharacter(c) => {
                let mut text = String::from_str("Invalid character: ");
                text.push(*c);
                text
            },
            EvalError::InsufficientOperands => String::from_str("Not enough operands"),
            EvalError::DivisionByZero => String::from_str("Division by zero"),
            EvalError::UnknownOperator => String::from_str("Unknown operator"),
            EvalError::IncompleteExpression => String::from_str("Incomplete expression"),
        }
    }
}

} // verus!

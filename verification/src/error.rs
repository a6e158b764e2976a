//! The failures that the library reports.

use vstd::prelude::*;
use vstd::string::StringExecFns;

verus! {

/// Why an operation on a grammar gave no result.
#[derive(Debug, Clone, Copy, PartialEq, Eq, Structural, Hash)]
pub enum BpeError {
    /// Stored grammar data ends in the middle of a record.
    Truncated,
    /// A stored character is not a Unicode scalar value.
    InvalidScalar,
    /// A rule refers to itself or to a rule that comes after it.
    ForwardReference,
    /// A merge token names a rule that the grammar does not have.
    OutOfRange,
    /// Text generation was asked to start from an empty seed.
    EmptySeed,
    /// The table of weights does not have one entry for each rule.
    WeightCount,
    /// A choice names no continuation, or one of weight zero.
    InvalidChoice,
    /// The weights of the continuations of one token do not add up within 32 bits.
    WeightOverflow,
}

impl BpeError {
    /// What the failure is, in a sentence.
    pub open spec fn description(self) -> Seq<char> {
        match self {
            BpeError::Truncated => "the grammar data ends in the middle of a record"@,
            BpeError::InvalidScalar => "the grammar data holds a character that is no Unicode scalar value"@,
            BpeError::ForwardReference => "a rule refers to itself or to a later rule"@,
            BpeError::OutOfRange => "a merge token names a rule that the grammar does not have"@,
            BpeError::EmptySeed => "the seed is empty"@,
            BpeError::WeightCount => "the weights do not match the rules in number"@,
            BpeError::InvalidChoice => "a choice names no continuation that can be drawn"@,
            BpeError::WeightOverflow => "the weights of the continuations do not add up within 32 bits"@,
        }
    }

    /// What the failure is, in a sentence.
    pub fn to_text(&self) -> (text: String)
        ensures
            text@ == self.description(),
    {
        match self {
            BpeError::Truncated => String::from_str(
                "the grammar data ends in the middle of a record",
            ),
            BpeError::InvalidScalar => String::from_str(
                "the grammar data holds a character that is no Unicode scalar value",
            ),
            BpeError::ForwardReference => String::from_str(
                "a rule refers to itself or to a later rule",
            ),
            BpeError::OutOfRange => String::from_str(
                "a merge token names a rule that the grammar does not have",
            ),
            BpeError::EmptySeed => String::from_str("the seed is empty"),
            BpeError::WeightCount => String::from_str(
                "the weights do not match the rules in number",
            ),
            BpeError::InvalidChoice => String::from_str(
                "a choice names no continuation that can be drawn",
            ),
            BpeError::WeightOverflow => String::from_str(
                "the weights of the continuations do not add up within 32 bits",
            ),
        }
    }
}

} // verus!

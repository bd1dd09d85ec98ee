//! The ways in which an operation on the knowledge base can fail.

use vstd::prelude::*;

verus! {

/// Every failure is returned to the caller; none leaves the store changed.
#[derive(Debug, Clone, Copy, PartialEq, Eq, Structural)]
pub enum KbError {
    /// A fact with a variable was asserted or retracted.
    GroundnessViolation,
    /// The fact or rule is already stored.
    Duplicate,
    /// The fact or rule to retract is not stored.
    NotFound,
    /// The statement has a justification: retract what justifies it instead.
    Unsupportable,
    /// The text is not a statement of the grammar.
    ParseFailure,
    /// The two facts do not unify.
    BindFailure,
}

impl KbError {
    /// The words that describe the failure.
    pub open spec fn spec_message(self) -> Seq<char> {
        match self {
            KbError::GroundnessViolation => "statement has unbound variables"@,
            KbError::Duplicate => "statement already in kb"@,
            KbError::NotFound => "statement does not exist in kb"@,
            KbError::Unsupportable => "statement cannot be removed because it's supported"@,
            KbError::ParseFailure => "failed to parse statement"@,
            KbError::BindFailure => "bind failed"@,
        }
    }

    /// The failure in words.
    pub fn message(&self) -> (text: String)
        ensures
            text@ == self.spec_message(),
    {
        match self {
            KbError::GroundnessViolation => "statement has unbound variables".to_string(),
            KbError::Duplicate => "statement already in kb".to_string(),
            KbError::NotFound => "statement does not exist in kb".to_string(),
            KbError::Unsupportable => "statement cannot be removed because it's supported".to_string(),
            KbError::ParseFailure => "failed to parse statement".to_string(),
            KbError::BindFailure => "bind failed".to_string(),
        }
    }
}

} // verus!

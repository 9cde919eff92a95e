//! The ways in which a run can fail.

use vstd::prelude::*;

verus! {

/// Why a run was abandoned.
///
/// These are faults of the model, not of the moment: nothing is retried, and
/// the first one met ends the whole call.
#[derive(Debug, Clone, Copy, PartialEq, Eq, Structural)]
pub enum EngineError {
    /// A declared policy or state update entry cannot be invoked.
    NotCallable,
    /// A state update function answered for another key than the one it was
    /// declared under.
    KeyMismatch,
    /// The parameter sequences cannot be swept together: some sequence is
    /// empty while another holds values.
    MalformedSweep,
    /// A sum of signals left the range of the number type.
    Overflow,
}

impl EngineError {
    /// A one-line description for the caller.
    pub fn message(&self) -> (text: String)
        ensures
            text@ == match self {
                EngineError::NotCallable => "entry is not callable"@,
                EngineError::KeyMismatch => "block state key doesn't match function state key"@,
                EngineError::MalformedSweep => "parameter sequences cannot be swept together"@,
                EngineError::Overflow => "signal sum out of range"@,
            },
    {
        match self {
            EngineError::NotCallable => "entry is not callable".to_owned(),
            EngineError::KeyMismatch => "block state key doesn't match function state key".to_owned(),
            EngineError::MalformedSweep => "parameter sequences cannot be swept together".to_owned(),
            EngineError::Overflow => "signal sum out of range".to_owned(),
        }
    }
}

} // verus!

//! What can go wrong in the engine.

use vstd::prelude::*;

verus! {

/// The errors of the engine.
#[derive(Clone, Copy, Debug, PartialEq, Eq, Structural)]
pub enum ScpError {
    /// A node was to be made with a quorum set that nothing can satisfy.
    MalformedQuorumSet,
    /// A slot externalized a value that the application holds invalid.
    InvalidExternalizedValue,
}

impl ScpError {
    /// The error in words.
    pub fn to_string(&self) -> (r: String)
        ensures
            r@ == match self {
                ScpError::MalformedQuorumSet => "Malformed quorum set."@,
                ScpError::InvalidExternalizedValue => "Slot Externalized invalid values."@,
            },
    {
        match self {
            ScpError::MalformedQuorumSet => "Malformed quorum set.".to_string(),
            ScpError::InvalidExternalizedValue => "Slot Externalized invalid values.".to_string(),
        }
    }
}

} // verus!

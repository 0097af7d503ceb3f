//! Opcodes of the service protocol.
use vstd::prelude::*;

verus! {

/// What a service request asks for.
#[derive(Debug, PartialEq, Eq, Structural, Clone, Copy)]
pub enum ServiceRequestOpcode {
    ReadScores,
    WriteEdge,
}

impl ServiceRequestOpcode {
    /// Whether the request only reads.
    pub fn is_read(&self) -> (read: bool)
        ensures
            read <==> *self == ServiceRequestOpcode::ReadScores,
    {
        match self {
            ServiceRequestOpcode::ReadScores => true,
            ServiceRequestOpcode::WriteEdge => false,
        }
    }
}

} // verus!

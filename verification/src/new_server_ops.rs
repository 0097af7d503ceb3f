//! Opcodes of the newer server's requests.
use vstd::prelude::*;

verus! {

/// What a request to the newer server asks for.
#[derive(Debug, PartialEq, Eq, Structural, Clone, Copy)]
pub enum ServiceRequestOpcode {
    ReadRank,
    WriteEdge,
}

impl ServiceRequestOpcode {
    /// Whether the request only reads.
    pub fn is_read(&self) -> (read: bool)
        ensures
            read <==> *self == ServiceRequestOpcode::ReadRank,
    {
        match self {
            ServiceRequestOpcode::ReadRank => true,
            ServiceRequestOpcode::WriteEdge => false,
        }
    }
}

} // verus!

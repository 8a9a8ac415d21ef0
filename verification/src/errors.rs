//! The engine's error kinds. Transport, storage and decoding failures are
//! produced by the unverified boundary and mapped to these kinds; the engine
//! itself only ever reports `Validation`.

use vstd::prelude::*;

verus! {

/// What went wrong, by kind: transport failures, cache storage failures,
/// malformed data, and out-of-range filter values.
#[derive(Clone, Copy, Debug, PartialEq, Eq, Structural)]
pub enum EngineError {
    Network,
    Storage,
    Decode,
    Validation,
}

impl EngineError {
    /// A short stable name for each kind.
    pub open spec fn spec_label(self) -> Seq<char> {
        match self {
            EngineError::Network => "network"@,
            EngineError::Storage => "storage"@,
            EngineError::Decode => "decode"@,
            EngineError::Validation => "validation"@,
        }
    }

    pub fn label(&self) -> (r: &'static str)
        ensures
            r@ == self.spec_label(),
    {
        match self {
            EngineError::Network => "network",
            EngineError::Storage => "storage",
            EngineError::Decode => "decode",
            EngineError::Validation => "validation",
        }
    }
}

} // verus!

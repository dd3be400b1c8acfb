//! Error kinds surfaced by the queue engine.

use vstd::prelude::*;

verus! {

/// Every failure of the engine is one of these kinds; callers report them
/// and never retry automatically.
#[derive(Clone, Copy, Debug, PartialEq, Eq, Structural)]
pub enum EngineError {
    /// Missing or unusable configuration, or an unknown profile name.
    ConfigError,
    /// A store directory is unusable, or a message is missing at a given
    /// identifier.
    StoreError,
    /// An index outside the committed set of the queue store.
    InvalidIndex,
    /// Message headers missing a required field or not valid text.
    ParseError,
    /// An SMTP connect, authenticate or send failure.
    TransportError,
    /// A filesystem or input read/write failure.
    IoError,
}

impl EngineError {
    /// A short operator-facing description of the failure.
    pub fn describe(&self) -> (r: &'static str)
        ensures
            *self is ConfigError ==> r@ == "unknown profile or unusable configuration"@,
            *self is StoreError ==> r@ == "store unusable or message not found"@,
            *self is InvalidIndex ==> r@ == "index outside the queue"@,
            *self is ParseError ==> r@
                == "message headers missing a required field or not valid text"@,
            *self is TransportError ==> r@ == "smtp connect, authenticate or send failure"@,
            *self is IoError ==> r@ == "read or write failure"@,
    {
        match self {
            EngineError::ConfigError => "unknown profile or unusable configuration",
            EngineError::StoreError => "store unusable or message not found",
            EngineError::InvalidIndex => "index outside the queue",
            EngineError::ParseError => "message headers missing a required field or not valid text",
            EngineError::TransportError => "smtp connect, authenticate or send failure",
            EngineError::IoError => "read or write failure",
        }
    }
}

} // verus!

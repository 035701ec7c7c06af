//! Error kinds surfaced by the pipeline core.

use vstd::prelude::*;

verus! {

/// The failure classes a pipeline run can end with.
#[derive(Clone, Copy, Debug, PartialEq, Eq, Structural)]
pub enum ErrorCode {
    /// The operator graph or an operator's configuration is malformed.
    ConfigurationError,
    /// Reading or writing spilled data, or an upstream source, failed.
    IOError,
    /// The memory budget was crossed and nothing is left to spill.
    ResourceExhausted,
    /// A state was reached that the protocol rules out.
    InternalInvariantViolation,
}

impl ErrorCode {
    /// A short stable label for diagnostics.
    pub fn label(&self) -> (s: &'static str)
        ensures
            s@ == (match *self {
                ErrorCode::ConfigurationError => "ConfigurationError"@,
                ErrorCode::IOError => "IOError"@,
                ErrorCode::ResourceExhausted => "ResourceExhausted"@,
                ErrorCode::InternalInvariantViolation => "InternalInvariantViolation"@,
            }),
    {
        match self {
            ErrorCode::ConfigurationError => "ConfigurationError",
            ErrorCode::IOError => "IOError",
            ErrorCode::ResourceExhausted => "ResourceExhausted",
            ErrorCode::InternalInvariantViolation => "InternalInvariantViolation",
        }
    }
}

} // verus!

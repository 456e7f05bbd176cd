//! The shared error convention and the identity errors.
use vstd::prelude::*;
use crate::text::{debug_str, push_str, str_debug};

verus! {

/// Implemented by every error type of the library: a short, stable,
/// dotted, machine-readable discriminant (e.g. `"core.contract.invalid"`).
/// Once shipped, a variant's code is part of the public contract.
pub trait ErrorCode {
    spec fn code_spec(&self) -> Seq<char>;

    fn code(&self) -> (r: &'static str)
        ensures
            r@ == self.code_spec(),
    ;
}

/// Failures constructing or parsing a contract identity or a version.
#[derive(Debug, Clone, PartialEq, Eq)]
pub enum CoreError {
    InvalidContract { input: String, reason: String },
    InvalidVersion { input: String, reason: String },
}

impl ErrorCode for CoreError {
    open spec fn code_spec(&self) -> Seq<char> {
        match self {
            CoreError::InvalidContract { .. } => "core.contract.invalid"@,
            CoreError::InvalidVersion { .. } => "core.version.invalid"@,
        }
    }

    fn code(&self) -> (r: &'static str) {
        match self {
            CoreError::InvalidContract { .. } => "core.contract.invalid",
            CoreError::InvalidVersion { .. } => "core.version.invalid",
        }
    }
}

impl CoreError {
    /// The human-readable message of this error.
    pub open spec fn message_spec(&self) -> Seq<char> {
        match self {
            CoreError::InvalidContract { input, reason } => "invalid contract identifier "@
                + str_debug(input@) + ": "@ + reason@,
            CoreError::InvalidVersion { input, reason } => "invalid schema version "@
                + str_debug(input@) + ": "@ + reason@,
        }
    }

    /// The human-readable message of this error.
    pub fn message(&self) -> (r: String)
        ensures
            r@ == self.message_spec(),
    {
        let (head, input, reason) = match self {
            CoreError::InvalidContract { input, reason } => ("invalid contract identifier ", input, reason),
            CoreError::InvalidVersion { input, reason } => ("invalid schema version ", input, reason),
        };
        let mut r = String::new();
        push_str(&mut r, head);
        let d = debug_str(input.as_str());
        push_str(&mut r, d.as_str());
        push_str(&mut r, ": ");
        push_str(&mut r, reason.as_str());
        proof {
            assert(r@ =~= self.message_spec());
        }
        r
    }
}

} // verus!

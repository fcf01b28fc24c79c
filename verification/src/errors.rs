//! Errors of a single request/response exchange. Both are fatal to the
//! current exchange only: a serving worker that meets one terminates without
//! a response, and the listening parent is unaffected.

use vstd::prelude::*;

verus! {

/// Why an exchange failed.
#[derive(Clone, Copy, Debug, PartialEq, Eq, Structural)]
pub enum ExchangeError {
    /// The received bytes are not a well-formed two-field request record.
    MalformedMessage,
    /// The request's `shift_val` field is not a decimal integer that fits the
    /// shift type.
    ShiftParseError,
}

impl ExchangeError {
    /// A short human-readable description, for the unverified process shell
    /// to report.
    pub fn describe(&self) -> (r: &'static str)
        ensures
            (*self is MalformedMessage) ==> r@ =~= "malformed request record"@,
            (*self is ShiftParseError) ==> r@ =~= "invalid shift value"@,
    {
        match self {
            ExchangeError::MalformedMessage => "malformed request record",
            ExchangeError::ShiftParseError => "invalid shift value",
        }
    }
}

} // verus!

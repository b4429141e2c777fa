//! Error kinds the core surfaces: per-command failures that abort the
//! command but never the session.
use vstd::prelude::*;

verus! {

/// The error kinds of the core.
#[derive(Clone, Copy, PartialEq, Eq, Structural, Debug)]
pub enum Error {
    /// The instruction decoder cannot be set up: unsupported bit width or
    /// malformed section bounds.
    DecoderInit,
    /// User input does not parse as the remembered value type.
    TypeParse,
    /// Arguments do not match the command grammar.
    UsageError,
    /// A write was requested with an empty match set.
    NoMatches,
}

impl Error {
    /// A short description of the error.
    pub fn message(&self) -> (r: &'static str)
        ensures
            *self is DecoderInit ==> r@ == "failed to initialise the instruction decoder"@,
            *self is TypeParse ==> r@ == "failed to parse the value"@,
            *self is UsageError ==> r@ == "arguments do not match the command grammar"@,
            *self is NoMatches ==> r@ == "no matches found"@,
    {
        match self {
            Error::DecoderInit => "failed to initialise the instruction decoder",
            Error::TypeParse => "failed to parse the value",
            Error::UsageError => "arguments do not match the command grammar",
            Error::NoMatches => "no matches found",
        }
    }
}

} // verus!

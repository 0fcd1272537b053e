//! The errors of the transport layer.

use vstd::prelude::*;

verus! {

/// What a queue or configuration operation reports when it cannot proceed.
#[derive(Clone, Copy, Debug, PartialEq, Eq, Structural)]
pub enum Error {
    /// Fewer descriptor slots are free than the request needs.
    QueueFull,
    /// A descriptor chain breaks the protocol.
    MalformedChain,
    /// The caller asked for a capability that was not negotiated.
    UnsupportedFeature,
    /// The configuration space did not settle within the allowed attempts.
    ConfigReadTimeout,
}

impl Error {
    /// Whether the caller may try the same operation again later and find
    /// it to succeed: a full queue drains, and a configuration space
    /// settles, but a malformed chain and an unsupported feature stay what
    /// they are.
    pub open spec fn transient(self) -> bool {
        self == Error::QueueFull || self == Error::ConfigReadTimeout
    }

    /// Tests whether the caller may try the same operation again later.
    pub fn is_transient(&self) -> (r: bool)
        ensures
            r == self.transient(),
    {
        match self {
            Error::QueueFull => true,
            Error::ConfigReadTimeout => true,
            Error::MalformedChain => false,
            Error::UnsupportedFeature => false,
        }
    }

    /// A short description of the error.
    pub fn message(&self) -> (r: &'static str)
        ensures
            r@ == (match *self {
                Error::QueueFull => "not enough free descriptor slots"@,
                Error::MalformedChain => "malformed descriptor chain"@,
                Error::UnsupportedFeature => "feature was not negotiated"@,
                Error::ConfigReadTimeout => "configuration space did not settle"@,
            }),
    {
        match self {
            Error::QueueFull => "not enough free descriptor slots",
            Error::MalformedChain => "malformed descriptor chain",
            Error::UnsupportedFeature => "feature was not negotiated",
            Error::ConfigReadTimeout => "configuration space did not settle",
        }
    }
}

} // verus!

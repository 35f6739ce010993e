//! The errors of the engine.

use vstd::prelude::*;

verus! {

/// What went wrong, in words, by the part that it went wrong in.
#[derive(Clone, Debug, PartialEq, Eq)]
pub enum DnsError {
    /// A part of the configuration cannot be used.
    Plugin(String),
    /// The other side, or this one, does not keep to the protocol.
    Protocol(String),
    /// Something failed while it ran.
    Runtime(String),
}

} // verus!

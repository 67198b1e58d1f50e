//! The error taxonomy. Validation errors are detected before any mutation;
//! commit and transport errors surface the underlying failure's description.

use vstd::prelude::*;

verus! {

/// Everything an operation on the configuration can fail with.
#[derive(Debug, Clone, PartialEq)]
pub enum IfError {
    /// A document failed to parse, or held a field outside the schema.
    MalformedConfig(String),
    /// The configuration directory yielded no document at all.
    ConfigNotFound,
    /// An edit targeted an interface name absent from the merged document.
    InterfaceNotFound,
    /// A proposed address, gateway or nameserver does not parse; holds the
    /// offending value.
    InvalidAddress(String),
    /// A second interface would own the default gateway.
    GatewayConflict,
    /// DHCP and a static address list or nameserver list were proposed for
    /// the same interface.
    ConflictingAddressMode,
    /// An I/O or subprocess step of the commit pipeline failed.
    CommitFailure(String),
    /// The privileged-helper transport broke down or answered malformed data.
    TransportFailure(String),
}

} // verus!

use vstd::prelude::*;

verus! {

/// Why no match was reported.
#[derive(Debug, Clone, Copy, PartialEq, Eq, Structural)]
pub enum MatchError {
    /// The interface filter is longer than an interface name can be.
    InterfaceNameTooLong,
    /// No wireless name, address or subnet was given to match.
    NoCriterion,
    /// A subnet is not of the form "a.b.c.d/n".
    InvalidCidr,
    /// No interface matched.
    NotFound,
    /// Wireless names cannot be queried on this platform.
    Unsupported,
}

} // verus!

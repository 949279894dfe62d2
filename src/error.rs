//! Errors signalled at the boundary of an operation.
use vstd::prelude::*;

verus! {

/// Why an operation refused its input.
#[derive(Debug, Clone, Copy, PartialEq, Eq, Structural)]
pub enum HsError {
    /// A table that is not square or holds an empty product.
    MalformedTable,
    /// A tag with an all-zero chunk, or wider than the table it should encode.
    InvalidTag,
    /// An element predicate was given a mask that is not a single element.
    NotASingleton,
    /// A mask names elements outside the carrier.
    SubsetNotInCarrier,
    /// Relations composed where the codomain of the first is not the domain of the second.
    DomainMismatch,
    /// An operation whose precondition on its input does not hold.
    PreconditionViolated,
}

} // verus!

use vstd::prelude::*;

verus! {

/// The failure kinds of the node store and the dissection pipeline.
#[derive(Clone, Copy, Debug, PartialEq, Eq, Structural)]
pub enum Error {
    /// A lookup by id or prefix found no node.
    NotFound,
    /// A node was to be created under a parent that cannot be located.
    ParentNotFound,
    /// A node with this id already exists: the new title's hash collides
    /// with a stored node, which creation rejects rather than assuming the
    /// hash injective.
    DuplicateId,
    /// A filesystem read or write failed.
    IoFailure,
    /// A streamed line or a metadata document had an unexpected shape.
    ProtocolError,
    /// The remote dissection endpoint failed at the transport level.
    NetworkFailure,
}

impl Error {
    /// A short human-readable description of the failure kind.
    pub fn describe(&self) -> (r: &'static str)
        ensures
            matches!(*self, Error::NotFound) ==> r@ == "node not found"@,
            matches!(*self, Error::ParentNotFound) ==> r@ == "parent node not found"@,
            matches!(*self, Error::DuplicateId) ==> r@ == "a node with this id already exists"@,
            matches!(*self, Error::IoFailure) ==> r@ == "filesystem operation failed"@,
            matches!(*self, Error::ProtocolError) ==> r@ == "malformed streamed line or metadata"@,
            matches!(*self, Error::NetworkFailure) ==> r@ == "network transport failure"@,
    {
        match self {
            Error::NotFound => "node not found",
            Error::ParentNotFound => "parent node not found",
            Error::DuplicateId => "a node with this id already exists",
            Error::IoFailure => "filesystem operation failed",
            Error::ProtocolError => "malformed streamed line or metadata",
            Error::NetworkFailure => "network transport failure",
        }
    }
}

} // verus!

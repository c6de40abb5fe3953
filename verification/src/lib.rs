//! A document-store gateway: collections of schemaless documents, addressed
//! by store-assigned identifiers with a canonical hex string encoding.
//!
//! The gateway maps collection names and document payloads onto typed
//! create / read / delete operations, tolerating malformed records on the
//! read path and rejecting malformed identifiers before they reach the store.
use vstd::prelude::*;

pub mod doc;
pub mod gateway;
pub mod ident;
pub mod store;

verus! {

/// The gateway's error taxonomy: every failure a caller can see.
#[derive(Clone, Copy, Debug, PartialEq, Eq, Structural)]
pub enum GatewayError {
    /// The request body cannot be interpreted as a document to insert.
    InvalidPayload,
    /// A delete target identifier fails to decode; the store is never invoked.
    InvalidIdentifier,
    /// The backing store cannot be reached or failed the operation.
    StoreUnavailable,
}

impl GatewayError {
    /// A short description of the error, suitable for a client response.
    pub fn message(&self) -> (m: &'static str)
        ensures
            *self == GatewayError::InvalidPayload ==> m@ == "invalid payload"@,
            *self == GatewayError::InvalidIdentifier ==> m@ == "invalid identifier"@,
            *self == GatewayError::StoreUnavailable ==> m@ == "store unavailable"@,
    {
        match self {
            GatewayError::InvalidPayload => "invalid payload",
            GatewayError::InvalidIdentifier => "invalid identifier",
            GatewayError::StoreUnavailable => "store unavailable",
        }
    }
}

} // verus!

//! Plain data shapes exchanged with the storage collaborator's read API:
//! connection rows, error messages, and the query parameters of its
//! endpoints.

use vstd::prelude::*;

verus! {

/// One connectivity row: a peer address and whether it is reachable.
#[derive(Debug, Clone)]
pub struct ConnectionDTO {
    /// The peer address.
    pub url: String,
    /// Whether the peer is currently reachable.
    pub is_active: bool,
}

/// A plain message body, used for error replies.
#[derive(Debug, Clone)]
pub struct MessageDTO {
    /// The message text.
    pub message: String,
}

/// Query parameters of the single-block endpoint.
#[derive(Debug, Clone)]
pub struct HashQuery {
    /// The block hash to look up.
    pub hash: String,
}

/// Query parameters of the paged listing endpoint.
#[derive(Debug, Clone)]
pub struct OffsetQuery {
    /// How many rows to skip.
    pub offset: i64,
}

/// Query parameters of the per-organization listing endpoint.
#[derive(Debug, Clone)]
pub struct OrganizationQuery {
    /// The organization to list.
    pub organization: String,
    /// How many rows to skip.
    pub offset: i64,
}

} // verus!

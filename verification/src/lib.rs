//! Storage engine core for a time-series database.
//!
//! The engine persists ingested points durably through a write-ahead log,
//! buffers them in memory for fast recent-data reads, periodically flushes
//! and compacts them into immutable sorted files, and exposes a consistent,
//! versioned view of each partition ("vnode") to the query layer.

use vstd::prelude::*;

pub mod compaction;
pub mod error;
pub mod kvcore;
pub mod memcache;
pub mod rewrite;
pub mod summary;
pub mod tseries_family;
pub mod tsm;
pub mod types;
pub mod wal;

verus! {

/// A request to write a batch of points, optionally tagged with tenant
/// metadata. When no metadata is present the default catalog name applies.
pub struct WritePointsRequest {
    pub meta: Option<WriteMeta>,
    pub table: String,
    pub points: Vec<crate::types::Point>,
}

/// Tenant metadata attached to a write request.
pub struct WriteMeta {
    pub tenant: String,
}

/// Name of the catalog used when a write request carries no tenant metadata.
pub open spec fn default_catalog() -> Seq<char> {
    "cnosdb"@
}

/// The tenant a write request addresses: the tenant recorded in its
/// metadata, or the default catalog when it carries none.
pub open spec fn spec_tenant_of(req: WritePointsRequest) -> Seq<char> {
    match req.meta {
        Some(m) => m.tenant@,
        None => default_catalog(),
    }
}

/// Returns the tenant a write request addresses: the tenant recorded in its
/// metadata, or the default catalog when it carries none.
pub fn tenant_name_from_request(req: &WritePointsRequest) -> (r: String)
    ensures
        r@ == spec_tenant_of(*req),
{
    match &req.meta {
        Some(meta) => meta.tenant.clone(),
        None => "cnosdb".to_owned(),
    }
}

} // verus!

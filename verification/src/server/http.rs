//! HTTP request and response shapes, and what the handlers decide on them.

use vstd::prelude::*;

use crate::ui::dashboard::package_version;

verus! {

/// A search request.
pub struct SearchRequest {
    pub query: String,
    pub limit: Option<usize>,
    pub use_hybrid: Option<bool>,
}

impl SearchRequest {
    /// The number of results asked for: 10 unless given.
    pub fn effective_limit(&self) -> (n: usize)
        ensures
            n == match self.limit {
                Some(l) => l,
                None => 10,
            },
    {
        match self.limit {
            Some(l) => l,
            None => 10,
        }
    }

    /// The search method: `hybrid` when asked for, `bm25` otherwise.
    pub fn method(&self) -> (m: String)
        ensures
            m@ == (if self.use_hybrid == Some(true) {
                "hybrid"@
            } else {
                "bm25"@
            }),
    {
        match self.use_hybrid {
            Some(true) => "hybrid".to_owned(),
            _ => "bm25".to_owned(),
        }
    }
}

/// A query request: the text, whether a query embedding came with it, how
/// many results, and whether reasoning was asked for.
pub struct QueryRequest {
    pub query: String,
    pub has_embedding: bool,
    pub limit: Option<usize>,
    pub reasoning: Option<bool>,
}

impl QueryRequest {
    /// The number of results asked for: 10 unless given.
    pub fn effective_limit(&self) -> (n: usize)
        ensures
            n == match self.limit {
                Some(l) => l,
                None => 10,
            },
    {
        match self.limit {
            Some(l) => l,
            None => 10,
        }
    }

    /// The search method: `vector` when an embedding came with the query,
    /// `bm25` otherwise.
    pub fn method(&self) -> (m: &'static str)
        ensures
            m@ == (if self.has_embedding {
                "vector"@
            } else {
                "bm25"@
            }),
    {
        if self.has_embedding {
            "vector"
        } else {
            "bm25"
        }
    }
}

/// The answer to a health check.
pub struct HealthResponse {
    pub status: String,
    pub version: String,
    pub database: String,
}

impl HealthResponse {
    /// Healthy, this package's version, and whether the database answered.
    pub fn new(database_ok: bool) -> (r: HealthResponse)
        ensures
            r.status@ == "healthy"@,
            r.version@ == package_version(),
            r.database@ == (if database_ok {
                "connected"@
            } else {
                "disconnected"@
            }),
    {
        HealthResponse {
            status: "healthy".to_owned(),
            version: "0.2.0".to_owned(),
            database: if database_ok {
                "connected".to_owned()
            } else {
                "disconnected".to_owned()
            },
        }
    }
}

/// The answer to a sync.
pub struct SyncResponse {
    pub success: bool,
    pub documents_synced: usize,
    pub message: String,
}

impl SyncResponse {
    /// A completed sync of `documents_synced` documents.
    pub fn completed(documents_synced: usize) -> (r: SyncResponse)
        ensures
            r.success,
            r.documents_synced == documents_synced,
            r.message@ == "Sync completed successfully"@,
    {
        SyncResponse {
            success: true,
            documents_synced,
            message: "Sync completed successfully".to_owned(),
        }
    }
}

} // verus!

//! The HTTP routes that the service exposes.

use vstd::prelude::*;
use crate::text::owned;

verus! {

/// HTTP method of a route.
#[derive(Debug, Clone, Copy, PartialEq, Eq, Structural)]
pub enum Method {
    Get,
    Post,
}

/// One route of the API.
#[derive(Debug, Clone, PartialEq, Eq)]
pub struct Endpoint {
    pub path: String,
    pub method: Method,
    pub description: String,
}

/// The routes of the API as (path, method, description), in the order in
/// which `all_endpoints` lists them.
pub open spec fn endpoint_table() -> Seq<(Seq<char>, Method, Seq<char>)> {
    seq![
        ("/api/v1/search"@, Method::Post, "Full-text search"@),
        ("/api/v1/health"@, Method::Get, "Health check"@),
        ("/api/v1/stats"@, Method::Get, "Index statistics"@),
        ("/api/v1/index"@, Method::Post, "Trigger indexing"@),
        ("/api/v1/config"@, Method::Get, "Current configuration"@),
    ]
}

/// The view of an endpoint as plain values.
pub open spec fn endpoint_view(e: Endpoint) -> (Seq<char>, Method, Seq<char>) {
    (e.path@, e.method, e.description@)
}

fn endpoint(path: &str, method: Method, description: &str) -> (e: Endpoint)
    ensures
        endpoint_view(e) == (path@, method, description@),
{
    Endpoint { path: owned(path), method, description: owned(description) }
}

/// All routes of the API.
pub fn all_endpoints() -> (res: Vec<Endpoint>)
    ensures
        res@.map_values(|e: Endpoint| endpoint_view(e)) == endpoint_table(),
{
    let mut v: Vec<Endpoint> = Vec::new();
    v.push(endpoint("/api/v1/search", Method::Post, "Full-text search"));
    v.push(endpoint("/api/v1/health", Method::Get, "Health check"));
    v.push(endpoint("/api/v1/stats", Method::Get, "Index statistics"));
    v.push(endpoint("/api/v1/index", Method::Post, "Trigger indexing"));
    v.push(endpoint("/api/v1/config", Method::Get, "Current configuration"));
    assert(v@.map_values(|e: Endpoint| endpoint_view(e)) =~= endpoint_table());
    v
}

/// Every route lives under `/api/v1/`, and no two routes share a path.
pub proof fn lemma_endpoint_paths()
    ensures
        forall|i: int| 0 <= i < endpoint_table().len() ==> "/api/v1/"@.is_prefix_of(#[trigger] endpoint_table()[i].0),
        forall|i: int, j: int| 0 <= i < j < endpoint_table().len() ==> #[trigger] endpoint_table()[i].0 != #[trigger] endpoint_table()[j].0,
{
    reveal_strlit("/api/v1/");
    reveal_strlit("/api/v1/search");
    reveal_strlit("/api/v1/health");
    reveal_strlit("/api/v1/stats");
    reveal_strlit("/api/v1/index");
    reveal_strlit("/api/v1/config");
    let t = endpoint_table();
    assert forall|i: int| 0 <= i < t.len() implies "/api/v1/"@.is_prefix_of(#[trigger] t[i].0) by {
        assert forall|k: int| 0 <= k < 8 implies "/api/v1/"@[k] == t[i].0[k] by {}
    }
    assert forall|i: int, j: int| 0 <= i < j < t.len() implies #[trigger] t[i].0 != #[trigger] t[j].0 by {
        if t[i].0 == t[j].0 {
            assert(t[i].0[8] == t[j].0[8]);
            assert(t[i].0[9] == t[j].0[9]);
        }
    }
}

} // verus!

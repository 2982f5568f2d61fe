//! Search requests.

use vstd::prelude::*;
use crate::text::owned;

verus! {

/// A search request.
#[derive(Debug, Clone)]
pub struct SearchRequest {
    pub query: String,
    pub limit: usize,
    pub offset: usize,
}

/// The error that `validate` gives for `query` and `limit`, if any: an
/// empty query first, then a zero limit.
pub open spec fn validation_error(query: Seq<char>, limit: usize) -> Option<Seq<char>> {
    if query.len() == 0 {
        Some("empty query"@)
    } else if limit == 0 {
        Some("invalid limit"@)
    } else {
        None
    }
}

impl SearchRequest {
    /// A request for `query`, with 20 hits from the first one.
    pub fn new(query: &str) -> (res: SearchRequest)
        ensures
            res.query@ == query@,
            res.limit == 20,
            res.offset == 0,
    {
        SearchRequest { query: owned(query), limit: 20, offset: 0 }
    }

    /// Checks the request: the query must not be empty, and the limit must
    /// not be zero.
    pub fn validate(&self) -> (res: Result<(), String>)
        ensures
            match res {
                Ok(()) => validation_error(self.query@, self.limit) is None,
                Err(e) => validation_error(self.query@, self.limit) == Some(e@),
            },
    {
        if self.query.as_str().is_empty() {
            return Err(owned("empty query"));
        }
        if self.limit == 0 {
            return Err(owned("invalid limit"));
        }
        Ok(())
    }
}

/// A request made by `new` passes validation exactly when its query is not
/// empty.
pub proof fn lemma_new_request_valid(query: Seq<char>)
    ensures
        validation_error(query, 20) is None <==> query.len() > 0,
{
}

} // verus!

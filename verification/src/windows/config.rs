//! The Windows service configuration.

use vstd::prelude::*;
use crate::text::owned;

verus! {

/// How the indexing service is registered.
#[derive(Debug, Clone)]
pub struct ServiceConfig {
    pub name: String,
    pub display_name: String,
    pub description: String,
    pub binary_name: String,
}

impl Default for ServiceConfig {
    fn default() -> (res: ServiceConfig)
        ensures
            res.name@ == "RecollNext"@,
            res.display_name@ == "Recoll Next Indexing Service"@,
            res.description@ == "Recoll Next desktop full-text search indexing service"@,
            res.binary_name@ == "rn-cli.exe"@,
    {
        ServiceConfig {
            name: owned("RecollNext"),
            display_name: owned("Recoll Next Indexing Service"),
            description: owned("Recoll Next desktop full-text search indexing service"),
            binary_name: owned("rn-cli.exe"),
        }
    }
}

} // verus!

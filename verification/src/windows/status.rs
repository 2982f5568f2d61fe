//! The states of a Windows service.

use vstd::prelude::*;
use crate::text::{all_ascii, ascii_lower, lowercase, same_text, to_lowercase};

verus! {

/// The state of a service.
#[derive(Debug, Clone, Copy, PartialEq, Eq, Structural)]
pub enum ServiceStatus {
    Running,
    Stopped,
    Paused,
    Unknown,
}

/// The state that a lowercase state name stands for.
pub open spec fn status_named(lower: Seq<char>) -> ServiceStatus {
    if lower == "running"@ {
        ServiceStatus::Running
    } else if lower == "stopped"@ {
        ServiceStatus::Stopped
    } else if lower == "paused"@ {
        ServiceStatus::Paused
    } else {
        ServiceStatus::Unknown
    }
}

impl ServiceStatus {
    /// The state named by `lower`, already in lowercase.
    pub fn parse_lowercase(lower: &str) -> (res: ServiceStatus)
        ensures
            res == status_named(lower@),
    {
        if same_text(lower, "running") {
            ServiceStatus::Running
        } else if same_text(lower, "stopped") {
            ServiceStatus::Stopped
        } else if same_text(lower, "paused") {
            ServiceStatus::Paused
        } else {
            ServiceStatus::Unknown
        }
    }

    /// The state named by `s`, in any case.
    pub fn parse(s: &str) -> (res: ServiceStatus)
        ensures
            res == status_named(lowercase(s@)),
            all_ascii(s@) ==> res == status_named(s@.map_values(|c: char| ascii_lower(c))),
    {
        let lower = to_lowercase(s);
        ServiceStatus::parse_lowercase(lower.as_str())
    }
}

} // verus!

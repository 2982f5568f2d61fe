//! The index operations that file-system events turn into.

use vstd::prelude::*;

verus! {

/// What the index has to do for a path.
#[derive(Debug, Clone, Copy, PartialEq, Eq, Hash, Structural)]
pub enum OperationType {
    Create,
    Update,
    Delete,
}

} // verus!

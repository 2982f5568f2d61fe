//! A cancellation flag shared between the clones of a token.

use vstd::prelude::*;
use std::sync::Arc;
use std::sync::atomic::AtomicBool;

verus! {

/// A token whose clones share one flag: cancelling any of them cancels all.
#[derive(Debug, Clone)]
pub struct CancellationToken {
    cancelled: Arc<AtomicBool>,
}

impl CancellationToken {
    /// A token that is not cancelled.
    pub fn new() -> CancellationToken {
        CancellationToken { cancelled: Arc::new(AtomicBool::new(false)) }
    }

    /// Cancels the token and its clones.
    pub fn cancel(&self) {
        self.cancelled.store(true, std::sync::atomic::Ordering::SeqCst);
    }

    /// Whether the token, or one of its clones, was cancelled.
    pub fn is_cancelled(&self) -> bool {
        self.cancelled.load(std::sync::atomic::Ordering::SeqCst)
    }
}

} // verus!

//! The signal by which a host tells the snapshots that it handed out to give
//! up.

use std::sync::atomic::{AtomicBool, Ordering};
use std::sync::Arc;
use vstd::prelude::*;
use crate::engine::share;

verus! {

/// A flag that a host shares with the snapshots taken from it. It is set
/// once and never cleared. Another holder, on another thread, may set it at
/// any time: what it holds is no function of the handle, so no contract
/// here speaks of it.
pub struct CancelToken {
    flag: Arc<AtomicBool>,
}

impl CancelToken {
    /// Whether the two handles are on one flag: what one holder sets, the
    /// other sees.
    pub closed spec fn same_flag(&self, other: CancelToken) -> bool {
        self.flag == other.flag
    }

    /// A flag of its own, not set.
    pub fn new() -> (token: CancelToken) {
        CancelToken { flag: Arc::new(AtomicBool::new(false)) }
    }

    /// Another handle on the same flag.
    pub fn share(&self) -> (token: CancelToken)
        ensures
            token.same_flag(*self),
    {
        CancelToken { flag: share(&self.flag) }
    }

    /// Sets the flag, for every holder.
    pub fn set(&self) {
        self.flag.store(true, Ordering::SeqCst);
    }

    /// Whether the flag was set, by this holder or by another.
    pub fn is_set(&self) -> (set: bool) {
        self.flag.load(Ordering::SeqCst)
    }
}

} // verus!

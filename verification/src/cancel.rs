//! The flag by which the workers of one search tell each other to stop.

use std::sync::atomic::AtomicBool;
use std::sync::atomic::Ordering;
use vstd::prelude::*;

verus! {

/// Reads the flag that the workers of one search share. What it holds depends on the other
/// workers.
pub fn is_cancelled(found: &AtomicBool) -> bool {
    found.load(Ordering::Relaxed)
}

/// Sets the flag, so that every worker that reads it from now on stops.
pub fn request_cancel(found: &AtomicBool) {
    found.store(true, Ordering::Relaxed);
}

} // verus!

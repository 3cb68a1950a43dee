//! The two shared cells through which a background build talks to its owner:
//! a stop request and a byte counter.

use std::sync::atomic::{AtomicBool, AtomicUsize, Ordering};
use vstd::prelude::*;

verus! {

/// Whether the owner of `flag` has asked the build to stop. Without a flag
/// nobody can ask.
pub fn cancel_requested(flag: Option<&AtomicBool>) -> (r: bool)
    ensures
        flag is None ==> !r,
{
    match flag {
        Some(f) => f.load(Ordering::Relaxed),
        None => false,
    }
}

/// Publishes how many bytes have been scanned so far.
pub fn report_progress(counter: Option<&AtomicUsize>, bytes: usize) {
    match counter {
        Some(c) => c.store(bytes, Ordering::Relaxed),
        None => {},
    }
}

} // verus!

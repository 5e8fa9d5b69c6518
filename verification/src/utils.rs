//! Small helpers around condition variables.

use vstd::prelude::*;

verus! {

/// Calls `parking_lot::Condvar::notify_one`, waking one thread that waits on
/// `lock`. Whether a thread was woken depends on the other threads, so nothing
/// is stated of the result.
#[verifier::external_body]
pub fn signal(lock: &parking_lot::Condvar) -> bool {
    lock.notify_one()
}

} // verus!

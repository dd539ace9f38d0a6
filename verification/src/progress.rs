//! Progress reporting and cooperative cancellation.
//!
//! The library is **synchronous by design**. A front end calls it off its UI thread and marshals
//! updates back.

use std::sync::atomic::{AtomicBool, AtomicU64};
use vstd::prelude::*;

verus! {

/// Implemented by the caller to observe progress and request cancellation.
///
/// Called at chunk boundaries, so implementations must be cheap and non-blocking.
pub trait Progress {
    /// Whether nobody will ever ask for cancellation.
    open spec fn steady(&self) -> bool {
        false
    }

    /// Whether cancellation has been asked for, and stays so.
    open spec fn halted(&self) -> bool {
        false
    }

    /// Called as work proceeds: `done` of `total`, which is 0 when the size isn't known yet.
    ///
    /// A contract cannot speak of the calls that a function has made, so when and in which order this is
    /// called is left unsaid. After each chunk, sealing reports
    /// [`crate::crypto::stream::sealed_so_far`], and opening how much of the region it has read.
    fn update(&self, done: u64, total: u64)
        requires
            total == 0 || done <= total,
    ;

    /// Polled at chunk boundaries; returning `true` aborts with
    /// [`crate::error::ZolalError::Cancelled`].
    fn is_cancelled(&self) -> (r: bool)
        ensures
            self.steady() ==> !r,
            self.halted() ==> r,
    ;
}

/// Whether it is settled what a [`Progress`] answers: never to stop, or to stop at once.
pub open spec fn decided<P: Progress>(progress: &P) -> bool {
    progress.steady() || progress.halted()
}

/// A [`Progress`] that does nothing.
pub struct NoProgress;

impl Progress for NoProgress {
    open spec fn steady(&self) -> bool {
        true
    }

    open spec fn halted(&self) -> bool {
        false
    }

    fn update(&self, done: u64, total: u64) {
    }

    fn is_cancelled(&self) -> (r: bool) {
        false
    }
}

/// Thread-safe [`Progress`] that records the latest counts and supports cancellation.
///
/// What it reads back rests on what other threads have stored, so nothing is said of the values.
pub struct AtomicProgress {
    done: AtomicU64,
    total: AtomicU64,
    cancelled: AtomicBool,
}

impl AtomicProgress {
    /// Create a fresh tracker.
    pub fn new() -> Self {
        AtomicProgress {
            done: AtomicU64::new(0),
            total: AtomicU64::new(0),
            cancelled: AtomicBool::new(false),
        }
    }

    /// Latest `(done, total)`.
    pub fn snapshot(&self) -> (u64, u64) {
        let done: u64 = self.done.load(std::sync::atomic::Ordering::Relaxed);
        let total: u64 = self.total.load(std::sync::atomic::Ordering::Relaxed);
        (done, total)
    }

    /// Request cancellation; takes effect at the next chunk boundary.
    pub fn cancel(&self) {
        self.cancelled.store(true, std::sync::atomic::Ordering::Relaxed);
    }
}

impl Progress for AtomicProgress {
    open spec fn steady(&self) -> bool {
        false
    }

    open spec fn halted(&self) -> bool {
        false
    }

    fn update(&self, done: u64, total: u64) {
        self.done.store(done, std::sync::atomic::Ordering::Relaxed);
        self.total.store(total, std::sync::atomic::Ordering::Relaxed);
    }

    fn is_cancelled(&self) -> (r: bool) {
        self.cancelled.load(std::sync::atomic::Ordering::Relaxed)
    }
}

} // verus!

//! The acceptor's decisions: how many connections it serves at once, and how
//! long it waits after a failed accept.
use vstd::prelude::*;

verus! {

/// Most connections served at once.
pub const MAX_CONNECTIONS: usize = 250;

/// Longest wait, in seconds, after which a failed accept is given up.
pub const MAX_BACKOFF: u64 = 64;

/// Exponential backoff between accept attempts: one second after the first
/// failure, doubling after each further one, until the wait would pass 64 seconds.
pub struct Backoff {
    secs: u64,
}

impl Backoff {
    /// The wait, in seconds, before the next retry.
    pub closed spec fn secs(&self) -> u64 {
        self.secs
    }

    /// The wait never grows past twice the longest one.
    pub open spec fn wf(&self) -> bool {
        self.secs() <= 2 * MAX_BACKOFF
    }

    /// The backoff of a fresh burst of failures.
    pub fn new() -> (r: Backoff)
        ensures
            r.wf(),
            r.secs() == 1,
    {
        Backoff { secs: 1 }
    }

    /// After a failed accept: the seconds to wait before trying again, or
    /// `None` when the wait has passed 64 seconds and the error is returned.
    pub fn on_failure(&mut self) -> (r: Option<u64>)
        requires
            old(self).wf(),
        ensures
            final(self).wf(),
            old(self).secs() > MAX_BACKOFF ==> r is None && final(self).secs() == old(self).secs(),
            old(self).secs() <= MAX_BACKOFF ==> r == Some(old(self).secs()) && final(self).secs() == 2
                * old(self).secs(),
    {
        if self.secs > MAX_BACKOFF {
            None
        } else {
            let wait = self.secs;
            self.secs = wait * 2;
            Some(wait)
        }
    }
}

} // verus!

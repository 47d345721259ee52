//! Time as one system sees it.
//!
//! An application can be updated more than once in a frame, and not every
//! system runs on every update. A system that wants to know how much time
//! went by since it ran last keeps its own account.
use vstd::prelude::*;

verus! {

/// The account of one system. Times are nanoseconds on a clock that does not
/// go back.
#[derive(Clone, Copy, Debug)]
pub struct SystemDelta {
    last_time: Option<u64>,
}

/// The time between two readings of the clock; nothing where the clock went
/// back.
pub open spec fn passed_between(last: u64, now: u64) -> u64 {
    if now >= last {
        (now - last) as u64
    } else {
        0
    }
}

impl SystemDelta {
    /// When the system ran last, if it ran.
    pub closed spec fn last(&self) -> Option<u64> {
        self.last_time
    }

    /// The account of a system that has not run yet.
    pub fn new() -> (account: Self)
        ensures
            account.last() is None,
    {
        SystemDelta { last_time: None }
    }

    /// The time that went by since the system ran last, and nothing on its
    /// first run. The account then holds `now`.
    pub fn delta(&mut self, now: u64) -> (passed: u64)
        ensures
            final(self).last() == Some(now),
            passed == (match old(self).last() {
                Some(last) => passed_between(last, now),
                None => 0,
            }),
    {
        let passed: u64 = match self.last_time {
            Some(last) => if now >= last {
                now - last
            } else {
                0
            },
            None => 0,
        };
        self.last_time = Some(now);
        passed
    }
}

} // verus!

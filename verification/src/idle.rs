//! Idle detection: how long since any input was active.

use vstd::prelude::*;

verus! {

/// Microseconds of inactivity after which the device should sleep.
pub const IDLE_TIME_US: u64 = 300000000;

/// Tracks the last time any input was held. Reading the buttons and the
/// timer, and the sleep itself, are hardware; their values are passed in.
pub struct Idle {
    pub last_active_time: u64,
}

impl Idle {
    pub fn new() -> (r: Idle)
        ensures
            r.last_active_time == 0,
    {
        Idle { last_active_time: 0 }
    }

    /// Note whether any input is active at time `now_us`, and say whether
    /// the idle threshold has been crossed.
    pub fn check_idle(&mut self, active: bool, now_us: u64) -> (r: bool)
        requires
            now_us >= old(self).last_active_time,
        ensures
            active ==> final(self).last_active_time == now_us && !r,
            !active ==> final(self).last_active_time == old(self).last_active_time
                && r == (now_us - old(self).last_active_time > IDLE_TIME_US),
    {
        if active {
            self.last_active_time = now_us;
            false
        } else {
            now_us - self.last_active_time > IDLE_TIME_US
        }
    }
}

} // verus!

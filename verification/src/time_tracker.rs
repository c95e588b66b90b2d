//! Per-call time accounting with a periodic report.

use vstd::prelude::*;
use crate::fps_monitor::sub_wrap;

verus! {

/// Microseconds between reports.
pub const REPORT_INTERVAL_US: u32 = 1000000;

/// What one report says: the average cost of a call over the interval.
#[derive(Clone, Copy, PartialEq, Eq, Structural, Debug)]
pub struct TimeReport {
    pub average_us_per_call: u32,
    pub calls: u32,
    pub accumulated_us: u32,
}

/// Accumulated cost after one more call of `elapsed` microseconds,
/// saturating rather than wrapping.
pub open spec fn spec_acc_after(t: TimeTracker, elapsed: u32) -> u32 {
    if t.accumulated_us <= u32::MAX - elapsed {
        (t.accumulated_us + elapsed) as u32
    } else {
        u32::MAX
    }
}

/// Call count after one more call, saturating.
pub open spec fn spec_count_after(t: TimeTracker) -> u32 {
    if t.count < u32::MAX {
        (t.count + 1) as u32
    } else {
        t.count
    }
}

/// Accumulates how long a named piece of work takes per call. The timer
/// is hardware; its readings are passed in.
pub struct TimeTracker {
    pub name: String,
    pub last_display_us: u32,
    pub accumulated_us: u32,
    pub count: u32,
    pub pending_start_us: u32,
}

impl TimeTracker {
    pub fn new(name: &str) -> (r: TimeTracker)
        ensures
            r.name@ == name@,
            r.last_display_us == 0,
            r.accumulated_us == 0,
            r.count == 0,
            r.pending_start_us == 0,
    {
        TimeTracker {
            name: name.to_string(),
            last_display_us: 0,
            accumulated_us: 0,
            count: 0,
            pending_start_us: 0,
        }
    }

    /// Mark the start of a tracked span.
    pub fn start(&mut self, now_us: u32)
        ensures
            final(self).pending_start_us == now_us,
            final(self).name == old(self).name,
            final(self).last_display_us == old(self).last_display_us,
            final(self).accumulated_us == old(self).accumulated_us,
            final(self).count == old(self).count,
    {
        self.pending_start_us = now_us;
    }

    /// Close the span opened by `start` and account its cost: exactly
    /// `update` with the span's wrapped elapsed time.
    pub fn stop(&mut self, now_us: u32) -> (r: Option<TimeReport>)
        ensures
            final(self).name == old(self).name,
            final(self).pending_start_us == old(self).pending_start_us,
            r.is_some() <==> sub_wrap(now_us, old(self).last_display_us) >= REPORT_INTERVAL_US,
            r.is_some() ==> ({
                let acc = spec_acc_after(*old(self), sub_wrap(now_us, old(self).pending_start_us));
                let cnt = spec_count_after(*old(self));
                r == Some(TimeReport {
                    average_us_per_call: (acc / cnt) as u32,
                    calls: cnt,
                    accumulated_us: acc,
                })
            }) && final(self).count == 0
                && final(self).accumulated_us == 0
                && final(self).last_display_us == now_us,
            r.is_none() ==> final(self).count == spec_count_after(*old(self))
                && final(self).accumulated_us
                    == spec_acc_after(*old(self), sub_wrap(now_us, old(self).pending_start_us))
                && final(self).last_display_us == old(self).last_display_us,
    {
        let elapsed = now_us.wrapping_sub(self.pending_start_us);
        self.update(elapsed, now_us)
    }

    /// Account one call that took `elapsed` microseconds: the cost is
    /// added (saturating) and the call counted. Exactly when a full
    /// report interval has passed since the last report, the interval's
    /// figures — the calls, their total cost, and the per-call average —
    /// are returned and a fresh interval starts; otherwise the
    /// accumulated figures persist.
    pub fn update(&mut self, elapsed: u32, now_us: u32) -> (r: Option<TimeReport>)
        ensures
            final(self).name == old(self).name,
            final(self).pending_start_us == old(self).pending_start_us,
            r.is_some() <==> sub_wrap(now_us, old(self).last_display_us) >= REPORT_INTERVAL_US,
            r.is_some() ==> ({
                let acc = spec_acc_after(*old(self), elapsed);
                let cnt = spec_count_after(*old(self));
                r == Some(TimeReport {
                    average_us_per_call: (acc / cnt) as u32,
                    calls: cnt,
                    accumulated_us: acc,
                })
            }) && final(self).count == 0
                && final(self).accumulated_us == 0
                && final(self).last_display_us == now_us,
            r.is_none() ==> final(self).count == spec_count_after(*old(self))
                && final(self).accumulated_us == spec_acc_after(*old(self), elapsed)
                && final(self).last_display_us == old(self).last_display_us,
    {
        let accumulated = if self.accumulated_us <= u32::MAX - elapsed {
            self.accumulated_us + elapsed
        } else {
            u32::MAX
        };
        let count = if self.count < u32::MAX { self.count + 1 } else { self.count };
        if now_us.wrapping_sub(self.last_display_us) >= REPORT_INTERVAL_US {
            let report = TimeReport {
                average_us_per_call: accumulated / count,
                calls: count,
                accumulated_us: accumulated,
            };
            self.last_display_us = now_us;
            self.count = 0;
            self.accumulated_us = 0;
            Some(report)
        } else {
            self.accumulated_us = accumulated;
            self.count = count;
            None
        }
    }
}

} // verus!

//! Frame-rate accounting over the microsecond timer.

use vstd::prelude::*;

verus! {

/// Microseconds between frame-rate reports.
pub const FPS_INTERVAL_US: u32 = 1000000;

/// Counts frames and reports how many fit into each full interval. The
/// timer itself is hardware; its readings are passed in.
pub struct FpsMonitor {
    pub last_time_us: u32,
    pub frames: u32,
}

impl FpsMonitor {
    pub fn new(now_us: u32) -> (r: FpsMonitor)
        ensures
            r.last_time_us == now_us,
            r.frames == 0,
    {
        FpsMonitor { last_time_us: now_us, frames: 0 }
    }

    /// Count one frame. When a full interval has passed since the last
    /// report, hand back the frame count of that interval and start the
    /// next one; otherwise just count. The timer wraps, so the elapsed
    /// time is taken modulo the timer's width.
    pub fn update(&mut self, now_us: u32) -> (r: Option<u32>)
        ensures
            final(self).frames <= old(self).frames + 1,
            r.is_some() <==> sub_wrap(now_us, old(self).last_time_us) >= FPS_INTERVAL_US,
            r.is_some() ==> r == Some(old(self).frames)
                && final(self).frames == 0
                && final(self).last_time_us == now_us,
            r.is_none() ==> final(self).last_time_us == old(self).last_time_us
                && final(self).frames == if old(self).frames < u32::MAX {
                    old(self).frames + 1
                } else {
                    old(self).frames as int
                },
    {
        let elapsed = now_us.wrapping_sub(self.last_time_us);
        if elapsed >= FPS_INTERVAL_US {
            let fps = self.frames;
            self.last_time_us = now_us;
            self.frames = 0;
            Some(fps)
        } else {
            if self.frames < u32::MAX {
                self.frames = self.frames + 1;
            }
            None
        }
    }
}

/// Wrapping distance between two timer readings.
pub open spec fn sub_wrap(a: u32, b: u32) -> u32 {
    if a >= b {
        (a - b) as u32
    } else {
        (a + 0x100000000 - b) as u32
    }
}

} // verus!

//! Framebuffer ownership and the vsync-paced scanout pipeline.
//!
//! The display owns the pixel grid. Between flushes the renderer mutates
//! it; during a flush the transfer engine streams it out to the display
//! bus, and the renderer must stay behind the scanout cursor. A flush is
//! started only at a vsync boundary; its progress is read back from the
//! transfer channel's outstanding count.

use vstd::prelude::*;
use crate::dma::{DmaChannel, set_mem, spec_bswap, spec_repeat};
use crate::codec::spec_splice;

verus! {

pub const WIDTH: usize = 240;
pub const HEIGHT: usize = 240;

/// Pixels in one full frame.
pub const FRAME_PIXELS: usize = 57600;

pub struct Display {
    /// The pixel grid, row-major, `WIDTH * HEIGHT` wire-order pixels.
    pub fb: Vec<u16>,
    /// The channel that streams the framebuffer out to the display bus.
    pub channel: DmaChannel,
    /// Vsync edges waited for so far; a flush begins only after one.
    pub vsyncs: u64,
}

/// Transmitted-pixel offset of the in-flight flush: the whole frame once
/// the channel has drained (or none is in flight), else what the channel
/// has moved so far. It resets only when a new flush starts.
pub open spec fn spec_progress(d: Display) -> int {
    if d.channel.remaining == 0 {
        FRAME_PIXELS as int
    } else {
        d.channel.spec_transferred()
    }
}

impl Display {
    /// The grid is always one full frame, and the only transfer the
    /// display channel ever carries is a whole-frame flush.
    pub open spec fn wf(&self) -> bool {
        &&& self.fb@.len() == FRAME_PIXELS
        &&& self.channel.wf()
        &&& (self.channel.total == 0 || self.channel.total == FRAME_PIXELS as u32)
    }

    /// A display with a black (all-zero) framebuffer and an idle channel.
    pub fn new() -> (r: Display)
        ensures
            r.wf(),
            r.fb@ == spec_repeat(0u16, FRAME_PIXELS as nat),
            r.channel.remaining == 0,
            r.vsyncs == 0,
    {
        let mut fb: Vec<u16> = Vec::new();
        let mut t: usize = 0;
        while t < FRAME_PIXELS
            invariant
                0 <= t <= FRAME_PIXELS,
                fb@ =~= spec_repeat(0u16, t as nat),
            decreases FRAME_PIXELS - t,
        {
            fb.push(0);
            proof {
                assert(fb@ =~= spec_repeat(0u16, (t + 1) as nat));
            }
            t += 1;
        }
        Display { fb, channel: DmaChannel::new(0), vsyncs: 0 }
    }

    /// Synchronous fill of the whole frame. The stored value is the
    /// byte-swapped color: the grid holds wire-order pixels. Any in-flight
    /// flush is drained first, so stale content is never interleaved.
    pub fn clear(&mut self, color: u16)
        requires
            old(self).wf(),
        ensures
            final(self).wf(),
            final(self).fb@ == spec_repeat(spec_bswap(color), FRAME_PIXELS as nat),
            final(self).channel.remaining == 0,
            final(self).vsyncs == old(self).vsyncs,
    {
        self.channel.wait();
        let swapped = crate::dma::bswap(color);
        set_mem(&mut self.channel, swapped, &mut self.fb, 0, FRAME_PIXELS);
        proof {
            assert(spec_splice(old(self).fb@, 0, spec_repeat(spec_bswap(color), FRAME_PIXELS as nat))
                =~= spec_repeat(spec_bswap(color), FRAME_PIXELS as nat));
        }
    }

    /// Spin until the vsync/tearing-effect signal marks a refresh
    /// boundary. The signal's timing is not modeled, so only the count of
    /// boundaries waited for is tracked.
    pub fn wait_for_vsync(&mut self)
        requires
            old(self).wf(),
        ensures
            final(self).wf(),
            final(self).fb@ == old(self).fb@,
            final(self).channel == old(self).channel,
            final(self).vsyncs == if old(self).vsyncs < u64::MAX { old(self).vsyncs + 1 } else { old(self).vsyncs as int },
    {
        if self.vsyncs < u64::MAX {
            self.vsyncs = self.vsyncs + 1;
        }
    }

    /// Begin streaming the frame out: fire-and-forget, the caller keeps
    /// running. Progress resets to zero for the new flush.
    pub fn start_flush(&mut self)
        requires
            old(self).wf(),
        ensures
            final(self).wf(),
            final(self).fb@ == old(self).fb@,
            final(self).vsyncs == old(self).vsyncs,
            final(self).channel.remaining == FRAME_PIXELS as u32,
            final(self).channel.total == FRAME_PIXELS as u32,
            spec_progress(*final(self)) == 0,
    {
        self.channel.start_stream(FRAME_PIXELS as u32);
    }

    /// Block until the in-flight flush has fully drained.
    pub fn wait_for_flush(&mut self)
        requires
            old(self).wf(),
        ensures
            final(self).wf(),
            final(self).fb@ == old(self).fb@,
            final(self).vsyncs == old(self).vsyncs,
            final(self).channel.remaining == 0,
            spec_progress(*final(self)) == FRAME_PIXELS as int,
    {
        self.channel.wait();
    }

    /// One-shot synchronous flush: wait for a refresh boundary, stream the
    /// frame out, block to completion.
    pub fn flush(&mut self)
        requires
            old(self).wf(),
        ensures
            final(self).wf(),
            final(self).fb@ == old(self).fb@,
            final(self).channel.remaining == 0,
            spec_progress(*final(self)) == FRAME_PIXELS as int,
    {
        self.wait_for_vsync();
        self.start_flush();
        self.wait_for_flush();
    }

    /// Transmitted-pixel offset of the in-flight flush. Polling lets the
    /// modeled transfer advance, and within one flush the value never
    /// decreases.
    pub fn flush_progress(&mut self) -> (r: usize)
        requires
            old(self).wf(),
        ensures
            final(self).wf(),
            final(self).fb@ == old(self).fb@,
            final(self).vsyncs == old(self).vsyncs,
            final(self).channel.total == old(self).channel.total,
            final(self).channel.remaining <= old(self).channel.remaining,
            old(self).channel.remaining > 0
                ==> final(self).channel.remaining < old(self).channel.remaining,
            r == spec_progress(*final(self)),
            r <= FRAME_PIXELS,
            spec_progress(*final(self)) >= spec_progress(*old(self)),
    {
        let remaining = self.channel.poll_remaining();
        if remaining == 0 {
            FRAME_PIXELS
        } else {
            let total = self.channel.get_count_total();
            (total - remaining) as usize
        }
    }
}

/// Scanout-safety law: when the renderer's gate lets a tile row at
/// `drawn_y` be drawn while a flush is still in flight, everything the row
/// touches — every offset below `(drawn_y + rows) * WIDTH` — lies behind
/// the transmitted cursor, so the flush only reads pixels it has already
/// sent.
pub proof fn lemma_scanout_safety(progress: int, safe_y: int, drawn_y: int, rows: int)
    requires
        0 <= progress,
        safe_y == if progress + 1 >= WIDTH { (progress + 1 - WIDTH) / (WIDTH as int) } else { 0 },
        0 <= drawn_y,
        0 < rows,
        drawn_y + rows <= safe_y,
    ensures
        (drawn_y + rows) * WIDTH <= progress,
{
    assert(progress + 1 >= WIDTH) by {
        if progress + 1 < WIDTH {
            assert(safe_y == 0);
        }
    }
    let n = progress + 1 - WIDTH;
    assert(safe_y * WIDTH <= n) by (nonlinear_arith)
        requires
            safe_y == n / (WIDTH as int),
            n >= 0,
    ;
    assert((drawn_y + rows) * WIDTH <= safe_y * WIDTH) by (nonlinear_arith)
        requires
            drawn_y + rows <= safe_y,
    ;
}

} // verus!

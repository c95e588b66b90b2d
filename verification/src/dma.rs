//! Model of the asynchronous block-transfer engine.
//!
//! The real target drives a hardware bulk-copy unit: a channel is
//! configured with source, destination, element size and count, triggered,
//! and then progresses on its own while the processor keeps running. This
//! crate targets plain memory, so the same interface is kept with a
//! synchronous copy underneath: a memory operation completes before the
//! call returns, and only the streamed scanout transfer stays pending,
//! draining by a fixed chunk each time the channel is polled. That keeps
//! the renderer's ordering and wait-point logic, and its tests, unchanged.

use vstd::prelude::*;
use vstd::pervasive::VecAdditionalExecFns;
use crate::codec::spec_splice;

verus! {

/// Pixels the modeled scanout transfer advances by per poll.
pub const SCANOUT_CHUNK: u32 = 960;

/// One transfer channel: how much of the transfer it was last triggered
/// with is still outstanding.
pub struct DmaChannel {
    /// Which hardware channel this stands for.
    pub channel: usize,
    /// Elements not yet transferred by the in-flight transfer.
    pub remaining: u32,
    /// Elements the in-flight transfer was started with.
    pub total: u32,
}

/// A pixel with its two bytes swapped: the framebuffer stores pixels in
/// wire order, while literals in tile assets are native.
pub open spec fn spec_bswap(p: u16) -> u16 {
    ((p % 256) * 256 + p / 256) as u16
}

/// `count` copies of `v`.
pub open spec fn spec_repeat(v: u16, count: nat) -> Seq<u16> {
    Seq::new(count, |k: int| v)
}

pub fn bswap(p: u16) -> (r: u16)
    ensures
        r == spec_bswap(p),
{
    let r = (p << 8) | (p >> 8);
    proof {
        assert((p << 8) | (p >> 8) == ((p & 0xff) * 256 + p / 256)) by (bit_vector);
        assert(p & 0xff == p % 256) by (bit_vector);
    }
    r
}

/// Element-size field encoding of the transfer unit: log2 of the width.
pub fn wordsize(elem_size: u32) -> (r: u32)
    requires
        elem_size == 1 || elem_size == 2 || elem_size == 4,
    ensures
        elem_size == 1 ==> r == 0,
        elem_size == 2 ==> r == 1,
        elem_size == 4 ==> r == 2,
{
    match elem_size {
        1 => 0,
        2 => 1,
        _ => 2,
    }
}

impl DmaChannel {
    /// Progress of the in-flight transfer, in elements.
    pub open spec fn spec_transferred(&self) -> int {
        self.total - self.remaining
    }

    /// A channel never has more outstanding than it was started with.
    pub open spec fn wf(&self) -> bool {
        self.remaining <= self.total
    }

    pub fn new(channel: usize) -> (r: DmaChannel)
        ensures
            r.channel == channel,
            r.remaining == 0,
            r.total == 0,
            r.wf(),
    {
        DmaChannel { channel, remaining: 0, total: 0 }
    }

    /// Begin a streamed transfer of `count` elements that will drain as the
    /// channel is polled. The memory effect of the stream is a pure read.
    pub fn start_stream(&mut self, count: u32)
        ensures
            final(self).channel == old(self).channel,
            final(self).remaining == count,
            final(self).total == count,
            final(self).wf(),
    {
        self.remaining = count;
        self.total = count;
    }

    /// Read the outstanding element count without letting the modeled
    /// hardware advance.
    pub fn get_count(&self) -> (r: u32)
        ensures
            r == self.remaining,
    {
        self.remaining
    }

    /// Total element count of the in-flight transfer.
    pub fn get_count_total(&self) -> (r: u32)
        ensures
            r == self.total,
    {
        self.total
    }

    /// Poll the channel: the modeled transfer advances by one chunk, and
    /// the outstanding count after that is returned. Progress never moves
    /// backwards, and an unfinished transfer makes strict progress.
    pub fn poll_remaining(&mut self) -> (r: u32)
        requires
            old(self).wf(),
        ensures
            final(self).channel == old(self).channel,
            final(self).total == old(self).total,
            final(self).remaining == if old(self).remaining > SCANOUT_CHUNK {
                (old(self).remaining - SCANOUT_CHUNK) as u32
            } else {
                0u32
            },
            r == final(self).remaining,
            final(self).remaining <= old(self).remaining,
            old(self).remaining > 0 ==> final(self).remaining < old(self).remaining,
            final(self).wf(),
    {
        if self.remaining > SCANOUT_CHUNK {
            self.remaining = self.remaining - SCANOUT_CHUNK;
        } else {
            self.remaining = 0;
        }
        self.remaining
    }

    /// Block until the in-flight transfer has fully drained.
    pub fn wait(&mut self)
        requires
            old(self).wf(),
        ensures
            final(self).channel == old(self).channel,
            final(self).total == old(self).total,
            final(self).remaining == 0,
            final(self).wf(),
    {
        while self.remaining > 0
            invariant
                self.wf(),
                self.channel == old(self).channel,
                self.total == old(self).total,
            decreases self.remaining,
        {
            self.poll_remaining();
        }
    }
}

/// Constant fill: write `count` copies of `src` at `dst_start`, blocking
/// to completion like the hardware helper it stands for.
#[verifier::loop_isolation(false)]
pub fn set_mem(dma_channel: &mut DmaChannel, src: u16, dst: &mut Vec<u16>, dst_start: usize, count: usize)
    requires
        old(dma_channel).wf(),
        dst_start + count <= old(dst)@.len(),
    ensures
        final(dst)@ == spec_splice(old(dst)@, dst_start as int, spec_repeat(src, count as nat)),
        final(dst)@.len() == old(dst)@.len(),
        final(dma_channel).remaining == 0,
        final(dma_channel).total == old(dma_channel).total,
        final(dma_channel).channel == old(dma_channel).channel,
        final(dma_channel).wf(),
{
    let ghost dst0 = dst@;
    let dst_length = dst.len();
    let mut t: usize = 0;
    while t < count
        invariant
            0 <= t <= count,
            dst@.len() == dst0.len(),
            dst_length == dst@.len(),
            dst@ == spec_splice(dst0, dst_start as int, spec_repeat(src, t as nat)),
        decreases count - t,
    {
        proof {
            crate::codec::lemma_splice_push(dst0, dst_start as int, spec_repeat(src, t as nat), src);
            assert(spec_repeat(src, t as nat).push(src) =~= spec_repeat(src, (t + 1) as nat));
        }
        dst.set(dst_start + t, src);
        t += 1;
    }
    proof {
        assert(dst@ == spec_splice(dst0, dst_start as int, spec_repeat(src, count as nat)));
    }
    dma_channel.wait();
}

/// Memory-to-memory copy of `count` elements, blocking to completion.
#[verifier::loop_isolation(false)]
pub fn copy_mem(dma_channel: &mut DmaChannel, src: &Vec<u16>, src_start: usize, dst: &mut Vec<u16>, dst_start: usize, count: usize)
    requires
        old(dma_channel).wf(),
        src_start + count <= src@.len(),
        dst_start + count <= old(dst)@.len(),
    ensures
        final(dst)@ == spec_splice(old(dst)@, dst_start as int,
            src@.subrange(src_start as int, src_start + count as int)),
        final(dst)@.len() == old(dst)@.len(),
        final(dma_channel).remaining == 0,
        final(dma_channel).total == old(dma_channel).total,
        final(dma_channel).channel == old(dma_channel).channel,
        final(dma_channel).wf(),
{
    let ghost dst0 = dst@;
    let ghost vals = src@.subrange(src_start as int, src_start + count as int);
    let src_length = src.len();
    let dst_length = dst.len();
    let mut t: usize = 0;
    while t < count
        invariant
            0 <= t <= count,
            dst@.len() == dst0.len(),
            dst_length == dst@.len(),
            dst@ == spec_splice(dst0, dst_start as int, vals.subrange(0, t as int)),
        decreases count - t,
    {
        let v = src[src_start + t];
        proof {
            crate::codec::lemma_splice_push(dst0, dst_start as int, vals.subrange(0, t as int), v);
            assert(vals.subrange(0, t as int).push(v) =~= vals.subrange(0, t + 1 as int));
        }
        dst.set(dst_start + t, v);
        t += 1;
    }
    proof {
        assert(vals.subrange(0, count as int) =~= vals);
    }
    dma_channel.wait();
}

/// Memory-to-memory copy that swaps each element's bytes on the way, the
/// mode used to move native-order pixels into the wire-order framebuffer.
#[verifier::loop_isolation(false)]
pub fn copy_mem_bswap(dma_channel: &mut DmaChannel, src: &Vec<u16>, src_start: usize, dst: &mut Vec<u16>, dst_start: usize, count: usize)
    requires
        old(dma_channel).wf(),
        src_start + count <= src@.len(),
        dst_start + count <= old(dst)@.len(),
    ensures
        final(dst)@ == spec_splice(old(dst)@, dst_start as int,
            src@.subrange(src_start as int, src_start + count as int).map_values(|p: u16| spec_bswap(p))),
        final(dst)@.len() == old(dst)@.len(),
        final(dma_channel).remaining == 0,
        final(dma_channel).total == old(dma_channel).total,
        final(dma_channel).channel == old(dma_channel).channel,
        final(dma_channel).wf(),
{
    let ghost dst0 = dst@;
    let ghost vals = src@.subrange(src_start as int, src_start + count as int)
        .map_values(|p: u16| spec_bswap(p));
    let src_length = src.len();
    let dst_length = dst.len();
    let mut t: usize = 0;
    while t < count
        invariant
            0 <= t <= count,
            dst@.len() == dst0.len(),
            dst_length == dst@.len(),
            dst@ == spec_splice(dst0, dst_start as int, vals.subrange(0, t as int)),
        decreases count - t,
    {
        let v = bswap(src[src_start + t]);
        proof {
            crate::codec::lemma_splice_push(dst0, dst_start as int, vals.subrange(0, t as int), v);
            assert(vals.subrange(0, t as int).push(v) =~= vals.subrange(0, t + 1 as int));
        }
        dst.set(dst_start + t, v);
        t += 1;
    }
    proof {
        assert(vals.subrange(0, count as int) =~= vals);
    }
    dma_channel.wait();
}

/// Streaming read from the tile assets' slow bulk storage into a staging
/// buffer. The storage holds plain words, so the effect is a copy; the
/// latency it hides is not modeled.
pub fn copy_flash_to_mem(dma_channel: &mut DmaChannel, src: &Vec<u16>, src_start: usize, dst: &mut Vec<u16>, dst_start: usize, count: usize)
    requires
        old(dma_channel).wf(),
        src_start + count <= src@.len(),
        dst_start + count <= old(dst)@.len(),
    ensures
        final(dst)@ == spec_splice(old(dst)@, dst_start as int,
            src@.subrange(src_start as int, src_start + count as int)),
        final(dst)@.len() == old(dst)@.len(),
        final(dma_channel).remaining == 0,
        final(dma_channel).total == old(dma_channel).total,
        final(dma_channel).channel == old(dma_channel).channel,
        final(dma_channel).wf(),
{
    copy_mem(dma_channel, src, src_start, dst, dst_start, count)
}

/// Copy within one buffer, for framebuffer-to-framebuffer blits. The
/// ranges must be disjoint (or identical), which is how the renderer uses
/// it: a cached tile never overlaps the cell it is copied to.
#[verifier::loop_isolation(false)]
pub fn copy_mem_within(dma_channel: &mut DmaChannel, buf: &mut Vec<u16>, src_start: usize, dst_start: usize, count: usize)
    requires
        old(dma_channel).wf(),
        src_start + count <= old(buf)@.len(),
        dst_start + count <= old(buf)@.len(),
        src_start == dst_start
            || src_start + count <= dst_start
            || dst_start + count <= src_start,
    ensures
        final(buf)@ == spec_splice(old(buf)@, dst_start as int,
            old(buf)@.subrange(src_start as int, src_start + count as int)),
        final(buf)@.len() == old(buf)@.len(),
        final(dma_channel).remaining == 0,
        final(dma_channel).total == old(dma_channel).total,
        final(dma_channel).channel == old(dma_channel).channel,
        final(dma_channel).wf(),
{
    let ghost buf0 = buf@;
    let ghost vals = buf0.subrange(src_start as int, src_start + count as int);
    let buf_length = buf.len();
    if src_start == dst_start {
        proof {
            assert(spec_splice(buf0, dst_start as int, vals) =~= buf0);
        }
        dma_channel.wait();
        return;
    }
    let mut t: usize = 0;
    while t < count
        invariant
            0 <= t <= count,
            buf@.len() == buf0.len(),
            buf_length == buf@.len(),
            buf@ == spec_splice(buf0, dst_start as int, vals.subrange(0, t as int)),
            forall|k: int| src_start <= k < src_start + count ==> buf@[k] == buf0[k],
        decreases count - t,
    {
        let v = buf[src_start + t];
        proof {
            assert(v == vals[t as int]);
            crate::codec::lemma_splice_push(buf0, dst_start as int, vals.subrange(0, t as int), v);
            assert(vals.subrange(0, t as int).push(v) =~= vals.subrange(0, t + 1 as int));
        }
        buf.set(dst_start + t, v);
        t += 1;
    }
    proof {
        assert(vals.subrange(0, count as int) =~= vals);
    }
    dma_channel.wait();
}

} // verus!

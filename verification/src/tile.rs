//! Tiles: compressed assets, decode staging, and the blits that place
//! them in the framebuffer.

use vstd::prelude::*;
use crate::codec::{spec_block_ok, spec_decompress, spec_splice, decompress};
use crate::display::{Display, WIDTH, HEIGHT, FRAME_PIXELS};
use crate::dma::{DmaChannel, spec_bswap, spec_repeat, copy_flash_to_mem, copy_mem_bswap};
use crate::geom::{Point, Size};
use crate::cache::{TileCache, OverlayCache, DeferredList};

verus! {

/// Tiles are square, this many pixels on a side.
pub const TILE_SIZE: i32 = 32;

/// Pixels in one decompressed tile.
pub const TILE_PIXELS: usize = 1024;

/// Stable handle of a tile: its index in the build-time tile table. The
/// hardware build keys caches by the asset's address; in managed memory
/// the table index is the portable identity.
#[derive(Clone, Copy, PartialEq, Eq, Structural, Debug)]
pub struct TileId(pub u32);

/// One build-time tile asset: the compressed pixel payload and one
/// 32-bit transparency word per row (bit set = column opaque).
pub struct Tile {
    pub data: Vec<u16>,
    pub mask: Vec<u32>,
}

impl Tile {
    /// The payload decodes cleanly into one tile's worth of pixels, and
    /// there is a mask word for every row.
    pub open spec fn wf(&self) -> bool {
        &&& spec_block_ok(self.data@, TILE_PIXELS as int)
        &&& self.data@.len() >= 1
        &&& self.mask@.len() == TILE_SIZE
    }

    /// The tile's decompressed pixels: its records decoded over a zeroed
    /// buffer.
    pub open spec fn spec_pixels(&self) -> Seq<u16> {
        spec_decompress(self.data@, spec_repeat(0u16, TILE_PIXELS as nat))
    }
}

/// What the map generator returns for one world cell: the base tile's
/// handle first, then up to `NUM_LAYERS - 1` overlay handles.
pub struct GenMapTile {
    pub layers: Vec<TileId>,
}

/// A tile decoded into pixels, with its mask alongside: the form blits
/// read, and what the overlay cache stores.
pub struct LoadedTile {
    pub data: Vec<u16>,
    pub mask: Vec<u32>,
}

impl LoadedTile {
    pub open spec fn wf(&self) -> bool {
        &&& self.data@.len() == TILE_PIXELS
        &&& self.mask@.len() == TILE_SIZE
    }

    pub fn new() -> (r: LoadedTile)
        ensures
            r.wf(),
            r.data@ == spec_repeat(0u16, TILE_PIXELS as nat),
            forall|k: int| 0 <= k < TILE_SIZE ==> r.mask@[k] == 0u32,
    {
        let mut data: Vec<u16> = Vec::new();
        let mut t: usize = 0;
        while t < TILE_PIXELS
            invariant
                0 <= t <= TILE_PIXELS,
                data@ =~= spec_repeat(0u16, t as nat),
            decreases TILE_PIXELS - t,
        {
            data.push(0);
            proof {
                assert(data@ =~= spec_repeat(0u16, (t + 1) as nat));
            }
            t += 1;
        }
        let mut mask: Vec<u32> = Vec::new();
        let mut m: usize = 0;
        while m < 32
            invariant
                0 <= m <= 32,
                mask@.len() == m,
                forall|k: int| 0 <= k < m ==> mask@[k] == 0u32,
            decreases 32 - m,
        {
            mask.push(0);
            m += 1;
        }
        LoadedTile { data, mask }
    }
}

/// Decode a tile asset into `dst`: stream the compressed payload out of
/// bulk storage into a staging buffer, decompress it over `dst`'s pixels,
/// and, for a masked (overlay) load, bring the transparency words across
/// too.
#[verifier::loop_isolation(false)]
pub fn load_tile(src: &Tile, dst: &mut LoadedTile, masked: bool)
    requires
        src.wf(),
        old(dst).wf(),
    ensures
        final(dst).wf(),
        final(dst).data@ == spec_decompress(src.data@, old(dst).data@),
        final(dst).mask@ == if masked { src.mask@ } else { old(dst).mask@ },
{
    let mut dma_channel = DmaChannel::new(1);
    let data_len = src.data.len();
    let mut buf: Vec<u16> = Vec::new();
    let mut t: usize = 0;
    while t < data_len
        invariant
            0 <= t <= data_len,
            buf@ =~= spec_repeat(0u16, t as nat),
        decreases data_len - t,
    {
        buf.push(0);
        proof {
            assert(buf@ =~= spec_repeat(0u16, (t + 1) as nat));
        }
        t += 1;
    }
    copy_flash_to_mem(&mut dma_channel, &src.data, 0, &mut buf, 0, data_len);
    proof {
        assert(buf@ =~= src.data@);
        assert(spec_block_ok(buf@, TILE_PIXELS as int));
    }
    decompress(&buf, &mut dst.data);
    if masked {
        let ghost decoded = dst.data@;
        let mut m: usize = 0;
        while m < 32
            invariant
                0 <= m <= 32,
                dst.data@ == decoded,
                dst.mask@.len() == TILE_SIZE,
                forall|k: int| 0 <= k < m ==> dst.mask@[k] == src.mask@[k],
            decreases 32 - m,
        {
            let w = src.mask[m];
            dst.mask.set(m, w);
            m += 1;
        }
        proof {
            assert(dst.mask@ =~= src.mask@);
        }
    }
}

/// Row-major index arithmetic: where a row segment `[x0, x1)` of screen
/// row `row` sits among the frame's offsets.
pub proof fn lemma_row_index(sx: int, sy: int, row: int, x0: int, x1: int)
    requires
        0 <= sx < WIDTH,
        0 <= sy < HEIGHT,
        0 <= x0 <= x1 <= WIDTH,
    ensures
        0 <= sy * WIDTH + sx < FRAME_PIXELS,
        (sy == row && x0 <= sx < x1)
            <==> (row * WIDTH + x0 <= sy * WIDTH + sx < row * WIDTH + x1),
{
    assert((0 <= sy * WIDTH + sx < FRAME_PIXELS
        && ((sy == row && x0 <= sx < x1)
            <==> (row * WIDTH + x0 <= sy * WIDTH + sx < row * WIDTH + x1))))
        by (nonlinear_arith)
        requires
            0 <= sx < WIDTH,
            0 <= sy < HEIGHT,
            0 <= x0 <= x1 <= WIDTH,
            WIDTH == 240,
            HEIGHT == 240,
            FRAME_PIXELS == 57600,
    ;
}

/// The framebuffer pixel at screen position `(sx, sy)`.
pub open spec fn spec_fb_pixel(fb: Seq<u16>, sx: int, sy: int) -> u16 {
    fb[sy * WIDTH + sx]
}

/// An offset at or past a row boundary lies in that row or below it.
pub proof fn lemma_offset_row(o: int, sx: int, sy: int, y0: int)
    requires
        o == sy * WIDTH + sx,
        0 <= sx < WIDTH,
        o >= y0 * WIDTH,
    ensures
        sy >= y0,
{
    assert(sy >= y0) by (nonlinear_arith)
        requires
            o == sy * WIDTH + sx,
            0 <= sx < WIDTH,
            o >= y0 * WIDTH,
            WIDTH == 240,
    ;
}

/// Is screen position `(sx, sy)` inside the rectangle at `p` of extent
/// `size`?
pub open spec fn spec_in_rect(p: Point, size: Size, sx: int, sy: int) -> bool {
    p.x <= sx < p.x + size.width && p.y <= sy < p.y + size.height
}

/// The tile pixel a blit of `tile` at `p` reads for screen position
/// `(sx, sy)`.
pub open spec fn spec_tile_pixel(tile: Seq<u16>, p: Point, sx: int, sy: int) -> u16 {
    tile[(sy - p.y) * TILE_SIZE + (sx - p.x)]
}

/// Opaque blit: place `tile`'s pixels at `dst`, clipped to the screen,
/// byte-swapping each pixel into wire order on the way. Returns whether
/// the placement was fully on screen.
#[verifier::loop_isolation(false)]
#[verifier::rlimit(80)]
pub fn draw_opaque_tile(display: &mut Display, tile: &LoadedTile, dst: Point, size: Size) -> (r: bool)
    requires
        old(display).wf(),
        tile.wf(),
        1 <= size.width <= TILE_SIZE,
        1 <= size.height <= TILE_SIZE,
        -100000 <= dst.x <= 100000,
        -100000 <= dst.y <= 100000,
    ensures
        final(display).wf(),
        final(display).channel == old(display).channel,
        final(display).vsyncs == old(display).vsyncs,
        r == (0 <= dst.x && dst.x + size.width <= WIDTH && 0 <= dst.y && dst.y + size.height <= HEIGHT),
        forall|sx: int, sy: int| 0 <= sx < WIDTH && 0 <= sy < HEIGHT ==>
            #[trigger] spec_fb_pixel(final(display).fb@, sx, sy) == (if spec_in_rect(dst, size, sx, sy) {
                spec_bswap(spec_tile_pixel(tile.data@, dst, sx, sy))
            } else {
                spec_fb_pixel(old(display).fb@, sx, sy)
            }),
{
    let ghost fb0 = display.fb@;
    let mut dma_channel = DmaChannel::new(1);
    let w = size.width as i32;
    let h = size.height as i32;
    let x0: i32 = if dst.x > 0 { dst.x } else { 0 };
    let y0: i32 = if dst.y > 0 { dst.y } else { 0 };
    let xe: i32 = dst.x + w;
    let ye: i32 = dst.y + h;
    let x1: i32 = if xe < WIDTH as i32 { xe } else { WIDTH as i32 };
    let y1: i32 = if ye < HEIGHT as i32 { ye } else { HEIGHT as i32 };
    let r = x0 == dst.x && y0 == dst.y && x1 == xe && y1 == ye;

    if x0 < x1 && y0 < y1 {
        let cw = (x1 - x0) as usize;
        let mut row: i32 = y0;
        while row < y1
            invariant
                y0 <= row <= y1,
                dma_channel.wf(),
                display.fb@.len() == FRAME_PIXELS,
                display.channel == old(display).channel,
                display.vsyncs == old(display).vsyncs,
                forall|sx: int, sy: int| 0 <= sx < WIDTH && 0 <= sy < HEIGHT ==>
                    #[trigger] spec_fb_pixel(display.fb@, sx, sy) == (if x0 <= sx < x1 && y0 <= sy < row {
                        spec_bswap(spec_tile_pixel(tile.data@, dst, sx, sy))
                    } else {
                        spec_fb_pixel(fb0, sx, sy)
                    }),
            decreases y1 - row,
        {
            let ghost fb_prev = display.fb@;
            proof {
                lemma_row_index(x0 as int, row as int, row as int, x0 as int, x1 as int);
                assert(0 <= (row - dst.y) * TILE_SIZE + (x0 - dst.x)
                    && (row - dst.y) * TILE_SIZE + (x1 - dst.x) <= TILE_PIXELS) by (nonlinear_arith)
                    requires
                        dst.y <= row,
                        row < dst.y + h,
                        h <= 32,
                        TILE_SIZE == 32,
                        TILE_PIXELS == 1024,
                        dst.x <= x0 <= x1,
                        x1 - dst.x <= w,
                        w <= 32,
                ;
            }
            let src_index = ((row - dst.y) * TILE_SIZE + (x0 - dst.x)) as usize;
            let dst_index = (row as usize) * WIDTH + (x0 as usize);
            copy_mem_bswap(&mut dma_channel, &tile.data, src_index, &mut display.fb, dst_index, cw);
            proof {
                let vals = tile.data@.subrange(src_index as int, src_index + cw as int)
                    .map_values(|p: u16| spec_bswap(p));
                assert(display.fb@ == spec_splice(fb_prev, dst_index as int, vals));
                assert(vals.len() == cw);
                assert forall|sx: int, sy: int| 0 <= sx < WIDTH && 0 <= sy < HEIGHT implies
                    #[trigger] spec_fb_pixel(display.fb@, sx, sy) == (if x0 <= sx < x1 && y0 <= sy < row + 1 {
                        spec_bswap(spec_tile_pixel(tile.data@, dst, sx, sy))
                    } else {
                        spec_fb_pixel(fb0, sx, sy)
                    }) by {
                    lemma_row_index(sx, sy, row as int, x0 as int, x1 as int);
                    let o = sy * WIDTH + sx;
                    assert(spec_fb_pixel(display.fb@, sx, sy) == display.fb@[o]);
                    assert(spec_fb_pixel(fb_prev, sx, sy) == fb_prev[o]);
                    assert(spec_fb_pixel(fb0, sx, sy) == fb0[o]);
                    assert(dst_index as int == row * WIDTH + x0);
                    if x0 <= sx < x1 && y0 <= sy < row + 1 {
                        if sy == row {
                            assert(dst_index <= o < dst_index + cw);
                            assert(display.fb@[o] == vals[o - dst_index]);
                            assert(o - dst_index == sx - x0);
                            assert(vals[sx - x0] == spec_bswap(tile.data@[src_index + (sx - x0)]));
                            assert(src_index + (sx - x0) == (sy - dst.y) * TILE_SIZE + (sx - dst.x));
                        } else {
                            assert(!(dst_index <= o < dst_index + cw));
                            assert(display.fb@[o] == fb_prev[o]);
                        }
                    } else {
                        assert(!(dst_index <= o < dst_index + cw));
                        assert(display.fb@[o] == fb_prev[o]);
                    }
                }
            }
            row = row + 1;
        }
    }
    r
}

/// Is bit `x` of mask word `m` set, marking the column opaque?
pub open spec fn spec_mask_bit(m: u32, x: int) -> bool
    recommends
        0 <= x < 32,
{
    (m >> (x as u32)) & 1 == 1
}

/// What a masked blit of `tile` at `dst` leaves at screen position
/// `(sx, sy)`: the tile's pixel in wire order where the mask marks the
/// column opaque, the background `under` elsewhere.
pub open spec fn spec_overlay_pixel(data: Seq<u16>, mask: Seq<u32>, under: Seq<u16>, dst: Point, sx: int, sy: int) -> u16 {
    if spec_mask_bit(mask[sy - dst.y], sx - dst.x) {
        spec_bswap(spec_tile_pixel(data, dst, sx, sy))
    } else {
        spec_fb_pixel(under, sx, sy)
    }
}

/// Masked (overlay) blit: place `tile`'s opaque columns at `dst`, clipped
/// to the screen, leaving transparent columns as they were. Returns
/// whether the placement was fully on screen.
#[verifier::loop_isolation(false)]
pub fn draw_transparent_tile(display: &mut Display, tile: &LoadedTile, dst: Point, size: Size) -> (r: bool)
    requires
        old(display).wf(),
        tile.wf(),
        1 <= size.width <= TILE_SIZE,
        1 <= size.height <= TILE_SIZE,
        -100000 <= dst.x <= 100000,
        -100000 <= dst.y <= 100000,
    ensures
        final(display).wf(),
        final(display).channel == old(display).channel,
        final(display).vsyncs == old(display).vsyncs,
        r == (0 <= dst.x && dst.x + size.width <= WIDTH && 0 <= dst.y && dst.y + size.height <= HEIGHT),
        forall|sx: int, sy: int| 0 <= sx < WIDTH && 0 <= sy < HEIGHT ==>
            #[trigger] spec_fb_pixel(final(display).fb@, sx, sy) == (if spec_in_rect(dst, size, sx, sy) {
                spec_overlay_pixel(tile.data@, tile.mask@, old(display).fb@, dst, sx, sy)
            } else {
                spec_fb_pixel(old(display).fb@, sx, sy)
            }),
{
    let ghost fb0 = display.fb@;
    let w = size.width as i32;
    let h = size.height as i32;
    let x0: i32 = if dst.x > 0 { dst.x } else { 0 };
    let y0: i32 = if dst.y > 0 { dst.y } else { 0 };
    let xe: i32 = dst.x + w;
    let ye: i32 = dst.y + h;
    let x1: i32 = if xe < WIDTH as i32 { xe } else { WIDTH as i32 };
    let y1: i32 = if ye < HEIGHT as i32 { ye } else { HEIGHT as i32 };
    let r = x0 == dst.x && y0 == dst.y && x1 == xe && y1 == ye;

    if x0 < x1 && y0 < y1 {
        let mut row: i32 = y0;
        while row < y1
            invariant
                y0 <= row <= y1,
                display.fb@.len() == FRAME_PIXELS,
                display.channel == old(display).channel,
                display.vsyncs == old(display).vsyncs,
                forall|sx: int, sy: int| 0 <= sx < WIDTH && 0 <= sy < HEIGHT ==>
                    #[trigger] spec_fb_pixel(display.fb@, sx, sy) == (if x0 <= sx < x1 && y0 <= sy < row {
                        spec_overlay_pixel(tile.data@, tile.mask@, fb0, dst, sx, sy)
                    } else {
                        spec_fb_pixel(fb0, sx, sy)
                    }),
            decreases y1 - row,
        {
            let mask_word = tile.mask[(row - dst.y) as usize];
            let mut col: i32 = x0;
            while col < x1
                invariant
                    x0 <= col <= x1,
                    y0 <= row < y1,
                    mask_word == tile.mask@[row - dst.y],
                    display.fb@.len() == FRAME_PIXELS,
                    display.channel == old(display).channel,
                    display.vsyncs == old(display).vsyncs,
                    forall|sx: int, sy: int| 0 <= sx < WIDTH && 0 <= sy < HEIGHT ==>
                        #[trigger] spec_fb_pixel(display.fb@, sx, sy)
                            == (if (x0 <= sx < x1 && y0 <= sy < row) || (sy == row && x0 <= sx < col) {
                            spec_overlay_pixel(tile.data@, tile.mask@, fb0, dst, sx, sy)
                        } else {
                            spec_fb_pixel(fb0, sx, sy)
                        }),
                decreases x1 - col,
            {
                let ghost fb_prev = display.fb@;
                let xi = (col - dst.x) as u32;
                let bit_set = ((mask_word >> xi) & 1) == 1;
                proof {
                    lemma_row_index(col as int, row as int, row as int, x0 as int, x1 as int);
                    assert(spec_mask_bit(tile.mask@[row - dst.y], col - dst.x) == bit_set);
                    assert(0 <= (row - dst.y) * TILE_SIZE + (col - dst.x)
                        && (row - dst.y) * TILE_SIZE + (col - dst.x) < TILE_PIXELS) by (nonlinear_arith)
                        requires
                            dst.y <= row,
                            row < dst.y + h,
                            h <= 32,
                            TILE_SIZE == 32,
                            TILE_PIXELS == 1024,
                            dst.x <= col,
                            col - dst.x < w,
                            w <= 32,
                    ;
                }
                if bit_set {
                    let src_index = ((row - dst.y) * TILE_SIZE + (col - dst.x)) as usize;
                    let dst_index = (row as usize) * WIDTH + (col as usize);
                    let v = crate::dma::bswap(tile.data[src_index]);
                    display.fb.set(dst_index, v);
                }
                proof {
                    assert forall|sx: int, sy: int| 0 <= sx < WIDTH && 0 <= sy < HEIGHT implies
                        #[trigger] spec_fb_pixel(display.fb@, sx, sy)
                            == (if (x0 <= sx < x1 && y0 <= sy < row) || (sy == row && x0 <= sx < col + 1) {
                            spec_overlay_pixel(tile.data@, tile.mask@, fb0, dst, sx, sy)
                        } else {
                            spec_fb_pixel(fb0, sx, sy)
                        }) by {
                        lemma_row_index(sx, sy, row as int, col as int, col + 1);
                        let o = sy * WIDTH + sx;
                        assert(spec_fb_pixel(display.fb@, sx, sy) == display.fb@[o]);
                        assert(spec_fb_pixel(fb_prev, sx, sy) == fb_prev[o]);
                        assert(spec_fb_pixel(fb0, sx, sy) == fb0[o]);
                        if sy == row && sx == col {
                            if bit_set {
                                assert(display.fb@[o] == spec_bswap(tile.data@[(sy - dst.y) * TILE_SIZE + (sx - dst.x)]));
                            } else {
                                assert(display.fb@[o] == fb_prev[o]);
                            }
                        } else {
                            assert(display.fb@[o] == fb_prev[o]);
                        }
                    }
                }
                col = col + 1;
            }
            row = row + 1;
        }
    }
    r
}

/// Copy a rectangle of the framebuffer onto another place in it: the
/// cached-tile fast path. The source must be fully on screen, and the two
/// rectangles must not shear across each other: equal, column-disjoint on
/// the same row band, or in row bands at least a tile apart.
#[verifier::loop_isolation(false)]
#[verifier::rlimit(100)]
pub fn copy_tile(display: &mut Display, src: Point, dst: Point, size: Size)
    requires
        old(display).wf(),
        1 <= size.width <= TILE_SIZE,
        1 <= size.height <= TILE_SIZE,
        0 <= src.x && src.x + size.width <= WIDTH,
        0 <= src.y && src.y + size.height <= HEIGHT,
        -100000 <= dst.x <= 100000,
        -100000 <= dst.y <= 100000,
        src.y == dst.y ==> src.x == dst.x
            || src.x + size.width <= dst.x
            || dst.x + size.width <= src.x,
        src.y != dst.y ==> src.y + size.height <= dst.y
            || dst.y + size.height <= src.y,
    ensures
        final(display).wf(),
        final(display).channel == old(display).channel,
        final(display).vsyncs == old(display).vsyncs,
        forall|sx: int, sy: int| 0 <= sx < WIDTH && 0 <= sy < HEIGHT ==>
            #[trigger] spec_fb_pixel(final(display).fb@, sx, sy) == (if spec_in_rect(dst, size, sx, sy) {
                spec_fb_pixel(old(display).fb@, sx + src.x - dst.x, sy + src.y - dst.y)
            } else {
                spec_fb_pixel(old(display).fb@, sx, sy)
            }),
{
    let ghost fb0 = display.fb@;
    let mut dma_channel = DmaChannel::new(2);
    let w = size.width as i32;
    let h = size.height as i32;
    let x0: i32 = if dst.x > 0 { dst.x } else { 0 };
    let y0: i32 = if dst.y > 0 { dst.y } else { 0 };
    let xe: i32 = dst.x + w;
    let ye: i32 = dst.y + h;
    let x1: i32 = if xe < WIDTH as i32 { xe } else { WIDTH as i32 };
    let y1: i32 = if ye < HEIGHT as i32 { ye } else { HEIGHT as i32 };
    let ghost shiftx = src.x - dst.x;
    let ghost shifty = src.y - dst.y;

    if x0 < x1 && y0 < y1 {
        let cw = (x1 - x0) as usize;
        let mut row: i32 = y0;
        while row < y1
            invariant
                y0 <= row <= y1,
                dma_channel.wf(),
                display.fb@.len() == FRAME_PIXELS,
                display.channel == old(display).channel,
                display.vsyncs == old(display).vsyncs,
                forall|sx: int, sy: int| 0 <= sx < WIDTH && 0 <= sy < HEIGHT ==>
                    #[trigger] spec_fb_pixel(display.fb@, sx, sy) == (if x0 <= sx < x1 && y0 <= sy < row {
                        spec_fb_pixel(fb0, sx + shiftx, sy + shifty)
                    } else {
                        spec_fb_pixel(fb0, sx, sy)
                    }),
            decreases y1 - row,
        {
            let ghost fb_prev = display.fb@;
            let src_row = row + (src.y - dst.y);
            let src_col = x0 + (src.x - dst.x);
            proof {
                lemma_row_index(x0 as int, row as int, row as int, x0 as int, x1 as int);
                lemma_row_index(src_col as int, src_row as int, src_row as int,
                    src_col as int, src_col + cw as int);
                assert(0 <= src_col && src_col + cw <= WIDTH && 0 <= src_row < HEIGHT);
            }
            let src_index = (src_row as usize) * WIDTH + (src_col as usize);
            let dst_index = (row as usize) * WIDTH + (x0 as usize);
            proof {
                assert(src_index == dst_index
                    || src_index + cw <= dst_index
                    || dst_index + cw <= src_index) by (nonlinear_arith)
                    requires
                        src_index == src_row * WIDTH + src_col,
                        dst_index == row * WIDTH + x0,
                        0 <= src_col,
                        src_col + cw <= WIDTH,
                        0 <= x0,
                        x0 + cw <= WIDTH,
                        cw == x1 - x0,
                        x0 < x1,
                        shifty == src_row - row,
                        shiftx == src_col - x0,
                        shifty == 0 ==> shiftx == 0 || shiftx >= cw || shiftx <= -(cw as int),
                        shifty != 0 ==> shifty >= 1 || shifty <= -1,
                        WIDTH == 240,
                ;
            }
            crate::dma::copy_mem_within(&mut dma_channel, &mut display.fb, src_index, dst_index, cw);
            proof {
                let vals = fb_prev.subrange(src_index as int, src_index + cw as int);
                assert(display.fb@ == spec_splice(fb_prev, dst_index as int, vals));
                assert forall|sx: int, sy: int| 0 <= sx < WIDTH && 0 <= sy < HEIGHT implies
                    #[trigger] spec_fb_pixel(display.fb@, sx, sy) == (if x0 <= sx < x1 && y0 <= sy < row + 1 {
                        spec_fb_pixel(fb0, sx + shiftx, sy + shifty)
                    } else {
                        spec_fb_pixel(fb0, sx, sy)
                    }) by {
                    lemma_row_index(sx, sy, row as int, x0 as int, x1 as int);
                    let o = sy * WIDTH + sx;
                    assert(spec_fb_pixel(display.fb@, sx, sy) == display.fb@[o]);
                    assert(spec_fb_pixel(fb_prev, sx, sy) == fb_prev[o]);
                    assert(spec_fb_pixel(fb0, sx, sy) == fb0[o]);
                    assert(dst_index as int == row * WIDTH + x0);
                    if sy == row && x0 <= sx < x1 {
                        assert(dst_index <= o < dst_index + cw);
                        assert(display.fb@[o] == vals[o - dst_index]);
                        assert(vals[sx - x0] == fb_prev[src_index + (sx - x0)]);
                        assert(src_index + (sx - x0) == src_row * WIDTH + (src_col + (sx - x0)));
                        lemma_row_index(src_col + (sx - x0), src_row as int, row as int, x0 as int, x1 as int);
                        assert(spec_fb_pixel(fb_prev, sx + shiftx, sy + shifty)
                            == fb_prev[src_index + (sx - x0)]);
                        assert(!(x0 <= src_col + (sx - x0) < x1 && y0 <= src_row < row)) by {
                            if shifty == 0 {
                                assert(src_row == row);
                            } else if shifty >= 1 {
                                assert(src_row >= row + 1);
                            } else {
                                assert(shifty <= -(h as int));
                                assert(src_row <= row - h);
                                assert(row < y1 <= dst.y + h);
                                assert(src_row < y0);
                            }
                        }
                        assert(spec_fb_pixel(fb_prev, sx + shiftx, sy + shifty)
                            == spec_fb_pixel(fb0, sx + shiftx, sy + shifty));
                    } else {
                        assert(!(dst_index <= o < dst_index + cw));
                        assert(display.fb@[o] == fb_prev[o]);
                    }
                }
            }
            row = row + 1;
        }
    }
}

/// Sub-tile part of a scroll coordinate: how far into its tile the
/// position sits, always in `[0, 32)` even for negative positions.
pub fn subtile_of(v: i32) -> (r: i32)
    requires
        -2000000 <= v <= 2000000,
    ensures
        0 <= r < 32,
        r == v as int % 32,
{
    let s: u32 = ((v + 33554432) as u32) % 32;
    proof {
        vstd::arithmetic::div_mod::lemma_mod_multiples_vanish(1048576, v as int, 32);
        assert(32 * 1048576 + v as int == (v + 33554432) as int);
    }
    s as i32
}

/// The coordinate rounded down to its tile boundary.
pub fn tile_align(v: i32) -> (r: i32)
    requires
        -2000000 <= v <= 2000000,
    ensures
        r == v - (v as int % 32),
{
    let r = v - subtile_of(v);
    r
}

/// Two tile-aligned offsets are the same or a whole tile apart: the fact
/// that keeps a cached tile's rows from shearing into the cell it is
/// copied onto.
pub proof fn lemma_aligned_apart(u: int, v: int)
    requires
        u % 32 == 0,
        v % 32 == 0,
    ensures
        u == v || u + 32 <= v || v + 32 <= u,
{
    vstd::arithmetic::div_mod::lemma_fundamental_div_mod(u, 32);
    vstd::arithmetic::div_mod::lemma_fundamental_div_mod(v, 32);
    let ku = u / 32;
    let kv = v / 32;
    if ku < kv {
        assert(32 * ku + 32 <= 32 * kv) by (nonlinear_arith)
            requires
                ku < kv,
        ;
    } else if kv < ku {
        assert(32 * kv + 32 <= 32 * ku) by (nonlinear_arith)
            requires
                kv < ku,
        ;
    }
}

/// A finished cell's rectangle and the cell being drawn cannot overlap:
/// both are tile-aligned, and the finished one lies strictly earlier in
/// the pass.
pub proof fn lemma_cell_disjoint(p: Point, cur: Point, stx: int, sty: int, sx: int, sy: int)
    requires
        (p.x + stx) % 32 == 0,
        (p.y + sty) % 32 == 0,
        (cur.x + stx) % 32 == 0,
        (cur.y + sty) % 32 == 0,
        p.y < cur.y || (p.y == cur.y && p.x < cur.x),
        p.x <= sx < p.x + TILE_SIZE,
        p.y <= sy < p.y + TILE_SIZE,
    ensures
        !(cur.x <= sx < cur.x + TILE_SIZE && cur.y <= sy < cur.y + TILE_SIZE),
{
    lemma_aligned_apart(p.y + sty, cur.y + sty);
    lemma_aligned_apart(p.x + stx, cur.x + stx);
}

/// Up to this many layers of one map cell are drawn: the base tile and
/// the overlays stacked on it.
pub const NUM_LAYERS: usize = 4;

/// Counters and flags one render pass reports: the diagnostic side
/// channel of the renderer.
#[derive(Clone, Copy, PartialEq, Eq, Structural, Debug)]
pub struct DrawStats {
    pub base_tile_cache_lookups: u32,
    pub base_tile_cache_misses: u32,
    pub base_tile_cache_insert_failures: u32,
    pub overlay_tile_cache_lookups: u32,
    pub overlay_tile_cache_misses: u32,
    pub overlay_tile_cache_insert_failures: u32,
    /// Tiles decompressed this pass: every one of them was a cache miss.
    pub tile_loads: u32,
    /// Full base-cache invalidations at the scroll boundary.
    pub cache_clears: u32,
    /// Overlay placements lost because the deferred list was full. Each
    /// one costs that cell its overlay pixels for this frame only.
    pub deferred_drops: u32,
    /// The renderer outran the scanout margin and accepted a torn frame.
    pub slow_draw: bool,
}

/// All counters at most `b`.
pub open spec fn spec_counters_at_most(s: DrawStats, b: int) -> bool {
    &&& s.base_tile_cache_lookups <= b
    &&& s.base_tile_cache_misses <= b
    &&& s.base_tile_cache_insert_failures <= b
    &&& s.overlay_tile_cache_lookups <= b
    &&& s.overlay_tile_cache_misses <= b
    &&& s.overlay_tile_cache_insert_failures <= b
    &&& s.tile_loads <= b
    &&& s.cache_clears <= b
    &&& s.deferred_drops <= b
}

/// The accounting every render pass keeps: a hit never decompresses, so
/// the decompression count is exactly the miss count.
pub open spec fn spec_stats_consistent(s: DrawStats) -> bool {
    &&& s.base_tile_cache_misses <= s.base_tile_cache_lookups
    &&& s.overlay_tile_cache_misses <= s.overlay_tile_cache_lookups
    &&& s.tile_loads == s.base_tile_cache_misses + s.overlay_tile_cache_misses
}

/// A cached screen position under scroll offsets `(sx, sy)`: fully on
/// screen and tile-aligned with the current frame's grid.
pub open spec fn spec_cached_pos_ok(p: Point, sx: int, sy: int) -> bool {
    &&& 0 <= p.x && p.x + TILE_SIZE <= WIDTH
    &&& 0 <= p.y && p.y + TILE_SIZE <= HEIGHT
    &&& (p.x + sx) % 32 == 0
    &&& (p.y + sy) % 32 == 0
}

/// One base-cache entry is coherent with the framebuffer: its handle is
/// a real tile, and the screen rectangle it names holds exactly that
/// tile's decoded pixels in wire order. This is what makes the cache-hit
/// fast path — a plain framebuffer copy — produce the right pixels.
pub open spec fn spec_entry_coherent(e: (TileId, Point), tiles: Seq<Tile>, fb: Seq<u16>) -> bool {
    &&& (e.0).0 < tiles.len()
    &&& forall|sx: int, sy: int| e.1.x <= sx < e.1.x + TILE_SIZE && e.1.y <= sy < e.1.y + TILE_SIZE
            ==> #[trigger] spec_fb_pixel(fb, sx, sy)
                == spec_bswap(spec_tile_pixel(tiles[(e.0).0 as int].spec_pixels(), e.1, sx, sy))
}

/// Every entry of the base cache is coherent with the framebuffer.
pub open spec fn spec_cache_coherent(entries: Seq<(TileId, Point)>, tiles: Seq<Tile>, fb: Seq<u16>) -> bool {
    forall|i: int| 0 <= i < entries.len()
        ==> spec_entry_coherent(#[trigger] entries[i], tiles, fb)
}

/// Every cached position lies at a cell the pass has already finished:
/// a row above the current one, or to the left in the current row. Such
/// a cell's rectangle is disjoint from every rectangle still to be
/// drawn, so later blits cannot go stale under a cache entry.
pub open spec fn spec_entries_before(entries: Seq<(TileId, Point)>, cur_x: int, cur_y: int) -> bool {
    forall|i: int| 0 <= i < entries.len()
        ==> (#[trigger] entries[i]).1.y < cur_y
            || (entries[i].1.y == cur_y && entries[i].1.x < cur_x)
}

/// Every overlay cache entry holds the decoded pixels and mask of a real
/// tile: what makes recompositing from the cache equal to decoding anew.
pub open spec fn spec_overlay_cache_decoded(c: OverlayCache, tiles: Seq<Tile>) -> bool {
    forall|i: int| 0 <= i < c.entries@.len()
        ==> (#[trigger] c.entries@[i]).0.0 < tiles.len()
            && c.entries@[i].1.data@ == tiles[c.entries@[i].0.0 as int].spec_pixels()
            && c.entries@[i].1.mask@ == tiles[c.entries@[i].0.0 as int].mask@
}

/// Resolve one cell's overlay layers through the overlay cache: a hit is
/// recomposited from the cached buffer, a miss decodes the tile, draws it
/// and tries to cache the decoded buffer. Layers with handles outside the
/// tile table are skipped.
#[verifier::loop_isolation(false)]
fn draw_overlays(
    display: &mut Display,
    tiles: &Vec<Tile>,
    overlay_cache: &mut OverlayCache,
    stack: &GenMapTile,
    screen_coord: Point,
    stats: &mut DrawStats,
)
    requires
        old(display).wf(),
        old(overlay_cache).wf(),
        spec_overlay_cache_decoded(*old(overlay_cache), tiles@),
        forall|i: int| 0 <= i < tiles@.len() ==> (#[trigger] tiles@[i]).wf(),
        -100000 <= screen_coord.x <= 100000,
        -100000 <= screen_coord.y <= 100000,
        spec_counters_at_most(*old(stats), 100000),
        spec_stats_consistent(*old(stats)),
    ensures
        spec_overlay_cache_decoded(*final(overlay_cache), tiles@),
        final(display).wf(),
        final(display).channel == old(display).channel,
        final(display).vsyncs == old(display).vsyncs,
        final(overlay_cache).wf(),
        spec_stats_consistent(*final(stats)),
        final(stats).base_tile_cache_lookups == old(stats).base_tile_cache_lookups,
        final(stats).base_tile_cache_misses == old(stats).base_tile_cache_misses,
        final(stats).base_tile_cache_insert_failures == old(stats).base_tile_cache_insert_failures,
        final(stats).cache_clears == old(stats).cache_clears,
        final(stats).deferred_drops == old(stats).deferred_drops,
        final(stats).slow_draw == old(stats).slow_draw,
        old(stats).overlay_tile_cache_lookups <= final(stats).overlay_tile_cache_lookups
            <= old(stats).overlay_tile_cache_lookups + NUM_LAYERS,
        old(stats).overlay_tile_cache_misses <= final(stats).overlay_tile_cache_misses
            <= old(stats).overlay_tile_cache_misses + NUM_LAYERS,
        old(stats).overlay_tile_cache_insert_failures <= final(stats).overlay_tile_cache_insert_failures
            <= old(stats).overlay_tile_cache_insert_failures + NUM_LAYERS,
        old(stats).tile_loads <= final(stats).tile_loads <= old(stats).tile_loads + NUM_LAYERS,
        forall|sx: int, sy: int| 0 <= sx < WIDTH && 0 <= sy < HEIGHT
            && !spec_in_rect(screen_coord, (Size { width: 32, height: 32 }), sx, sy)
            ==> #[trigger] spec_fb_pixel(final(display).fb@, sx, sy)
                == spec_fb_pixel(old(display).fb@, sx, sy),
        forall|sx: int, sy: int| 0 <= sx < WIDTH && 0 <= sy < HEIGHT
            && spec_in_rect(screen_coord, (Size { width: 32, height: 32 }), sx, sy)
            ==> #[trigger] spec_fb_pixel(final(display).fb@, sx, sy)
                == spec_layers_pixel(tiles@, stack.layers@, spec_layer_count(stack.layers@),
                    spec_fb_pixel(old(display).fb@, sx, sy), screen_coord, sx, sy),
{
    let total = stack.layers.len();
    let mut idx: usize = 1;
    while idx < total && idx < NUM_LAYERS
        invariant
            1 <= idx,
            display.wf(),
            display.channel == old(display).channel,
            display.vsyncs == old(display).vsyncs,
            forall|sx: int, sy: int| 0 <= sx < WIDTH && 0 <= sy < HEIGHT
                && !spec_in_rect(screen_coord, (Size { width: 32, height: 32 }), sx, sy)
                ==> #[trigger] spec_fb_pixel(display.fb@, sx, sy)
                    == spec_fb_pixel(old(display).fb@, sx, sy),
            overlay_cache.wf(),
            spec_stats_consistent(*stats),
            stats.base_tile_cache_lookups == old(stats).base_tile_cache_lookups,
            stats.base_tile_cache_misses == old(stats).base_tile_cache_misses,
            stats.base_tile_cache_insert_failures == old(stats).base_tile_cache_insert_failures,
            stats.cache_clears == old(stats).cache_clears,
            stats.deferred_drops == old(stats).deferred_drops,
            stats.slow_draw == old(stats).slow_draw,
            old(stats).overlay_tile_cache_lookups <= stats.overlay_tile_cache_lookups
                <= old(stats).overlay_tile_cache_lookups + idx,
            old(stats).overlay_tile_cache_misses <= stats.overlay_tile_cache_misses
                <= old(stats).overlay_tile_cache_misses + idx,
            old(stats).overlay_tile_cache_insert_failures <= stats.overlay_tile_cache_insert_failures
                <= old(stats).overlay_tile_cache_insert_failures + idx,
            old(stats).tile_loads <= stats.tile_loads <= old(stats).tile_loads + idx,
            idx <= NUM_LAYERS,
            idx <= total || idx == 1,
            overlay_cache.wf(),
            spec_overlay_cache_decoded(*overlay_cache, tiles@),
            forall|sx: int, sy: int| 0 <= sx < WIDTH && 0 <= sy < HEIGHT
                && spec_in_rect(screen_coord, (Size { width: 32, height: 32 }), sx, sy)
                ==> #[trigger] spec_fb_pixel(display.fb@, sx, sy)
                    == spec_layers_pixel(tiles@, stack.layers@, idx as int,
                        spec_fb_pixel(old(display).fb@, sx, sy), screen_coord, sx, sy),
        decreases total - idx,
    {
        let ghost fb_layer = display.fb@;
        let id = stack.layers[idx];
        if (id.0 as usize) < tiles.len() {
            stats.overlay_tile_cache_lookups = stats.overlay_tile_cache_lookups + 1;
            let cached = overlay_cache.get(id);
            match cached {
                Some(cached_overlay_tile) => {
                    proof {
                        let wi = choose|i: int| 0 <= i < overlay_cache.entries@.len()
                            && #[trigger] overlay_cache.entries@[i] == (id, *cached_overlay_tile);
                        assert(cached_overlay_tile.data@ == tiles@[id.0 as int].spec_pixels());
                        assert(cached_overlay_tile.mask@ == tiles@[id.0 as int].mask@);
                    }
                    draw_transparent_tile(display, cached_overlay_tile, screen_coord,
                        Size::new(32, 32));
                    proof {
                        assert(spec_stats_consistent(*stats));
                    }
                }
                None => {
                    stats.overlay_tile_cache_misses = stats.overlay_tile_cache_misses + 1;
                    let mut loaded_tile = LoadedTile::new();
                    load_tile(&tiles[id.0 as usize], &mut loaded_tile, true);
                    stats.tile_loads = stats.tile_loads + 1;
                    proof {
                        assert(loaded_tile.data@ == tiles@[id.0 as int].spec_pixels());
                    }
                    draw_transparent_tile(display, &loaded_tile, screen_coord, Size::new(32, 32));
                    let ghost pre_cache = overlay_cache.entries@;
                    if !overlay_cache.insert(id, loaded_tile) {
                        stats.overlay_tile_cache_insert_failures =
                            stats.overlay_tile_cache_insert_failures + 1;
                    }
                    proof {
                        assert forall|i: int| 0 <= i < overlay_cache.entries@.len() implies
                            (#[trigger] overlay_cache.entries@[i]).0.0 < tiles@.len()
                            && overlay_cache.entries@[i].1.data@
                                == tiles@[overlay_cache.entries@[i].0.0 as int].spec_pixels()
                            && overlay_cache.entries@[i].1.mask@
                                == tiles@[overlay_cache.entries@[i].0.0 as int].mask@ by {
                            if i < pre_cache.len() {
                                assert(overlay_cache.entries@[i] == pre_cache[i]);
                            }
                        }
                    }
                }
            }
            proof {
                assert forall|sx: int, sy: int| 0 <= sx < WIDTH && 0 <= sy < HEIGHT
                    && spec_in_rect(screen_coord, (Size { width: 32, height: 32 }), sx, sy) implies
                    #[trigger] spec_fb_pixel(display.fb@, sx, sy)
                        == spec_layers_pixel(tiles@, stack.layers@, idx + 1,
                            spec_fb_pixel(old(display).fb@, sx, sy), screen_coord, sx, sy) by {
                    assert(spec_fb_pixel(fb_layer, sx, sy)
                        == spec_layers_pixel(tiles@, stack.layers@, idx as int,
                            spec_fb_pixel(old(display).fb@, sx, sy), screen_coord, sx, sy));
                }
            }
        }
        idx += 1;
    }
    proof {
        assert(idx as int == spec_layer_count(stack.layers@) || idx == 1);
    }
}

/// Writes confined to the cell being drawn leave every finished cell's
/// pixels alone, so cache coherence survives each blit of the pass.
proof fn lemma_cache_preserved(
    entries: Seq<(TileId, Point)>,
    tiles: Seq<Tile>,
    fb_pre: Seq<u16>,
    fb_post: Seq<u16>,
    cur: Point,
    stx: int,
    sty: int,
    cur_x: int,
    cur_y: int,
)
    requires
        forall|i: int| 0 <= i < entries.len()
            ==> spec_cached_pos_ok((#[trigger] entries[i]).1, stx, sty),
        spec_cache_coherent(entries, tiles, fb_pre),
        spec_entries_before(entries, cur_x, cur_y),
        cur.x == cur_x,
        cur.y == cur_y,
        (cur_x + stx) % 32 == 0,
        (cur_y + sty) % 32 == 0,
        forall|sx: int, sy: int| 0 <= sx < WIDTH && 0 <= sy < HEIGHT
            && !spec_in_rect(cur, (Size { width: 32, height: 32 }), sx, sy)
            ==> #[trigger] spec_fb_pixel(fb_post, sx, sy) == spec_fb_pixel(fb_pre, sx, sy),
    ensures
        spec_cache_coherent(entries, tiles, fb_post),
{
    assert forall|i: int| 0 <= i < entries.len() implies
        spec_entry_coherent(#[trigger] entries[i], tiles, fb_post) by {
        let e = entries[i];
        assert(spec_entry_coherent(e, tiles, fb_pre));
        assert(spec_cached_pos_ok(e.1, stx, sty));
        assert forall|sx: int, sy: int| e.1.x <= sx < e.1.x + TILE_SIZE
            && e.1.y <= sy < e.1.y + TILE_SIZE implies
            #[trigger] spec_fb_pixel(fb_post, sx, sy)
                == spec_bswap(spec_tile_pixel(tiles[(e.0).0 as int].spec_pixels(), e.1, sx, sy)) by {
            lemma_cell_disjoint(e.1, cur, stx, sty, sx, sy);
            assert(!spec_in_rect(cur, (Size { width: 32, height: 32 }), sx, sy));
            assert(spec_fb_pixel(fb_post, sx, sy) == spec_fb_pixel(fb_pre, sx, sy));
        }
    }
}

/// One overlay layer applied at `(sx, sy)`: the layer's pixel where its
/// mask marks the column opaque and the handle is real, else what lies
/// under it.
pub open spec fn spec_overlay_applied(tiles: Seq<Tile>, id: TileId, under: u16, origin: Point, sx: int, sy: int) -> u16 {
    if id.0 < tiles.len() && spec_mask_bit(tiles[id.0 as int].mask@[sy - origin.y], sx - origin.x) {
        spec_bswap(spec_tile_pixel(tiles[id.0 as int].spec_pixels(), origin, sx, sy))
    } else {
        under
    }
}

/// Layers `1 .. upto` of a cell's stack composited over `under`.
pub open spec fn spec_layers_pixel(tiles: Seq<Tile>, stack: Seq<TileId>, upto: int, under: u16, origin: Point, sx: int, sy: int) -> u16
    recommends
        upto <= stack.len(),
    decreases upto,
{
    if upto <= 1 {
        under
    } else {
        spec_overlay_applied(tiles, stack[upto - 1],
            spec_layers_pixel(tiles, stack, upto - 1, under, origin, sx, sy), origin, sx, sy)
    }
}

/// How many layers of a stack are drawn: all of them, up to the layer cap.
pub open spec fn spec_layer_count(stack: Seq<TileId>) -> int {
    if stack.len() <= NUM_LAYERS { stack.len() as int } else { NUM_LAYERS as int }
}

/// What a cell leaves at `(sx, sy)`: its base tile with the overlays
/// composited on top, or the pixel that was already there when the stack
/// is empty or its base handle is not in the tile table.
pub open spec fn spec_cell_pixel(tiles: Seq<Tile>, stack: Seq<TileId>, origin: Point, old_pixel: u16, sx: int, sy: int) -> u16 {
    if stack.len() == 0 || !(stack[0].0 < tiles.len()) {
        old_pixel
    } else {
        spec_layers_pixel(tiles, stack, spec_layer_count(stack),
            spec_bswap(spec_tile_pixel(tiles[stack[0].0 as int].spec_pixels(), origin, sx, sy)),
            origin, sx, sy)
    }
}

/// Is `(sx, sy)` inside some cell of `cells`?
pub open spec fn spec_covered(cells: Seq<(Point, GenMapTile)>, sx: int, sy: int) -> bool {
    exists|k: int| 0 <= k < cells.len()
        && (#[trigger] cells[k]).0.x <= sx < cells[k].0.x + TILE_SIZE
        && cells[k].0.y <= sy < cells[k].0.y + TILE_SIZE
}

/// The frame `fb1` is, cell by cell, the composite of what the map
/// generator could return: some family of cells, aligned to the scroll
/// position's tile grid, covers the screen; each cell's stack is a
/// possible generator output for its world coordinate; and each visible
/// pixel holds its cell's composite over the previous frame `fb0`.
pub open spec fn spec_frame_described<F: Fn(Point) -> GenMapTile>(
    cells: Seq<(Point, GenMapTile)>,
    f: F,
    tiles: Seq<Tile>,
    position: Point,
    fb0: Seq<u16>,
    fb1: Seq<u16>,
) -> bool {
    &&& forall|k: int| 0 <= k < cells.len() ==> call_ensures(f,
            (Point { x: (position.x + (#[trigger] cells[k]).0.x) as i32,
                     y: (position.y + cells[k].0.y) as i32 },), cells[k].1)
    &&& forall|sx: int, sy: int| 0 <= sx < WIDTH && 0 <= sy < HEIGHT
            ==> #[trigger] spec_covered(cells, sx, sy)
    &&& forall|k: int, sx: int, sy: int| 0 <= k < cells.len()
            && 0 <= sx < WIDTH && 0 <= sy < HEIGHT
            && (#[trigger] cells[k]).0.x <= sx < cells[k].0.x + TILE_SIZE
            && cells[k].0.y <= sy < cells[k].0.y + TILE_SIZE
            ==> #[trigger] spec_fb_pixel(fb1, sx, sy)
                == spec_cell_pixel(tiles, cells[k].1.layers@, cells[k].0,
                    spec_fb_pixel(fb0, sx, sy), sx, sy)
    &&& forall|k: int| 0 <= k < cells.len()
            ==> ((#[trigger] cells[k]).0.x + position.x as int % 32) % 32 == 0
                && (cells[k].0.y + position.y as int % 32) % 32 == 0
}

/// A cell's base pixel alone, before overlays: what a miss leaves in the
/// framebuffer until the deferred second pass composites on top of it.
pub open spec fn spec_base_pixel(tiles: Seq<Tile>, stack: Seq<TileId>, origin: Point, sx: int, sy: int) -> u16
    recommends
        stack.len() > 0,
        stack[0].0 < tiles.len(),
{
    spec_bswap(spec_tile_pixel(tiles[stack[0].0 as int].spec_pixels(), origin, sx, sy))
}

/// Strict pass order on cell origins: rows top to bottom, columns left to
/// right within a row.
pub open spec fn spec_pos_earlier(p: Point, q: Point) -> bool {
    p.y < q.y || (p.y == q.y && p.x < q.x)
}

/// The pixel a cell owes at `(sx, sy)` in a given state: the full
/// composite once complete, only the base while its overlays are parked
/// in the deferred list.
pub open spec fn spec_cell_owed(tiles: Seq<Tile>, stack: Seq<TileId>, origin: Point, complete: bool, old_pixel: u16, sx: int, sy: int) -> u16 {
    if complete {
        spec_cell_pixel(tiles, stack, origin, old_pixel, sx, sy)
    } else {
        spec_base_pixel(tiles, stack, origin, sx, sy)
    }
}

/// How many cells of a pass are still missing their overlays.
pub open spec fn spec_incomplete_count(flags: Seq<bool>) -> int
    decreases flags.len(),
{
    if flags.len() == 0 {
        0
    } else {
        spec_incomplete_count(flags.drop_last()) + if flags.last() { 0int } else { 1int }
    }
}

proof fn lemma_incomplete_count_nonneg(flags: Seq<bool>)
    ensures
        spec_incomplete_count(flags) >= 0,
    decreases flags.len(),
{
    if flags.len() > 0 {
        lemma_incomplete_count_nonneg(flags.drop_last());
    }
}

proof fn lemma_incomplete_count_push(flags: Seq<bool>, b: bool)
    ensures
        spec_incomplete_count(flags.push(b))
            == spec_incomplete_count(flags) + if b { 0int } else { 1int },
{
    assert(flags.push(b).drop_last() =~= flags);
    assert(flags.push(b).last() == b);
}

proof fn lemma_incomplete_count_update_true(flags: Seq<bool>, k: int)
    requires
        0 <= k < flags.len(),
        !flags[k],
    ensures
        spec_incomplete_count(flags.update(k, true)) == spec_incomplete_count(flags) - 1,
    decreases flags.len(),
{
    if k == flags.len() - 1 {
        assert(flags.update(k, true).drop_last() =~= flags.drop_last());
        assert(flags.update(k, true).last());
        assert(!flags.last());
    } else {
        assert(flags.update(k, true).drop_last() =~= flags.drop_last().update(k, true));
        assert(flags.update(k, true).last() == flags.last());
        assert(!flags.drop_last()[k]);
        lemma_incomplete_count_update_true(flags.drop_last(), k);
    }
}

proof fn lemma_incomplete_count_zero(flags: Seq<bool>)
    requires
        spec_incomplete_count(flags) == 0,
    ensures
        forall|k: int| 0 <= k < flags.len() ==> flags[k],
    decreases flags.len(),
{
    if flags.len() > 0 {
        lemma_incomplete_count_nonneg(flags.drop_last());
        assert(flags.last());
        lemma_incomplete_count_zero(flags.drop_last());
        assert forall|k: int| 0 <= k < flags.len() implies flags[k] by {
            if k < flags.len() - 1 {
                assert(flags.drop_last()[k]);
            }
        }
    }
}

/// The frame `fb1`, with the pass's bookkeeping laid open: a family of
/// tile-aligned cells covers the screen; each cell's stack is a possible
/// generator output for its world coordinate; each visible pixel holds
/// what its cell's state owes — the full composite for a complete cell,
/// the base alone for a cell whose overlays were dropped; and every
/// incomplete cell really is a multi-layer cell with a real base.
pub open spec fn spec_frame_accounted<F: Fn(Point) -> GenMapTile>(
    cells: Seq<(Point, GenMapTile)>,
    flags: Seq<bool>,
    f: F,
    tiles: Seq<Tile>,
    position: Point,
    fb0: Seq<u16>,
    fb1: Seq<u16>,
) -> bool {
    &&& flags.len() == cells.len()
    &&& forall|k: int| 0 <= k < cells.len() ==> call_ensures(f,
            (Point { x: (position.x + (#[trigger] cells[k]).0.x) as i32,
                     y: (position.y + cells[k].0.y) as i32 },), cells[k].1)
    &&& forall|sx: int, sy: int| 0 <= sx < WIDTH && 0 <= sy < HEIGHT
            ==> #[trigger] spec_covered(cells, sx, sy)
    &&& forall|k: int, sx: int, sy: int| 0 <= k < cells.len()
            && 0 <= sx < WIDTH && 0 <= sy < HEIGHT
            && (#[trigger] cells[k]).0.x <= sx < cells[k].0.x + TILE_SIZE
            && cells[k].0.y <= sy < cells[k].0.y + TILE_SIZE
            ==> #[trigger] spec_fb_pixel(fb1, sx, sy)
                == spec_cell_owed(tiles, cells[k].1.layers@, cells[k].0, flags[k],
                    spec_fb_pixel(fb0, sx, sy), sx, sy)
    &&& forall|k: int| 0 <= k < cells.len() && !(#[trigger] flags[k])
            ==> cells[k].1.layers@.len() > 1 && cells[k].1.layers@[0].0 < tiles.len()
    &&& forall|k: int| 0 <= k < cells.len()
            ==> ((#[trigger] cells[k]).0.x + position.x as int % 32) % 32 == 0
                && (cells[k].0.y + position.y as int % 32) % 32 == 0
}

/// Determinacy law: a described frame is unique. Two frames described
/// for the same tile table, scroll position and map generator are
/// pixel-identical on the whole screen, provided the generator answers
/// each coordinate with one stack and every stack has a real base. This
/// is what makes the incremental renderer's output interchangeable with
/// the reference renderer's.
pub proof fn lemma_frame_determined<F: Fn(Point) -> GenMapTile>(
    cells1: Seq<(Point, GenMapTile)>,
    cells2: Seq<(Point, GenMapTile)>,
    f: F,
    tiles: Seq<Tile>,
    position: Point,
    fb0a: Seq<u16>,
    fb1: Seq<u16>,
    fb0b: Seq<u16>,
    fb2: Seq<u16>,
)
    requires
        spec_frame_described(cells1, f, tiles, position, fb0a, fb1),
        spec_frame_described(cells2, f, tiles, position, fb0b, fb2),
        forall|p: Point, r1: GenMapTile, r2: GenMapTile|
            #[trigger] call_ensures(f, (p,), r1) && #[trigger] call_ensures(f, (p,), r2)
                ==> r1.layers@ == r2.layers@,
        forall|p: Point, r: GenMapTile| #[trigger] call_ensures(f, (p,), r)
            ==> r.layers@.len() > 0 && r.layers@[0].0 < tiles.len(),
    ensures
        forall|sx: int, sy: int| 0 <= sx < WIDTH && 0 <= sy < HEIGHT
            ==> #[trigger] spec_fb_pixel(fb1, sx, sy) == spec_fb_pixel(fb2, sx, sy),
{
    let stx = position.x as int % 32;
    let sty = position.y as int % 32;
    assert forall|sx: int, sy: int| 0 <= sx < WIDTH && 0 <= sy < HEIGHT implies
        #[trigger] spec_fb_pixel(fb1, sx, sy) == spec_fb_pixel(fb2, sx, sy) by {
        assert(spec_covered(cells1, sx, sy));
        assert(spec_covered(cells2, sx, sy));
        let k1 = choose|k: int| 0 <= k < cells1.len()
            && (#[trigger] cells1[k]).0.x <= sx < cells1[k].0.x + TILE_SIZE
            && cells1[k].0.y <= sy < cells1[k].0.y + TILE_SIZE;
        let k2 = choose|k: int| 0 <= k < cells2.len()
            && (#[trigger] cells2[k]).0.x <= sx < cells2[k].0.x + TILE_SIZE
            && cells2[k].0.y <= sy < cells2[k].0.y + TILE_SIZE;
        let p1 = cells1[k1].0;
        let p2 = cells2[k2].0;
        // Two tile-aligned rectangles holding the same pixel share their
        // origin.
        lemma_aligned_apart(p1.x + stx, p2.x + stx);
        lemma_aligned_apart(p1.y + sty, p2.y + sty);
        assert(p1 == p2);
        // One coordinate, one stack.
        let q = Point { x: (position.x + p1.x) as i32, y: (position.y + p1.y) as i32 };
        assert(call_ensures(f, (q,), cells1[k1].1));
        assert(call_ensures(f, (q,), cells2[k2].1));
        let stack = cells1[k1].1.layers@;
        assert(cells2[k2].1.layers@ == stack);
        assert(stack.len() > 0 && stack[0].0 < tiles.len());
        // A real base makes the composite independent of the underlying
        // frame, so both descriptions pin the same pixel.
        assert(spec_fb_pixel(fb1, sx, sy)
            == spec_cell_pixel(tiles, stack, p1, spec_fb_pixel(fb0a, sx, sy), sx, sy));
        assert(spec_fb_pixel(fb2, sx, sy)
            == spec_cell_pixel(tiles, stack, p1, spec_fb_pixel(fb0b, sx, sy), sx, sy));
        assert(spec_cell_pixel(tiles, stack, p1, spec_fb_pixel(fb0a, sx, sy), sx, sy)
            == spec_cell_pixel(tiles, stack, p1, spec_fb_pixel(fb0b, sx, sy), sx, sy));
    }
}

/// Writes confined to one tile-aligned rectangle, disjoint from every
/// recorded cell, leave all recorded cells' pixels alone.
proof fn lemma_cells_flag_preserved(
    cells: Seq<(Point, GenMapTile)>,
    flags: Seq<bool>,
    tiles: Seq<Tile>,
    fb0: Seq<u16>,
    fb_pre: Seq<u16>,
    fb_post: Seq<u16>,
    cur: Point,
    stx: int,
    sty: int,
)
    requires
        flags.len() == cells.len(),
        forall|k: int| 0 <= k < cells.len()
            ==> ((#[trigger] cells[k]).0.x + stx) % 32 == 0
                && (cells[k].0.y + sty) % 32 == 0
                && spec_pos_earlier(cells[k].0, cur),
        (cur.x + stx) % 32 == 0,
        (cur.y + sty) % 32 == 0,
        forall|k: int, sx: int, sy: int| 0 <= k < cells.len()
            && 0 <= sx < WIDTH && 0 <= sy < HEIGHT
            && (#[trigger] cells[k]).0.x <= sx < cells[k].0.x + TILE_SIZE
            && cells[k].0.y <= sy < cells[k].0.y + TILE_SIZE
            ==> #[trigger] spec_fb_pixel(fb_pre, sx, sy)
                == spec_cell_owed(tiles, cells[k].1.layers@, cells[k].0, flags[k],
                    spec_fb_pixel(fb0, sx, sy), sx, sy),
        forall|sx: int, sy: int| 0 <= sx < WIDTH && 0 <= sy < HEIGHT
            && !spec_in_rect(cur, (Size { width: 32, height: 32 }), sx, sy)
            ==> #[trigger] spec_fb_pixel(fb_post, sx, sy) == spec_fb_pixel(fb_pre, sx, sy),
    ensures
        forall|k: int, sx: int, sy: int| 0 <= k < cells.len()
            && 0 <= sx < WIDTH && 0 <= sy < HEIGHT
            && (#[trigger] cells[k]).0.x <= sx < cells[k].0.x + TILE_SIZE
            && cells[k].0.y <= sy < cells[k].0.y + TILE_SIZE
            ==> #[trigger] spec_fb_pixel(fb_post, sx, sy)
                == spec_cell_owed(tiles, cells[k].1.layers@, cells[k].0, flags[k],
                    spec_fb_pixel(fb0, sx, sy), sx, sy),
{
    assert forall|k: int, sx: int, sy: int| 0 <= k < cells.len()
        && 0 <= sx < WIDTH && 0 <= sy < HEIGHT
        && (#[trigger] cells[k]).0.x <= sx < cells[k].0.x + TILE_SIZE
        && cells[k].0.y <= sy < cells[k].0.y + TILE_SIZE implies
        #[trigger] spec_fb_pixel(fb_post, sx, sy)
            == spec_cell_owed(tiles, cells[k].1.layers@, cells[k].0, flags[k],
                spec_fb_pixel(fb0, sx, sy), sx, sy) by {
        lemma_cell_disjoint(cells[k].0, cur, stx, sty, sx, sy);
        assert(!spec_in_rect(cur, (Size { width: 32, height: 32 }), sx, sy));
        assert(spec_fb_pixel(fb_post, sx, sy) == spec_fb_pixel(fb_pre, sx, sy));
    }
}

/// Writes confined to the cell being drawn leave every finished cell's
/// composite alone.
proof fn lemma_cells_preserved(
    cells: Seq<(Point, GenMapTile)>,
    tiles: Seq<Tile>,
    fb0: Seq<u16>,
    fb_pre: Seq<u16>,
    fb_post: Seq<u16>,
    cur: Point,
    stx: int,
    sty: int,
)
    requires
        forall|k: int| 0 <= k < cells.len()
            ==> ((#[trigger] cells[k]).0.x + stx) % 32 == 0
                && (cells[k].0.y + sty) % 32 == 0
                && (cells[k].0.y < cur.y || (cells[k].0.y == cur.y && cells[k].0.x < cur.x)),
        (cur.x + stx) % 32 == 0,
        (cur.y + sty) % 32 == 0,
        forall|k: int, sx: int, sy: int| 0 <= k < cells.len()
            && 0 <= sx < WIDTH && 0 <= sy < HEIGHT
            && (#[trigger] cells[k]).0.x <= sx < cells[k].0.x + TILE_SIZE
            && cells[k].0.y <= sy < cells[k].0.y + TILE_SIZE
            ==> #[trigger] spec_fb_pixel(fb_pre, sx, sy)
                == spec_cell_pixel(tiles, cells[k].1.layers@, cells[k].0,
                    spec_fb_pixel(fb0, sx, sy), sx, sy),
        forall|sx: int, sy: int| 0 <= sx < WIDTH && 0 <= sy < HEIGHT
            && !spec_in_rect(cur, (Size { width: 32, height: 32 }), sx, sy)
            ==> #[trigger] spec_fb_pixel(fb_post, sx, sy) == spec_fb_pixel(fb_pre, sx, sy),
    ensures
        forall|k: int, sx: int, sy: int| 0 <= k < cells.len()
            && 0 <= sx < WIDTH && 0 <= sy < HEIGHT
            && (#[trigger] cells[k]).0.x <= sx < cells[k].0.x + TILE_SIZE
            && cells[k].0.y <= sy < cells[k].0.y + TILE_SIZE
            ==> #[trigger] spec_fb_pixel(fb_post, sx, sy)
                == spec_cell_pixel(tiles, cells[k].1.layers@, cells[k].0,
                    spec_fb_pixel(fb0, sx, sy), sx, sy),
{
    assert forall|k: int, sx: int, sy: int| 0 <= k < cells.len()
        && 0 <= sx < WIDTH && 0 <= sy < HEIGHT
        && (#[trigger] cells[k]).0.x <= sx < cells[k].0.x + TILE_SIZE
        && cells[k].0.y <= sy < cells[k].0.y + TILE_SIZE implies
        #[trigger] spec_fb_pixel(fb_post, sx, sy)
            == spec_cell_pixel(tiles, cells[k].1.layers@, cells[k].0,
                spec_fb_pixel(fb0, sx, sy), sx, sy) by {
        lemma_cell_disjoint(cells[k].0, cur, stx, sty, sx, sy);
        assert(!spec_in_rect(cur, (Size { width: 32, height: 32 }), sx, sy));
        assert(spec_fb_pixel(fb_post, sx, sy) == spec_fb_pixel(fb_pre, sx, sy));
    }
}

/// Render one frame of the tile map.
///
/// For each tile row, top to bottom, the renderer first holds back until
/// the in-flight flush has transmitted a safe margin past the row — the
/// scanout-safety rule — then walks the row's cells left to right: the
/// map generator names each cell's tile stack, the base tile is resolved
/// through the base cache (hit: a cheap framebuffer copy; miss: decode,
/// blit, and cache the position if the placement was fully on screen),
/// and overlays are composited right away on a base hit or parked for a
/// second pass on a miss, keeping base-before-overlay order. A row whose
/// screen position is still negative — pre-rendered above the viewport
/// because of the sub-tile scroll offset — ends with the base cache
/// cleared in full, since its entries name screen positions about to be
/// rewritten. Handles outside the tile table and empty stacks are
/// skipped. The returned counters satisfy the cache-hit accounting:
/// decompressions happen exactly at cache misses.
///
/// The frame is accounted for unconditionally: some family of
/// tile-aligned cells covers the screen, each cell's stack is an output
/// of the map generator for that cell's world coordinate, every visible
/// pixel holds what its cell's state owes — the full composite for a
/// complete cell, the base alone where the deferred list overflowed —
/// and `deferred_drops` is exactly the number of such incomplete cells.
/// With no drops every cell is complete and the frame description
/// matches the non-cached reference renderer's contract, so by
/// `lemma_frame_determined` the two outputs agree pixel for pixel. Two
/// further properties are checked inside the pass: cache coherence
/// (every base-cache entry names a fully on-screen, tile-aligned
/// rectangle holding exactly its tile's decoded pixels) and scanout
/// safety of the writes (while a flush is in flight, a row's writes
/// change no pixel at or past the transmitted cursor).
#[verifier::loop_isolation(false)]
#[verifier::rlimit(100)]
pub fn draw<F: Fn(Point) -> GenMapTile>(
    display: &mut Display,
    tiles: &Vec<Tile>,
    position: Point,
    map_generator: &F,
    _verbose: bool,
) -> (stats: DrawStats)
    requires
        old(display).wf(),
        forall|i: int| 0 <= i < tiles@.len() ==> (#[trigger] tiles@[i]).wf(),
        -1000000 <= position.x <= 1000000,
        -1000000 <= position.y <= 1000000,
        forall|p: Point| #[trigger] call_requires(*map_generator, (p,)),
    ensures
        final(display).wf(),
        final(display).vsyncs == old(display).vsyncs,
        final(display).channel.total == old(display).channel.total,
        final(display).channel.remaining <= old(display).channel.remaining,
        spec_stats_consistent(stats),
        exists|cells: Seq<(Point, GenMapTile)>, flags: Seq<bool>|
            #[trigger] spec_frame_accounted(cells, flags, *map_generator, tiles@, position,
                old(display).fb@, final(display).fb@)
            && stats.deferred_drops == spec_incomplete_count(flags),
        stats.deferred_drops == 0 ==> exists|cells: Seq<(Point, GenMapTile)>|
            spec_frame_described(cells, *map_generator, tiles@, position,
                old(display).fb@, final(display).fb@),
{
    let mut stats = DrawStats {
        base_tile_cache_lookups: 0,
        base_tile_cache_misses: 0,
        base_tile_cache_insert_failures: 0,
        overlay_tile_cache_lookups: 0,
        overlay_tile_cache_misses: 0,
        overlay_tile_cache_insert_failures: 0,
        tile_loads: 0,
        cache_clears: 0,
        deferred_drops: 0,
        slow_draw: false,
    };

    let ghost fb0 = display.fb@;
    let ghost mut cells: Seq<(Point, GenMapTile)> = Seq::empty();
    let ghost mut flags: Seq<bool> = Seq::empty();
    let ghost mut pending: Seq<int> = Seq::empty();

    let mut drawn_y: i32 = 0;
    let mut world_y: i32 = position.y;
    let subtile_y: i32 = subtile_of(position.y);
    let subtile_x: i32 = subtile_of(position.x);

    let mut tile_cache = TileCache::new();
    let mut overlay_tile_cache = OverlayCache::new();
    let mut missing_transparent_tiles = DeferredList::new();

    let ghost mut rows: int = 0;
    let mut done = false;

    while !done
        invariant
            display.wf(),
            display.vsyncs == old(display).vsyncs,
            display.channel.total == old(display).channel.total,
            display.channel.remaining <= old(display).channel.remaining,
            0 <= subtile_x < 32,
            0 <= subtile_y < 32,
            subtile_x == position.x as int % 32,
            subtile_y == position.y as int % 32,
            drawn_y == 32 * rows,
            0 <= rows <= 9,
            !done ==> rows <= 8,
            world_y == position.y + drawn_y,
            done ==> forall|sx: int, sy: int| 0 <= sx < WIDTH && 0 <= sy < HEIGHT
                ==> #[trigger] spec_covered(cells, sx, sy),
            tile_cache.wf(),
            forall|i: int| 0 <= i < tile_cache.entries@.len()
                ==> spec_cached_pos_ok((#[trigger] tile_cache.entries@[i]).1,
                    subtile_x as int, subtile_y as int),
            spec_cache_coherent(tile_cache.entries@, tiles@, display.fb@),
            spec_entries_before(tile_cache.entries@, -(subtile_x as int), drawn_y - subtile_y),
            overlay_tile_cache.wf(),
            spec_overlay_cache_decoded(overlay_tile_cache, tiles@),
            missing_transparent_tiles.wf(),
            forall|i: int| 0 <= i < missing_transparent_tiles.entries@.len()
                ==> -32 <= (#[trigger] missing_transparent_tiles.entries@[i]).0.x <= 300
                    && -32 <= missing_transparent_tiles.entries@[i].0.y <= 300,
            spec_stats_consistent(stats),
            spec_counters_at_most(stats, 40 * rows + 1),
            flags.len() == cells.len(),
            pending.len() == missing_transparent_tiles.entries@.len(),
            forall|k: int| 0 <= k < cells.len() ==> call_ensures(*map_generator,
                (Point { x: (position.x + (#[trigger] cells[k]).0.x) as i32,
                         y: (position.y + cells[k].0.y) as i32 },), cells[k].1),
            forall|k: int| 0 <= k < cells.len()
                ==> ((#[trigger] cells[k]).0.x + subtile_x) % 32 == 0
                    && (cells[k].0.y + subtile_y) % 32 == 0
                    && -32 <= cells[k].0.x <= 300 && -32 <= cells[k].0.y <= 300
                    && cells[k].0.y < drawn_y - subtile_y,
            forall|k1: int, k2: int| 0 <= k1 < k2 < cells.len()
                ==> spec_pos_earlier((#[trigger] cells[k1]).0, (#[trigger] cells[k2]).0),
            forall|sx: int, sy: int| 0 <= sx < WIDTH && 0 <= sy < HEIGHT
                && sy < drawn_y - subtile_y ==> #[trigger] spec_covered(cells, sx, sy),
            forall|k: int, sx: int, sy: int| 0 <= k < cells.len()
                && 0 <= sx < WIDTH && 0 <= sy < HEIGHT
                && (#[trigger] cells[k]).0.x <= sx < cells[k].0.x + TILE_SIZE
                && cells[k].0.y <= sy < cells[k].0.y + TILE_SIZE
                ==> #[trigger] spec_fb_pixel(display.fb@, sx, sy)
                    == spec_cell_owed(tiles@, cells[k].1.layers@, cells[k].0, flags[k],
                        spec_fb_pixel(fb0, sx, sy), sx, sy),
            forall|sx: int, sy: int| 0 <= sx < WIDTH && 0 <= sy < HEIGHT
                && !spec_covered(cells, sx, sy)
                ==> #[trigger] spec_fb_pixel(display.fb@, sx, sy) == spec_fb_pixel(fb0, sx, sy),
            forall|j: int| 0 <= j < pending.len()
                ==> 0 <= #[trigger] pending[j] < cells.len()
                    && cells[pending[j]].0 == missing_transparent_tiles.entries@[j].0
                    && cells[pending[j]].1 == missing_transparent_tiles.entries@[j].1
                    && !flags[pending[j]],
            forall|j1: int, j2: int| 0 <= j1 < j2 < pending.len()
                ==> #[trigger] pending[j1] < #[trigger] pending[j2],
            forall|k: int| 0 <= k < cells.len() && !(#[trigger] flags[k])
                ==> cells[k].1.layers@.len() > 1 && cells[k].1.layers@[0].0 < tiles@.len(),
            stats.deferred_drops + pending.len() == spec_incomplete_count(flags),
        decreases 240 + 64 - drawn_y, display.channel.remaining,
    {
        let progress = display.flush_progress();
        let dyu = drawn_y as usize;
        let safe_y: usize = if progress + 1 >= WIDTH {
            (progress + 1 - WIDTH) / WIDTH
        } else {
            0
        };
        if safe_y < dyu + 32 && progress < FRAME_PIXELS {
            continue;
        }
        if safe_y > dyu + 64 {
            stats.slow_draw = true;
        }
        proof {
            if progress < FRAME_PIXELS {
                // Scanout-safety law: the whole row about to be drawn lies
                // behind the transmitted cursor.
                crate::display::lemma_scanout_safety(progress as int, safe_y as int,
                    drawn_y as int, 32);
                assert((drawn_y + 32) * WIDTH <= progress);
            }
        }

        let screen_y: i32 = drawn_y - subtile_y;
        proof {
            vstd::arithmetic::div_mod::lemma_mod_multiples_basic(rows, 32);
            assert((screen_y + subtile_y) % 32 == 0);
        }

        let ghost fb_row = display.fb@;
        let mut screen_x: i32 = 0 - subtile_x;
        let ghost mut cols: int = 0;
        while screen_x < WIDTH as i32
            invariant
                display.wf(),
                display.vsyncs == old(display).vsyncs,
                display.channel.total == old(display).channel.total,
                display.channel.remaining <= old(display).channel.remaining,
                screen_x == -subtile_x + 32 * cols,
                0 <= cols <= 9,
                tile_cache.wf(),
                forall|i: int| 0 <= i < tile_cache.entries@.len()
                    ==> spec_cached_pos_ok((#[trigger] tile_cache.entries@[i]).1,
                        subtile_x as int, subtile_y as int),
                spec_cache_coherent(tile_cache.entries@, tiles@, display.fb@),
                spec_entries_before(tile_cache.entries@, screen_x as int, screen_y as int),
                overlay_tile_cache.wf(),
                spec_overlay_cache_decoded(overlay_tile_cache, tiles@),
                missing_transparent_tiles.wf(),
                forall|i: int| 0 <= i < missing_transparent_tiles.entries@.len()
                    ==> -32 <= (#[trigger] missing_transparent_tiles.entries@[i]).0.x <= 300
                        && -32 <= missing_transparent_tiles.entries@[i].0.y <= 300,
                spec_stats_consistent(stats),
                spec_counters_at_most(stats, 40 * rows + 1 + 4 * cols),
                forall|sx: int, sy: int| 0 <= sx < WIDTH && 0 <= sy < HEIGHT
                    && !(screen_y <= sy < screen_y + 32)
                    ==> #[trigger] spec_fb_pixel(display.fb@, sx, sy)
                        == spec_fb_pixel(fb_row, sx, sy),
                flags.len() == cells.len(),
                pending.len() == missing_transparent_tiles.entries@.len(),
                forall|k: int| 0 <= k < cells.len() ==> call_ensures(*map_generator,
                    (Point { x: (position.x + (#[trigger] cells[k]).0.x) as i32,
                             y: (position.y + cells[k].0.y) as i32 },), cells[k].1),
                forall|k: int| 0 <= k < cells.len()
                    ==> ((#[trigger] cells[k]).0.x + subtile_x) % 32 == 0
                        && (cells[k].0.y + subtile_y) % 32 == 0
                        && -32 <= cells[k].0.x <= 300 && -32 <= cells[k].0.y <= 300
                        && spec_pos_earlier(cells[k].0,
                            (Point { x: screen_x, y: screen_y })),
                forall|k1: int, k2: int| 0 <= k1 < k2 < cells.len()
                    ==> spec_pos_earlier((#[trigger] cells[k1]).0, (#[trigger] cells[k2]).0),
                forall|sx: int, sy: int| 0 <= sx < WIDTH && 0 <= sy < HEIGHT
                    && (sy < screen_y || (sy < screen_y + 32 && sx < screen_x))
                    ==> #[trigger] spec_covered(cells, sx, sy),
                forall|k: int, sx: int, sy: int| 0 <= k < cells.len()
                    && 0 <= sx < WIDTH && 0 <= sy < HEIGHT
                    && (#[trigger] cells[k]).0.x <= sx < cells[k].0.x + TILE_SIZE
                    && cells[k].0.y <= sy < cells[k].0.y + TILE_SIZE
                    ==> #[trigger] spec_fb_pixel(display.fb@, sx, sy)
                        == spec_cell_owed(tiles@, cells[k].1.layers@, cells[k].0, flags[k],
                            spec_fb_pixel(fb0, sx, sy), sx, sy),
                forall|sx: int, sy: int| 0 <= sx < WIDTH && 0 <= sy < HEIGHT
                    && !spec_covered(cells, sx, sy)
                    ==> #[trigger] spec_fb_pixel(display.fb@, sx, sy) == spec_fb_pixel(fb0, sx, sy),
                forall|j: int| 0 <= j < pending.len()
                    ==> 0 <= #[trigger] pending[j] < cells.len()
                        && cells[pending[j]].0 == missing_transparent_tiles.entries@[j].0
                        && cells[pending[j]].1 == missing_transparent_tiles.entries@[j].1
                        && !flags[pending[j]],
                forall|j1: int, j2: int| 0 <= j1 < j2 < pending.len()
                    ==> #[trigger] pending[j1] < #[trigger] pending[j2],
                forall|k: int| 0 <= k < cells.len() && !(#[trigger] flags[k])
                    ==> cells[k].1.layers@.len() > 1 && cells[k].1.layers@[0].0 < tiles@.len(),
                stats.deferred_drops + pending.len() == spec_incomplete_count(flags),
            decreases WIDTH as i32 + 32 - screen_x,
        {
            let world_x = position.x + screen_x;
            let map_coord = Point::new(tile_align(world_x), tile_align(world_y));
            let screen_coord = Point::new(screen_x, screen_y);
            proof {
                vstd::arithmetic::div_mod::lemma_mod_multiples_vanish(cols, subtile_x as int, 32);
                assert((screen_x + subtile_x) % 32 == 0);
                // The cell's world coordinate is already tile-aligned, so
                // the generator is asked exactly at position + origin.
                vstd::arithmetic::div_mod::lemma_fundamental_div_mod(position.x as int, 32);
                vstd::arithmetic::div_mod::lemma_fundamental_div_mod(position.y as int, 32);
                vstd::arithmetic::div_mod::lemma_mod_multiples_vanish(
                    position.x as int / 32 + cols, 0, 32);
                assert(32 * (position.x as int / 32) + 32 * cols
                    == 32 * (position.x as int / 32 + cols)) by (nonlinear_arith);
                assert(world_x as int % 32 == 0);
                vstd::arithmetic::div_mod::lemma_mod_multiples_vanish(rows, position.y as int, 32);
                assert(world_y as int % 32 == subtile_y);
                assert(map_coord.x == position.x + screen_coord.x);
                assert(map_coord.y == position.y + screen_coord.y);
            }
            let map_tile = map_generator(map_coord);
            let ghost cell_stack = map_tile;
            let ghost fb_cell = display.fb@;
            proof {
                // The cell's rectangle cannot lie inside any finished cell.
                assert forall|sx: int, sy: int| 0 <= sx < WIDTH && 0 <= sy < HEIGHT
                    && spec_in_rect(screen_coord, (Size { width: 32, height: 32 }), sx, sy) implies
                    !spec_covered(cells, sx, sy) by {
                    if spec_covered(cells, sx, sy) {
                        let k = choose|k: int| 0 <= k < cells.len()
                            && (#[trigger] cells[k]).0.x <= sx < cells[k].0.x + TILE_SIZE
                            && cells[k].0.y <= sy < cells[k].0.y + TILE_SIZE;
                        lemma_cell_disjoint(cells[k].0, screen_coord,
                            subtile_x as int, subtile_y as int, sx, sy);
                    }
                }
            }
            let ghost complete: bool = true;
            let ghost pushed_pending: bool = false;
            if map_tile.layers.len() > 0 && (map_tile.layers[0].0 as usize) < tiles.len() {
                let base_id = map_tile.layers[0];
                stats.base_tile_cache_lookups = stats.base_tile_cache_lookups + 1;
                let hit = tile_cache.get(base_id);
                match hit {
                    Some(cached_src) => {
                        let ghost fb_before_copy = display.fb@;
                        proof {
                            let wi = choose|i: int| 0 <= i < tile_cache.entries@.len()
                                && #[trigger] tile_cache.entries@[i] == (base_id, cached_src);
                            assert(spec_cached_pos_ok(cached_src, subtile_x as int, subtile_y as int));
                            assert(spec_entry_coherent((base_id, cached_src), tiles@, display.fb@));
                            lemma_aligned_apart(cached_src.x + subtile_x, screen_x + subtile_x);
                            lemma_aligned_apart(cached_src.y + subtile_y, screen_y + subtile_y);
                        }
                        copy_tile(display, cached_src, screen_coord, Size::new(32, 32));
                        proof {
                            lemma_cache_preserved(tile_cache.entries@, tiles@, fb_before_copy,
                                display.fb@, screen_coord, subtile_x as int, subtile_y as int,
                                screen_x as int, screen_y as int);
                            lemma_cells_flag_preserved(cells, flags, tiles@, fb0, fb_before_copy,
                                display.fb@, screen_coord, subtile_x as int, subtile_y as int);
                            // The fast path reproduced the decoded tile out of
                            // the coherent source rectangle.
                            assert forall|sx: int, sy: int| 0 <= sx < WIDTH && 0 <= sy < HEIGHT
                                && spec_in_rect(screen_coord, (Size { width: 32, height: 32 }), sx, sy) implies
                                #[trigger] spec_fb_pixel(display.fb@, sx, sy)
                                    == spec_bswap(spec_tile_pixel(
                                        tiles@[base_id.0 as int].spec_pixels(), screen_coord, sx, sy)) by {
                                let sxs = sx + cached_src.x - screen_coord.x;
                                let sys = sy + cached_src.y - screen_coord.y;
                                assert(spec_fb_pixel(display.fb@, sx, sy)
                                    == spec_fb_pixel(fb_before_copy, sxs, sys));
                                assert(spec_fb_pixel(fb_before_copy, sxs, sys)
                                    == spec_bswap(spec_tile_pixel(
                                        tiles@[base_id.0 as int].spec_pixels(), cached_src, sxs, sys)));
                                assert((sys - cached_src.y) * TILE_SIZE + (sxs - cached_src.x)
                                    == (sy - screen_coord.y) * TILE_SIZE + (sx - screen_coord.x));
                            }
                        }
                        let ghost fb_before_overlays = display.fb@;
                        draw_overlays(display, tiles, &mut overlay_tile_cache, &map_tile,
                            screen_coord, &mut stats);
                        proof {
                            lemma_cache_preserved(tile_cache.entries@, tiles@, fb_before_overlays,
                                display.fb@, screen_coord, subtile_x as int, subtile_y as int,
                                screen_x as int, screen_y as int);
                            lemma_cells_flag_preserved(cells, flags, tiles@, fb0,
                                fb_before_overlays, display.fb@, screen_coord,
                                subtile_x as int, subtile_y as int);
                            // Base, then overlays: the cell now holds its
                            // composite.
                            assert forall|sx: int, sy: int| 0 <= sx < WIDTH && 0 <= sy < HEIGHT
                                && spec_in_rect(screen_coord, (Size { width: 32, height: 32 }), sx, sy) implies
                                #[trigger] spec_fb_pixel(display.fb@, sx, sy)
                                    == spec_cell_pixel(tiles@, cell_stack.layers@, screen_coord,
                                        spec_fb_pixel(fb0, sx, sy), sx, sy) by {
                                assert(spec_fb_pixel(fb_before_overlays, sx, sy)
                                    == spec_base_pixel(tiles@, cell_stack.layers@, screen_coord, sx, sy));
                            }
                        }
                    }
                    None => {
                        stats.base_tile_cache_misses = stats.base_tile_cache_misses + 1;
                        let mut loaded_tile = LoadedTile::new();
                        load_tile(&tiles[base_id.0 as usize], &mut loaded_tile, false);
                        stats.tile_loads = stats.tile_loads + 1;
                        let ghost fb_before_blit = display.fb@;
                        let fully_on_screen = draw_opaque_tile(display, &loaded_tile,
                            screen_coord, Size::new(32, 32));
                        proof {
                            lemma_cache_preserved(tile_cache.entries@, tiles@, fb_before_blit,
                                display.fb@, screen_coord, subtile_x as int, subtile_y as int,
                                screen_x as int, screen_y as int);
                            lemma_cells_flag_preserved(cells, flags, tiles@, fb0, fb_before_blit,
                                display.fb@, screen_coord, subtile_x as int, subtile_y as int);
                            assert(loaded_tile.data@ == tiles@[base_id.0 as int].spec_pixels());
                        }
                        if fully_on_screen {
                            let ghost pre_entries = tile_cache.entries@;
                            let inserted = tile_cache.insert(base_id, screen_coord);
                            if !inserted {
                                stats.base_tile_cache_insert_failures =
                                    stats.base_tile_cache_insert_failures + 1;
                            }
                            proof {
                                assert(spec_entry_coherent((base_id, screen_coord), tiles@,
                                    display.fb@)) by {
                                    assert forall|sx: int, sy: int|
                                        screen_coord.x <= sx < screen_coord.x + TILE_SIZE
                                        && screen_coord.y <= sy < screen_coord.y + TILE_SIZE implies
                                        #[trigger] spec_fb_pixel(display.fb@, sx, sy)
                                            == spec_bswap(spec_tile_pixel(
                                                tiles@[base_id.0 as int].spec_pixels(),
                                                screen_coord, sx, sy)) by {
                                        assert(spec_in_rect(screen_coord,
                                            (Size { width: 32, height: 32 }), sx, sy));
                                    }
                                }
                                assert forall|i: int| 0 <= i < tile_cache.entries@.len() implies
                                    spec_cached_pos_ok((#[trigger] tile_cache.entries@[i]).1,
                                        subtile_x as int, subtile_y as int)
                                    && spec_entry_coherent(tile_cache.entries@[i], tiles@,
                                        display.fb@)
                                    && (tile_cache.entries@[i].1.y < screen_y + 0
                                        || (tile_cache.entries@[i].1.y == screen_y
                                            && tile_cache.entries@[i].1.x < screen_x + 32)) by {
                                    let e = tile_cache.entries@[i];
                                    if e != (base_id, screen_coord) {
                                        assert(pre_entries.contains(e));
                                        let j = choose|j: int| 0 <= j < pre_entries.len()
                                            && pre_entries[j] == e;
                                        assert(spec_cached_pos_ok(pre_entries[j].1,
                                            subtile_x as int, subtile_y as int));
                                        assert(spec_entry_coherent(pre_entries[j], tiles@,
                                            display.fb@));
                                    }
                                }
                            }
                        }
                        if map_tile.layers.len() > 1 {
                            proof {
                                complete = false;
                            }
                            if missing_transparent_tiles.push(screen_coord, map_tile) {
                                proof {
                                    pushed_pending = true;
                                }
                            } else {
                                stats.deferred_drops = stats.deferred_drops + 1;
                            }
                        }
                    }
                }
            } else {
                proof {
                    // Nothing was drawn: the cell's pixels still equal the
                    // frame's starting content.
                    assert forall|sx: int, sy: int| 0 <= sx < WIDTH && 0 <= sy < HEIGHT
                        && spec_in_rect(screen_coord, (Size { width: 32, height: 32 }), sx, sy) implies
                        #[trigger] spec_fb_pixel(display.fb@, sx, sy)
                            == spec_fb_pixel(fb0, sx, sy) by {}
                }
            }
            proof {
                let cell = (screen_coord, cell_stack);
                let ghost prev_cells = cells;
                let ghost prev_flags = flags;
                let ghost prev_pending = pending;
                cells = cells.push(cell);
                flags = flags.push(complete);
                if pushed_pending {
                    pending = pending.push(cells.len() - 1);
                }
                // The new cell's pixels are what its state owes.
                assert forall|sx: int, sy: int| 0 <= sx < WIDTH && 0 <= sy < HEIGHT
                    && cell.0.x <= sx < cell.0.x + TILE_SIZE
                    && cell.0.y <= sy < cell.0.y + TILE_SIZE implies
                    #[trigger] spec_fb_pixel(display.fb@, sx, sy)
                        == spec_cell_owed(tiles@, cell.1.layers@, cell.0, complete,
                            spec_fb_pixel(fb0, sx, sy), sx, sy) by {
                    assert(spec_in_rect(screen_coord, (Size { width: 32, height: 32 }), sx, sy));
                    if cell.1.layers@.len() == 0 || !(cell.1.layers@[0].0 < tiles@.len()) {
                        assert(spec_fb_pixel(display.fb@, sx, sy) == spec_fb_pixel(fb0, sx, sy));
                    }
                }
                assert forall|k: int, sx: int, sy: int| 0 <= k < cells.len()
                    && 0 <= sx < WIDTH && 0 <= sy < HEIGHT
                    && (#[trigger] cells[k]).0.x <= sx < cells[k].0.x + TILE_SIZE
                    && cells[k].0.y <= sy < cells[k].0.y + TILE_SIZE implies
                    #[trigger] spec_fb_pixel(display.fb@, sx, sy)
                        == spec_cell_owed(tiles@, cells[k].1.layers@, cells[k].0, flags[k],
                            spec_fb_pixel(fb0, sx, sy), sx, sy) by {
                    if k < prev_cells.len() {
                        assert(cells[k] == prev_cells[k]);
                        assert(flags[k] == prev_flags[k]);
                    } else {
                        assert(cells[k] == cell);
                    }
                }
                assert forall|sx: int, sy: int| 0 <= sx < WIDTH && 0 <= sy < HEIGHT
                    && (sy < screen_y || (sy < screen_y + 32 && sx < screen_x + 32)) implies
                    #[trigger] spec_covered(cells, sx, sy) by {
                    if sy < screen_y || (sy < screen_y + 32 && sx < screen_x) {
                        assert(spec_covered(prev_cells, sx, sy));
                        let k = choose|k: int| 0 <= k < prev_cells.len()
                            && (#[trigger] prev_cells[k]).0.x <= sx < prev_cells[k].0.x + TILE_SIZE
                            && prev_cells[k].0.y <= sy < prev_cells[k].0.y + TILE_SIZE;
                        assert(cells[k] == prev_cells[k]);
                    } else {
                        assert(screen_y <= sy < screen_y + 32);
                        assert(screen_x <= sx < screen_x + 32);
                        let k = cells.len() - 1;
                        assert(cells[k] == cell);
                    }
                }
                assert forall|sx: int, sy: int| 0 <= sx < WIDTH && 0 <= sy < HEIGHT
                    && !spec_covered(cells, sx, sy) implies
                    #[trigger] spec_fb_pixel(display.fb@, sx, sy) == spec_fb_pixel(fb0, sx, sy) by {
                    assert forall|k: int| 0 <= k < prev_cells.len()
                        && (#[trigger] prev_cells[k]).0.x <= sx < prev_cells[k].0.x + TILE_SIZE
                        && prev_cells[k].0.y <= sy < prev_cells[k].0.y + TILE_SIZE implies false by {
                        assert(cells[k] == prev_cells[k]);
                    }
                    assert(!spec_covered(prev_cells, sx, sy));
                    assert(!spec_in_rect(screen_coord, (Size { width: 32, height: 32 }), sx, sy));
                    assert(spec_fb_pixel(display.fb@, sx, sy) == spec_fb_pixel(fb_cell, sx, sy));
                }
                assert forall|j: int| 0 <= j < pending.len() implies
                    0 <= #[trigger] pending[j] < cells.len()
                    && cells[pending[j]].0 == missing_transparent_tiles.entries@[j].0
                    && cells[pending[j]].1 == missing_transparent_tiles.entries@[j].1
                    && !flags[pending[j]] by {
                    if j < prev_pending.len() {
                        assert(pending[j] == prev_pending[j]);
                        assert(cells[pending[j]] == prev_cells[pending[j]]);
                        assert(flags[pending[j]] == prev_flags[pending[j]]);
                    } else {
                        assert(pending[j] == cells.len() - 1);
                    }
                }
                lemma_incomplete_count_push(prev_flags, complete);
            }
            screen_x = screen_x + 32;
            proof {
                cols = cols + 1;
            }
        }

        proof {
            // Scanout safety of the writes themselves: while the flush is
            // still in flight, this row changed no pixel at or past the
            // transmitted cursor, so the flush only sent pixels that were
            // already final.
            if progress < FRAME_PIXELS {
                assert forall|sx: int, sy: int| 0 <= sx < WIDTH && 0 <= sy < HEIGHT
                    && sy * WIDTH + sx >= progress implies
                    #[trigger] spec_fb_pixel(display.fb@, sx, sy)
                        == spec_fb_pixel(fb_row, sx, sy) by {
                    lemma_offset_row(sy * WIDTH + sx, sx, sy, drawn_y + 32);
                }
            }
        }
        drawn_y = drawn_y + 32;
        world_y = world_y + 32;
        proof {
            rows = rows + 1;
        }
        if screen_y < 0 {
            // Invalidation rule: entries would name screen positions about
            // to be overwritten with scrolled content.
            tile_cache.clear();
            stats.cache_clears = stats.cache_clears + 1;
        } else if screen_y + 32 >= HEIGHT as i32 {
            done = true;
        }
    }

    let deferred = missing_transparent_tiles.entries.len();
    let mut di: usize = 0;
    while di < deferred
        invariant
            0 <= di <= deferred,
            deferred == missing_transparent_tiles.entries@.len(),
            deferred <= 64,
            display.wf(),
            display.vsyncs == old(display).vsyncs,
            display.channel.total == old(display).channel.total,
            display.channel.remaining <= old(display).channel.remaining,
            overlay_tile_cache.wf(),
            spec_overlay_cache_decoded(overlay_tile_cache, tiles@),
            spec_stats_consistent(stats),
            spec_counters_at_most(stats, 400 + 4 * di),
            flags.len() == cells.len(),
            pending.len() == deferred,
            forall|k: int| 0 <= k < cells.len() ==> call_ensures(*map_generator,
                (Point { x: (position.x + (#[trigger] cells[k]).0.x) as i32,
                         y: (position.y + cells[k].0.y) as i32 },), cells[k].1),
            forall|k: int| 0 <= k < cells.len()
                ==> ((#[trigger] cells[k]).0.x + subtile_x) % 32 == 0
                    && (cells[k].0.y + subtile_y) % 32 == 0
                    && -32 <= cells[k].0.x <= 300 && -32 <= cells[k].0.y <= 300,
            forall|k1: int, k2: int| 0 <= k1 < k2 < cells.len()
                ==> spec_pos_earlier((#[trigger] cells[k1]).0, (#[trigger] cells[k2]).0),
            forall|sx: int, sy: int| 0 <= sx < WIDTH && 0 <= sy < HEIGHT
                ==> #[trigger] spec_covered(cells, sx, sy),
            forall|k: int, sx: int, sy: int| 0 <= k < cells.len()
                && 0 <= sx < WIDTH && 0 <= sy < HEIGHT
                && (#[trigger] cells[k]).0.x <= sx < cells[k].0.x + TILE_SIZE
                && cells[k].0.y <= sy < cells[k].0.y + TILE_SIZE
                ==> #[trigger] spec_fb_pixel(display.fb@, sx, sy)
                    == spec_cell_owed(tiles@, cells[k].1.layers@, cells[k].0, flags[k],
                        spec_fb_pixel(fb0, sx, sy), sx, sy),
            forall|j: int| di <= j < deferred
                ==> 0 <= #[trigger] pending[j] < cells.len()
                    && cells[pending[j]].0 == missing_transparent_tiles.entries@[j].0
                    && cells[pending[j]].1 == missing_transparent_tiles.entries@[j].1
                    && !flags[pending[j]],
            forall|j1: int, j2: int| 0 <= j1 < j2 < pending.len()
                ==> #[trigger] pending[j1] < #[trigger] pending[j2],
            forall|k: int| 0 <= k < cells.len() && !(#[trigger] flags[k])
                ==> cells[k].1.layers@.len() > 1 && cells[k].1.layers@[0].0 < tiles@.len(),
            stats.deferred_drops + (deferred - di) == spec_incomplete_count(flags),
        decreases deferred - di,
    {
        let entry_pos = missing_transparent_tiles.entries[di].0;
        let ghost k = pending[di as int];
        let ghost fb_pass = display.fb@;
        proof {
            assert(cells[k].0 == entry_pos);
            assert(!flags[k]);
        }
        draw_overlays(display, tiles, &mut overlay_tile_cache,
            &missing_transparent_tiles.entries[di].1, entry_pos, &mut stats);
        proof {
            let ghost prev_flags = flags;
            flags = flags.update(k, true);
            // The deferred cell got its overlays over the base it held;
            // every other cell's rectangle is disjoint and untouched.
            assert forall|m: int, sx: int, sy: int| 0 <= m < cells.len()
                && 0 <= sx < WIDTH && 0 <= sy < HEIGHT
                && (#[trigger] cells[m]).0.x <= sx < cells[m].0.x + TILE_SIZE
                && cells[m].0.y <= sy < cells[m].0.y + TILE_SIZE implies
                #[trigger] spec_fb_pixel(display.fb@, sx, sy)
                    == spec_cell_owed(tiles@, cells[m].1.layers@, cells[m].0, flags[m],
                        spec_fb_pixel(fb0, sx, sy), sx, sy) by {
                if m == k {
                    assert(spec_in_rect(cells[k].0, (Size { width: 32, height: 32 }), sx, sy));
                    assert(spec_fb_pixel(fb_pass, sx, sy)
                        == spec_base_pixel(tiles@, cells[k].1.layers@, cells[k].0, sx, sy));
                } else {
                    assert(flags[m] == prev_flags[m]);
                    if m < k {
                        lemma_cell_disjoint(cells[m].0, cells[k].0,
                            subtile_x as int, subtile_y as int, sx, sy);
                    } else {
                        if cells[k].0.x <= sx < cells[k].0.x + TILE_SIZE
                            && cells[k].0.y <= sy < cells[k].0.y + TILE_SIZE {
                            lemma_cell_disjoint(cells[k].0, cells[m].0,
                                subtile_x as int, subtile_y as int, sx, sy);
                        }
                    }
                    assert(!spec_in_rect(cells[k].0, (Size { width: 32, height: 32 }), sx, sy));
                    assert(spec_fb_pixel(display.fb@, sx, sy) == spec_fb_pixel(fb_pass, sx, sy));
                }
            }
            assert forall|j: int| di + 1 <= j < deferred implies
                0 <= #[trigger] pending[j] < cells.len()
                && cells[pending[j]].0 == missing_transparent_tiles.entries@[j].0
                && cells[pending[j]].1 == missing_transparent_tiles.entries@[j].1
                && !flags[pending[j]] by {
                assert(pending[di as int] < pending[j]);
            }
            lemma_incomplete_count_update_true(prev_flags, k);
        }
        di += 1;
    }

    proof {
        assert(spec_frame_accounted(cells, flags, *map_generator, tiles@, position, fb0,
            display.fb@));
        assert(stats.deferred_drops == spec_incomplete_count(flags));
        if stats.deferred_drops == 0 {
            lemma_incomplete_count_zero(flags);
            assert(spec_frame_described(cells, *map_generator, tiles@, position, fb0,
                display.fb@));
        }
    }

    stats
}

/// Reference renderer: the same frame as `draw`, produced the slow way —
/// every base tile decoded and blitted, every overlay decoded and
/// composited in place, no caches and no scanout pacing. Its contract
/// pins the frame exactly: some family of tile-aligned cells covers the
/// screen, each cell's stack is an output of the map generator for that
/// cell's world coordinate, and every visible pixel is its cell's
/// composite. This is the frame the incremental renderer must reproduce.
#[verifier::loop_isolation(false)]
#[verifier::rlimit(100)]
pub fn draw_reference<F: Fn(Point) -> GenMapTile>(
    display: &mut Display,
    tiles: &Vec<Tile>,
    position: Point,
    map_generator: &F,
)
    requires
        old(display).wf(),
        forall|i: int| 0 <= i < tiles@.len() ==> (#[trigger] tiles@[i]).wf(),
        -1000000 <= position.x <= 1000000,
        -1000000 <= position.y <= 1000000,
        forall|p: Point| #[trigger] call_requires(*map_generator, (p,)),
    ensures
        final(display).wf(),
        final(display).vsyncs == old(display).vsyncs,
        final(display).channel == old(display).channel,
        exists|cells: Seq<(Point, GenMapTile)>| spec_frame_described(cells, *map_generator,
            tiles@, position, old(display).fb@, final(display).fb@),
{
    let ghost fb0 = display.fb@;
    let ghost mut cells: Seq<(Point, GenMapTile)> = Seq::empty();

    let mut drawn_y: i32 = 0;
    let mut world_y: i32 = position.y;
    let subtile_y: i32 = subtile_of(position.y);
    let subtile_x: i32 = subtile_of(position.x);
    let ghost mut rows: int = 0;

    loop
        invariant
            display.wf(),
            display.vsyncs == old(display).vsyncs,
            display.channel == old(display).channel,
            0 <= subtile_x < 32,
            0 <= subtile_y < 32,
            subtile_x == position.x as int % 32,
            subtile_y == position.y as int % 32,
            drawn_y == 32 * rows,
            0 <= rows <= 8,
            world_y == position.y + drawn_y,
            forall|k: int| 0 <= k < cells.len() ==> call_ensures(*map_generator,
                (Point { x: (position.x + (#[trigger] cells[k]).0.x) as i32,
                         y: (position.y + cells[k].0.y) as i32 },), cells[k].1),
            forall|k: int| 0 <= k < cells.len()
                ==> ((#[trigger] cells[k]).0.x + subtile_x) % 32 == 0
                    && (cells[k].0.y + subtile_y) % 32 == 0
                    && cells[k].0.y < drawn_y - subtile_y,
            forall|sx: int, sy: int| 0 <= sx < WIDTH && 0 <= sy < HEIGHT
                && sy < drawn_y - subtile_y ==> #[trigger] spec_covered(cells, sx, sy),
            forall|k: int, sx: int, sy: int| 0 <= k < cells.len()
                && 0 <= sx < WIDTH && 0 <= sy < HEIGHT
                && (#[trigger] cells[k]).0.x <= sx < cells[k].0.x + TILE_SIZE
                && cells[k].0.y <= sy < cells[k].0.y + TILE_SIZE
                ==> #[trigger] spec_fb_pixel(display.fb@, sx, sy)
                    == spec_cell_pixel(tiles@, cells[k].1.layers@, cells[k].0,
                        spec_fb_pixel(fb0, sx, sy), sx, sy),
            forall|sx: int, sy: int| 0 <= sx < WIDTH && 0 <= sy < HEIGHT
                && !spec_covered(cells, sx, sy)
                ==> #[trigger] spec_fb_pixel(display.fb@, sx, sy) == spec_fb_pixel(fb0, sx, sy),
        decreases 240 + 64 - drawn_y,
    {
        let screen_y: i32 = drawn_y - subtile_y;
        proof {
            vstd::arithmetic::div_mod::lemma_mod_multiples_basic(rows, 32);
            assert((screen_y + subtile_y) % 32 == 0);
        }
        let mut screen_x: i32 = 0 - subtile_x;
        let ghost mut cols: int = 0;
        while screen_x < WIDTH as i32
            invariant
                display.wf(),
                display.vsyncs == old(display).vsyncs,
                display.channel == old(display).channel,
                screen_x == -subtile_x + 32 * cols,
                0 <= cols <= 9,
                forall|k: int| 0 <= k < cells.len() ==> call_ensures(*map_generator,
                    (Point { x: (position.x + (#[trigger] cells[k]).0.x) as i32,
                             y: (position.y + cells[k].0.y) as i32 },), cells[k].1),
                forall|k: int| 0 <= k < cells.len()
                    ==> ((#[trigger] cells[k]).0.x + subtile_x) % 32 == 0
                        && (cells[k].0.y + subtile_y) % 32 == 0
                        && (cells[k].0.y < screen_y
                            || (cells[k].0.y == screen_y && cells[k].0.x < screen_x)),
                forall|sx: int, sy: int| 0 <= sx < WIDTH && 0 <= sy < HEIGHT
                    && (sy < screen_y || (sy < screen_y + 32 && sx < screen_x))
                    ==> #[trigger] spec_covered(cells, sx, sy),
                forall|k: int, sx: int, sy: int| 0 <= k < cells.len()
                    && 0 <= sx < WIDTH && 0 <= sy < HEIGHT
                    && (#[trigger] cells[k]).0.x <= sx < cells[k].0.x + TILE_SIZE
                    && cells[k].0.y <= sy < cells[k].0.y + TILE_SIZE
                    ==> #[trigger] spec_fb_pixel(display.fb@, sx, sy)
                        == spec_cell_pixel(tiles@, cells[k].1.layers@, cells[k].0,
                            spec_fb_pixel(fb0, sx, sy), sx, sy),
                forall|sx: int, sy: int| 0 <= sx < WIDTH && 0 <= sy < HEIGHT
                    && !spec_covered(cells, sx, sy)
                    ==> #[trigger] spec_fb_pixel(display.fb@, sx, sy) == spec_fb_pixel(fb0, sx, sy),
            decreases WIDTH as i32 + 32 - screen_x,
        {
            let world_x = position.x + screen_x;
            let map_coord = Point::new(tile_align(world_x), tile_align(world_y));
            let screen_coord = Point::new(screen_x, screen_y);
            proof {
                vstd::arithmetic::div_mod::lemma_mod_multiples_vanish(cols, subtile_x as int, 32);
                assert((screen_x + subtile_x) % 32 == 0);
                // The cell's world coordinate is already tile-aligned, so
                // the generator is asked exactly at position + origin.
                vstd::arithmetic::div_mod::lemma_fundamental_div_mod(position.x as int, 32);
                vstd::arithmetic::div_mod::lemma_fundamental_div_mod(position.y as int, 32);
                vstd::arithmetic::div_mod::lemma_mod_multiples_vanish(
                    position.x as int / 32 + cols, 0, 32);
                assert(32 * (position.x as int / 32) + 32 * cols
                    == 32 * (position.x as int / 32 + cols)) by (nonlinear_arith);
                assert(world_x as int % 32 == 0);
                vstd::arithmetic::div_mod::lemma_mod_multiples_vanish(rows, position.y as int, 32);
                assert(world_y as int % 32 == subtile_y);
                assert(map_coord.x == position.x + screen_coord.x);
                assert(map_coord.y == position.y + screen_coord.y);
            }
            let map_tile = map_generator(map_coord);
            let ghost cell_stack = map_tile;
            let ghost fb_cell = display.fb@;
            proof {
                // The cell's rectangle is untouched so far: it cannot lie
                // inside any finished cell.
                assert forall|sx: int, sy: int| 0 <= sx < WIDTH && 0 <= sy < HEIGHT
                    && spec_in_rect(screen_coord, (Size { width: 32, height: 32 }), sx, sy) implies
                    !spec_covered(cells, sx, sy) by {
                    if spec_covered(cells, sx, sy) {
                        let k = choose|k: int| 0 <= k < cells.len()
                            && (#[trigger] cells[k]).0.x <= sx < cells[k].0.x + TILE_SIZE
                            && cells[k].0.y <= sy < cells[k].0.y + TILE_SIZE;
                        lemma_cell_disjoint(cells[k].0, screen_coord,
                            subtile_x as int, subtile_y as int, sx, sy);
                    }
                }
            }
            if map_tile.layers.len() > 0 && (map_tile.layers[0].0 as usize) < tiles.len() {
                let base_id = map_tile.layers[0];
                let mut loaded_tile = LoadedTile::new();
                load_tile(&tiles[base_id.0 as usize], &mut loaded_tile, false);
                draw_opaque_tile(display, &loaded_tile, screen_coord, Size::new(32, 32));
                proof {
                    assert(loaded_tile.data@ == tiles@[base_id.0 as int].spec_pixels());
                }

                let total = map_tile.layers.len();
                let mut idx: usize = 1;
                while idx < total && idx < NUM_LAYERS
                    invariant
                        1 <= idx <= NUM_LAYERS,
                        idx <= total,
                        display.wf(),
                        display.vsyncs == old(display).vsyncs,
                        display.channel == old(display).channel,
                        forall|sx: int, sy: int| 0 <= sx < WIDTH && 0 <= sy < HEIGHT
                            && !spec_in_rect(screen_coord, (Size { width: 32, height: 32 }), sx, sy)
                            ==> #[trigger] spec_fb_pixel(display.fb@, sx, sy)
                                == spec_fb_pixel(fb_cell, sx, sy),
                        forall|sx: int, sy: int| 0 <= sx < WIDTH && 0 <= sy < HEIGHT
                            && spec_in_rect(screen_coord, (Size { width: 32, height: 32 }), sx, sy)
                            ==> #[trigger] spec_fb_pixel(display.fb@, sx, sy)
                                == spec_layers_pixel(tiles@, cell_stack.layers@, idx as int,
                                    spec_bswap(spec_tile_pixel(
                                        tiles@[cell_stack.layers@[0].0 as int].spec_pixels(),
                                        screen_coord, sx, sy)),
                                    screen_coord, sx, sy),
                    decreases total - idx,
                {
                    let ghost fb_layer = display.fb@;
                    let id = map_tile.layers[idx];
                    if (id.0 as usize) < tiles.len() {
                        let mut overlay_tile = LoadedTile::new();
                        load_tile(&tiles[id.0 as usize], &mut overlay_tile, true);
                        draw_transparent_tile(display, &overlay_tile, screen_coord,
                            Size::new(32, 32));
                        proof {
                            assert(overlay_tile.data@ == tiles@[id.0 as int].spec_pixels());
                            assert(overlay_tile.mask@ == tiles@[id.0 as int].mask@);
                        }
                    }
                    proof {
                        assert forall|sx: int, sy: int| 0 <= sx < WIDTH && 0 <= sy < HEIGHT
                            && spec_in_rect(screen_coord, (Size { width: 32, height: 32 }), sx, sy) implies
                            #[trigger] spec_fb_pixel(display.fb@, sx, sy)
                                == spec_layers_pixel(tiles@, cell_stack.layers@, idx + 1,
                                    spec_bswap(spec_tile_pixel(
                                        tiles@[cell_stack.layers@[0].0 as int].spec_pixels(),
                                        screen_coord, sx, sy)),
                                    screen_coord, sx, sy) by {
                            assert(spec_fb_pixel(fb_layer, sx, sy)
                                == spec_layers_pixel(tiles@, cell_stack.layers@, idx as int,
                                    spec_bswap(spec_tile_pixel(
                                        tiles@[cell_stack.layers@[0].0 as int].spec_pixels(),
                                        screen_coord, sx, sy)),
                                    screen_coord, sx, sy));
                        }
                    }
                    idx += 1;
                }
                proof {
                    assert(idx as int == spec_layer_count(cell_stack.layers@));
                }
            }
            proof {
                let cell = (screen_coord, cell_stack);
                let ghost prev_cells = cells;
                cells = cells.push(cell);
                // The finished cells keep their composite: this cell's
                // writes stayed inside its own rectangle.
                lemma_cells_preserved(prev_cells, tiles@, fb0, fb_cell, display.fb@,
                    screen_coord, subtile_x as int, subtile_y as int);
                // The new cell's pixels are its composite over the frame
                // as it stood, which its rectangle still equals `fb0` at.
                assert forall|sx: int, sy: int| 0 <= sx < WIDTH && 0 <= sy < HEIGHT
                    && cell.0.x <= sx < cell.0.x + TILE_SIZE
                    && cell.0.y <= sy < cell.0.y + TILE_SIZE implies
                    #[trigger] spec_fb_pixel(display.fb@, sx, sy)
                        == spec_cell_pixel(tiles@, cell.1.layers@, cell.0,
                            spec_fb_pixel(fb0, sx, sy), sx, sy) by {
                    assert(spec_in_rect(screen_coord, (Size { width: 32, height: 32 }), sx, sy));
                    if cell.1.layers@.len() == 0 || !(cell.1.layers@[0].0 < tiles@.len()) {
                        assert(spec_fb_pixel(display.fb@, sx, sy) == spec_fb_pixel(fb_cell, sx, sy));
                        assert(spec_fb_pixel(fb_cell, sx, sy) == spec_fb_pixel(fb0, sx, sy));
                    }
                }
                assert forall|k: int, sx: int, sy: int| 0 <= k < cells.len()
                    && 0 <= sx < WIDTH && 0 <= sy < HEIGHT
                    && (#[trigger] cells[k]).0.x <= sx < cells[k].0.x + TILE_SIZE
                    && cells[k].0.y <= sy < cells[k].0.y + TILE_SIZE implies
                    #[trigger] spec_fb_pixel(display.fb@, sx, sy)
                        == spec_cell_pixel(tiles@, cells[k].1.layers@, cells[k].0,
                            spec_fb_pixel(fb0, sx, sy), sx, sy) by {
                    if k < prev_cells.len() {
                        assert(cells[k] == prev_cells[k]);
                    } else {
                        assert(cells[k] == cell);
                    }
                }
                assert forall|sx: int, sy: int| 0 <= sx < WIDTH && 0 <= sy < HEIGHT
                    && (sy < screen_y || (sy < screen_y + 32 && sx < screen_x + 32)) implies
                    #[trigger] spec_covered(cells, sx, sy) by {
                    if sy < screen_y || (sy < screen_y + 32 && sx < screen_x) {
                        assert(spec_covered(prev_cells, sx, sy));
                        let k = choose|k: int| 0 <= k < prev_cells.len()
                            && (#[trigger] prev_cells[k]).0.x <= sx < prev_cells[k].0.x + TILE_SIZE
                            && prev_cells[k].0.y <= sy < prev_cells[k].0.y + TILE_SIZE;
                        assert(cells[k] == prev_cells[k]);
                    } else {
                        assert(screen_y <= sy < screen_y + 32);
                        assert(screen_x <= sx < screen_x + 32);
                        let k = cells.len() - 1;
                        assert(cells[k] == cell);
                    }
                }
                assert forall|sx: int, sy: int| 0 <= sx < WIDTH && 0 <= sy < HEIGHT
                    && !spec_covered(cells, sx, sy) implies
                    #[trigger] spec_fb_pixel(display.fb@, sx, sy) == spec_fb_pixel(fb0, sx, sy) by {
                    assert forall|k: int| 0 <= k < prev_cells.len()
                        && (#[trigger] prev_cells[k]).0.x <= sx < prev_cells[k].0.x + TILE_SIZE
                        && prev_cells[k].0.y <= sy < prev_cells[k].0.y + TILE_SIZE implies false by {
                        assert(cells[k] == prev_cells[k]);
                    }
                    assert(!spec_covered(prev_cells, sx, sy));
                    assert(!spec_in_rect(screen_coord, (Size { width: 32, height: 32 }), sx, sy));
                    assert(spec_fb_pixel(display.fb@, sx, sy) == spec_fb_pixel(fb_cell, sx, sy));
                }
            }
            screen_x = screen_x + 32;
            proof {
                cols = cols + 1;
            }
        }

        drawn_y = drawn_y + 32;
        world_y = world_y + 32;
        proof {
            rows = rows + 1;
        }
        if screen_y >= 0 && screen_y + 32 >= HEIGHT as i32 {
            proof {
                assert(spec_frame_described(cells, *map_generator, tiles@, position, fb0,
                    display.fb@));
            }
            break;
        }
    }
}

} // verus!

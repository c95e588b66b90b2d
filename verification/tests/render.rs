use picosystem::codec::compress;
use picosystem::display::{Display, FRAME_PIXELS, HEIGHT, WIDTH};
use picosystem::geom::Point;
use picosystem::tile::{draw, draw_reference, GenMapTile, Tile, TileId};

/// A solid tile asset: 1024 pixels of `color`, fully opaque mask.
fn solid_tile(color: u16) -> Tile {
    let pixels = vec![color; 1024];
    let mut data = vec![0u16; 2 * 1024 + 1];
    let n = compress(&pixels, &mut data);
    data.truncate(n);
    Tile {
        data,
        mask: vec![0xffffffff; 32],
    }
}

/// A patterned tile: pixel value depends on its position in the tile.
fn patterned_tile(seed: u16) -> Tile {
    let mut pixels = vec![0u16; 1024];
    for i in 0..1024 {
        pixels[i] = seed.wrapping_add((i as u16) / 7).wrapping_mul(3);
    }
    let mut data = vec![0u16; 2 * 1024 + 1];
    let n = compress(&pixels, &mut data);
    data.truncate(n);
    Tile {
        data,
        mask: vec![0xffffffff; 32],
    }
}

/// An overlay tile: a diagonal band of opaque pixels.
fn overlay_tile(color: u16) -> Tile {
    let mut pixels = vec![0u16; 1024];
    let mut mask = vec![0u32; 32];
    for y in 0..32 {
        for x in 0..32 {
            if (x + y) % 5 == 0 {
                pixels[y * 32 + x] = color;
                mask[y] |= 1 << x;
            }
        }
    }
    let mut data = vec![0u16; 2 * 1024 + 1];
    let n = compress(&pixels, &mut data);
    data.truncate(n);
    Tile { data, mask }
}

fn tileset() -> Vec<Tile> {
    vec![
        solid_tile(0x0011),
        patterned_tile(0x0700),
        solid_tile(0x2222),
        overlay_tile(0x7fff),
    ]
}

/// Deterministic map: base tile picked from the cell's world coordinates,
/// with an overlay on every third cell.
fn generate_map(p: Point) -> GenMapTile {
    let cx = p.x.div_euclid(32);
    let cy = p.y.div_euclid(32);
    let base = ((cx * 7 + cy * 5).rem_euclid(3)) as u32;
    let mut layers = vec![TileId(base)];
    if (cx + cy).rem_euclid(3) == 0 {
        layers.push(TileId(3));
    }
    GenMapTile { layers }
}

/// One frame of the paced pipeline: render against the in-flight flush,
/// then finish the flush and start the next one at the vsync boundary.
fn run_frame(display: &mut Display, tiles: &Vec<Tile>, position: Point) -> picosystem::tile::DrawStats {
    let stats = draw(display, tiles, position, &generate_map, false);
    display.wait_for_flush();
    display.wait_for_vsync();
    display.start_flush();
    stats
}

#[test]
fn test_stationary_cache_hits() {
    let tiles = tileset();
    let mut display = Display::new();
    let position = Point::new(64, 64);

    let first = run_frame(&mut display, &tiles, position);
    let second = run_frame(&mut display, &tiles, position);
    let third = run_frame(&mut display, &tiles, position);

    // Caches live for one render pass, so a stationary viewport repeats
    // the same accounting every frame from the first on. (The slow-draw
    // flag differs on the very first frame, which has no flush to pace
    // against.)
    assert_eq!(second, third);
    assert_eq!(first.base_tile_cache_lookups, second.base_tile_cache_lookups);
    assert_eq!(first.base_tile_cache_misses, second.base_tile_cache_misses);
    assert_eq!(first.overlay_tile_cache_lookups, second.overlay_tile_cache_lookups);
    assert_eq!(first.overlay_tile_cache_misses, second.overlay_tile_cache_misses);
    assert_eq!(first.tile_loads, second.tile_loads);
    assert_eq!(first.cache_clears, second.cache_clears);

    // 8x8 aligned cells on screen, three distinct base tiles: every miss
    // after the third is a hit, and only misses decompress.
    assert_eq!(first.base_tile_cache_lookups, 64);
    assert_eq!(first.base_tile_cache_misses, 3);
    assert_eq!(
        first.tile_loads,
        first.base_tile_cache_misses + first.overlay_tile_cache_misses
    );
    assert!(first.overlay_tile_cache_misses <= first.overlay_tile_cache_lookups);
    assert_eq!(first.base_tile_cache_insert_failures, 0);
    assert!(!second.slow_draw);
}

#[test]
fn test_scroll_invalidation() {
    let tiles = tileset();
    let mut display = Display::new();
    let mut reference_display = Display::new();

    // A sub-tile vertical offset makes the first tile row sit above the
    // viewport (negative screen row), which must invalidate the base
    // cache at that row's end.
    let position = Point::new(13, 21);
    let stats = run_frame(&mut display, &tiles, position);
    assert_eq!(stats.cache_clears, 1);

    // No copy in the frame may have used a stale position: the frame is
    // pixel-identical to the reference renderer's.
    draw_reference(&mut reference_display, &tiles, position, &generate_map);
    assert_eq!(display.fb, reference_display.fb);
}

#[test]
fn test_aligned_frame_matches_reference() {
    let tiles = tileset();
    let mut display = Display::new();
    let mut reference_display = Display::new();
    let position = Point::new(0, 0);
    let stats = run_frame(&mut display, &tiles, position);
    assert_eq!(stats.cache_clears, 0);
    draw_reference(&mut reference_display, &tiles, position, &generate_map);
    assert_eq!(display.fb, reference_display.fb);
}

#[test]
fn test_scrolling_shadow_comparison() {
    let tiles = tileset();
    let mut display = Display::new();
    let mut reference_display = Display::new();
    display.start_flush();

    for frame in 0..600i32 {
        // Constant-velocity scroll, crossing tile boundaries on both axes
        // and passing through negative world coordinates.
        let position = Point::new(-320 + frame * 3, -200 + frame * 2);
        let stats = run_frame(&mut display, &tiles, position);

        // Miss rates stay within [0, 100]%.
        assert!(stats.base_tile_cache_misses <= stats.base_tile_cache_lookups);
        assert!(stats.overlay_tile_cache_misses <= stats.overlay_tile_cache_lookups);
        assert_eq!(
            stats.tile_loads,
            stats.base_tile_cache_misses + stats.overlay_tile_cache_misses
        );
        // The deferred list never overflowed, so the frame-exactness
        // contract applies in full.
        assert_eq!(stats.deferred_drops, 0);

        // No framebuffer corruption: shadow-compare the visible region
        // against the non-cached reference renderer.
        draw_reference(&mut reference_display, &tiles, position, &generate_map);
        assert_eq!(display.fb, reference_display.fb, "frame {}", frame);
    }
}

#[test]
fn test_flush_progress_monotonic() {
    let mut display = Display::new();
    assert_eq!(display.flush_progress(), FRAME_PIXELS);
    display.start_flush();
    let mut last = 0usize;
    let mut steps = 0usize;
    loop {
        let progress = display.flush_progress();
        assert!(progress >= last);
        assert!(progress <= WIDTH * HEIGHT);
        last = progress;
        steps += 1;
        if progress == FRAME_PIXELS {
            break;
        }
        assert!(steps < 1000);
    }
}

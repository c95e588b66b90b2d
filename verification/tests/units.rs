use picosystem::cache::{DeferredList, OverlayCache, TileCache};
use picosystem::codec::compress;
use picosystem::display::Display;
use picosystem::dma::{
    bswap, copy_mem, copy_mem_bswap, copy_mem_within, set_mem, wordsize, DmaChannel,
};
use picosystem::fps_monitor::FpsMonitor;
use picosystem::geom::{Point, Size};
use picosystem::idle::Idle;
use picosystem::map::MapTile;
use picosystem::tile::{
    draw_opaque_tile, draw_transparent_tile, copy_tile, load_tile, LoadedTile, Tile, TileId,
};
use picosystem::time_tracker::TimeTracker;

#[test]
fn test_bswap() {
    assert_eq!(bswap(0x1234), 0x3412);
    assert_eq!(bswap(0x00ff), 0xff00);
    assert_eq!(bswap(0x0000), 0x0000);
}

#[test]
fn test_wordsize() {
    assert_eq!(wordsize(1), 0);
    assert_eq!(wordsize(2), 1);
    assert_eq!(wordsize(4), 2);
}

#[test]
fn test_set_mem_fill() {
    let mut ch = DmaChannel::new(1);
    let mut buf = vec![7u16; 10];
    set_mem(&mut ch, 0xabcd, &mut buf, 2, 5);
    assert_eq!(buf, vec![7, 7, 0xabcd, 0xabcd, 0xabcd, 0xabcd, 0xabcd, 7, 7, 7]);
    assert_eq!(ch.get_count(), 0);
}

#[test]
fn test_copy_mem_and_bswap() {
    let mut ch = DmaChannel::new(1);
    let src = vec![0x1234u16, 0x5678, 0x9abc];
    let mut dst = vec![0u16; 5];
    copy_mem(&mut ch, &src, 1, &mut dst, 0, 2);
    assert_eq!(dst, vec![0x5678, 0x9abc, 0, 0, 0]);
    let mut swapped = vec![0u16; 3];
    copy_mem_bswap(&mut ch, &src, 0, &mut swapped, 0, 3);
    assert_eq!(swapped, vec![0x3412, 0x7856, 0xbc9a]);
}

#[test]
fn test_copy_mem_within_disjoint_and_equal() {
    let mut ch = DmaChannel::new(2);
    let mut buf: Vec<u16> = (0..8).collect();
    copy_mem_within(&mut ch, &mut buf, 0, 4, 4);
    assert_eq!(buf, vec![0, 1, 2, 3, 0, 1, 2, 3]);
    copy_mem_within(&mut ch, &mut buf, 2, 2, 4);
    assert_eq!(buf, vec![0, 1, 2, 3, 0, 1, 2, 3]);
}

#[test]
fn test_display_clear_stores_wire_order() {
    let mut display = Display::new();
    display.clear(0x1234);
    assert!(display.fb.iter().all(|&p| p == 0x3412));
}

fn pixel_tile(pixels: &Vec<u16>, mask: Vec<u32>) -> Tile {
    let mut data = vec![0u16; 2 * pixels.len() + 1];
    let n = compress(pixels, &mut data);
    data.truncate(n);
    Tile { data, mask }
}

#[test]
fn test_load_tile_roundtrip() {
    let mut pixels = vec![0u16; 1024];
    for i in 0..1024 {
        pixels[i] = (i % 97) as u16;
    }
    let tile = pixel_tile(&pixels, vec![0xa5a5a5a5; 32]);
    let mut loaded = LoadedTile::new();
    load_tile(&tile, &mut loaded, true);
    assert_eq!(loaded.data, pixels);
    assert_eq!(loaded.mask, vec![0xa5a5a5a5; 32]);
    let mut unmasked = LoadedTile::new();
    load_tile(&tile, &mut unmasked, false);
    assert_eq!(unmasked.data, pixels);
    assert_eq!(unmasked.mask, vec![0; 32]);
}

#[test]
fn test_draw_opaque_tile_clipped() {
    let mut display = Display::new();
    let mut tile = LoadedTile::new();
    for i in 0..1024 {
        tile.data[i] = 0x1100 + (i % 32) as u16;
    }
    // Partly above and left of the screen: clipped, so not fully placed.
    let fully = draw_opaque_tile(&mut display, &tile, Point::new(-8, -4), Size::new(32, 32));
    assert!(!fully);
    // Screen (0, 0) reads tile pixel (8, 4), byte-swapped into wire order.
    assert_eq!(display.fb[0], bswap(tile.data[4 * 32 + 8]));
    assert_eq!(display.fb[23 + 27 * 240], bswap(tile.data[(27 + 4) * 32 + 23 + 8]));
    // Beyond the clipped extent nothing was written.
    assert_eq!(display.fb[24], 0);
    assert_eq!(display.fb[28 * 240], 0);

    let fully = draw_opaque_tile(&mut display, &tile, Point::new(100, 100), Size::new(32, 32));
    assert!(fully);
    assert_eq!(display.fb[100 * 240 + 100], bswap(tile.data[0]));
    assert_eq!(display.fb[131 * 240 + 131], bswap(tile.data[31 * 32 + 31]));
}

#[test]
fn test_draw_transparent_tile_masked() {
    let mut display = Display::new();
    display.clear(0x0001);
    let background = display.fb[0];
    let mut tile = LoadedTile::new();
    for i in 0..1024 {
        tile.data[i] = 0x7e00;
    }
    // Only even columns opaque.
    for y in 0..32 {
        tile.mask[y] = 0x55555555;
    }
    draw_transparent_tile(&mut display, &tile, Point::new(0, 0), Size::new(32, 32));
    assert_eq!(display.fb[0], bswap(0x7e00));
    assert_eq!(display.fb[1], background);
    assert_eq!(display.fb[240 + 2], bswap(0x7e00));
    assert_eq!(display.fb[240 + 3], background);
    assert_eq!(display.fb[32], background);
}

#[test]
fn test_copy_tile_moves_rect() {
    let mut display = Display::new();
    let mut tile = LoadedTile::new();
    for i in 0..1024 {
        tile.data[i] = 0x4000 + i as u16;
    }
    draw_opaque_tile(&mut display, &tile, Point::new(32, 0), Size::new(32, 32));
    copy_tile(&mut display, Point::new(32, 0), Point::new(96, 64), Size::new(32, 32));
    for y in 0..32 {
        for x in 0..32 {
            assert_eq!(
                display.fb[(64 + y) * 240 + 96 + x],
                display.fb[y * 240 + 32 + x]
            );
        }
    }
}

#[test]
fn test_tile_cache_semantics() {
    let mut cache = TileCache::new();
    assert_eq!(cache.get(TileId(5)), None);
    assert!(cache.insert(TileId(5), Point::new(32, 64)));
    assert_eq!(cache.get(TileId(5)), Some(Point::new(32, 64)));
    // Replacing an existing handle updates its position.
    assert!(cache.insert(TileId(5), Point::new(0, 0)));
    assert_eq!(cache.get(TileId(5)), Some(Point::new(0, 0)));
    // Fill to capacity: inserts of new handles then fail, nothing is
    // evicted, and lookups of residents still succeed.
    for i in 0..70u32 {
        cache.insert(TileId(100 + i), Point::new(i as i32, 0));
    }
    assert!(!cache.insert(TileId(999), Point::new(1, 1)));
    assert_eq!(cache.get(TileId(999)), None);
    assert_eq!(cache.get(TileId(5)), Some(Point::new(0, 0)));
    cache.clear();
    assert_eq!(cache.get(TileId(5)), None);
}

#[test]
fn test_overlay_cache_semantics() {
    let mut cache = OverlayCache::new();
    assert!(cache.get(TileId(1)).is_none());
    for i in 0..4u32 {
        let mut t = LoadedTile::new();
        t.data[0] = i as u16;
        assert!(cache.insert(TileId(i), t));
    }
    assert!(!cache.insert(TileId(99), LoadedTile::new()));
    assert!(cache.get(TileId(99)).is_none());
    let cached = cache.get(TileId(2)).unwrap();
    assert_eq!(cached.data[0], 2);
}

#[test]
fn test_deferred_list_capacity() {
    let mut list = DeferredList::new();
    for i in 0..64 {
        let ok = list.push(
            Point::new(i, 0),
            picosystem::tile::GenMapTile { layers: vec![TileId(0)] },
        );
        assert!(ok);
    }
    let dropped = list.push(
        Point::new(0, 0),
        picosystem::tile::GenMapTile { layers: vec![TileId(0)] },
    );
    assert!(!dropped);
    assert_eq!(list.entries.len(), 64);
}

#[test]
fn test_fps_monitor_reports_each_interval() {
    let mut monitor = FpsMonitor::new(0);
    for now in [1000u32, 2000, 3000] {
        assert_eq!(monitor.update(now), None);
    }
    assert_eq!(monitor.update(1000000), Some(3));
    assert_eq!(monitor.update(1000001), None);
    assert_eq!(monitor.update(2000001), Some(1));
}

#[test]
fn test_idle_threshold() {
    let mut idle = Idle::new();
    assert!(!idle.check_idle(true, 50));
    assert!(!idle.check_idle(false, 50 + 300000000));
    assert!(idle.check_idle(false, 51 + 300000000));
    assert!(!idle.check_idle(true, 52 + 300000000));
}

#[test]
fn test_time_tracker_report() {
    let mut tracker = TimeTracker::new("blit");
    assert_eq!(tracker.update(100, 10), None);
    assert_eq!(tracker.update(200, 20), None);
    let report = tracker.update(300, 1000000).unwrap();
    assert_eq!(report.calls, 3);
    assert_eq!(report.accumulated_us, 600);
    assert_eq!(report.average_us_per_call, 200);
    tracker.start(1000010);
    assert_eq!(tracker.stop(1000150), None);
    assert_eq!(tracker.count, 1);
    assert_eq!(tracker.accumulated_us, 140);
}

#[test]
fn test_map_tile_stack() {
    let cell = MapTile { layers: [3, 7, 0xffff, 0xffff] };
    let stack = cell.stack();
    assert_eq!(stack.layers, vec![TileId(3), TileId(7)]);
    let empty = MapTile { layers: [0xffff; 4] };
    assert_eq!(empty.stack().layers.len(), 0);
    let full = MapTile { layers: [1, 2, 3, 4] };
    assert_eq!(full.stack().layers.len(), 4);
}

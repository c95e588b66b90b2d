//! Incremental tile-map renderer for a small handheld display.
//!
//! The crate covers the run-length pixel codec used for tile assets, a
//! model of the asynchronous block-transfer engine that moves pixels
//! around, the framebuffer and its vsync-paced scanout pipeline, the
//! bounded tile caches, and the renderer that redraws a scrolling world
//! one tile row at a time without overtaking the scanout cursor.

pub mod cache;
pub mod codec;
pub mod display;
pub mod dma;
pub mod fps_monitor;
pub mod geom;
pub mod idle;
pub mod map;
pub mod tile;
pub mod time_tracker;

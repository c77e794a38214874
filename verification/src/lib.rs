//! A tile caching system for slippy-map tiles together with the bookkeeping that a map widget
//! needs: which tiles are on disc, which ones are used least recently, which tiles every client
//! looks at and which requests are still outstanding.

pub mod gui_system;
pub mod tile_cache;

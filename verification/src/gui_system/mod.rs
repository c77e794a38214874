//! The parts that sit between the tile cache and the user interface.

pub mod fx_collections;
pub mod high_level_tile_cache;
pub mod map_widget;
pub mod math_coordinates;
pub mod tile_cache_construction;

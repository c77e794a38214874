//! The tile cache: tile naming, the least recently used bookkeeping of the files on disc and the
//! decisions of the caching core.

pub mod cache_core;
pub mod file_util;
pub mod fx_maps;
pub mod lru_list;
pub mod text;
pub mod tile_name_conversion;
pub mod web_requester;

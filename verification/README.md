# map_iced

A slippy map widget for iced that fetches OpenStreetMap-style tiles, keeps them in a disc
cache bounded by a byte budget, and hands each client the images of the tiles it looks at.

## Layout

- `src/` is the library, written in Verus and proved:
  - `tile_cache/tile_name_conversion.rs`: tile specifications, their 64 bit ids, file names
    and partial urls.
  - `tile_cache/file_util.rs`: block rounding of file sizes, the big endian byte form of the
    saved usage list, and the parsing of cache file names.
  - `tile_cache/lru_list.rs`: the least recently used list of the files on disc, with its
    eviction to the budget and its rebuild from a saved usage list.
  - `tile_cache/cache_core.rs`: the decisions of the caching core, one step per event.
  - `tile_cache/text.rs`: decimal and hexadecimal text, trimming.
  - `gui_system/math_coordinates.rs`: tile positions, bounding rectangles and what changes
    between two of them.
  - `gui_system/high_level_tile_cache.rs`: the reference counted tile store shared by the
    clients of the widget.
  - `gui_system/tile_cache_construction.rs`: the configuration and where the cache lives.
  - `tile_cache/fx_maps.rs`, `gui_system/fx_collections.rs`: the hash maps and sets of
    `fxhash`, behind trusted wrappers.
- `app/` is ordinary Rust around the library: file and network access, the tokio tasks that
  drive the caching core, floating point coordinates, serde copies of the configuration, and
  the iced widget.
- `tests/` runs the library on concrete values.

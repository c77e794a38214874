//! The hash maps of the fxhash crate that the least recently used list works with. They are held
//! in private fields, and each method that the list calls is a trusted wrapper whose contract
//! states what the map's contents become, as the standard library documents it for `HashMap`.

use crate::tile_cache::file_util::TileData;
use fxhash::FxHashMap;
use vstd::prelude::*;

verus! {

/// An `FxHashMap` from tile ids to slot indices.
#[verifier::external_body]
pub struct SlotIndexMap {
    map: FxHashMap<u64, u32>,
}

/// What a `SlotIndexMap` holds.
pub uninterp spec fn slot_index_contents(m: SlotIndexMap) -> Map<u64, u32>;

impl SlotIndexMap {
    /// `FxHashMap::get`: the value stored under the key, if any.
    #[verifier::external_body]
    pub(crate) fn get(&self, key: u64) -> (r: Option<u32>)
        ensures
            r == (if slot_index_contents(*self).contains_key(key) {
                Some(slot_index_contents(*self)[key])
            } else {
                None
            }),
    {
        self.map.get(&key).copied()
    }

    /// `FxHashMap::default`: an empty map.
    #[verifier::external_body]
    pub(crate) fn new() -> (result: SlotIndexMap)
        ensures
            slot_index_contents(result).dom() == Set::<u64>::empty(),
    {
        let map = FxHashMap::default();
        SlotIndexMap { map }
    }

    /// `FxHashMap::insert`: stores the value under the key, replacing an earlier one.
    #[verifier::external_body]
    pub(crate) fn insert(&mut self, key: u64, value: u32)
        ensures
            slot_index_contents(*final(self)) == slot_index_contents(*old(self)).insert(key, value),
    {
        self.map.insert(key, value);
    }

    /// `FxHashMap::remove`: removes the key and gives back its value.
    #[verifier::external_body]
    pub(crate) fn remove(&mut self, key: u64) -> (r: Option<u32>)
        ensures
            slot_index_contents(*final(self)) == slot_index_contents(*old(self)).remove(key),
            r == (if slot_index_contents(*old(self)).contains_key(key) {
                Some(slot_index_contents(*old(self))[key])
            } else {
                None
            }),
    {
        self.map.remove(&key)
    }
}

/// An `FxHashMap` from tile ids to the disc space of the tile.
#[verifier::external_body]
pub struct TileSizeMap {
    map: FxHashMap<u64, u64>,
}

/// What a `TileSizeMap` holds.
pub uninterp spec fn tile_size_contents(m: TileSizeMap) -> Map<u64, u64>;

/// Whether no two entries share a tile id.
pub open spec fn distinct_tile_ids(tiles: Seq<TileData>) -> bool {
    forall|i: int, j: int|
        0 <= i < tiles.len() && 0 <= j < tiles.len() && i != j ==> tiles[i].tile_id
            != tiles[j].tile_id
}

impl TileSizeMap {
    /// Collects `(tile_id, size_on_disc)` pairs into an `FxHashMap`; with distinct ids the map
    /// holds exactly each id with its size.
    #[verifier::external_body]
    pub(crate) fn from_tiles(tiles: &[TileData]) -> (result: TileSizeMap)
        requires
            distinct_tile_ids(tiles@),
        ensures
            tile_size_contents(result).dom().finite(),
            forall|k: u64|
                #[trigger] tile_size_contents(result).contains_key(k) ==> exists|i: int|
                    0 <= i < tiles@.len() && tiles@[i].tile_id == k,
            forall|i: int|
                0 <= i < tiles@.len() ==> tile_size_contents(result).contains_key(
                    #[trigger] tiles@[i].tile_id,
                ) && tile_size_contents(result)[tiles@[i].tile_id] == tiles@[i].size_on_disc,
    {
        TileSizeMap { map: tiles.iter().map(|x| (x.tile_id, x.size_on_disc)).collect() }
    }

    /// `FxHashMap::remove`: removes the key and gives back its value.
    #[verifier::external_body]
    pub(crate) fn remove(&mut self, key: u64) -> (r: Option<u64>)
        ensures
            tile_size_contents(*final(self)) == tile_size_contents(*old(self)).remove(key),
            r == (if tile_size_contents(*old(self)).contains_key(key) {
                Some(tile_size_contents(*old(self))[key])
            } else {
                None
            }),
    {
        self.map.remove(&key)
    }

    /// `FxHashMap::into_iter`, collected: every entry once, in an order that the map's layout
    /// decides and that nothing here states.
    #[verifier::external_body]
    pub(crate) fn into_entries(self) -> (r: Vec<(u64, u64)>)
        ensures
            r@.map_values(|e: (u64, u64)| e.0).no_duplicates(),
            r@.map_values(|e: (u64, u64)| e.0).to_set() == tile_size_contents(self).dom(),
            forall|i: int|
                0 <= i < r@.len() ==> tile_size_contents(self)[#[trigger] r@[i].0] == r@[i].1,
    {
        self.map.into_iter().collect()
    }
}

} // verus!

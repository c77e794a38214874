//! The hash maps and hash sets of the fxhash crate that the tile bookkeeping works with. They
//! are held in private fields, and each method that the bookkeeping calls is a trusted wrapper
//! whose contract states what the contents become, as the standard library documents it for
//! `HashMap` and `HashSet`. Tile positions are kept under their keys.

use crate::gui_system::high_level_tile_cache::ImageEntry;
use crate::gui_system::math_coordinates::BoundingRectangle;
use fxhash::{FxHashMap, FxHashSet};
use vstd::prelude::*;

verus! {

/// An `FxHashMap` from position keys to the entries of the tiles.
#[verifier::external_body]
pub struct TileEntryMap {
    map: FxHashMap<u128, ImageEntry>,
}

/// What a `TileEntryMap` holds.
pub uninterp spec fn tile_entry_contents(m: TileEntryMap) -> Map<u128, ImageEntry>;

impl TileEntryMap {
    /// `FxHashMap::default`: an empty map.
    #[verifier::external_body]
    pub(crate) fn new() -> (result: TileEntryMap)
        ensures
            tile_entry_contents(result).dom() == Set::<u128>::empty(),
    {
        TileEntryMap { map: FxHashMap::default() }
    }

    /// `FxHashMap::get`: a reference to the entry stored under the key, if any.
    #[verifier::external_body]
    pub(crate) fn get_ref(&self, key: u128) -> (r: Option<&ImageEntry>)
        ensures
            r == (if tile_entry_contents(*self).contains_key(key) {
                Some(&tile_entry_contents(*self)[key])
            } else {
                None
            }),
    {
        self.map.get(&key)
    }

    /// `FxHashMap::contains_key`.
    #[verifier::external_body]
    pub(crate) fn contains_key(&self, key: u128) -> (r: bool)
        ensures
            r == tile_entry_contents(*self).contains_key(key),
    {
        self.map.contains_key(&key)
    }

    /// `FxHashMap::insert`: stores the entry under the key, replacing an earlier one.
    #[verifier::external_body]
    pub(crate) fn insert(&mut self, key: u128, value: ImageEntry)
        ensures
            tile_entry_contents(*final(self)) == tile_entry_contents(*old(self)).insert(key, value),
    {
        self.map.insert(key, value);
    }

    /// `FxHashMap::remove`: removes the key and hands back the entry that was stored under it,
    /// if any.
    #[verifier::external_body]
    pub(crate) fn remove(&mut self, key: u128) -> (r: Option<ImageEntry>)
        ensures
            tile_entry_contents(*final(self)) == tile_entry_contents(*old(self)).remove(key),
            r == (if tile_entry_contents(*old(self)).contains_key(key) {
                Some(tile_entry_contents(*old(self))[key])
            } else {
                None
            }),
    {
        self.map.remove(&key)
    }

    /// `FxHashMap::keys`, collected: every key once, in an order that the map's layout decides
    /// and that nothing here states.
    #[verifier::external_body]
    pub(crate) fn keys(&self) -> (r: Vec<u128>)
        ensures
            r@.no_duplicates(),
            r@.to_set() == tile_entry_contents(*self).dom(),
    {
        self.map.keys().copied().collect()
    }
}

/// An `FxHashMap` from client ids to the rectangles they subscribe to.
#[verifier::external_body]
pub struct RegionMap {
    map: FxHashMap<u32, BoundingRectangle>,
}

/// What a `RegionMap` holds.
pub uninterp spec fn region_contents(m: RegionMap) -> Map<u32, BoundingRectangle>;

impl RegionMap {
    /// `FxHashMap::default`: an empty map.
    #[verifier::external_body]
    pub(crate) fn new() -> (result: RegionMap)
        ensures
            region_contents(result).dom() == Set::<u32>::empty(),
    {
        RegionMap { map: FxHashMap::default() }
    }

    /// `FxHashMap::get`, copied: the rectangle of the client, if any.
    #[verifier::external_body]
    pub(crate) fn get(&self, key: u32) -> (r: Option<BoundingRectangle>)
        ensures
            r == (if region_contents(*self).contains_key(key) {
                Some(region_contents(*self)[key])
            } else {
                None
            }),
    {
        self.map.get(&key).copied()
    }

    /// `FxHashMap::insert`: stores the rectangle of the client, replacing an earlier one.
    #[verifier::external_body]
    pub(crate) fn insert(&mut self, key: u32, value: BoundingRectangle)
        ensures
            region_contents(*final(self)) == region_contents(*old(self)).insert(key, value),
    {
        self.map.insert(key, value);
    }

    /// `FxHashMap::remove`: removes the client and gives back its rectangle.
    #[verifier::external_body]
    pub(crate) fn remove(&mut self, key: u32) -> (r: Option<BoundingRectangle>)
        ensures
            region_contents(*final(self)) == region_contents(*old(self)).remove(key),
            r == (if region_contents(*old(self)).contains_key(key) {
                Some(region_contents(*old(self))[key])
            } else {
                None
            }),
    {
        self.map.remove(&key)
    }

    /// `FxHashMap::iter`, collected: every client with its rectangle once, in an order that the
    /// map's layout decides and that nothing here states.
    #[verifier::external_body]
    pub(crate) fn entries(&self) -> (r: Vec<(u32, BoundingRectangle)>)
        ensures
            r@.map_values(|e: (u32, BoundingRectangle)| e.0).no_duplicates(),
            r@.map_values(|e: (u32, BoundingRectangle)| e.0).to_set() == region_contents(
                *self,
            ).dom(),
            forall|i: int|
                0 <= i < r@.len() ==> region_contents(*self)[#[trigger] r@[i].0] == r@[i].1,
    {
        self.map.iter().map(|(k, v)| (*k, *v)).collect()
    }
}

/// An `FxHashSet` of client ids.
#[verifier::external_body]
pub struct ClientSet {
    set: FxHashSet<u32>,
}

/// What a `ClientSet` holds.
pub uninterp spec fn client_set_contents(s: ClientSet) -> Set<u32>;

impl ClientSet {
    /// `FxHashSet::default`: an empty set.
    #[verifier::external_body]
    pub(crate) fn new() -> (result: ClientSet)
        ensures
            client_set_contents(result) == Set::<u32>::empty(),
    {
        ClientSet { set: FxHashSet::default() }
    }

    /// `FxHashSet::insert`.
    #[verifier::external_body]
    pub(crate) fn insert(&mut self, value: u32)
        ensures
            client_set_contents(*final(self)) == client_set_contents(*old(self)).insert(value),
    {
        self.set.insert(value);
    }

    /// `FxHashSet::clear`.
    #[verifier::external_body]
    pub(crate) fn clear(&mut self)
        ensures
            client_set_contents(*final(self)) == Set::<u32>::empty(),
    {
        self.set.clear();
    }

    /// `FxHashSet::iter`, collected: every element once, in an order that the set's layout
    /// decides and that nothing here states.
    #[verifier::external_body]
    pub(crate) fn elements(&self) -> (r: Vec<u32>)
        ensures
            r@.no_duplicates(),
            r@.to_set() == client_set_contents(*self),
    {
        self.set.iter().copied().collect()
    }
}

/// An `FxHashSet` of position keys.
#[verifier::external_body]
pub struct PositionSet {
    set: FxHashSet<u128>,
}

/// What a `PositionSet` holds.
pub uninterp spec fn position_set_contents(s: PositionSet) -> Set<u128>;

impl PositionSet {
    /// `FxHashSet::default`: an empty set.
    #[verifier::external_body]
    pub(crate) fn new() -> (result: PositionSet)
        ensures
            position_set_contents(result) == Set::<u128>::empty(),
    {
        PositionSet { set: FxHashSet::default() }
    }

    /// `FxHashSet::contains`.
    #[verifier::external_body]
    pub(crate) fn contains(&self, value: u128) -> (r: bool)
        ensures
            r == position_set_contents(*self).contains(value),
    {
        self.set.contains(&value)
    }

    /// `FxHashSet::insert`: true where the value was not in the set.
    #[verifier::external_body]
    pub(crate) fn insert(&mut self, value: u128) -> (r: bool)
        ensures
            position_set_contents(*final(self)) == position_set_contents(*old(self)).insert(value),
            r == !position_set_contents(*old(self)).contains(value),
    {
        self.set.insert(value)
    }

    /// `FxHashSet::remove`.
    #[verifier::external_body]
    pub(crate) fn remove(&mut self, value: u128)
        ensures
            position_set_contents(*final(self)) == position_set_contents(*old(self)).remove(value),
    {
        self.set.remove(&value);
    }
}

} // verus!

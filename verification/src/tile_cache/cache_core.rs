//! The decisions of the caching core. The core answers tile requests from the disc cache or from
//! a tile provider; what it decides on each event (a request, a tile found on disc, a tile
//! fetched, a failure, a tick of the save timer) stands here, as steps on its state. Running the
//! tasks, the file access and the web requests are left to the caller.

use crate::tile_cache::file_util::{convert_to_u64, convert_to_u8, final_consumption, round_to_final_consumption, bytes_of, words_of, TileData};
use crate::tile_cache::fx_maps::distinct_tile_ids;
use crate::tile_cache::lru_list::{
    evicted, keys, key_index, kept_len, lists_entries, restored, sum_sizes, total_size, unlisted,
    with_front, LastRecentlyUsedList,
};
use crate::tile_cache::tile_name_conversion::TileSpecification;
use vstd::prelude::*;

verus! {

/// The maximum channel size we currently allow for.
pub const MAXIMUM_MESSAGE_CHANNEL: usize = 100;

/// The file name of the saved usage list.
pub const LRU_TABLE_FILE: &'static str = "LRU.bin";

/// The amount of idle seconds until the usage list is saved.
pub const AMOUNT_OF_SECONDS_TILL_SAVE: u8 = 5;

/// The message when the core is initialized a second time.
pub const ALREADY_INITIALIZED: &'static str = "CachingSystem::initialize already initialized";

/// The message when a tile is requested before the initialization has completed.
pub const NOT_INITIALIZED: &'static str = "CachingSystem::request_tile not initialized yet";

/// What precedes the reason why the usage list could not be written.
pub const CACHE_FILE_WRITE_ERROR: &'static str = "Error on writing cache file: ";

/// The different messages that come from the caching system.
#[derive(Clone, Debug, PartialEq, Eq)]
pub enum CachingResultMessage {
    /// We have encountered an error, message included.
    Error { message: String },
    /// The initialization request has been completed.
    InitializationCompleted,
    /// The tile data that has been retrieved.
    TileData {
        /// Zoom level.
        level: u8,
        /// x coordinate.
        x: u32,
        /// y coordinate.
        y: u32,
        /// The image data of the tile.
        data: Vec<u8>,
    },
    /// A tile that could not be had, needed for bookkeeping.
    TileFailed {
        /// Zoom level.
        level: u8,
        /// x coordinate.
        x: u32,
        /// y coordinate.
        y: u32,
        /// Why the tile did not arrive.
        message: String,
    },
}

/// The state of the caching core: the least recently used list of the files on disc, whether
/// the initialization has completed and the countdown of idle seconds until the next save.
pub struct CacheCore {
    lru_list: LastRecentlyUsedList,
    initialization_completed: bool,
    savings_counter: u8,
}

impl CacheCore {
    /// The list of the files on disc is consistent.
    pub closed spec fn wf(&self) -> bool {
        self.lru_list.wf()
    }

    /// The files on disc from the most to the least recently used one.
    pub closed spec fn lru(&self) -> Seq<(u64, u64)> {
        self.lru_list@
    }

    /// The disc space budget.
    pub closed spec fn budget(&self) -> u64 {
        self.lru_list.max_space()
    }

    /// Whether the initialization has completed.
    pub closed spec fn initialized(&self) -> bool {
        self.initialization_completed
    }

    /// The idle seconds until the next save.
    pub closed spec fn countdown(&self) -> u8 {
        self.savings_counter
    }

    /// A core with an empty list and the given disc space budget, not initialized yet.
    pub fn new(maximum_amount_of_data: u64) -> (r: Self)
        ensures
            r.wf(),
            r.lru() == Seq::<(u64, u64)>::empty(),
            r.budget() == maximum_amount_of_data,
            !r.initialized(),
            r.countdown() == 0,
    {
        CacheCore {
            lru_list: LastRecentlyUsedList::new(maximum_amount_of_data),
            initialization_completed: false,
            savings_counter: 0,
        }
    }

    /// Whether the initialization may start: not when it has completed already.
    pub fn check_initialize(&self) -> (r: Result<(), String>)
        ensures
            r is Ok == !self.initialized(),
            r matches Err(e) ==> e@ == ALREADY_INITIALIZED@,
    {
        if self.initialization_completed {
            return Err(String::from_str(ALREADY_INITIALIZED));
        }
        Ok(())
    }

    /// Whether a tile may be requested: only once the initialization has completed.
    pub fn check_request_tile(&self) -> (r: Result<(), String>)
        ensures
            r is Ok == self.initialized(),
            r matches Err(e) ==> e@ == NOT_INITIALIZED@,
    {
        if !self.initialization_completed {
            return Err(String::from_str(NOT_INITIALIZED));
        }
        Ok(())
    }

    /// One second of the save timer: counts down, and tells to save when the countdown runs
    /// out at this tick.
    pub fn savings_tick(&mut self) -> (save: bool)
        ensures
            final(self).countdown() == (if old(self).countdown() == 0 {
                0
            } else {
                old(self).countdown() - 1
            }),
            save == (old(self).countdown() == 1),
            final(self).lru() == old(self).lru(),
            final(self).budget() == old(self).budget(),
            final(self).wf() == old(self).wf(),
            final(self).initialized() == old(self).initialized(),
    {
        let previous = self.savings_counter;
        self.savings_counter = previous.saturating_sub(1);
        previous == 1
    }

    /// Rebuilds the list of the files on disc from the saved usage list and the tile files found
    /// there; the files that do not fit into the budget are given back for deletion. The
    /// initialization completes only once they are deleted, by `complete_initialization`.
    pub fn restore_from_disc(&mut self, lru_table: &[u8], existing: &[TileData]) -> (r: Vec<u64>)
        requires
            old(self).wf(),
            lru_table@.len() % 8 == 0,
            distinct_tile_ids(existing@),
            sum_sizes(existing@) <= u64::MAX,
            existing@.len() <= u32::MAX,
        ensures
            final(self).wf(),
            final(self).initialized() == old(self).initialized(),
            final(self).countdown() == old(self).countdown(),
            final(self).budget() == old(self).budget(),
            (exists|rest: Seq<(u64, u64)>|
                #[trigger] lists_entries(rest, unlisted(words_of(lru_table@), existing@))
                    && final(self).lru() == (restored(words_of(lru_table@), existing@) + rest).take(
                    kept_len(
                        restored(words_of(lru_table@), existing@) + rest,
                        old(self).budget(),
                    ) as int,
                ) && r@ == evicted(
                    restored(words_of(lru_table@), existing@) + rest,
                    old(self).budget(),
                )),
    {
        let lru_data = convert_to_u64(lru_table);
        self.lru_list.reconstruct_from(lru_data.as_slice(), existing)
    }

    /// Marks the initialization as completed, once the evicted files are gone, and schedules a
    /// save since the list may have changed.
    pub fn complete_initialization(&mut self)
        ensures
            final(self).initialized(),
            final(self).countdown() == AMOUNT_OF_SECONDS_TILL_SAVE,
            final(self).lru() == old(self).lru(),
            final(self).wf() == old(self).wf(),
            final(self).budget() == old(self).budget(),
    {
        self.initialization_completed = true;
        self.savings_counter = AMOUNT_OF_SECONDS_TILL_SAVE;
    }

    /// Whether the tile is in the list of the files on disc.
    pub fn contains_tile(&self, tile: TileSpecification) -> (r: bool)
        requires
            self.wf(),
        ensures
            r == keys(self.lru()).contains(tile.id()),
    {
        self.lru_list.contains(tile.to_id())
    }

    /// The accumulated disc space of the files on disc.
    pub fn space_on_disc(&self) -> (r: u64)
        requires
            self.wf(),
        ensures
            r == total_size(self.lru()),
    {
        self.lru_list.space_on_disc()
    }

    /// A tile was found on disc: it becomes the most recently used one, its data goes out, and a
    /// save is scheduled.
    pub fn tile_from_cache(&mut self, tile: TileSpecification, image_data: Vec<u8>) -> (r:
        CachingResultMessage)
        requires
            old(self).wf(),
            keys(old(self).lru()).contains(tile.id()),
        ensures
            final(self).wf(),
            final(self).lru() == seq![old(self).lru()[key_index(old(self).lru(), tile.id())]]
                + old(self).lru().remove(key_index(old(self).lru(), tile.id())),
            final(self).budget() == old(self).budget(),
            final(self).initialized() == old(self).initialized(),
            final(self).countdown() == AMOUNT_OF_SECONDS_TILL_SAVE,
            r == (CachingResultMessage::TileData {
                level: tile.spec_level(),
                x: tile.spec_x(),
                y: tile.spec_y(),
                data: image_data,
            }),
    {
        let message = CachingResultMessage::TileData {
            level: tile.level(),
            x: tile.x(),
            y: tile.y(),
            data: image_data,
        };
        self.lru_list.touch(tile.to_id());
        self.savings_counter = AMOUNT_OF_SECONDS_TILL_SAVE;
        message
    }

    /// A tile could not be fetched: the failure goes out and a save is scheduled.
    pub fn tile_fetch_failed(&mut self, tile: TileSpecification, text: String) -> (r:
        CachingResultMessage)
        ensures
            final(self).lru() == old(self).lru(),
            final(self).wf() == old(self).wf(),
            final(self).budget() == old(self).budget(),
            final(self).initialized() == old(self).initialized(),
            final(self).countdown() == AMOUNT_OF_SECONDS_TILL_SAVE,
            r == (CachingResultMessage::TileFailed {
                level: tile.spec_level(),
                x: tile.spec_x(),
                y: tile.spec_y(),
                message: text,
            }),
    {
        self.savings_counter = AMOUNT_OF_SECONDS_TILL_SAVE;
        CachingResultMessage::TileFailed { level: tile.level(), x: tile.x(), y: tile.y(), message: text }
    }

    /// The data of a fetched tile, as it goes out.
    pub fn fetched_tile_message(tile: TileSpecification, data: Vec<u8>) -> (r: CachingResultMessage)
        ensures
            r == (CachingResultMessage::TileData {
                level: tile.spec_level(),
                x: tile.spec_x(),
                y: tile.spec_y(),
                data,
            }),
    {
        CachingResultMessage::TileData { level: tile.level(), x: tile.x(), y: tile.y(), data }
    }

    /// A fetched tile could not be stored: the error goes out and a save is scheduled.
    pub fn tile_store_failed(&mut self, text: String) -> (r: CachingResultMessage)
        ensures
            final(self).lru() == old(self).lru(),
            final(self).wf() == old(self).wf(),
            final(self).budget() == old(self).budget(),
            final(self).initialized() == old(self).initialized(),
            final(self).countdown() == AMOUNT_OF_SECONDS_TILL_SAVE,
            r == (CachingResultMessage::Error { message: text }),
    {
        self.savings_counter = AMOUNT_OF_SECONDS_TILL_SAVE;
        CachingResultMessage::Error { message: text }
    }

    /// A fetched tile of `data_len` bytes was stored: it becomes the most recently used entry
    /// with the disc space of its blocks, leaving its old place if it was listed already, and
    /// the files that no longer fit into the budget are given back for deletion. A save is
    /// scheduled.
    pub fn tile_stored(&mut self, tile: TileSpecification, data_len: u64) -> (r: Vec<u64>)
        requires
            old(self).wf(),
            data_len <= u64::MAX - 4095,
            total_size(old(self).lru()) + final_consumption(data_len as nat) <= u64::MAX,
            old(self).lru().len() + 1 < u32::MAX,
        ensures
            final(self).wf(),
            final(self).budget() == old(self).budget(),
            final(self).initialized() == old(self).initialized(),
            final(self).countdown() == AMOUNT_OF_SECONDS_TILL_SAVE,
            final(self).lru() == with_front(
                old(self).lru(),
                tile.id(),
                final_consumption(data_len as nat) as u64,
            ).take(
                kept_len(
                    with_front(old(self).lru(), tile.id(), final_consumption(data_len as nat) as u64),
                    old(self).budget(),
                ) as int,
            ),
            r@ == evicted(
                with_front(old(self).lru(), tile.id(), final_consumption(data_len as nat) as u64),
                old(self).budget(),
            ),
    {
        let new_memory = round_to_final_consumption(data_len);
        let id = tile.to_id();
        let to_remove = if self.lru_list.contains(id) {
            proof {
                let v = self.lru_list@;
                let j = choose|j: int| 0 <= j < keys(v).len() && keys(v)[j] == id;
                assert(v[j].0 == id);
                crate::tile_cache::lru_list::lemma_total_size_remove(v, key_index(v, id));
            }
            self.lru_list.refresh(id, new_memory)
        } else {
            self.lru_list.insert_and_clear(id, new_memory)
        };
        self.savings_counter = AMOUNT_OF_SECONDS_TILL_SAVE;
        to_remove
    }

    /// The saved form of the usage list: the tile ids from the most to the least recently used
    /// one, eight big endian bytes each.
    pub fn usage_table(&self) -> (r: Vec<u8>)
        requires
            self.wf(),
            self.lru().len() * 8 <= usize::MAX,
        ensures
            r@ == bytes_of(keys(self.lru())),
    {
        let list = self.lru_list.generate_usage_list();
        convert_to_u8(list.as_slice())
    }

    /// The error that goes out when the usage list could not be written.
    pub fn save_failure_message(reason: &str) -> (r: CachingResultMessage)
        ensures
            r matches CachingResultMessage::Error { message } && message@ == CACHE_FILE_WRITE_ERROR@
                + reason@,
    {
        let mut message = String::from_str(CACHE_FILE_WRITE_ERROR);
        message.append(reason);
        CachingResultMessage::Error { message }
    }
}

} // verus!

use map_iced::tile_cache::cache_core::{CacheCore, CachingResultMessage, AMOUNT_OF_SECONDS_TILL_SAVE};
use map_iced::tile_cache::file_util::{convert_to_u8, TileData};
use map_iced::tile_cache::tile_name_conversion::TileSpecification;

#[test]
fn first_setup() {
    let mut core = CacheCore::new(10_000);
    core.check_initialize().expect("Already initialized.");
    assert_eq!(core.check_request_tile(), Err("CachingSystem::request_tile not initialized yet".to_string()));
    let deleted = core.restore_from_disc(&[], &[]);
    assert!(deleted.is_empty());
    // Not initialized until the evicted files are gone.
    assert!(core.check_request_tile().is_err());
    core.complete_initialization();
    assert_eq!(core.check_initialize(), Err("CachingSystem::initialize already initialized".to_string()));
    assert_eq!(core.check_request_tile(), Ok(()));
}

#[test]
fn first_fill() {
    let mut core = CacheCore::new(20_000);
    core.restore_from_disc(&[], &[]);
    core.complete_initialization();
    for y in 0..100 {
        let tile = TileSpecification::new(0, 1, y);
        let message = CacheCore::fetched_tile_message(tile, vec![7; 10]);
        assert!(matches!(message, CachingResultMessage::TileData { level: 0, x: 1, .. }));
        let removed = core.tile_stored(tile, 10);
        // Every tile takes one block; four blocks fit.
        if y < 4 {
            assert!(removed.is_empty());
        } else {
            assert_eq!(removed, vec![u64::from(TileSpecification::new(0, 1, y - 4))]);
        }
    }
    assert_eq!(core.space_on_disc(), 4 * 4096);
    assert!(core.contains_tile(TileSpecification::new(0, 1, 99)));
    assert!(!core.contains_tile(TileSpecification::new(0, 1, 95)));
}

#[test]
fn cache_hit_test() {
    let mut core = CacheCore::new(100_000);
    let a = TileSpecification::new(2, 1, 1);
    let b = TileSpecification::new(2, 1, 2);
    let table = convert_to_u8(&[u64::from(b), u64::from(a)]);
    let files = [TileData { tile_id: u64::from(a), size_on_disc: 4096 }, TileData { tile_id: u64::from(b), size_on_disc: 4096 }];
    assert!(core.restore_from_disc(&table, &files).is_empty());
    core.complete_initialization();
    assert_eq!(core.usage_table(), table);
    let message = core.tile_from_cache(a, vec![9]);
    assert_eq!(message, CachingResultMessage::TileData { level: 2, x: 1, y: 1, data: vec![9] });
    assert_eq!(core.usage_table(), convert_to_u8(&[u64::from(a), u64::from(b)]));
}

#[test]
fn save_timer_test() {
    let mut core = CacheCore::new(100);
    assert!(!core.savings_tick());
    core.restore_from_disc(&[], &[]);
    core.complete_initialization();
    for _ in 1..AMOUNT_OF_SECONDS_TILL_SAVE {
        assert!(!core.savings_tick());
    }
    assert!(core.savings_tick());
    assert!(!core.savings_tick());
    let failed = core.tile_fetch_failed(TileSpecification::new(1, 0, 0), "gone".to_string());
    assert_eq!(failed, CachingResultMessage::TileFailed { level: 1, x: 0, y: 0, message: "gone".to_string() });
    assert_eq!(core.tile_store_failed("full".to_string()), CachingResultMessage::Error { message: "full".to_string() });
    assert_eq!(
        CacheCore::save_failure_message("denied"),
        CachingResultMessage::Error { message: "Error on writing cache file: denied".to_string() }
    );
}

#[test]
fn initialization_after_eviction_test() {
    let mut core = CacheCore::new(4096);
    let a = TileSpecification::new(3, 0, 0);
    let b = TileSpecification::new(3, 0, 1);
    let table = convert_to_u8(&[u64::from(a), u64::from(b)]);
    let files = [TileData { tile_id: u64::from(b), size_on_disc: 4096 }, TileData { tile_id: u64::from(a), size_on_disc: 4096 }];
    // The least recently used file does not fit and goes; the core is not initialized yet.
    assert_eq!(core.restore_from_disc(&table, &files), vec![u64::from(b)]);
    assert!(core.check_request_tile().is_err());
    assert!(!core.savings_tick());
    core.complete_initialization();
    assert!(core.check_request_tile().is_ok());
    assert!(core.contains_tile(a));
    assert!(!core.contains_tile(b));
}

#[test]
fn tile_stored_again_test() {
    let mut core = CacheCore::new(3 * 4096);
    core.restore_from_disc(&[], &[]);
    core.complete_initialization();
    let a = TileSpecification::new(4, 1, 1);
    let b = TileSpecification::new(4, 1, 2);
    assert!(core.tile_stored(a, 100).is_empty());
    assert!(core.tile_stored(b, 100).is_empty());
    // Stored again with two blocks: it comes first with its new size, nothing is listed twice.
    assert!(core.tile_stored(a, 5000).is_empty());
    assert_eq!(core.usage_table(), convert_to_u8(&[u64::from(a), u64::from(b)]));
    assert_eq!(core.space_on_disc(), 3 * 4096);
    // Growing it further evicts the other tile.
    assert_eq!(core.tile_stored(a, 9000), vec![u64::from(b)]);
    assert_eq!(core.usage_table(), convert_to_u8(&[u64::from(a)]));
    assert_eq!(core.space_on_disc(), 3 * 4096);
}

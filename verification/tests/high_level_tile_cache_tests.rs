use map_iced::gui_system::high_level_tile_cache::{CacheUpdateMessage, TileCache};
use map_iced::gui_system::math_coordinates::{BoundingRectangle, TilePosition};
use map_iced::tile_cache::cache_core::CachingResultMessage;

fn tile_data(pos: TilePosition) -> CachingResultMessage {
    CachingResultMessage::TileData { level: pos.zoom, x: pos.x, y: pos.y, data: vec![1, 2, 3] }
}

#[test]
fn high_level_tile_cache_base_test() {
    const TILE_DIMENSION: u32 = 10;
    let test_rect = BoundingRectangle::new(&[
        TilePosition { x: 0, y: 0, zoom: 5 },
        TilePosition { x: TILE_DIMENSION - 1, y: TILE_DIMENSION - 1, zoom: 5 },
    ]);
    let mut high_level = TileCache::new();

    // Register, drop and register again before the answers arrive.
    assert!(high_level.register_new_interest_area(0, test_rect).is_empty());
    high_level.completely_unsubscribe(0);
    assert!(high_level.register_new_interest_area(0, test_rect).is_empty());

    let requests = high_level.process_caching_message(CachingResultMessage::InitializationCompleted);
    // Each tile is requested once, although it was registered twice.
    assert_eq!(requests.len(), (TILE_DIMENSION * TILE_DIMENSION) as usize);
    for pos in requests {
        assert_eq!(pos.zoom, 5);
        high_level.process_caching_message(tile_data(pos));
    }
    assert_eq!(high_level.number_of_tiles_failed(), 0);

    let client_images = high_level.get_all_images_for_client(0);
    assert_eq!(client_images.len(), TILE_DIMENSION as usize * TILE_DIMENSION as usize);
    assert_eq!(client_images[0].position.zoom, 5);

    high_level.completely_unsubscribe(0);
    let client_images = high_level.get_all_images_for_client(0);
    assert!(client_images.is_empty());
}

#[test]
fn notification_test() {
    let mut cache = TileCache::new();
    cache.process_caching_message(CachingResultMessage::InitializationCompleted);
    let a = BoundingRectangle { x_min: 0, y_min: 0, width: 2, height: 1, zoom: 1 };
    let b = BoundingRectangle { x_min: 1, y_min: 0, width: 1, height: 2, zoom: 1 };
    let first = cache.register_new_interest_area(3, a);
    assert_eq!(first, vec![TilePosition { x: 0, y: 0, zoom: 1 }, TilePosition { x: 1, y: 0, zoom: 1 }]);
    // The shared tile is in flight already; only the new one is requested.
    let second = cache.register_new_interest_area(7, b);
    assert_eq!(second, vec![TilePosition { x: 1, y: 1, zoom: 1 }]);
    cache.process_caching_message(tile_data(TilePosition { x: 1, y: 0, zoom: 1 }));
    let messages = cache.drain_result_messages();
    let mut clients: Vec<u32> = messages
        .iter()
        .map(|m| match m {
            CacheUpdateMessage::RelevantTilesArrived { client } => *client,
            CacheUpdateMessage::ErrorMessage { .. } => panic!("no error expected"),
        })
        .collect();
    clients.sort();
    assert_eq!(clients, vec![3, 7]);
    assert!(cache.drain_result_messages().is_empty());
    assert_eq!(cache.get_all_images_for_client(3).len(), 1);
    assert_eq!(cache.get_all_images_for_client(7).len(), 1);
}

#[test]
fn error_and_retry_test() {
    let mut cache = TileCache::new();
    let area = BoundingRectangle { x_min: 0, y_min: 0, width: 1, height: 2, zoom: 1 };
    assert!(cache.register_new_interest_area(1, area).is_empty());
    // Nothing fails before the core is ready.
    assert_eq!(cache.number_of_tiles_failed(), 0);
    assert!(cache.retry_failed_tiles().is_empty());
    let requests = cache.process_caching_message(CachingResultMessage::InitializationCompleted);
    assert_eq!(requests.len(), 2);
    cache.process_caching_message(CachingResultMessage::TileFailed {
        level: 1,
        x: 0,
        y: 1,
        message: "  first failure ".to_string(),
    });
    cache.process_caching_message(CachingResultMessage::TileFailed {
        level: 1,
        x: 0,
        y: 0,
        message: "second failure".to_string(),
    });
    cache.process_caching_message(CachingResultMessage::Error { message: "disc full".to_string() });
    assert_eq!(cache.number_of_tiles_failed(), 2);
    let messages = cache.drain_result_messages();
    assert_eq!(messages.len(), 1);
    match &messages[0] {
        CacheUpdateMessage::ErrorMessage { text } => assert_eq!(text, "disc full\n  first failure"),
        CacheUpdateMessage::RelevantTilesArrived { .. } => panic!("error expected"),
    }
    let mut retried = cache.retry_failed_tiles();
    retried.sort_by_key(|p| p.y);
    assert_eq!(retried, vec![TilePosition { x: 0, y: 0, zoom: 1 }, TilePosition { x: 0, y: 1, zoom: 1 }]);
    assert_eq!(cache.number_of_tiles_failed(), 0);
    assert!(cache.retry_failed_tiles().is_empty());
}

#[test]
fn move_area_test() {
    let mut cache = TileCache::new();
    cache.process_caching_message(CachingResultMessage::InitializationCompleted);
    let a = BoundingRectangle { x_min: 0, y_min: 0, width: 2, height: 2, zoom: 3 };
    let b = BoundingRectangle { x_min: 1, y_min: 1, width: 2, height: 2, zoom: 3 };
    assert_eq!(cache.register_new_interest_area(0, a).len(), 4);
    for pos in a.get_iterator() {
        cache.process_caching_message(tile_data(pos));
    }
    assert_eq!(cache.get_all_images_for_client(0).len(), 4);
    let requests = cache.register_new_interest_area(0, b);
    assert_eq!(requests.len(), 3);
    // Only the tile that both areas hold keeps its image.
    let images = cache.get_all_images_for_client(0);
    assert_eq!(images.len(), 1);
    assert_eq!(images[0].position, TilePosition { x: 1, y: 1, zoom: 3 });
}

#[test]
fn empty_area_subscription_test() {
    let mut cache = TileCache::new();
    cache.process_caching_message(CachingResultMessage::InitializationCompleted);
    let empty = BoundingRectangle { x_min: 1, y_min: 1, width: 0, height: 0, zoom: 1 };
    assert!(cache.register_new_interest_area(5, empty).is_empty());
    assert_eq!(cache.region_of(5), Some(empty));
    assert!(cache.get_all_images_for_client(5).is_empty());
    let area = BoundingRectangle { x_min: 0, y_min: 0, width: 2, height: 1, zoom: 1 };
    assert!(empty.can_unite(&area));
    let requests = cache.register_new_interest_area(5, area);
    assert_eq!(requests, vec![TilePosition { x: 0, y: 0, zoom: 1 }, TilePosition { x: 1, y: 0, zoom: 1 }]);
    cache.process_caching_message(tile_data(TilePosition { x: 1, y: 0, zoom: 1 }));
    assert_eq!(cache.get_all_images_for_client(5).len(), 1);
    // Back to an empty area: both tiles are dropped.
    let later = BoundingRectangle { x_min: 2, y_min: 2, width: 0, height: 0, zoom: 1 };
    assert!(area.can_unite(&later));
    assert!(cache.register_new_interest_area(5, later).is_empty());
    assert!(cache.get_all_images_for_client(5).is_empty());
    assert_eq!(cache.number_of_tiles_failed(), 0);
    // An empty rectangle at the origin has no last column, so no frame can be formed with it.
    let origin = BoundingRectangle { x_min: 0, y_min: 0, width: 0, height: 0, zoom: 1 };
    assert!(!origin.can_unite(&area));
    assert!(origin.check_fits());
    assert!(!BoundingRectangle { x_min: u32::MAX, y_min: 0, width: 1, height: 1, zoom: 1 }.check_fits());
}

use map_iced::gui_system::tile_cache_construction::{CachingDirectory, TileCacheConfig, TileSource};
use map_iced::tile_cache::tile_name_conversion::TileSpecification;
use map_iced::tile_cache::web_requester::tile_url;

#[test]
fn quadruple_test() {
    let osm = TileSource::OpenStreetMap { user_agent: "agent".to_string() }.get_quadruple();
    assert_eq!(osm.start_url, "https://tile.openstreetmap.org/");
    assert_eq!(osm.end_url, "");
    assert_eq!(osm.user_agent, "agent");
    let mapbox = TileSource::MapBoxTiles { tileset_id: "set".to_string(), api_key: "key".to_string() }.get_quadruple();
    assert_eq!(mapbox.start_url, "https://api.mapbox.com/v4/set/");
    assert_eq!(mapbox.end_url, "?access_token=key");
    assert_eq!(mapbox.user_agent, "map-iced/0.1.0");
    let thunder = TileSource::Thunderforest { style: "cycle".to_string(), api_key: "k".to_string() }.get_quadruple();
    assert_eq!(thunder.start_url, "https://api.thunderforest.com/cycle/");
    assert_eq!(thunder.end_url, "?apikey=k");
    let api = TileSource::MapTilesApi { api_key: "z".to_string() }.get_quadruple();
    assert_eq!(api.end_url, "?rapidapi-key=z");
}

#[test]
fn cache_path_test() {
    let fixed = CachingDirectory::CacheDirFixed;
    assert_eq!(fixed.get_path(Some("/cache")), Ok((Some("/cache".to_string()), "Tiles".to_string())));
    assert_eq!(fixed.get_path(None), Err("Cache directory not found on system".to_string()));
    let own = CachingDirectory::FullyConstructed("cache/osm".to_string());
    assert_eq!(own.get_path(None), Ok((None, "cache/osm".to_string())));
    let config = TileCacheConfig::new(own, 100, TileSource::MapBoxSatellite { api_key: "a".to_string() });
    assert_eq!(config.cache_size(), 100);
}

#[test]
fn tile_url_test() {
    let url = tile_url("https://tile.openstreetmap.org/", &TileSpecification::new(3, 4, 5), "?k=1");
    assert_eq!(url, "https://tile.openstreetmap.org/3/4/5.png?k=1");
}

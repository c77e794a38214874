use map_iced::tile_cache::file_util::{
    convert_to_u64, convert_to_u8, is_temp_file, png_tile_id, round_to_final_consumption,
    temp_file_name,
};
use map_iced::tile_cache::lru_list::LastRecentlyUsedList;
use map_iced::tile_cache::file_util::TileData;
use map_iced::tile_cache::tile_name_conversion::TileSpecification;

#[test]
fn conversion_test() {
    let base = vec![12, 23, 24, 25];
    let back_test = convert_to_u64(&convert_to_u8(&base));
    assert_eq!(back_test, base, "Vectors should be the same.");
}

#[test]
fn byte_layout_test() {
    assert_eq!(convert_to_u8(&[0x0102030405060708]), vec![1, 2, 3, 4, 5, 6, 7, 8]);
    assert_eq!(convert_to_u64(&[0, 0, 0, 0, 0, 0, 1, 0, 255, 0, 0, 0, 0, 0, 0, 1]), vec![256, 0xff00_0000_0000_0001]);
    assert_eq!(convert_to_u64(&[]), Vec::<u64>::new());
}

#[test]
fn fake_png_test() {
    let base_index = TileSpecification::new(1, 2, 3);
    let name = base_index.filename();
    let file_name = name.rsplit('/').next().unwrap();
    let id = png_tile_id(file_name).unwrap();
    assert_eq!(TileSpecification::from(id), base_index);
    assert_eq!(round_to_final_consumption(4), 4 * 1024);
}

#[test]
fn rounding_test() {
    assert_eq!(round_to_final_consumption(0), 0);
    assert_eq!(round_to_final_consumption(1), 4096);
    assert_eq!(round_to_final_consumption(4096), 4096);
    assert_eq!(round_to_final_consumption(4097), 8192);
    assert_eq!(round_to_final_consumption(u64::MAX - 4095), u64::MAX - 4095);
}

#[test]
fn png_name_test() {
    assert_eq!(png_tile_id("000000000000000a.png"), Some(10));
    assert_eq!(png_tile_id("FF.png"), Some(255));
    assert_eq!(png_tile_id("+ff.png"), Some(255));
    assert_eq!(png_tile_id("a.b.png"), None);
    assert_eq!(png_tile_id("ab.PNG"), None);
    assert_eq!(png_tile_id(".png"), None);
    assert_eq!(png_tile_id("+.png"), None);
    assert_eq!(png_tile_id("-1.png"), None);
    assert_eq!(png_tile_id("ab.png.tmp"), None);
    assert_eq!(png_tile_id("ffffffffffffffff.png"), Some(u64::MAX));
    assert_eq!(png_tile_id("10000000000000000.png"), None);
    assert_eq!(png_tile_id("png"), None);
}

#[test]
fn remove_file_test() {
    assert!(is_temp_file("Test.tmp"));
    assert!(is_temp_file("0000000100000002.tmp"));
    assert!(!is_temp_file("Test.png"));
    assert!(!is_temp_file(".tmp"));
    assert!(!is_temp_file("tmp"));
}

#[test]
fn temp_name_test() {
    assert_eq!(temp_file_name(1, 2), "0000000100000002.tmp");
    assert_eq!(temp_file_name(0xdead, 0xbeef), "0000dead0000beef.tmp");
}

#[test]
fn lru_cache_test() {
    let test_vector = vec![12, 23, 24, 25];
    let test_collection = test_vector
        .iter()
        .map(|&t| TileData { tile_id: t, size_on_disc: 1 })
        .collect::<Vec<_>>();
    let mut cache = LastRecentlyUsedList::new(20);
    cache.reconstruct_from(&test_vector, &test_collection);
    let saved = convert_to_u8(&cache.generate_usage_list());
    let mut cache_b = LastRecentlyUsedList::new(20);
    cache_b.reconstruct_from(&convert_to_u64(&saved), &test_collection);
    assert_eq!(cache_b.generate_usage_list(), test_vector, "They should be the same.");
}

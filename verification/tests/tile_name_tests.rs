use map_iced::tile_cache::tile_name_conversion::TileSpecification;

#[test]
fn tile_name_conversion_base_test() {
    let spec = TileSpecification::new(1, 2, 3);
    let new_spec = TileSpecification::from(u64::from(spec));
    assert_eq!(spec, new_spec);
}

#[test]
fn name_test() {
    let spec = TileSpecification::new(0, 10, 0);
    assert_eq!(spec.filename().as_str(), "0/10/000000000000000a.png");

    let spec = TileSpecification::new(1, 2, 3);
    assert_eq!(spec.get_partial_url().as_str(), "1/2/3.png");
}

#[test]
fn id_layout_test() {
    let spec = TileSpecification::new(3, 5, 7);
    assert_eq!(u64::from(spec), (3u64 << 58) | (7u64 << 29) | 5);
    let decoded = TileSpecification::from(u64::MAX);
    assert_eq!(decoded.level(), 63);
    assert_eq!(decoded.x(), 0x1FFF_FFFF);
    assert_eq!(decoded.y(), 0x1FFF_FFFF);
    assert_eq!(u64::from(decoded), u64::MAX);
    for v in [0u64, 1, 0xDEAD_BEEF_1234_5678, 1u64 << 63, (1u64 << 58) - 1] {
        assert_eq!(u64::from(TileSpecification::from(v)), v);
    }
}

#[test]
fn long_name_test() {
    let spec = TileSpecification::new(28, 123456, 654321);
    let id = u64::from(spec);
    assert_eq!(spec.filename(), format!("28/123456/{:016x}.png", id));
    assert_eq!(spec.get_partial_url(), "28/123456/654321.png");
}

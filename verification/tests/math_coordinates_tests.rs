use map_iced::gui_system::math_coordinates::{BoundingRectangle, RectConversionError, TilePosition};

#[test]
fn creation_test() {
    let rect = BoundingRectangle::new(&[TilePosition { x: 0, y: 0, zoom: 0 }]);
    assert_eq!(rect.width, 1);
    assert_eq!(rect.height, 1);
    assert_eq!(rect.get_iterator().len(), 1);
}

#[test]
fn square_test() {
    let rect = BoundingRectangle::new(&[
        TilePosition { x: 0, y: 0, zoom: 2 },
        TilePosition { x: 1, y: 1, zoom: 2 },
        TilePosition { x: 2, y: 2, zoom: 2 },
    ]);
    assert_eq!(rect.width, 3);
    assert_eq!(rect.height, 3);
    assert_eq!(rect.get_iterator().len(), 9);
}

#[test]
fn change_test() {
    let first_rect = BoundingRectangle::new(&[
        TilePosition { x: 0, y: 0, zoom: 2 },
        TilePosition { x: 1, y: 1, zoom: 2 },
    ]);
    let change = first_rect.generate_deletion_creation_list(&first_rect);
    assert!(change.added.is_empty());
    assert!(change.deleted.is_empty());
    let second_rect = BoundingRectangle::new(&[
        TilePosition { x: 1, y: 1, zoom: 2 },
        TilePosition { x: 2, y: 2, zoom: 2 },
    ]);
    let change = first_rect.generate_deletion_creation_list(&second_rect);
    assert_eq!(change.added.len(), 3);
    assert_eq!(change.deleted.len(), 3);

    let first_tile = TilePosition { x: 0, y: 0, zoom: 1 };
    let second_tile = TilePosition { x: 1, y: 1, zoom: 1 };
    let simple_a = BoundingRectangle::new(&[first_tile]);
    let simple_b = BoundingRectangle::new(&[second_tile]);
    let change = simple_a.generate_deletion_creation_list(&simple_b);
    assert_eq!(change.deleted, vec![first_tile]);
    assert_eq!(change.added, vec![second_tile]);
}

#[test]
fn iterator_order_test() {
    let rect = BoundingRectangle { x_min: 3, y_min: 5, width: 2, height: 3, zoom: 4 };
    let positions = rect.get_iterator();
    let expected: Vec<TilePosition> = [(3, 5), (3, 6), (3, 7), (4, 5), (4, 6), (4, 7)]
        .iter()
        .map(|&(x, y)| TilePosition { x, y, zoom: 4 })
        .collect();
    assert_eq!(positions, expected);
}

#[test]
fn union_and_contains_test() {
    let a = BoundingRectangle { x_min: 1, y_min: 1, width: 2, height: 2, zoom: 3 };
    let b = BoundingRectangle { x_min: 4, y_min: 0, width: 1, height: 1, zoom: 3 };
    let u = a.union(&b);
    assert_eq!(u, BoundingRectangle { x_min: 1, y_min: 0, width: 4, height: 3, zoom: 3 });
    assert!(u.contains_position(&TilePosition { x: 4, y: 2, zoom: 3 }));
    assert!(!u.contains_position(&TilePosition { x: 5, y: 2, zoom: 3 }));
    assert!(!u.contains_position(&TilePosition { x: 4, y: 2, zoom: 2 }));
}

#[test]
fn zoom_change_test() {
    let a = BoundingRectangle { x_min: 0, y_min: 0, width: 1, height: 2, zoom: 1 };
    let b = BoundingRectangle { x_min: 0, y_min: 0, width: 2, height: 1, zoom: 2 };
    let change = a.generate_deletion_creation_list(&b);
    assert_eq!(change.deleted, a.get_iterator());
    assert_eq!(change.added, b.get_iterator());
}

#[test]
fn sanity_test() {
    assert!(TilePosition { x: 3, y: 3, zoom: 2 }.check_sanity());
    assert!(!TilePosition { x: 4, y: 0, zoom: 2 }.check_sanity());
    assert!(!TilePosition { x: 0, y: 0, zoom: 20 }.check_sanity());
    assert!(TilePosition { x: 524287, y: 0, zoom: 19 }.check_sanity());
}

#[test]
fn floored_corners_test() {
    let r = BoundingRectangle::from_floored_corners(-3, 2, 1, 9, 7, 3);
    assert_eq!(r.unwrap(), BoundingRectangle { x_min: 0, y_min: 2, width: 2, height: 6, zoom: 3 });
    let out = BoundingRectangle::from_floored_corners(-3, 2, -1, 9, 7, 3);
    assert!(matches!(out, Err(RectConversionError::OutOfWorld)));
    let out = BoundingRectangle::from_floored_corners(8, 2, 9, 9, 7, 3);
    assert!(matches!(out, Err(RectConversionError::OutOfWorld)));
}

#[test]
fn empty_rectangle_test() {
    let empty = BoundingRectangle { x_min: 2, y_min: 2, width: 0, height: 3, zoom: 2 };
    assert!(!empty.contains_position(&TilePosition { x: 2, y: 2, zoom: 2 }));
    assert!(empty.get_iterator().is_empty());
    let flat = BoundingRectangle { x_min: 0, y_min: 0, width: 2, height: 0, zoom: 2 };
    assert!(flat.get_iterator().is_empty());

    let full = BoundingRectangle { x_min: 0, y_min: 0, width: 1, height: 2, zoom: 2 };
    // Same zoom level: the frame is that of the full rectangle.
    let change = empty.generate_deletion_creation_list(&full);
    assert!(change.deleted.is_empty());
    assert_eq!(change.added, vec![TilePosition { x: 0, y: 0, zoom: 2 }, TilePosition { x: 0, y: 1, zoom: 2 }]);
    let change = full.generate_deletion_creation_list(&empty);
    assert_eq!(change.deleted.len(), 2);
    assert!(change.added.is_empty());
    // Another zoom level: everything is replaced.
    let other = BoundingRectangle { x_min: 0, y_min: 0, width: 0, height: 0, zoom: 3 };
    let change = other.generate_deletion_creation_list(&full);
    assert!(change.deleted.is_empty());
    assert_eq!(change.added.len(), 2);
    let frame = empty.union(&full);
    assert_eq!(frame, BoundingRectangle { x_min: 0, y_min: 0, width: 2, height: 5, zoom: 2 });
}

use teleology_core::raycast::{tile_distance_hex, tile_distance_square};

#[test]
fn tile_distances() {
    assert_eq!(tile_distance_square(0, 0, 3, 4), 4);
    assert_eq!(tile_distance_square(5, 5, 5, 5), 0);
    assert_eq!(tile_distance_hex(0, 0, 2, 1), 3);
}

#[test]
fn tile_distances_are_symmetric() {
    assert_eq!(tile_distance_square(9, 2, 1, 7), tile_distance_square(1, 7, 9, 2));
    assert_eq!(tile_distance_hex(4, 0, 0, 4), 4);
    assert_eq!(tile_distance_hex(0, 4, 4, 0), 4);
}

use teleology_core::map_file::{compute_adjacency_from_edges, compute_adjacency_from_hex, compute_adjacency_from_layout};
use teleology_core::world::{HexMapLayout, MapLayout, ProvinceId, ScopeId};

#[test]
fn compute_adjacency_from_square_layout() {
    let layout = MapLayout { width: 2, height: 2, tiles: vec![1, 2, 3, 4] };
    let adj = compute_adjacency_from_layout(&layout, 4);
    let n1 = adj.get(ProvinceId::from_raw(1));
    assert!(n1.contains(&2));
    assert!(n1.contains(&3));
    assert!(!n1.contains(&4));
}

#[test]
fn square_adjacency_is_symmetric_and_skips_empty_tiles() {
    let layout = MapLayout { width: 3, height: 1, tiles: vec![1, 0, 2] };
    let adj = compute_adjacency_from_layout(&layout, 2);
    assert!(adj.get(ProvinceId::from_raw(1)).is_empty());
    let layout = MapLayout { width: 3, height: 1, tiles: vec![1, 1, 2] };
    let adj = compute_adjacency_from_layout(&layout, 2);
    assert_eq!(adj.get(ProvinceId::from_raw(1)), &[2]);
    assert_eq!(adj.get(ProvinceId::from_raw(2)), &[1]);
}

#[test]
fn hex_adjacency_links_neighbours_both_ways() {
    let mut hex = HexMapLayout::new(2, 2);
    hex.set(0, 0, 1);
    hex.set(1, 0, 2);
    hex.set(0, 1, 3);
    let adj = compute_adjacency_from_hex(&hex, 3);
    assert!(adj.get(ProvinceId::from_raw(1)).contains(&2));
    assert!(adj.get(ProvinceId::from_raw(2)).contains(&1));
    assert!(adj.get(ProvinceId::from_raw(3)).contains(&1));
    assert!(adj.get(ProvinceId::from_raw(1)).contains(&3));
}

#[test]
fn polygons_sharing_an_edge_are_adjacent() {
    let polygons = vec![
        (1u32, vec![(0i64, 0i64), (1, 0), (0, 1)]),
        (2u32, vec![(1i64, 0i64), (1, 1), (0, 1)]),
        (3u32, vec![(5i64, 5i64), (6, 5), (5, 6)]),
        (0u32, vec![(0i64, 0i64), (0, 1), (-1, 0)]),
        (4u32, vec![(1i64, 1i64), (0, 1), (1, 0)]),
    ];
    let adj = compute_adjacency_from_edges(&polygons, 4);
    let mut n1 = adj.get(ProvinceId::from_raw(1)).to_vec();
    n1.sort();
    assert_eq!(n1, vec![2, 4]);
    let mut n2 = adj.get(ProvinceId::from_raw(2)).to_vec();
    n2.sort();
    assert_eq!(n2, vec![1, 4]);
    assert!(adj.get(ProvinceId::from_raw(3)).is_empty());
}

#[test]
fn polygon_adjacency_respects_count() {
    let polygons = vec![(1u32, vec![(0i64, 0i64), (1, 0)]), (2u32, vec![(1i64, 0i64), (0, 0)])];
    let adj = compute_adjacency_from_edges(&polygons, 1);
    assert_eq!(adj.get(ProvinceId::from_raw(1)), &[2]);
    assert!(adj.get(ProvinceId::from_raw(2)).is_empty());
}

#[test]
fn square_neighbours_listed_in_row_major_discovery_order() {
    let layout = MapLayout { width: 3, height: 2, tiles: vec![1, 2, 3, 4, 5, 6] };
    let adj = compute_adjacency_from_layout(&layout, 6);
    assert_eq!(adj.get(ProvinceId::from_raw(1)), &[2, 4]);
    assert_eq!(adj.get(ProvinceId::from_raw(2)), &[1, 3, 5]);
    assert_eq!(adj.get(ProvinceId::from_raw(3)), &[2, 6]);
    assert_eq!(adj.get(ProvinceId::from_raw(4)), &[1, 5]);
    assert_eq!(adj.get(ProvinceId::from_raw(5)), &[2, 4, 6]);
    assert_eq!(adj.get(ProvinceId::from_raw(6)), &[3, 5]);
}

#[test]
fn hex_neighbours_listed_in_discovery_order() {
    let mut hex = HexMapLayout::new(2, 2);
    hex.set(0, 0, 1);
    hex.set(1, 0, 2);
    hex.set(0, 1, 3);
    hex.set(1, 1, 4);
    let adj = compute_adjacency_from_hex(&hex, 4);
    assert_eq!(adj.get(ProvinceId::from_raw(1)), &[2, 3]);
    assert_eq!(adj.get(ProvinceId::from_raw(2)), &[1, 3, 4]);
    assert_eq!(adj.get(ProvinceId::from_raw(3)), &[4, 2, 1]);
    assert_eq!(adj.get(ProvinceId::from_raw(4)), &[2, 3]);
}

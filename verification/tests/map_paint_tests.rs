use teleology_core::archetypes::{Province, TerrainRegistry};
use teleology_core::map_paint::{
    apply_shortcut, EditorShortcut, MapEditorPaintMode, ShortcutAction, ShortcutState,
    find_connected_provinces_by_terrain, flood_fill_square, paint_hex, paint_hex_brush, paint_square,
    paint_square_brush, tile_color, EditHistory, MapTool, MapViewMode, PaintSelection, TILE_EMPTY_COLOR,
    TILE_UNOWNED_PROVINCE_COLOR,
};
use teleology_core::world::{HexMapLayout, MapLayout, NationId, ProvinceId, ProvinceStore, ScopeId};

fn store_with_terrains(terrains: &[u8]) -> ProvinceStore {
    let mut provinces = Vec::new();
    for (i, t) in terrains.iter().enumerate() {
        let mut p = Province::default_for(ProvinceId::from_raw(i as u32 + 1));
        p.terrain = *t;
        provinces.push(p);
    }
    ProvinceStore { provinces }
}

fn no_selection() -> PaintSelection {
    PaintSelection { terrain: 0, province: None, nation: None }
}

#[test]
fn flood_fill_follows_edge_connected_tiles() {
    let mut layout = MapLayout { width: 4, height: 3, tiles: vec![1, 1, 2, 2, 1, 2, 2, 1, 1, 1, 1, 1] };
    flood_fill_square(&mut layout, 0, 0, 5);
    assert_eq!(layout.tiles, vec![5, 5, 2, 2, 5, 2, 2, 5, 5, 5, 5, 5]);
}

#[test]
fn flood_fill_stops_at_diagonals() {
    let mut layout = MapLayout { width: 2, height: 2, tiles: vec![1, 2, 2, 1] };
    flood_fill_square(&mut layout, 0, 0, 7);
    assert_eq!(layout.tiles, vec![7, 2, 2, 1]);
}

#[test]
fn square_brush_is_clipped_to_grid() {
    let mut layout = MapLayout::new(4, 3);
    paint_square_brush(&mut layout, 0, 0, 1, 7);
    assert_eq!(layout.tiles, vec![7, 7, 0, 0, 7, 7, 0, 0, 0, 0, 0, 0]);
    let mut layout = MapLayout::new(4, 3);
    paint_square_brush(&mut layout, 2, 1, 0, 3);
    assert_eq!(layout.tiles, vec![0, 0, 0, 0, 0, 0, 3, 0, 0, 0, 0, 0]);
    let mut layout = MapLayout::new(4, 3);
    paint_square_brush(&mut layout, 9, 9, 1, 3);
    assert_eq!(layout.tiles, vec![0; 12]);
}

#[test]
fn connected_provinces_share_terrain() {
    let layout = MapLayout { width: 4, height: 1, tiles: vec![1, 2, 3, 4] };
    let store = store_with_terrains(&[0, 0, 1, 0]);
    let mut r = find_connected_provinces_by_terrain(&layout, 1, 0, &store);
    assert_eq!(r[0], 1);
    r.sort();
    assert_eq!(r, vec![1, 2]);
}

#[test]
fn fill_terrain_recolours_connected_provinces() {
    let mut layout = MapLayout { width: 4, height: 1, tiles: vec![1, 2, 3, 4] };
    let mut store = store_with_terrains(&[0, 0, 1, 0]);
    let mut sel = PaintSelection { terrain: 5, province: None, nation: None };
    paint_square(MapTool::Fill, MapViewMode::Terrain, &mut layout, &mut store, &mut sel, 1, 0, 0);
    let terrains: Vec<u8> = store.provinces.iter().map(|p| p.terrain).collect();
    assert_eq!(terrains, vec![5, 5, 1, 0]);
}

#[test]
fn fill_political_hands_over_every_province_of_the_owner() {
    let mut layout = MapLayout { width: 3, height: 1, tiles: vec![1, 2, 3] };
    let mut store = store_with_terrains(&[0, 0, 0]);
    store.provinces[0].owner = Some(NationId::from_raw(1));
    store.provinces[1].owner = Some(NationId::from_raw(3));
    store.provinces[2].owner = Some(NationId::from_raw(1));
    let mut sel = PaintSelection { terrain: 0, province: None, nation: Some(2) };
    paint_square(MapTool::Fill, MapViewMode::Political, &mut layout, &mut store, &mut sel, 0, 0, 0);
    let owners: Vec<Option<u32>> = store.provinces.iter().map(|p| p.owner.map(|o| o.raw())).collect();
    assert_eq!(owners, vec![Some(2), Some(3), Some(2)]);
}

#[test]
fn brush_province_and_erase() {
    let mut layout = MapLayout::new(3, 3);
    let mut store = store_with_terrains(&[0]);
    let mut sel = PaintSelection { terrain: 0, province: Some(1), nation: None };
    paint_square(MapTool::Brush, MapViewMode::Province, &mut layout, &mut store, &mut sel, 1, 1, 1);
    assert_eq!(layout.tiles, vec![1; 9]);
    paint_square(MapTool::Erase, MapViewMode::Province, &mut layout, &mut store, &mut sel, 0, 0, 0);
    assert_eq!(layout.tiles, vec![0, 1, 1, 1, 1, 1, 1, 1, 1]);
}

#[test]
fn fill_province_replaces_region() {
    let mut layout = MapLayout { width: 3, height: 1, tiles: vec![0, 0, 4] };
    let mut store = store_with_terrains(&[]);
    let mut sel = PaintSelection { terrain: 0, province: Some(2), nation: None };
    paint_square(MapTool::Fill, MapViewMode::Province, &mut layout, &mut store, &mut sel, 0, 0, 0);
    assert_eq!(layout.tiles, vec![2, 2, 4]);
}

#[test]
fn brush_terrain_and_political_on_one_province() {
    let mut layout = MapLayout { width: 2, height: 1, tiles: vec![1, 2] };
    let mut store = store_with_terrains(&[0, 0]);
    let mut sel = PaintSelection { terrain: 3, province: None, nation: Some(4) };
    paint_square(MapTool::Brush, MapViewMode::Terrain, &mut layout, &mut store, &mut sel, 1, 0, 2);
    assert_eq!(store.provinces[0].terrain, 0);
    assert_eq!(store.provinces[1].terrain, 3);
    paint_square(MapTool::Brush, MapViewMode::Political, &mut layout, &mut store, &mut sel, 0, 0, 0);
    assert_eq!(store.provinces[0].owner.map(|o| o.raw()), Some(4));
    paint_square(MapTool::Erase, MapViewMode::Political, &mut layout, &mut store, &mut sel, 0, 0, 0);
    assert!(store.provinces[0].owner.is_none());
    paint_square(MapTool::Erase, MapViewMode::Terrain, &mut layout, &mut store, &mut sel, 1, 0, 0);
    assert_eq!(store.provinces[1].terrain, 0);
}

#[test]
fn eyedropper_picks_up_selection() {
    let mut layout = MapLayout { width: 2, height: 1, tiles: vec![0, 2] };
    let mut store = store_with_terrains(&[0, 6]);
    store.provinces[1].owner = Some(NationId::from_raw(9));
    let mut sel = no_selection();
    paint_square(MapTool::Eyedropper, MapViewMode::Terrain, &mut layout, &mut store, &mut sel, 1, 0, 0);
    assert_eq!(sel.terrain, 6);
    paint_square(MapTool::Eyedropper, MapViewMode::Province, &mut layout, &mut store, &mut sel, 1, 0, 0);
    assert_eq!(sel.province, Some(2));
    paint_square(MapTool::Eyedropper, MapViewMode::Political, &mut layout, &mut store, &mut sel, 1, 0, 0);
    assert_eq!(sel.nation, Some(9));
    // An empty tile picks up nothing.
    paint_square(MapTool::Eyedropper, MapViewMode::Province, &mut layout, &mut store, &mut sel, 0, 0, 0);
    assert_eq!(sel.province, Some(2));
}

#[test]
fn hex_brush_and_hex_fill() {
    let mut hex = HexMapLayout::new(3, 3);
    paint_hex_brush(&mut hex, 1, 1, 0, 9);
    assert_eq!(hex.get(1, 1), 9);
    assert_eq!(hex.tiles.iter().filter(|t| **t == 9).count(), 1);
    let mut store = store_with_terrains(&[0]);
    let mut sel = PaintSelection { terrain: 0, province: Some(1), nation: None };
    paint_hex(MapTool::Fill, MapViewMode::Province, &mut hex, &mut store, &mut sel, 0, 0, 0);
    assert_eq!(hex.get(0, 0), 0);
    paint_hex(MapTool::Brush, MapViewMode::Province, &mut hex, &mut store, &mut sel, 0, 0, 0);
    assert_eq!(hex.get(0, 0), 1);
    paint_hex(MapTool::Eyedropper, MapViewMode::Province, &mut hex, &mut store, &mut sel, 1, 1, 0);
    assert_eq!(sel.province, Some(9));
}

#[test]
fn undo_and_redo_swap_states() {
    let mut h: EditHistory<u32> = EditHistory::new(2);
    assert!(!h.can_undo());
    h.record(10);
    h.record(20);
    h.record(30);
    assert_eq!(h.undo_stack, vec![20, 30]);
    assert_eq!(h.undo(40), Some(30));
    assert!(h.can_redo());
    assert_eq!(h.redo(31), Some(40));
    assert_eq!(h.undo(41), Some(31));
    h.record(50);
    assert!(!h.can_redo());
    assert_eq!(h.redo(0), None);
}

#[test]
fn tile_colors_by_view() {
    let mut store = store_with_terrains(&[1]);
    let terrains = TerrainRegistry::default();
    assert_eq!(tile_color(MapViewMode::Political, 0, &store, &terrains), TILE_EMPTY_COLOR);
    assert_eq!(tile_color(MapViewMode::Political, 1, &store, &terrains), TILE_UNOWNED_PROVINCE_COLOR);
    store.provinces[0].owner = Some(NationId::from_raw(1));
    assert_eq!(tile_color(MapViewMode::Political, 1, &store, &terrains), [0x8B, 0x45, 0x13, 255]);
    assert_eq!(tile_color(MapViewMode::Terrain, 1, &store, &terrains), terrains.color(1));
    assert_eq!(tile_color(MapViewMode::Terrain, 2, &store, &terrains), [0x40, 0x40, 0x40, 0xff]);
    assert_eq!(tile_color(MapViewMode::Province, 0, &store, &terrains), [0x20, 0x20, 0x20, 0xff]);
}

#[test]
fn connected_provinces_from_a_start_outside_the_store() {
    // Province 5 is on the map but not in the store; its stored neighbours of the
    // terrain are still reached through it.
    let layout = MapLayout { width: 4, height: 1, tiles: vec![1, 5, 2, 3] };
    let store = store_with_terrains(&[0, 0, 1]);
    let mut r = find_connected_provinces_by_terrain(&layout, 5, 0, &store);
    assert_eq!(r[0], 5);
    r.sort();
    assert_eq!(r, vec![1, 2, 5]);
    // A start with no tiles gives just the start.
    assert_eq!(find_connected_provinces_by_terrain(&layout, 9, 0, &store), vec![9]);
    assert_eq!(find_connected_provinces_by_terrain(&layout, 0, 0, &store), vec![0]);
}

#[test]
fn editor_shortcuts_change_mode_brush_and_names() {
    let st = ShortcutState { paint_mode: MapEditorPaintMode::PaintOwnership, brush_radius: 0, show_names: false };
    let (s1, a1) = apply_shortcut(st, EditorShortcut::TogglePaintMode, true);
    assert_eq!(s1.paint_mode, MapEditorPaintMode::EditProvinces);
    assert_eq!(a1, ShortcutAction::Nothing);
    let (s2, _) = apply_shortcut(s1, EditorShortcut::ShrinkBrush, true);
    assert_eq!(s2.brush_radius, 0);
    let mut s3 = s2;
    for _ in 0..5 {
        s3 = apply_shortcut(s3, EditorShortcut::GrowBrush, true).0;
    }
    assert_eq!(s3.brush_radius, 3);
    assert_eq!(apply_shortcut(s3, EditorShortcut::ShrinkBrush, true).0.brush_radius, 2);
    assert!(apply_shortcut(s3, EditorShortcut::ToggleNames, true).0.show_names);
    // Outside the map editor only undo and redo act.
    assert_eq!(apply_shortcut(st, EditorShortcut::GrowBrush, false), (st, ShortcutAction::Nothing));
    assert_eq!(apply_shortcut(st, EditorShortcut::Undo, false), (st, ShortcutAction::Undo));
    assert_eq!(apply_shortcut(st, EditorShortcut::Redo, true), (st, ShortcutAction::Redo));
}

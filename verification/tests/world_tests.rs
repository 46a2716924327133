use teleology_core::world::{
    add_province_to_world, GameDate, GameTime, MapKind, MapLayout, NationId, ProvinceAdjacency, ProvinceId,
    ProvinceTables, ScopeId, TickUnit, TimeConfig, WorldBuilder,
};

#[test]
fn province_id_index() {
    let id = ProvinceId::from_raw(1);
    assert_eq!(id.index(), 0);
    let id = ProvinceId::from_raw(100);
    assert_eq!(id.index(), 99);
}

#[test]
fn nation_id_index() {
    let id = NationId::from_raw(1);
    assert_eq!(id.index(), 0);
}

#[test]
fn game_date_default() {
    let d = GameDate::default();
    assert_eq!(d.day, 1);
    assert_eq!(d.month, 1);
    assert_eq!(d.year, 1444);
}

#[test]
fn map_layout_get_set() {
    let mut map = MapLayout::new(10, 5);
    assert_eq!(map.tile_count(), 50);
    assert_eq!(map.get(0, 0), 0);
    map.set(2, 1, 7);
    assert_eq!(map.get(2, 1), 7);
    assert_eq!(map.index(2, 1), 12);
}

#[test]
fn map_layout_out_of_range_reads_zero_and_ignores_writes() {
    let mut map = MapLayout::new(2, 2);
    map.set(5, 5, 9);
    assert_eq!(map.get(5, 5), 0);
    assert_eq!(map.tiles, vec![0, 0, 0, 0]);
}

#[test]
fn world_builder_inserts_resources() {
    let parts = WorldBuilder::new().provinces(5).nations(3).build();
    assert_eq!(parts.bounds.province_count, 5);
    assert_eq!(parts.bounds.nation_count, 3);
    assert_eq!(parts.date.year, 1444);
    assert_eq!(parts.provinces.provinces.len(), 5);
    assert_eq!(parts.nations.nations.len(), 3);
}

#[test]
fn world_builder_with_map_layout() {
    let parts = WorldBuilder::new().provinces(2).nations(1).map_size(4, 3).build();
    let map = match parts.map_kind.unwrap() {
        MapKind::Square(m) => m,
        _ => panic!("expected Square map"),
    };
    assert_eq!(map.width, 4);
    assert_eq!(map.height, 3);
    assert_eq!(map.tile_count(), 12);
    assert_eq!(map.tiles, vec![1, 2, 1, 2, 1, 2, 1, 2, 1, 2, 1, 2]);
}

#[test]
fn world_builder_hex_cycles_province_ids() {
    let parts = WorldBuilder::new().provinces(3).map_hex(2, 2).build();
    match parts.map_kind.unwrap() {
        MapKind::Hex(h) => assert_eq!(h.tiles, vec![1, 2, 3, 1]),
        _ => panic!("expected Hex map"),
    }
}

#[test]
fn world_builder_optional_systems() {
    let parts = WorldBuilder::new()
        .provinces(4)
        .nations(2)
        .with_tags()
        .with_modifiers()
        .with_events()
        .with_event_bus()
        .with_progress_trees()
        .with_armies()
        .with_character_generator()
        .build();
    assert!(parts.tag_registry.is_some());
    assert!(parts.province_tags.is_some());
    assert_eq!(parts.province_modifiers.unwrap().per_scope.len(), 4);
    assert_eq!(parts.nation_modifiers.unwrap().per_scope.len(), 2);
    assert!(parts.event_registry.is_some());
    assert!(parts.event_bus.is_some());
    let state = parts.progress_state.unwrap();
    assert_eq!(state.per_nation.len(), 2);
    assert_eq!(state.per_province.len(), 4);
    assert_eq!(parts.army_registry.unwrap().next_raw, 1);
    assert_eq!(parts.character_gen.unwrap().military_max, 6);
    assert_eq!(parts.adjacency.adjacent.len(), 4);
}

#[test]
fn world_builder_defaults_leave_systems_out() {
    let parts = WorldBuilder::default().build();
    assert!(parts.tag_registry.is_none());
    assert!(parts.province_modifiers.is_none());
    assert!(parts.event_queue.is_none());
    assert!(parts.event_bus.is_none());
    assert!(parts.progress_trees.is_none());
    assert!(parts.army_registry.is_none());
    assert!(parts.map_kind.is_none());
    assert_eq!(parts.time_config.tick_unit, TickUnit::Day);
    assert_eq!(parts.time_config.secondary_every, 30);
}

#[test]
fn world_builder_start_time_and_config() {
    let parts = WorldBuilder::new()
        .start_time(GameTime::with_time(1500, 3, 4, 5, 6, 7))
        .time_config(TimeConfig::tactical())
        .build();
    assert_eq!(parts.time.hour, 5);
    assert_eq!(parts.date.day, 4);
    assert_eq!(parts.date.month, 3);
    assert_eq!(parts.time_config.tick_unit, TickUnit::Hour);
}

#[test]
fn add_province_extends_every_table() {
    let parts = WorldBuilder::new().provinces(2).nations(1).with_modifiers().with_progress_trees().build();
    let mut t = ProvinceTables {
        bounds: parts.bounds,
        store: parts.provinces,
        adjacency: Some(parts.adjacency),
        modifiers: parts.province_modifiers,
        progress: parts.progress_state,
    };
    let raw = add_province_to_world(&mut t);
    assert_eq!(raw, 3);
    assert_eq!(t.bounds.province_count, 3);
    assert_eq!(t.store.provinces.len(), 3);
    assert_eq!(t.store.provinces[2].id.raw(), 3);
    assert_eq!(t.adjacency.unwrap().adjacent.len(), 3);
    assert_eq!(t.modifiers.unwrap().per_scope.len(), 3);
    assert_eq!(t.progress.unwrap().per_province.len(), 3);
}

#[test]
fn adjacency_add_neighbor_no_duplicates() {
    let mut adj = ProvinceAdjacency::new(2);
    adj.add_neighbor(ProvinceId::from_raw(1), 2);
    adj.add_neighbor(ProvinceId::from_raw(1), 2);
    assert_eq!(adj.get(ProvinceId::from_raw(1)), &[2]);
    assert!(adj.get(ProvinceId::from_raw(5)).is_empty());
}

#[test]
fn game_time_to_date_compat() {
    let time = GameTime::with_time(1444, 6, 15, 14, 30, 0);
    let date = time.to_date();
    assert_eq!(date.year, 1444);
    assert_eq!(date.month, 6);
    assert_eq!(date.day, 15);
}

#[test]
fn custom_time_config() {
    let config = TimeConfig::custom(TickUnit::Week, 4, 52, ["Weekly", "Monthly", "Yearly"]);
    assert_eq!(config.tick_unit, TickUnit::Week);
    assert_eq!(config.secondary_every, 4);
    assert_eq!(config.tertiary_every, 52);
    assert_eq!(config.primary_label, "Weekly");
}

#[test]
fn days_since_epoch_formula() {
    assert_eq!(GameDate::new(1444, 1, 1).to_days_since_epoch(), 1444 * 365 + 31 + 1);
    assert_eq!(GameTime::with_time(0, 2, 3, 1, 2, 3).to_seconds_today(), 3723);
}

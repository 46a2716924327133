use teleology_core::archetypes::{TerrainRegistry, TerrainType};
use teleology_core::world::{NationId, ProvinceId, ScopeId};
use teleology_core::{Nation, Province, ScopeEntity, TERRAIN_LAND, TERRAIN_SEA};

#[test]
fn province_default_for() {
    let pid = ProvinceId::from_raw(5);
    let p = <Province as ScopeEntity>::default_for(pid);
    assert_eq!(p.id, pid);
    assert!(p.owner.is_none());
    assert!(p.occupation.is_none());
    assert_eq!(p.terrain, TERRAIN_LAND);
    assert_eq!(p.development, [1, 1, 1]);
    assert_eq!(p.population, 0);
}

#[test]
fn province_is_land() {
    let mut p = <Province as ScopeEntity>::default_for(ProvinceId::from_raw(1));
    assert!(p.is_land());
    p.terrain = TERRAIN_SEA;
    assert!(!p.is_land());
}

#[test]
fn nation_default_for() {
    let nid = NationId::from_raw(3);
    let n = <Nation as ScopeEntity>::default_for(nid);
    assert_eq!(n.id, nid);
    assert_eq!(n.name_id, 0);
    assert_eq!(n.prestige, 0);
    assert_eq!(n.stability, 0);
    assert_eq!(n.treasury, 0);
    assert_eq!(n.manpower, 0);
    assert_eq!(f32::from_bits(n.war_exhaustion_bits), 0.0);
}

#[test]
fn province_ownership() {
    let mut p = <Province as ScopeEntity>::default_for(ProvinceId::from_raw(1));
    assert!(p.owner.is_none());
    p.owner = Some(NationId::from_raw(2));
    assert_eq!(p.owner.unwrap(), NationId::from_raw(2));
}

#[test]
fn province_occupation() {
    let mut p = <Province as ScopeEntity>::default_for(ProvinceId::from_raw(1));
    p.owner = Some(NationId::from_raw(1));
    p.occupation = Some(NationId::from_raw(2));
    assert_ne!(p.owner, p.occupation);
}

#[test]
fn scope_entity_id_matches() {
    let p = <Province as ScopeEntity>::default_for(ProvinceId::from_raw(9));
    assert_eq!(<Province as ScopeEntity>::id(&p).raw(), 9);
    let n = <Nation as ScopeEntity>::default_for(NationId::from_raw(4));
    assert_eq!(<Nation as ScopeEntity>::id(&n).index(), 3);
}

#[test]
fn terrain_registry_default() {
    let reg = TerrainRegistry::default();
    assert_eq!(reg.types.len(), 2);
    assert_eq!(reg.name(0), "Land");
    assert_eq!(reg.name(1), "Sea");
    assert!(reg.get(0).unwrap().is_land);
    assert!(!reg.get(1).unwrap().is_land);
}

#[test]
fn terrain_registry_register() {
    let mut reg = TerrainRegistry::default();
    reg.register(TerrainType {
        id: 2,
        name: "Desert".into(),
        color: [0xED, 0xC9, 0x67, 0xFF],
        is_land: true,
    });
    assert_eq!(reg.types.len(), 3);
    assert_eq!(reg.name(2), "Desert");
    reg.register(TerrainType {
        id: 0,
        name: "Grassland".into(),
        color: [0x32, 0xCD, 0x32, 0xFF],
        is_land: true,
    });
    assert_eq!(reg.types.len(), 3);
    assert_eq!(reg.name(0), "Grassland");
}

#[test]
fn terrain_registry_unknown() {
    let reg = TerrainRegistry::default();
    assert_eq!(reg.name(99), "Unknown");
    assert_eq!(reg.color(99), [0x40, 0x40, 0x40, 0xFF]);
}

#[test]
fn terrain_registry_register_then_get_returns_it() {
    let mut reg = TerrainRegistry::default();
    reg.register(TerrainType { id: 7, name: "Swamp".into(), color: [1, 2, 3, 4], is_land: false });
    let t = reg.get(7).unwrap();
    assert_eq!(t.name, "Swamp");
    assert_eq!(reg.color(7), [1, 2, 3, 4]);
    assert_eq!(reg.color(1), reg.get(1).unwrap().color);
}

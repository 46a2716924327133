use teleology_core::diplomacy::{
    system_diplomacy_truce_expiry, system_diplomacy_war_score, try_opinion_tick, DiplomacyConfig, DiplomaticRelations,
    WarGoal, WarRegistry,
};
use teleology_core::world::WorldBounds;
use teleology_core::world::{GameDate, NationId, ProvinceStore, ScopeId, WorldBuilder};

#[test]
fn relations_symmetric_modify() {
    let mut rel = DiplomaticRelations::new(3);
    let a = NationId::from_raw(1);
    let b = NationId::from_raw(2);
    rel.modify_opinion(a, b, 50);
    assert_eq!(rel.get(a, b).opinion, 50);
    assert_eq!(rel.get(b, a).opinion, 50);
}

#[test]
fn relations_clamped() {
    let mut rel = DiplomaticRelations::new(2);
    let a = NationId::from_raw(1);
    let b = NationId::from_raw(2);
    rel.modify_opinion(a, b, 250);
    assert_eq!(rel.get(a, b).opinion, 200);
    rel.modify_opinion(a, b, -500);
    assert_eq!(rel.get(a, b).opinion, -200);
}

#[test]
fn relations_trust_clamped_and_symmetric() {
    let mut rel = DiplomaticRelations::new(2);
    let a = NationId::from_raw(1);
    let b = NationId::from_raw(2);
    rel.modify_trust(b, a, 150);
    assert_eq!(rel.get(a, b).trust, 100);
    assert_eq!(rel.get(b, a).trust, 100);
    assert_eq!(rel.get(a, NationId::from_raw(9)).opinion, 0);
}

#[test]
fn declare_war_and_check() {
    let mut reg = WarRegistry::new();
    let a = NationId::from_raw(1);
    let b = NationId::from_raw(2);
    let date = GameDate::new(1444, 1, 1);
    reg.form_alliance(a, b, date);
    assert!(reg.are_allied(a, b));
    let war_id = reg.declare_war(a, b, WarGoal::Independence, date);
    assert!(reg.are_at_war(a, b));
    assert!(!reg.are_allied(a, b));
    reg.end_war(war_id, 1825, date);
    assert!(!reg.are_at_war(a, b));
    assert!(reg.has_truce(a, b));
}

#[test]
fn alliance_formation() {
    let mut reg = WarRegistry::new();
    let a = NationId::from_raw(1);
    let b = NationId::from_raw(2);
    let c = NationId::from_raw(3);
    let date = GameDate::new(1444, 1, 1);
    reg.form_alliance(a, b, date);
    reg.form_alliance(a, c, date);
    assert!(reg.are_allied(a, b));
    assert!(reg.are_allied(b, a));
    assert!(reg.are_allied(a, c));
    assert!(!reg.are_allied(b, c));
    reg.break_alliance(a, b);
    assert!(!reg.are_allied(a, b));
}

#[test]
fn war_ids_count_up_and_get_war_finds_them() {
    let mut reg = WarRegistry::new();
    let date = GameDate::new(1444, 1, 1);
    let w1 = reg.declare_war(NationId::from_raw(1), NationId::from_raw(2), WarGoal::Independence, date);
    let w2 = reg.declare_war(NationId::from_raw(3), NationId::from_raw(4), WarGoal::Custom { id: 7, payload: vec![1] }, date);
    assert_eq!(w1.raw(), 1);
    assert_eq!(w2.raw(), 2);
    assert_eq!(reg.get_war(w2).unwrap().attacker_leader, NationId::from_raw(3));
    assert!(reg.are_at_war(NationId::from_raw(4), NationId::from_raw(3)));
    assert!(!reg.are_at_war(NationId::from_raw(1), NationId::from_raw(3)));
}

#[test]
fn truce_expires_after_its_date() {
    let mut reg = WarRegistry::new();
    let a = NationId::from_raw(1);
    let b = NationId::from_raw(2);
    let start = GameDate::new(1444, 1, 1);
    let w = reg.declare_war(a, b, WarGoal::Independence, start);
    reg.end_war(w, 10, start);
    system_diplomacy_truce_expiry(&GameDate::new(1444, 1, 5), &mut reg);
    assert!(reg.has_truce(a, b));
    system_diplomacy_truce_expiry(&GameDate::new(1445, 1, 1), &mut reg);
    assert!(!reg.has_truce(a, b));
}

#[test]
fn war_score_follows_province_ownership() {
    let parts = WorldBuilder::new().provinces(4).nations(2).build();
    let mut store: ProvinceStore = parts.provinces;
    let a = NationId::from_raw(1);
    let b = NationId::from_raw(2);
    store.provinces[0].owner = Some(a);
    store.provinces[1].owner = Some(a);
    store.provinces[2].owner = Some(a);
    store.provinces[3].owner = Some(b);
    let mut reg = WarRegistry::new();
    let w = reg.declare_war(a, b, WarGoal::Independence, GameDate::default());
    system_diplomacy_war_score(&store, &mut reg);
    assert_eq!(reg.get_war(w).unwrap().war_score, 50);
}

#[test]
fn diplomacy_config_defaults() {
    let c = DiplomacyConfig::default();
    assert_eq!(c.opinion_decay_per_tick, 1);
    assert_eq!(c.same_religion_bonus, 25);
    assert_eq!(c.border_friction, -20);
    assert_eq!(c.truce_length_ticks, 60);
    assert!(c.religion_tag_type.is_none());
}

#[test]
fn checked_opinion_tick_decays_or_refuses() {
    let mut rel = DiplomaticRelations::new(2);
    let a = NationId::from_raw(1);
    let b = NationId::from_raw(2);
    rel.modify_opinion(a, b, 10);
    let bounds = WorldBounds { province_count: 0, nation_count: 2 };
    let reg = WarRegistry::new();
    let mut config = DiplomacyConfig::default();
    assert!(try_opinion_tick(&config, &bounds, &mut rel, &reg));
    assert_eq!(rel.get(a, b).opinion, 9);
    assert_eq!(rel.get(b, a).opinion, 9);
    // A negative decay moves opinions away from 0 while they stay within i16.
    config.opinion_decay_per_tick = -1;
    assert!(try_opinion_tick(&config, &bounds, &mut rel, &reg));
    assert_eq!(rel.get(a, b).opinion, 10);
    assert_eq!(rel.get(b, a).opinion, 10);
    // One that would push an opinion past i16::MAX is refused, and nothing changes.
    config.opinion_decay_per_tick = -32760;
    assert!(!try_opinion_tick(&config, &bounds, &mut rel, &reg));
    assert_eq!(rel.get(a, b).opinion, 10);
    assert_eq!(rel.get(b, a).opinion, 10);
}

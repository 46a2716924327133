use teleology_core::armies::{new_army, Army, ArmyCommander, ArmyComposition, ArmyId, ArmyRegistry, ArmyStatus};
use teleology_core::combat::deployment::{
    deployment_resolve_round, deployment_round_fits, ActiveDeploymentBattles, DeployedUnit, DeploymentBattle, DeploymentConfig,
};
use teleology_core::combat::stack::{
    apply_stack_casualties, stack_army_movement, stack_battle_day, stack_detect_battles, stack_org_recovery,
    stack_day_fits, stack_resolve_battles, ActiveStackBattles, StackBattle, StackBattleDay, StackBattlePhase, StackPhaseDays,
};
use teleology_core::combat::tile::{neighbors_all_nonzero, tile_enforce_one_unit_per_tile, tile_movement, tile_reset_movement, UnitHealth};
use teleology_core::combat::{BattleSide, CombatResult, CombatResultLog, UnitCategory, UnitTypeRegistry};
use teleology_core::diplomacy::{WarGoal, WarRegistry};
use teleology_core::world::{GameDate, NationId, ProvinceAdjacency, ProvinceId, ScopeId};

#[test]
fn unit_type_registry() {
    let mut reg = UnitTypeRegistry::new();
    let inf = reg.register("Infantry".into(), UnitCategory::Infantry, 10, 100, 1);
    let cav = reg.register("Cavalry".into(), UnitCategory::Cavalry, 15, 80, 3);
    assert_eq!(reg.types.len(), 2);
    assert_eq!(reg.get(inf).unwrap().base_strength, 10);
    assert_eq!(reg.get(cav).unwrap().movement_speed, 3);
}

#[test]
fn combat_result_log() {
    let mut log = CombatResultLog::new();
    log.push(CombatResult {
        location: ProvinceId::from_raw(1),
        date: GameDate::new(1444, 6, 15),
        winner: BattleSide::Attacker,
        attacker_casualties: 500,
        defender_casualties: 1200,
        attacker_nations: vec![NationId::from_raw(1)],
        defender_nations: vec![NationId::from_raw(2)],
    });
    assert_eq!(log.results.len(), 1);
}

#[test]
fn deployment_config_defaults() {
    let config = DeploymentConfig::default();
    assert_eq!(config.deployment_radius, 2);
    assert_eq!(config.max_rounds, 3);
    assert_eq!(config.units_per_tile, 1);
    assert_eq!(config.reinforcement_range, 3);
    assert!(config.auto_resolve_available);
    assert_eq!(config.retreat_after_rounds, 1);
    assert_eq!(f64::from_bits(config.elevation_bonus_bits), 0.15);
}

fn unit(army: u32, hp: u16, tile: u32) -> DeployedUnit {
    DeployedUnit { army_id: ArmyId::from_raw(army), stack_index: 0, hp, tile: ProvinceId::from_raw(tile) }
}

#[test]
fn deployment_battle_initial_state() {
    let battle = DeploymentBattle {
        center: ProvinceId::from_raw(5),
        round: 0,
        attacker_units: vec![unit(1, 100, 5)],
        defender_units: vec![unit(2, 100, 6)],
        attacker_casualties: 0,
        defender_casualties: 0,
    };
    assert_eq!(battle.round, 0);
    assert_eq!(battle.attacker_units.len(), 1);
    assert_eq!(battle.defender_units.len(), 1);
}

#[test]
fn active_deployment_battles_default() {
    let battles = ActiveDeploymentBattles::default();
    assert!(battles.battles.is_empty());
}

#[test]
fn deployed_unit_hp() {
    let mut u = unit(1, 100, 1);
    u.hp = u.hp.saturating_sub(30);
    assert_eq!(u.hp, 70);
}

#[test]
fn deployment_round_damages_and_removes() {
    let config = DeploymentConfig::default();
    let mut battles = ActiveDeploymentBattles {
        battles: vec![
            DeploymentBattle {
                center: ProvinceId::from_raw(1),
                round: 0,
                attacker_units: vec![unit(1, 100, 1), unit(1, 5, 1)],
                defender_units: vec![unit(2, 100, 2)],
                attacker_casualties: 0,
                defender_casualties: 0,
            },
            DeploymentBattle {
                center: ProvinceId::from_raw(3),
                round: 2,
                attacker_units: vec![unit(3, 50, 3)],
                defender_units: vec![unit(4, 50, 4)],
                attacker_casualties: 0,
                defender_casualties: 0,
            },
        ],
    };
    deployment_resolve_round(&config, &mut battles);
    assert_eq!(battles.battles.len(), 1);
    let b = &battles.battles[0];
    assert_eq!(b.round, 1);
    assert_eq!(b.defender_casualties, 20);
    assert_eq!(b.attacker_casualties, 10);
    assert_eq!(b.attacker_units.len(), 1);
    assert_eq!(b.attacker_units[0].hp, 95);
    assert_eq!(b.defender_units[0].hp, 80);
}

#[test]
fn new_army_starts_full() {
    let mut reg = ArmyRegistry::new();
    let a = new_army(&mut reg, NationId::from_raw(1), ProvinceId::from_raw(2));
    let b = new_army(&mut reg, NationId::from_raw(1), ProvinceId::from_raw(2));
    assert_eq!(a.id.raw(), 1);
    assert_eq!(b.id.raw(), 2);
    assert_eq!(a.strength, 1000);
    assert_eq!(a.organization, 100);
    assert_eq!(reg.next_raw, 3);
    assert!(ArmyComposition::default().stacks.is_empty());
    assert!(ArmyCommander::default().character_persistent_id.is_none());
    assert_eq!(ArmyStatus::default(), ArmyStatus::Idle);
}

fn army(id: u32, owner: u32, loc: u32) -> Army {
    Army {
        id: ArmyId::from_raw(id),
        owner: NationId::from_raw(owner),
        location: ProvinceId::from_raw(loc),
        strength: 1000,
        organization: 100,
    }
}

fn line_adjacency() -> ProvinceAdjacency {
    let mut adj = ProvinceAdjacency::new(3);
    adj.add_neighbor(ProvinceId::from_raw(1), 2);
    adj.add_neighbor(ProvinceId::from_raw(2), 1);
    adj.add_neighbor(ProvinceId::from_raw(2), 3);
    adj.add_neighbor(ProvinceId::from_raw(3), 2);
    adj
}

#[test]
fn stack_movement_moves_to_neighbours_only() {
    let adj = line_adjacency();
    let mut a = army(1, 1, 1);
    let mut st = ArmyStatus::Marching { to: ProvinceId::from_raw(2) };
    stack_army_movement(&adj, &mut a, &mut st);
    assert_eq!(a.location.raw(), 2);
    assert_eq!(st, ArmyStatus::Idle);
    let mut far = ArmyStatus::Marching { to: ProvinceId::from_raw(3) };
    let mut b = army(2, 1, 1);
    stack_army_movement(&adj, &mut b, &mut far);
    assert_eq!(b.location.raw(), 1);
    assert_eq!(far, ArmyStatus::Marching { to: ProvinceId::from_raw(3) });
}

#[test]
fn stack_org_recovery_saturates() {
    let mut a = army(1, 1, 1);
    a.organization = 65530;
    stack_org_recovery(10, &mut a, &ArmyStatus::Idle);
    assert_eq!(a.organization, u16::MAX);
    let mut b = army(2, 1, 1);
    stack_org_recovery(10, &mut b, &ArmyStatus::Sieging { target: ProvinceId::from_raw(1) });
    assert_eq!(b.organization, 100);
}

#[test]
fn stack_battles_open_between_hostile_armies() {
    let mut wars = WarRegistry::new();
    wars.declare_war(NationId::from_raw(1), NationId::from_raw(2), WarGoal::Independence, GameDate::default());
    let places = vec![
        (ArmyId::from_raw(1), NationId::from_raw(1), ProvinceId::from_raw(5)),
        (ArmyId::from_raw(2), NationId::from_raw(3), ProvinceId::from_raw(5)),
        (ArmyId::from_raw(3), NationId::from_raw(2), ProvinceId::from_raw(5)),
        (ArmyId::from_raw(4), NationId::from_raw(2), ProvinceId::from_raw(6)),
        (ArmyId::from_raw(5), NationId::from_raw(1), ProvinceId::from_raw(6)),
    ];
    let mut battles = ActiveStackBattles::default();
    stack_detect_battles(3.0f64.to_bits(), &wars, &places, &mut battles);
    assert_eq!(battles.battles.len(), 2);
    assert_eq!(battles.battles[0].location.raw(), 5);
    assert_eq!(battles.battles[0].attacker_armies, vec![ArmyId::from_raw(1)]);
    assert_eq!(battles.battles[0].defender_armies, vec![ArmyId::from_raw(3)]);
    assert_eq!(battles.battles[1].attacker_armies, vec![ArmyId::from_raw(4)]);
    assert_eq!(f64::from_bits(battles.battles[1].defender_morale_bits), 3.0);
    stack_detect_battles(0, &wars, &places, &mut battles);
    assert_eq!(battles.battles.len(), 2);
}

#[test]
fn unit_health_new_is_full() {
    let h = UnitHealth::new(100, 2);
    assert_eq!(h.hp, 100);
    assert_eq!(h.max_hp, 100);
    assert_eq!(h.xp, 0);
    assert!(!h.fortified);
    assert_eq!(h.movement_remaining, 2);
}

#[test]
fn tile_movement_spends_points() {
    let adj = line_adjacency();
    let mut a = army(1, 1, 2);
    let mut st = ArmyStatus::Marching { to: ProvinceId::from_raw(3) };
    let mut h = UnitHealth::new(100, 1);
    h.fortified = true;
    tile_movement(&adj, &mut a, &mut st, &mut h);
    assert_eq!(a.location.raw(), 3);
    assert_eq!(h.movement_remaining, 0);
    assert!(!h.fortified);
    let mut st2 = ArmyStatus::Marching { to: ProvinceId::from_raw(2) };
    tile_movement(&adj, &mut a, &mut st2, &mut h);
    assert_eq!(a.location.raw(), 3);
}

#[test]
fn tile_reset_fortifies_idle_units() {
    let mut h = UnitHealth::new(100, 2);
    tile_reset_movement(2, &mut h);
    assert!(h.fortified);
    let mut moved = UnitHealth::new(100, 1);
    tile_reset_movement(2, &mut moved);
    assert!(!moved.fortified);
    assert_eq!(moved.movement_remaining, 2);
}

#[test]
fn one_unit_per_tile_pushes_to_free_neighbour() {
    let adj = line_adjacency();
    let mut locs = vec![ProvinceId::from_raw(2), ProvinceId::from_raw(2), ProvinceId::from_raw(2), ProvinceId::from_raw(2)];
    tile_enforce_one_unit_per_tile(&adj, &mut locs);
    let raws: Vec<u32> = locs.iter().map(|p| p.raw()).collect();
    assert_eq!(raws, vec![2, 1, 3, 2]);
}

fn battle_at(location: u32, phase: StackBattlePhase, attackers: Vec<u32>, defenders: Vec<u32>) -> StackBattle {
    StackBattle {
        location: ProvinceId::from_raw(location),
        attacker_armies: attackers.into_iter().map(ArmyId::from_raw).collect(),
        defender_armies: defenders.into_iter().map(ArmyId::from_raw).collect(),
        phase,
        phase_day: 0,
        attacker_morale_bits: 0,
        defender_morale_bits: 0,
        attacker_casualties: 0,
        defender_casualties: 0,
    }
}

fn quiet_day() -> StackBattleDay {
    StackBattleDay {
        fire_damage: 50,
        shock_damage: 80,
        attacker_morale_bits: 7,
        defender_morale_bits: 9,
        attacker_routed: false,
        defender_routed: false,
        attacker_wins: false,
    }
}

fn army_with_strength(id: u32, strength: u16) -> Army {
    Army {
        id: ArmyId::from_raw(id),
        owner: NationId::from_raw(1),
        location: ProvinceId::from_raw(1),
        strength,
        organization: 0,
    }
}

#[test]
fn stack_battle_phases_advance() {
    let days = StackPhaseDays { fire: 2, shock: 1, pursuit: 1 };
    let mut b = battle_at(1, StackBattlePhase::Fire, vec![1], vec![2]);
    stack_battle_day(&mut b, quiet_day(), days);
    assert_eq!(b.phase, StackBattlePhase::Fire);
    assert_eq!(b.phase_day, 1);
    assert_eq!((b.attacker_casualties, b.defender_casualties), (50, 50));
    assert_eq!((b.attacker_morale_bits, b.defender_morale_bits), (7, 9));
    stack_battle_day(&mut b, quiet_day(), days);
    assert_eq!(b.phase, StackBattlePhase::Shock);
    assert_eq!(b.phase_day, 0);
    // Shock ends with nobody routed: back to fire.
    stack_battle_day(&mut b, quiet_day(), days);
    assert_eq!(b.phase, StackBattlePhase::Fire);
    assert_eq!((b.attacker_casualties, b.defender_casualties), (180, 180));
    stack_battle_day(&mut b, quiet_day(), days);
    stack_battle_day(&mut b, quiet_day(), days);
    let routed = StackBattleDay { defender_routed: true, ..quiet_day() };
    stack_battle_day(&mut b, routed, days);
    assert_eq!(b.phase, StackBattlePhase::Pursuit);
    stack_battle_day(&mut b, routed, days);
    assert_eq!(b.phase, StackBattlePhase::Resolved);
    assert_eq!(b.defender_casualties, 360 + 50);
    assert_eq!(b.attacker_casualties, 360);
}

#[test]
fn stack_casualties_are_shared() {
    let mut armies = vec![army_with_strength(1, 100), army_with_strength(2, 30), army_with_strength(3, 100)];
    apply_stack_casualties(&mut armies, &[ArmyId::from_raw(1), ArmyId::from_raw(2)], 100);
    let strengths: Vec<u16> = armies.iter().map(|a| a.strength).collect();
    assert_eq!(strengths, vec![50, 0, 100]);
    apply_stack_casualties(&mut armies, &[], 100);
    assert_eq!(armies[0].strength, 50);
}

#[test]
fn resolved_battles_are_logged_and_removed() {
    let mut battles = ActiveStackBattles::default();
    let mut r0 = battle_at(1, StackBattlePhase::Resolved, vec![1], vec![2]);
    r0.attacker_casualties = 10;
    r0.defender_casualties = 40;
    battles.battles.push(r0);
    battles.battles.push(battle_at(2, StackBattlePhase::Fire, vec![3], vec![4]));
    battles.battles.push(battle_at(3, StackBattlePhase::Resolved, vec![5], vec![6]));
    battles.battles.push(battle_at(4, StackBattlePhase::Fire, vec![7], vec![8]));
    let mut armies = vec![army_with_strength(1, 100), army_with_strength(2, 100)];
    let mut log = CombatResultLog::new();
    let days = StackPhaseDays { fire: 3, shock: 3, pursuit: 2 };
    let won = StackBattleDay { attacker_wins: true, ..quiet_day() };
    let inputs = vec![won, quiet_day(), quiet_day(), quiet_day()];
    stack_resolve_battles(&mut battles, &inputs, days, &mut armies, &mut log, GameDate::new(1444, 11, 11));
    let places: Vec<u32> = battles.battles.iter().map(|b| b.location.raw()).collect();
    assert_eq!(places, vec![4, 2]);
    assert_eq!(battles.battles[0].phase_day, 1);
    assert_eq!(armies[0].strength, 90);
    assert_eq!(armies[1].strength, 60);
    assert_eq!(log.results.len(), 2);
    assert_eq!(log.results[0].winner, BattleSide::Attacker);
    assert_eq!(log.results[0].location.raw(), 1);
    assert_eq!(log.results[0].defender_casualties, 40);
    assert_eq!(log.results[1].winner, BattleSide::Defender);
    assert_eq!(log.results[1].date, GameDate::new(1444, 11, 11));
}

#[test]
fn precondition_checks() {
    let mut adj = ProvinceAdjacency::new(2);
    adj.add_neighbor(ProvinceId::from_raw(1), 2);
    assert!(neighbors_all_nonzero(&adj));
    adj.adjacent[1].push(0);
    assert!(!neighbors_all_nonzero(&adj));

    let mut battles = ActiveStackBattles::default();
    let mut b = battle_at(1, StackBattlePhase::Fire, vec![1], vec![2]);
    b.attacker_casualties = u32::MAX - 10;
    battles.battles.push(b);
    assert!(!stack_day_fits(&battles, &[quiet_day()]));
    assert!(!stack_day_fits(&battles, &[]));
    let small = StackBattleDay { fire_damage: 10, ..quiet_day() };
    assert!(stack_day_fits(&battles, &[small]));

    let config = DeploymentConfig::default();
    let empty = ActiveDeploymentBattles::default();
    assert!(deployment_round_fits(&config, &empty));
}

//! Deployment combat: armies deploy units onto the tiles around the battle and fight
//! over several rounds.

use vstd::prelude::*;
use std::collections::HashMap;
use crate::armies::ArmyId;
use crate::world::ProvinceId;

verus! {

/// Settings of deployment combat. Bonuses are `f64` bit patterns.
pub struct DeploymentConfig {
    /// How many tiles from the battle centre units can deploy to.
    pub deployment_radius: u8,
    /// Rounds before the battle resolves.
    pub max_rounds: u16,
    /// Deployed units per tile.
    pub units_per_tile: u8,
    /// Armies within this many provinces can reinforce.
    pub reinforcement_range: u8,
    /// Defence bonus by terrain type.
    pub terrain_defense: HashMap<u8, u64>,
    /// Bonus for higher ground.
    pub elevation_bonus_bits: u64,
    /// Whether a battle can be resolved at once.
    pub auto_resolve_available: bool,
    /// Rounds after which armies may disengage.
    pub retreat_after_rounds: u16,
}

impl Default for DeploymentConfig {
    fn default() -> (r: Self)
        ensures
            r.deployment_radius == 2,
            r.max_rounds == 3,
            r.units_per_tile == 1,
            r.reinforcement_range == 3,
            r.terrain_defense@ == Map::<u8, u64>::empty(),
            r.elevation_bonus_bits == 0x3FC3_3333_3333_3333u64,
            r.auto_resolve_available,
            r.retreat_after_rounds == 1,
    {
        DeploymentConfig {
            deployment_radius: 2,
            max_rounds: 3,
            units_per_tile: 1,
            reinforcement_range: 3,
            terrain_defense: HashMap::new(),
            elevation_bonus_bits: 0x3FC3_3333_3333_3333u64,
            auto_resolve_available: true,
            retreat_after_rounds: 1,
        }
    }
}

/// A unit deployed on the battlefield (a stack of an army).
#[derive(Clone, Copy, Debug, PartialEq, Eq, Structural)]
pub struct DeployedUnit {
    pub army_id: ArmyId,
    /// Position of the stack in the army's composition.
    pub stack_index: usize,
    pub hp: u16,
    pub tile: ProvinceId,
}

/// An ongoing deployment battle.
pub struct DeploymentBattle {
    pub center: ProvinceId,
    pub round: u16,
    pub attacker_units: Vec<DeployedUnit>,
    pub defender_units: Vec<DeployedUnit>,
    pub attacker_casualties: u32,
    pub defender_casualties: u32,
}

/// A deployment battle, as plain values.
pub struct BattleView {
    pub center: ProvinceId,
    pub round: u16,
    pub attacker_units: Seq<DeployedUnit>,
    pub defender_units: Seq<DeployedUnit>,
    pub attacker_casualties: u32,
    pub defender_casualties: u32,
}

impl View for DeploymentBattle {
    type V = BattleView;

    open spec fn view(&self) -> BattleView {
        BattleView {
            center: self.center,
            round: self.round,
            attacker_units: self.attacker_units@,
            defender_units: self.defender_units@,
            attacker_casualties: self.attacker_casualties,
            defender_casualties: self.defender_casualties,
        }
    }
}

/// Ongoing deployment battles.
pub struct ActiveDeploymentBattles {
    pub battles: Vec<DeploymentBattle>,
}

impl Default for ActiveDeploymentBattles {
    fn default() -> (r: Self)
        ensures
            r.battles@.len() == 0,
    {
        ActiveDeploymentBattles { battles: Vec::new() }
    }
}

/// `units` after each loses `dmg` hit points (down to zero), without the destroyed ones.
pub open spec fn after_damage(units: Seq<DeployedUnit>, dmg: u16) -> Seq<DeployedUnit> {
    units.map_values(|u: DeployedUnit| DeployedUnit { hp: (if u.hp > dmg { (u.hp - dmg) as u16 } else { 0u16 }), ..u })
        .filter(|u: DeployedUnit| u.hp > 0)
}

/// `b` after one round, when it has rounds left: each side deals 10 per unit, split
/// evenly over the other side's units (the share cut to 16 bits), and destroyed units
/// leave.
pub open spec fn round_step(b: BattleView, max_rounds: u16) -> BattleView {
    if b.round < max_rounds {
        let att_damage = (b.attacker_units.len() * 10) as u32;
        let def_damage = (b.defender_units.len() * 10) as u32;
        let att_count = (if b.attacker_units.len() >= 1 { b.attacker_units.len() } else { 1 }) as u32;
        let def_count = (if b.defender_units.len() >= 1 { b.defender_units.len() } else { 1 }) as u32;
        BattleView {
            round: (b.round + 1) as u16,
            attacker_units: after_damage(b.attacker_units, (def_damage / att_count) as u16),
            defender_units: after_damage(b.defender_units, (att_damage / def_count) as u16),
            attacker_casualties: (b.attacker_casualties + def_damage) as u32,
            defender_casualties: (b.defender_casualties + att_damage) as u32,
            ..b
        }
    } else {
        b
    }
}

/// Whether a round of `b` stays within 32-bit counts.
pub open spec fn round_fits(b: BattleView, max_rounds: u16) -> bool {
    b.round < max_rounds ==> {
        &&& b.attacker_units.len() * 10 <= u32::MAX
        &&& b.defender_units.len() * 10 <= u32::MAX
        &&& b.attacker_casualties + b.defender_units.len() * 10 <= u32::MAX
        &&& b.defender_casualties + b.attacker_units.len() * 10 <= u32::MAX
    }
}

/// A battle goes on while both sides have units and rounds remain.
pub open spec fn battle_goes_on(b: BattleView, max_rounds: u16) -> bool {
    b.attacker_units.len() > 0 && b.defender_units.len() > 0 && b.round < max_rounds
}

/// The views of `bs`.
pub open spec fn battle_views(bs: Seq<DeploymentBattle>) -> Seq<BattleView> {
    bs.map_values(|b: DeploymentBattle| b@)
}

fn damage_units(units: &mut Vec<DeployedUnit>, dmg: u16)
    ensures
        final(units)@ == after_damage(old(units)@, dmg),
{
    let ghost orig = units@;
    let mut kept: Vec<DeployedUnit> = Vec::new();
    let mut i: usize = 0;
    let ghost hit = orig.map_values(|u: DeployedUnit| DeployedUnit { hp: (if u.hp > dmg { (u.hp - dmg) as u16 } else { 0u16 }), ..u });
    proof {
        reveal(Seq::filter);
        assert(kept@ =~= hit.take(0).filter(|u: DeployedUnit| u.hp > 0));
    }
    while i < units.len()
        invariant
            units@ == orig,
            i <= orig.len(),
            hit == orig.map_values(|u: DeployedUnit| DeployedUnit { hp: (if u.hp > dmg { (u.hp - dmg) as u16 } else { 0u16 }), ..u }),
            kept@ == hit.take(i as int).filter(|u: DeployedUnit| u.hp > 0),
        decreases orig.len() - i,
    {
        let mut u = units[i];
        u.hp = u.hp.saturating_sub(dmg);
        proof {
            assert(u == hit[i as int]);
            assert(hit.take(i + 1) =~= hit.take(i as int).push(u));
            hit.take(i as int).lemma_filter_push(u, |u: DeployedUnit| u.hp > 0);
        }
        if u.hp > 0 {
            kept.push(u);
        }
        i += 1;
    }
    proof {
        assert(hit.take(i as int) =~= hit);
    }
    *units = kept;
}

/// Whether a round of every battle keeps its counters within their types.
pub fn deployment_round_fits(config: &DeploymentConfig, battles: &ActiveDeploymentBattles) -> (r: bool)
    ensures
        r == (forall|i: int| 0 <= i < battles.battles@.len() ==> round_fits(#[trigger] battles.battles@[i]@, config.max_rounds)),
{
    let n = battles.battles.len();
    let mut i: usize = 0;
    while i < n
        invariant
            i <= n,
            n == battles.battles@.len(),
            forall|k: int| 0 <= k < i ==> round_fits(#[trigger] battles.battles@[k]@, config.max_rounds),
        decreases n - i,
    {
        let b = &battles.battles[i];
        if b.round < config.max_rounds {
            let na = b.attacker_units.len() as u64;
            let nd = b.defender_units.len() as u64;
            proof {
                assert(b@ == battles.battles@[i as int]@);
            }
            if na > 429496729 || nd > 429496729 {
                proof {
                    assert(!round_fits(battles.battles@[i as int]@, config.max_rounds));
                }
                return false;
            }
            if (b.attacker_casualties as u64) + nd * 10 > 0xFFFF_FFFF
                || (b.defender_casualties as u64) + na * 10 > 0xFFFF_FFFF {
                proof {
                    assert(!round_fits(battles.battles@[i as int]@, config.max_rounds));
                }
                return false;
            }
        }
        i += 1;
    }
    true
}

/// One round of every deployment battle (see `round_step`), after which the battles
/// that are over (a side without units, or no rounds left) are removed.
pub fn deployment_resolve_round(config: &DeploymentConfig, battles: &mut ActiveDeploymentBattles)
    requires
        forall|i: int| 0 <= i < old(battles).battles@.len() ==> round_fits(#[trigger] old(battles).battles@[i]@, config.max_rounds),
    ensures
        battle_views(final(battles).battles@) == battle_views(old(battles).battles@)
            .map_values(|b: BattleView| round_step(b, config.max_rounds))
            .filter(|b: BattleView| battle_goes_on(b, config.max_rounds)),
{
    let max = config.max_rounds;
    let ghost orig = battle_views(battles.battles@);
    let ghost stepped = orig.map_values(|b: BattleView| round_step(b, max));
    let mut rest: Vec<DeploymentBattle> = Vec::new();
    std::mem::swap(&mut rest, &mut battles.battles);
    let mut kept: Vec<DeploymentBattle> = Vec::new();
    let total = rest.len();
    let mut i: usize = 0;
    proof {
        reveal(Seq::filter);
        assert(battle_views(kept@) =~= stepped.take(0).filter(|b: BattleView| battle_goes_on(b, max)));
        assert(battle_views(rest@) =~= orig.skip(0));
    }
    while rest.len() > 0
        invariant
            battle_views(rest@) == orig.skip(i as int),
            forall|j: int| 0 <= j < orig.len() ==> round_fits(#[trigger] orig[j], max),
            stepped == orig.map_values(|b: BattleView| round_step(b, max)),
            i <= orig.len(),
            total == orig.len(),
            rest@.len() == orig.len() - i,
            battle_views(kept@) == stepped.take(i as int).filter(|b: BattleView| battle_goes_on(b, max)),
        decreases rest@.len(),
    {
        let ghost r0 = rest@;
        let mut b = rest.remove(0);
        proof {
            assert(battle_views(r0)[0] == b@);
            assert(orig.skip(i as int)[0] == orig[i as int]);
            assert(rest@ =~= r0.drop_first());
            assert forall|j: int| 0 <= j < rest@.len() implies #[trigger] battle_views(rest@)[j] == orig.skip(i + 1)[j] by {
                assert(rest@[j] == r0[j + 1]);
                assert(battle_views(r0)[j + 1] == orig.skip(i as int)[j + 1]);
            }
            assert(round_fits(orig[i as int], max));
        }
        let ghost before = b@;
        if b.round < max {
            b.round = b.round + 1;
            let att_damage = (b.attacker_units.len() as u32) * 10;
            let def_damage = (b.defender_units.len() as u32) * 10;
            b.defender_casualties = b.defender_casualties + att_damage;
            b.attacker_casualties = b.attacker_casualties + def_damage;
            let att_count = (if b.attacker_units.len() >= 1 { b.attacker_units.len() } else { 1 }) as u32;
            let def_count = (if b.defender_units.len() >= 1 { b.defender_units.len() } else { 1 }) as u32;
            damage_units(&mut b.attacker_units, (def_damage / att_count) as u16);
            damage_units(&mut b.defender_units, (att_damage / def_count) as u16);
        }
        proof {
            assert(b@ == round_step(before, max));
            assert(stepped[i as int] == b@);
            assert(stepped.take(i + 1) =~= stepped.take(i as int).push(b@));
            stepped.take(i as int).lemma_filter_push(b@, |b: BattleView| battle_goes_on(b, max));
        }
        if b.attacker_units.len() > 0 && b.defender_units.len() > 0 && b.round < max {
            kept.push(b);
            proof {
                assert(battle_views(kept@) =~= stepped.take(i + 1).filter(|b: BattleView| battle_goes_on(b, max)));
            }
        }
        i += 1;
    }
    proof {
        assert(stepped.take(i as int) =~= stepped);
    }
    battles.battles = kept;
}

} // verus!

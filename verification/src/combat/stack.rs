//! Stack-based combat: armies stack in provinces; multi-day fire and shock phases and
//! morale decide battles. Morale and siege progress are `f64`s kept as bit patterns;
//! the phases that compute with them run outside this library.

use vstd::prelude::*;
use crate::armies::{Army, ArmyId, ArmyStatus};
use crate::diplomacy::WarRegistry;
use crate::world::{GameDate, NationId, ProvinceAdjacency, ProvinceId, ScopeId};
use crate::combat::{BattleSide, CombatResult, CombatResultLog};

verus! {

/// Phase of a stack battle.
#[derive(Clone, Copy, Debug, PartialEq, Eq, Structural)]
pub enum StackBattlePhase {
    Fire,
    Shock,
    Pursuit,
    Resolved,
}

/// An ongoing stack battle.
pub struct StackBattle {
    pub location: ProvinceId,
    pub attacker_armies: Vec<ArmyId>,
    pub defender_armies: Vec<ArmyId>,
    pub phase: StackBattlePhase,
    pub phase_day: u16,
    pub attacker_morale_bits: u64,
    pub defender_morale_bits: u64,
    pub attacker_casualties: u32,
    pub defender_casualties: u32,
}

/// Ongoing stack battles.
pub struct ActiveStackBattles {
    pub battles: Vec<StackBattle>,
}

impl Default for ActiveStackBattles {
    fn default() -> (r: Self)
        ensures
            r.battles@.len() == 0,
    {
        ActiveStackBattles { battles: Vec::new() }
    }
}

/// Siege of a province.
#[derive(Clone, Copy, Debug, PartialEq, Eq, Structural)]
pub struct SiegeState {
    pub province: ProvinceId,
    pub besieging_army: ArmyId,
    /// Progress from 0.0 to 1.0 (`f64` bit pattern).
    pub progress_bits: u64,
    pub garrison: u16,
}

/// Ongoing sieges.
pub struct ActiveSieges {
    pub sieges: Vec<SiegeState>,
}

impl Default for ActiveSieges {
    fn default() -> (r: Self)
        ensures
            r.sieges@.len() == 0,
    {
        ActiveSieges { sieges: Vec::new() }
    }
}

/// Whether `x` is in `s`.
pub(crate) fn slice_contains(s: &[u32], x: u32) -> (r: bool)
    ensures
        r == s@.contains(x),
{
    let mut i: usize = 0;
    while i < s.len()
        invariant
            i <= s@.len(),
            forall|j: int| 0 <= j < i ==> s@[j] != x,
        decreases s@.len() - i,
    {
        if s[i] == x {
            return true;
        }
        i += 1;
    }
    false
}

/// Whether the province with raw id `to` is a neighbour of `from` in `adj`.
pub open spec fn is_neighbor(adj: ProvinceAdjacency, from: ProvinceId, to: u32) -> bool {
    let i = from.spec_raw() - 1;
    if i < adj@.len() { adj@[i].contains(to) } else { false }
}

/// One marching step of an army: a marching army whose target neighbours its location
/// moves there and becomes idle; every other army is left as it is (no path finding).
pub fn stack_army_movement(adjacency: &ProvinceAdjacency, army: &mut Army, status: &mut ArmyStatus)
    ensures
        match *old(status) {
            ArmyStatus::Marching { to } => if is_neighbor(*adjacency, old(army).location, to.spec_raw()) {
                &&& *final(army) == (Army { location: to, ..*old(army) })
                &&& *final(status) == ArmyStatus::Idle
            } else {
                *final(army) == *old(army) && *final(status) == *old(status)
            },
            _ => *final(army) == *old(army) && *final(status) == *old(status),
        },
{
    if let ArmyStatus::Marching { to } = *status {
        let neighbors = adjacency.get(army.location);
        if slice_contains(neighbors, to.raw()) {
            army.location = to;
            *status = ArmyStatus::Idle;
        }
    }
}

/// Organization recovery of an idle army: `per_tick` more, saturating.
pub fn stack_org_recovery(per_tick: u16, army: &mut Army, status: &ArmyStatus)
    ensures
        *status == ArmyStatus::Idle ==> *final(army) == (Army {
            organization: (if old(army).organization + per_tick > u16::MAX { u16::MAX } else { (old(army).organization + per_tick) as u16 }),
            ..*old(army)
        }),
        *status != ArmyStatus::Idle ==> *final(army) == *old(army),
{
    if *status == ArmyStatus::Idle {
        army.organization = army.organization.saturating_add(per_tick);
    }
}

/// A stack battle, as plain values.
pub struct StackBattleView {
    pub location: ProvinceId,
    pub attacker_armies: Seq<ArmyId>,
    pub defender_armies: Seq<ArmyId>,
    pub phase: StackBattlePhase,
    pub phase_day: u16,
    pub attacker_morale_bits: u64,
    pub defender_morale_bits: u64,
    pub attacker_casualties: u32,
    pub defender_casualties: u32,
}

impl View for StackBattle {
    type V = StackBattleView;

    open spec fn view(&self) -> StackBattleView {
        StackBattleView {
            location: self.location,
            attacker_armies: self.attacker_armies@,
            defender_armies: self.defender_armies@,
            phase: self.phase,
            phase_day: self.phase_day,
            attacker_morale_bits: self.attacker_morale_bits,
            defender_morale_bits: self.defender_morale_bits,
            attacker_casualties: self.attacker_casualties,
            defender_casualties: self.defender_casualties,
        }
    }
}

/// The views of `bs`.
pub open spec fn stack_battle_views(bs: Seq<StackBattle>) -> Seq<StackBattleView> {
    bs.map_values(|b: StackBattle| b@)
}

/// An army as battle detection sees it: id, owner, location.
pub type ArmyPlace = (ArmyId, NationId, ProvinceId);

/// Armies `i < j` stand in province `p` and their owners are at war.
pub open spec fn hostile(a: Seq<ArmyPlace>, war: WarRegistry, p: ProvinceId, i: int, j: int) -> bool {
    &&& 0 <= i < j < a.len()
    &&& a[i].2 == p
    &&& a[j].2 == p
    &&& war.spec_at_war(a[i].1, a[j].1)
}

/// The first `j >= from` hostile to army `i` in province `p`.
pub open spec fn partner_from(a: Seq<ArmyPlace>, war: WarRegistry, p: ProvinceId, i: int, from: int) -> Option<int>
    decreases a.len() - from,
{
    if from < 0 || from >= a.len() {
        None
    } else if hostile(a, war, p, i, from) {
        Some(from)
    } else {
        partner_from(a, war, p, i, from + 1)
    }
}

/// The first hostile pair in province `p` whose first army is at `from` or later, in
/// order of the first army, then of the second.
pub open spec fn pair_from(a: Seq<ArmyPlace>, war: WarRegistry, p: ProvinceId, from: int) -> Option<(int, int)>
    decreases a.len() - from,
{
    if from < 0 || from >= a.len() {
        None
    } else {
        match partner_from(a, war, p, from, from + 1) {
            Some(j) => Some((from, j)),
            None => pair_from(a, war, p, from + 1),
        }
    }
}

/// Whether some battle in `bs` is at `p`.
pub open spec fn battle_at(bs: Seq<StackBattleView>, p: ProvinceId) -> bool {
    exists|i: int| 0 <= i < bs.len() && (#[trigger] bs[i]).location == p
}

/// Whether army `k` is the first in `a` standing where it stands.
pub open spec fn first_in_province(a: Seq<ArmyPlace>, k: int) -> bool {
    forall|j: int| 0 <= j < k ==> (#[trigger] a[j]).2 != a[k].2
}

/// A new battle in `p` between armies `att` and `def`, both at `morale_bits`.
pub open spec fn opened_battle(p: ProvinceId, att: ArmyId, def: ArmyId, morale_bits: u64) -> StackBattleView {
    StackBattleView {
        location: p,
        attacker_armies: seq![att],
        defender_armies: seq![def],
        phase: StackBattlePhase::Fire,
        phase_day: 0,
        attacker_morale_bits: morale_bits,
        defender_morale_bits: morale_bits,
        attacker_casualties: 0,
        defender_casualties: 0,
    }
}

/// Battles opened for the provinces first stood in by the first `k` armies: one for
/// each such province without a battle in `old` where armies of nations at war meet,
/// between the first such pair.
pub open spec fn opened_battles(a: Seq<ArmyPlace>, war: WarRegistry, old: Seq<StackBattleView>, morale_bits: u64, k: nat) -> Seq<StackBattleView>
    decreases k,
{
    if k == 0 || k > a.len() {
        Seq::empty()
    } else {
        let prev = opened_battles(a, war, old, morale_bits, (k - 1) as nat);
        let p = a[k - 1].2;
        if first_in_province(a, k - 1) && !battle_at(old, p) {
            match pair_from(a, war, p, 0) {
                Some(pair) => prev.push(opened_battle(p, a[pair.0].0, a[pair.1].0, morale_bits)),
                None => prev,
            }
        } else {
            prev
        }
    }
}

fn find_partner(a: &[ArmyPlace], war: &WarRegistry, p: ProvinceId, i: usize) -> (r: Option<usize>)
    requires
        i < a@.len(),
    ensures
        match partner_from(a@, *war, p, i as int, i + 1) {
            Some(j) => r == Some(j as usize) && i < j < a@.len(),
            None => r is None,
        },
{
    let n = a.len();
    let mut j: usize = i + 1;
    while j < n
        invariant
            n == a@.len(),
            i < j <= a@.len(),
            partner_from(a@, *war, p, i as int, i + 1) == partner_from(a@, *war, p, i as int, j as int),
        decreases a@.len() - j,
    {
        if a[i].2 == p && a[j].2 == p && war.are_at_war(a[i].1, a[j].1) {
            return Some(j);
        }
        j += 1;
    }
    None
}

fn find_pair(a: &[ArmyPlace], war: &WarRegistry, p: ProvinceId) -> (r: Option<(usize, usize)>)
    ensures
        match pair_from(a@, *war, p, 0) {
            Some(pair) => r == Some((pair.0 as usize, pair.1 as usize)) && 0 <= pair.0 < pair.1 < a@.len(),
            None => r is None,
        },
{
    let mut i: usize = 0;
    while i < a.len()
        invariant
            i <= a@.len(),
            pair_from(a@, *war, p, 0) == pair_from(a@, *war, p, i as int),
        decreases a@.len() - i,
    {
        match find_partner(a, war, p, i) {
            Some(j) => {
                return Some((i, j));
            },
            None => {},
        }
        i += 1;
    }
    None
}

/// Detect battles: in each province where armies of nations at war stand together and
/// no battle is under way, a battle opens between the first such pair (in the order of
/// `armies`). Provinces are taken in order of their first army.
pub fn stack_detect_battles(morale_base_bits: u64, war_reg: &WarRegistry, armies: &[ArmyPlace], battles: &mut ActiveStackBattles)
    ensures
        stack_battle_views(final(battles).battles@) == stack_battle_views(old(battles).battles@)
            + opened_battles(armies@, *war_reg, stack_battle_views(old(battles).battles@), morale_base_bits, armies@.len()),
{
    let ghost old_views = stack_battle_views(battles.battles@);
    let old_len = battles.battles.len();
    let n = armies.len();
    let mut k: usize = 0;
    proof {
        assert(stack_battle_views(battles.battles@) =~= old_views + opened_battles(armies@, *war_reg, old_views, morale_base_bits, 0));
    }
    while k < n
        invariant
            n == armies@.len(),
            k <= n,
            old_len == old_views.len(),
            stack_battle_views(battles.battles@) == old_views + opened_battles(armies@, *war_reg, old_views, morale_base_bits, k as nat),
        decreases n - k,
    {
        let p = armies[k].2;
        let mut first = true;
        let mut j: usize = 0;
        while j < k
            invariant
                j <= k,
                k < armies@.len(),
                p == armies@[k as int].2,
                first == (forall|q: int| 0 <= q < j ==> (#[trigger] armies@[q]).2 != p),
            decreases k - j,
        {
            if armies[j].2 == p {
                first = false;
            }
            j += 1;
        }
        proof {
            assert(stack_battle_views(battles.battles@).take(old_len as int) =~= old_views);
        }
        let mut seen = false;
        let mut b: usize = 0;
        while b < old_len
            invariant
                b <= old_len,
                old_len == old_views.len(),
                old_len <= battles.battles@.len(),
                stack_battle_views(battles.battles@).take(old_len as int) == old_views,
                seen == (exists|q: int| 0 <= q < b && (#[trigger] old_views[q]).location == p),
            decreases old_len - b,
        {
            proof {
                assert(old_views[b as int] == stack_battle_views(battles.battles@).take(old_len as int)[b as int]);
            }
            if battles.battles[b].location == p {
                seen = true;
            }
            b += 1;
        }
        let ghost prev = stack_battle_views(battles.battles@);
        if first && !seen {
            match find_pair(armies, war_reg, p) {
                Some((i, jj)) => {
                    let att = vec![armies[i].0];
                    let def = vec![armies[jj].0];
                    proof {
                        assert(att@ =~= seq![armies@[i as int].0]);
                        assert(def@ =~= seq![armies@[jj as int].0]);
                    }
                    battles.battles.push(StackBattle {
                        location: p,
                        attacker_armies: att,
                        defender_armies: def,
                        phase: StackBattlePhase::Fire,
                        phase_day: 0,
                        attacker_morale_bits: morale_base_bits,
                        defender_morale_bits: morale_base_bits,
                        attacker_casualties: 0,
                        defender_casualties: 0,
                    });
                    proof {
                        assert(stack_battle_views(battles.battles@) =~= prev.push(opened_battle(p, armies@[i as int].0, armies@[jj as int].0, morale_base_bits)));
                    }
                },
                None => {},
            }
        }
        proof {
            assert(first == first_in_province(armies@, k as int));
            assert(seen == battle_at(old_views, p));
            assert(stack_battle_views(battles.battles@) =~= old_views + opened_battles(armies@, *war_reg, old_views, morale_base_bits, (k + 1) as nat));
        }
        k += 1;
    }
}


/// What the floating-point side of one battle day produced for a battle: the
/// casualties each side takes per fire day and per shock day, the morale values after
/// the day's losses (bit patterns), whether each side's morale is at or below zero,
/// and whether the attacker's morale is above the defender's.
#[derive(Clone, Copy, Debug, PartialEq, Eq, Structural)]
pub struct StackBattleDay {
    pub fire_damage: u32,
    pub shock_damage: u32,
    pub attacker_morale_bits: u64,
    pub defender_morale_bits: u64,
    pub attacker_routed: bool,
    pub defender_routed: bool,
    pub attacker_wins: bool,
}

/// Length of each battle phase, in days.
#[derive(Clone, Copy, Debug, PartialEq, Eq, Structural)]
pub struct StackPhaseDays {
    pub fire: u16,
    pub shock: u16,
    pub pursuit: u16,
}

/// Extra casualties the routed side takes each pursuit day.
pub const PURSUIT_CASUALTIES: u32 = 50;

/// A battle after one day: fire and shock days cost both sides casualties and set the
/// morale; a finished fire phase turns to shock; a finished shock phase turns to
/// pursuit when a side is routed, else back to fire; pursuit costs the routed side (the
/// attacker if routed, else the defender) and ends in resolution. A resolved battle is
/// left as it is.
pub open spec fn battle_day_after(b: StackBattleView, d: StackBattleDay, days: StackPhaseDays) -> StackBattleView {
    let day = (b.phase_day + 1) as u16;
    match b.phase {
        StackBattlePhase::Fire => StackBattleView {
            phase: if day >= days.fire { StackBattlePhase::Shock } else { StackBattlePhase::Fire },
            phase_day: if day >= days.fire { 0 } else { day },
            attacker_morale_bits: d.attacker_morale_bits,
            defender_morale_bits: d.defender_morale_bits,
            attacker_casualties: (b.attacker_casualties + d.fire_damage) as u32,
            defender_casualties: (b.defender_casualties + d.fire_damage) as u32,
            ..b
        },
        StackBattlePhase::Shock => StackBattleView {
            phase: if day >= days.shock {
                if d.attacker_routed || d.defender_routed { StackBattlePhase::Pursuit } else { StackBattlePhase::Fire }
            } else {
                StackBattlePhase::Shock
            },
            phase_day: if day >= days.shock { 0 } else { day },
            attacker_morale_bits: d.attacker_morale_bits,
            defender_morale_bits: d.defender_morale_bits,
            attacker_casualties: (b.attacker_casualties + d.shock_damage) as u32,
            defender_casualties: (b.defender_casualties + d.shock_damage) as u32,
            ..b
        },
        StackBattlePhase::Pursuit => StackBattleView {
            phase: if day >= days.pursuit { StackBattlePhase::Resolved } else { StackBattlePhase::Pursuit },
            phase_day: day,
            attacker_casualties: if d.attacker_routed {
                (b.attacker_casualties + PURSUIT_CASUALTIES) as u32
            } else {
                b.attacker_casualties
            },
            defender_casualties: if d.attacker_routed {
                b.defender_casualties
            } else {
                (b.defender_casualties + PURSUIT_CASUALTIES) as u32
            },
            ..b
        },
        StackBattlePhase::Resolved => b,
    }
}

/// The day's counters stay within their types.
pub open spec fn battle_day_fits(b: StackBattleView, d: StackBattleDay) -> bool {
    match b.phase {
        StackBattlePhase::Fire => b.phase_day < u16::MAX && b.attacker_casualties + d.fire_damage <= u32::MAX
            && b.defender_casualties + d.fire_damage <= u32::MAX,
        StackBattlePhase::Shock => b.phase_day < u16::MAX && b.attacker_casualties + d.shock_damage <= u32::MAX
            && b.defender_casualties + d.shock_damage <= u32::MAX,
        StackBattlePhase::Pursuit => b.phase_day < u16::MAX && if d.attacker_routed {
            b.attacker_casualties + PURSUIT_CASUALTIES <= u32::MAX
        } else {
            b.defender_casualties + PURSUIT_CASUALTIES <= u32::MAX
        },
        StackBattlePhase::Resolved => true,
    }
}

/// One day of a battle that is not resolved yet.
pub fn stack_battle_day(battle: &mut StackBattle, d: StackBattleDay, days: StackPhaseDays)
    requires
        battle_day_fits(old(battle)@, d),
    ensures
        final(battle)@ == battle_day_after(old(battle)@, d, days),
{
    match battle.phase {
        StackBattlePhase::Fire => {
            battle.phase_day = battle.phase_day + 1;
            battle.defender_casualties = battle.defender_casualties + d.fire_damage;
            battle.attacker_casualties = battle.attacker_casualties + d.fire_damage;
            battle.attacker_morale_bits = d.attacker_morale_bits;
            battle.defender_morale_bits = d.defender_morale_bits;
            if battle.phase_day >= days.fire {
                battle.phase = StackBattlePhase::Shock;
                battle.phase_day = 0;
            }
        },
        StackBattlePhase::Shock => {
            battle.phase_day = battle.phase_day + 1;
            battle.defender_casualties = battle.defender_casualties + d.shock_damage;
            battle.attacker_casualties = battle.attacker_casualties + d.shock_damage;
            battle.attacker_morale_bits = d.attacker_morale_bits;
            battle.defender_morale_bits = d.defender_morale_bits;
            if battle.phase_day >= days.shock {
                if d.attacker_routed || d.defender_routed {
                    battle.phase = StackBattlePhase::Pursuit;
                } else {
                    battle.phase = StackBattlePhase::Fire;
                }
                battle.phase_day = 0;
            }
        },
        StackBattlePhase::Pursuit => {
            battle.phase_day = battle.phase_day + 1;
            if d.attacker_routed {
                battle.attacker_casualties = battle.attacker_casualties + PURSUIT_CASUALTIES;
            } else {
                battle.defender_casualties = battle.defender_casualties + PURSUIT_CASUALTIES;
            }
            if battle.phase_day >= days.pursuit {
                battle.phase = StackBattlePhase::Resolved;
            }
        },
        StackBattlePhase::Resolved => {},
    }
}

/// `s` less `share`, saturating at 0.
pub open spec fn strength_after(s: u16, share: u16) -> u16 {
    if s >= share { (s - share) as u16 } else { 0 }
}

/// Every army with id `aid` loses `share` strength.
pub open spec fn hit_army(armies: Seq<Army>, aid: ArmyId, share: u16) -> Seq<Army> {
    Seq::new(
        armies.len(),
        |i: int| if armies[i].id == aid { Army { strength: strength_after(armies[i].strength, share), ..armies[i] } } else { armies[i] },
    )
}

/// Each listed id in turn: its armies lose `share` strength.
pub open spec fn hit_armies(armies: Seq<Army>, ids: Seq<ArmyId>, share: u16) -> Seq<Army>
    decreases ids.len(),
{
    if ids.len() == 0 { armies } else { hit_army(hit_armies(armies, ids.drop_last(), share), ids.last(), share) }
}

/// Each army's share of a side's casualties: the casualties over the number of armies,
/// truncated to 16 bits.
pub open spec fn casualty_share(casualties: u32, n: nat) -> u16 {
    if n == 0 { 0 } else { (casualties / (n as u32)) as u16 }
}

/// The armies after a resolved battle: the attacker's armies take the attacker's
/// casualties, then the defender's armies the defender's.
pub open spec fn armies_after_battle(armies: Seq<Army>, b: StackBattleView) -> Seq<Army> {
    hit_armies(
        hit_armies(armies, b.attacker_armies, casualty_share(b.attacker_casualties, b.attacker_armies.len())),
        b.defender_armies,
        casualty_share(b.defender_casualties, b.defender_armies.len()),
    )
}

/// The battle's army lists are short enough for their counts to fit 32 bits.
pub open spec fn battle_sides_fit(b: StackBattleView) -> bool {
    b.attacker_armies.len() <= u32::MAX && b.defender_armies.len() <= u32::MAX
}

/// Armies with id `aid` lose `share` strength.
fn hit_army_exec(armies: &mut Vec<Army>, aid: ArmyId, share: u16)
    ensures
        final(armies)@ == hit_army(old(armies)@, aid, share),
{
    let n = armies.len();
    let mut i: usize = 0;
    while i < n
        invariant
            i <= n,
            n == old(armies)@.len(),
            armies@.len() == n,
            forall|j: int| 0 <= j < i ==> armies@[j] == hit_army(old(armies)@, aid, share)[j],
            forall|j: int| i <= j < n ==> armies@[j] == old(armies)@[j],
        decreases n - i,
    {
        let a = armies[i];
        if a.id == aid {
            armies.set(i, Army { strength: a.strength.saturating_sub(share), ..a });
        }
        i += 1;
    }
    proof {
        assert(armies@ =~= hit_army(old(armies)@, aid, share));
    }
}

/// The armies listed in `ids` share `casualties` equally (each share truncated to 16
/// bits); an army loses its share once per listing, saturating at 0 strength.
pub fn apply_stack_casualties(armies: &mut Vec<Army>, ids: &[ArmyId], casualties: u32)
    requires
        ids@.len() <= u32::MAX,
    ensures
        final(armies)@ == hit_armies(old(armies)@, ids@, casualty_share(casualties, ids@.len())),
{
    let m = ids.len();
    if m == 0 {
        return;
    }
    let share = (casualties / (m as u32)) as u16;
    let ghost a0 = armies@;
    let mut k: usize = 0;
    while k < m
        invariant
            k <= m,
            m == ids@.len(),
            m > 0,
            share == casualty_share(casualties, m as nat),
            a0 == old(armies)@,
            armies@ == hit_armies(a0, ids@.take(k as int), share),
        decreases m - k,
    {
        hit_army_exec(armies, ids[k], share);
        proof {
            assert(ids@.take(k + 1).drop_last() =~= ids@.take(k as int));
        }
        k += 1;
    }
    proof {
        assert(ids@.take(m as int) =~= ids@);
    }
}

/// The log entry of a resolved battle: place, date, winner (the attacker when its
/// morale is above the defender's, else the defender), casualties, no nations listed.
pub open spec fn is_battle_result(r: CombatResult, b: StackBattleView, attacker_wins: bool, date: GameDate) -> bool {
    &&& r.location == b.location
    &&& r.date == date
    &&& r.winner == (if attacker_wins { BattleSide::Attacker } else { BattleSide::Defender })
    &&& r.attacker_casualties == b.attacker_casualties
    &&& r.defender_casualties == b.defender_casualties
    &&& r.attacker_nations@.len() == 0
    &&& r.defender_nations@.len() == 0
}

/// Indices below `k` of the battles that are resolved, in order.
pub open spec fn resolved_indices(bs: Seq<StackBattleView>, k: int) -> Seq<int>
    decreases k,
{
    if k <= 0 {
        Seq::empty()
    } else {
        resolved_indices(bs, k - 1) + if bs[k - 1].phase == StackBattlePhase::Resolved { seq![k - 1] } else { Seq::empty() }
    }
}

/// The armies after the resolved battles among the first `k`, in order.
pub open spec fn armies_after_resolved(bs: Seq<StackBattleView>, armies: Seq<Army>, k: int) -> Seq<Army>
    decreases k,
{
    if k <= 0 {
        armies
    } else {
        let a = armies_after_resolved(bs, armies, k - 1);
        if bs[k - 1].phase == StackBattlePhase::Resolved { armies_after_battle(a, bs[k - 1]) } else { a }
    }
}

/// `s` after `swap_remove` at each index of `idxs`, the last index first.
pub open spec fn swap_remove_all<T>(s: Seq<T>, idxs: Seq<int>) -> Seq<T>
    decreases idxs.len(),
{
    if idxs.len() == 0 {
        s
    } else {
        swap_remove_all(s.update(idxs.last(), s.last()).drop_last(), idxs.drop_last())
    }
}

/// The battles after one day: each unresolved battle steps a day; the resolved ones
/// leave the list (each replaced by the last battle, the highest index first).
pub open spec fn battles_after_day(bs: Seq<StackBattleView>, days_in: Seq<StackBattleDay>, days: StackPhaseDays) -> Seq<StackBattleView> {
    swap_remove_all(
        Seq::new(bs.len(), |i: int| battle_day_after(bs[i], days_in[i], days)),
        resolved_indices(bs, bs.len() as int),
    )
}

/// Over one day of battle, neither side's casualties fall, and the phase moves only
/// along fire -> shock -> (pursuit when a side is routed, else fire again) ->
/// resolved, changing only once the current phase has run its days; a resolved battle
/// stays as it is.
pub proof fn law_battle_day_progress(b: StackBattleView, d: StackBattleDay, days: StackPhaseDays)
    requires
        battle_day_fits(b, d),
    ensures
        ({
            let n = battle_day_after(b, d, days);
            &&& n.attacker_casualties >= b.attacker_casualties
            &&& n.defender_casualties >= b.defender_casualties
            &&& match b.phase {
                StackBattlePhase::Fire => n.phase == StackBattlePhase::Fire
                    || (n.phase == StackBattlePhase::Shock && b.phase_day + 1 >= days.fire),
                StackBattlePhase::Shock => n.phase == StackBattlePhase::Shock
                    || (n.phase == StackBattlePhase::Pursuit && b.phase_day + 1 >= days.shock
                        && (d.attacker_routed || d.defender_routed))
                    || (n.phase == StackBattlePhase::Fire && b.phase_day + 1 >= days.shock
                        && !d.attacker_routed && !d.defender_routed),
                StackBattlePhase::Pursuit => n.phase == StackBattlePhase::Pursuit
                    || (n.phase == StackBattlePhase::Resolved && b.phase_day + 1 >= days.pursuit),
                StackBattlePhase::Resolved => n == b,
            }
        }),
{
}

/// Casualties of a battle day: on a fire or shock day both sides lose the same number,
/// the day's fire or shock damage; on a pursuit day only the routed side (the attacker
/// when it is routed, else the defender) loses, 50 more; a resolved battle loses none.
pub proof fn law_battle_day_casualties(b: StackBattleView, d: StackBattleDay, days: StackPhaseDays)
    requires
        battle_day_fits(b, d),
    ensures
        ({
            let n = battle_day_after(b, d, days);
            let da = n.attacker_casualties - b.attacker_casualties;
            let dd = n.defender_casualties - b.defender_casualties;
            &&& b.phase == StackBattlePhase::Fire ==> da == d.fire_damage && dd == d.fire_damage
            &&& b.phase == StackBattlePhase::Shock ==> da == d.shock_damage && dd == d.shock_damage
            &&& b.phase == StackBattlePhase::Pursuit ==> da + dd == 50
                && (d.attacker_routed ==> da == 50 && dd == 0)
                && (!d.attacker_routed ==> da == 0 && dd == 50)
            &&& b.phase == StackBattlePhase::Resolved ==> da == 0 && dd == 0
        }),
{
}

/// Whether a day of every battle, with the given day inputs, keeps its counters within
/// their types (and the army lists short enough to count in 32 bits).
pub fn stack_day_fits(battles: &ActiveStackBattles, days_in: &[StackBattleDay]) -> (r: bool)
    ensures
        r == (days_in@.len() == battles.battles@.len() && forall|i: int| 0 <= i < days_in@.len() ==> {
            &&& battle_day_fits(#[trigger] battles.battles@[i]@, days_in@[i])
            &&& battle_sides_fit(battles.battles@[i]@)
        }),
{
    let n = battles.battles.len();
    if days_in.len() != n {
        return false;
    }
    let mut i: usize = 0;
    while i < n
        invariant
            i <= n,
            n == battles.battles@.len(),
            n == days_in@.len(),
            forall|k: int| 0 <= k < i ==> {
                &&& battle_day_fits(#[trigger] battles.battles@[k]@, days_in@[k])
                &&& battle_sides_fit(battles.battles@[k]@)
            },
        decreases n - i,
    {
        let b = &battles.battles[i];
        let d = days_in[i];
        proof {
            assert(b@ == battles.battles@[i as int]@);
        }
        if b.attacker_armies.len() as u64 > 0xFFFF_FFFF || b.defender_armies.len() as u64 > 0xFFFF_FFFF {
            proof {
                assert(!battle_sides_fit(battles.battles@[i as int]@));
            }
            return false;
        }
        let att = b.attacker_casualties as u64;
        let def = b.defender_casualties as u64;
        let ok = match b.phase {
            StackBattlePhase::Fire => b.phase_day < u16::MAX && att + (d.fire_damage as u64) <= 0xFFFF_FFFF
                && def + (d.fire_damage as u64) <= 0xFFFF_FFFF,
            StackBattlePhase::Shock => b.phase_day < u16::MAX && att + (d.shock_damage as u64) <= 0xFFFF_FFFF
                && def + (d.shock_damage as u64) <= 0xFFFF_FFFF,
            StackBattlePhase::Pursuit => b.phase_day < u16::MAX && if d.attacker_routed {
                att + (PURSUIT_CASUALTIES as u64) <= 0xFFFF_FFFF
            } else {
                def + (PURSUIT_CASUALTIES as u64) <= 0xFFFF_FFFF
            },
            StackBattlePhase::Resolved => true,
        };
        if !ok {
            proof {
                assert(!battle_day_fits(battles.battles@[i as int]@, days_in@[i as int]));
            }
            return false;
        }
        i += 1;
    }
    true
}

/// One day of every stack battle: battles resolved before today apply their casualties
/// to the armies, are logged (in order) and removed; the others advance a day. `days_in`
/// holds, per battle, what the floating-point side computed for today.
pub fn stack_resolve_battles(
    battles: &mut ActiveStackBattles,
    days_in: &[StackBattleDay],
    days: StackPhaseDays,
    armies: &mut Vec<Army>,
    log: &mut CombatResultLog,
    date: GameDate,
)
    requires
        days_in@.len() == old(battles).battles@.len(),
        forall|i: int| 0 <= i < days_in@.len() ==> {
            &&& battle_day_fits(#[trigger] old(battles).battles@[i]@, days_in@[i])
            &&& battle_sides_fit(old(battles).battles@[i]@)
        },
    ensures
        stack_battle_views(final(battles).battles@)
            == battles_after_day(stack_battle_views(old(battles).battles@), days_in@, days),
        final(armies)@ == armies_after_resolved(
            stack_battle_views(old(battles).battles@),
            old(armies)@,
            old(battles).battles@.len() as int,
        ),
        ({
            let bs = stack_battle_views(old(battles).battles@);
            let idx = resolved_indices(bs, bs.len() as int);
            &&& final(log).results@.len() == old(log).results@.len() + idx.len()
            &&& forall|j: int| 0 <= j < old(log).results@.len() ==> final(log).results@[j] == old(log).results@[j]
            &&& forall|t: int|
                0 <= t < idx.len() ==> is_battle_result(
                    #[trigger] final(log).results@[old(log).results@.len() + t],
                    bs[idx[t]],
                    days_in@[idx[t]].attacker_wins,
                    date,
                )
        }),
{
    let ghost bs = stack_battle_views(battles.battles@);
    let ghost log0 = log.results@;
    let n = battles.battles.len();
    let mut resolved: Vec<usize> = Vec::new();
    let mut i: usize = 0;
    while i < n
        invariant
            i <= n,
            n == bs.len(),
            days_in@.len() == n,
            bs == stack_battle_views(old(battles).battles@),
            battles.battles@.len() == n,
            forall|j: int| 0 <= j < i ==> (#[trigger] battles.battles@[j])@ == battle_day_after(bs[j], days_in@[j], days),
            forall|j: int| i <= j < n ==> (#[trigger] battles.battles@[j])@ == bs[j],
            forall|j: int| 0 <= j < n ==> {
                &&& battle_day_fits(#[trigger] bs[j], days_in@[j])
                &&& battle_sides_fit(bs[j])
            },
            resolved@.len() == resolved_indices(bs, i as int).len(),
            forall|t: int| 0 <= t < resolved@.len() ==> resolved@[t] as int == #[trigger] resolved_indices(bs, i as int)[t],
            armies@ == armies_after_resolved(bs, old(armies)@, i as int),
            log0 == old(log).results@,
            log.results@.len() == log0.len() + resolved@.len(),
            forall|j: int| 0 <= j < log0.len() ==> log.results@[j] == log0[j],
            forall|t: int|
                0 <= t < resolved@.len() ==> is_battle_result(
                    #[trigger] log.results@[log0.len() + t],
                    bs[resolved_indices(bs, i as int)[t]],
                    days_in@[resolved_indices(bs, i as int)[t]].attacker_wins,
                    date,
                ),
        decreases n - i,
    {
        let ghost idx0 = resolved_indices(bs, i as int);
        let ghost r0 = resolved@;
        let ghost l0 = log.results@;
        proof {
            assert(battles.battles@[i as int]@ == bs[i as int]);
        }
        if battles.battles[i].phase == StackBattlePhase::Resolved {
            let b = &battles.battles[i];
            apply_stack_casualties(armies, b.attacker_armies.as_slice(), b.attacker_casualties);
            apply_stack_casualties(armies, b.defender_armies.as_slice(), b.defender_casualties);
            let winner = if days_in[i].attacker_wins { BattleSide::Attacker } else { BattleSide::Defender };
            let result = CombatResult {
                location: b.location,
                date,
                winner,
                attacker_casualties: b.attacker_casualties,
                defender_casualties: b.defender_casualties,
                attacker_nations: Vec::new(),
                defender_nations: Vec::new(),
            };
            log.push(result);
            resolved.push(i);
            proof {
                assert(resolved_indices(bs, i + 1) == idx0.push(i as int));
                assert forall|t: int| 0 <= t < resolved@.len() implies resolved@[t] as int == #[trigger] resolved_indices(bs, i + 1)[t] by {
                    if t < r0.len() {
                        assert(resolved@[t] == r0[t]);
                    }
                }
                assert forall|t: int|
                    0 <= t < resolved@.len() implies is_battle_result(
                        #[trigger] log.results@[log0.len() + t],
                        bs[resolved_indices(bs, i + 1)[t]],
                        days_in@[resolved_indices(bs, i + 1)[t]].attacker_wins,
                        date,
                    ) by {
                    if t < r0.len() {
                        assert(log.results@[log0.len() + t] == l0[log0.len() + t]);
                    }
                }
            }
        } else {
            stack_battle_day(&mut battles.battles[i], days_in[i], days);
            proof {
                assert(resolved_indices(bs, i + 1) =~= idx0);
            }
        }
        i += 1;
    }
    proof {
        assert forall|j: int| 0 <= j < n implies (#[trigger] battles.battles@[j])@ == battle_day_after(bs[j], days_in@[j], days) by {}
        assert(stack_battle_views(battles.battles@) =~= Seq::new(bs.len(), |j: int| battle_day_after(bs[j], days_in@[j], days)));
        lemma_resolved_indices_sorted(bs, n as int);
    }
    let ghost stepped = Seq::new(bs.len(), |j: int| battle_day_after(bs[j], days_in@[j], days));
    let ghost idxs = resolved_indices(bs, n as int);
    proof {
        lemma_room_below(idxs, n as int);
        assert(idxs.take(idxs.len() as int) =~= idxs);
    }
    let mut k: usize = resolved.len();
    while k > 0
        invariant
            k <= resolved@.len(),
            resolved@.len() == idxs.len(),
            forall|t: int| 0 <= t < resolved@.len() ==> resolved@[t] as int == #[trigger] idxs[t],
            forall|t: int| 0 <= t < idxs.len() ==> #[trigger] idxs[t] + (idxs.len() - t) <= n,
            forall|t: int| 0 <= t < idxs.len() ==> 0 <= #[trigger] idxs[t],
            battles.battles@.len() == n - (idxs.len() - k),
            swap_remove_all(stepped, idxs) == swap_remove_all(stack_battle_views(battles.battles@), idxs.take(k as int)),
        decreases k,
    {
        let idx = resolved[k - 1];
        let ghost cur = stack_battle_views(battles.battles@);
        proof {
            assert(idxs[k - 1] + (idxs.len() - (k - 1)) <= n);
        }
        battles.battles.swap_remove(idx);
        proof {
            assert(idxs.take(k as int).last() == idxs[k - 1]);
            assert(idxs.take(k as int).drop_last() =~= idxs.take(k - 1));
            assert(stack_battle_views(battles.battles@) =~= cur.update(idx as int, cur.last()).drop_last());
        }
        k -= 1;
    }
    proof {
        assert(idxs.take(0) =~= Seq::<int>::empty());
    }
}

/// In an increasing sequence of indices below `n`, each index leaves room below `n` for
/// the ones after it.
proof fn lemma_room_below(s: Seq<int>, n: int)
    requires
        forall|t: int| 0 <= t < s.len() ==> #[trigger] s[t] < n,
        forall|t: int, u: int| 0 <= t < u < s.len() ==> #[trigger] s[t] < #[trigger] s[u],
    ensures
        forall|t: int| 0 <= t < s.len() ==> #[trigger] s[t] + (s.len() - t) <= n,
    decreases s.len(),
{
    if s.len() > 0 {
        let d = s.drop_last();
        assert forall|t: int| 0 <= t < d.len() implies #[trigger] d[t] < s.last() by {
            assert(s[t] < s[s.len() - 1]);
        }
        lemma_room_below(d, s.last());
        assert forall|t: int| 0 <= t < s.len() implies #[trigger] s[t] + (s.len() - t) <= n by {
            if t < d.len() {
                assert(d[t] + (d.len() - t) <= s.last());
            }
        }
    }
}

/// The resolved indices are increasing and below `k`.
proof fn lemma_resolved_indices_sorted(bs: Seq<StackBattleView>, k: int)
    requires
        0 <= k <= bs.len(),
    ensures
        forall|t: int| 0 <= t < resolved_indices(bs, k).len() ==> 0 <= #[trigger] resolved_indices(bs, k)[t] < k,
        forall|t: int, u: int|
            0 <= t < u < resolved_indices(bs, k).len() ==> #[trigger] resolved_indices(bs, k)[t] < #[trigger] resolved_indices(bs, k)[u],
    decreases k,
{
    if k > 0 {
        lemma_resolved_indices_sorted(bs, k - 1);
        let prev = resolved_indices(bs, k - 1);
        let r = resolved_indices(bs, k);
        assert forall|t: int| 0 <= t < r.len() implies 0 <= #[trigger] r[t] < k by {
            if t < prev.len() {
                assert(r[t] == prev[t]);
            }
        }
        assert forall|t: int, u: int| 0 <= t < u < r.len() implies #[trigger] r[t] < #[trigger] r[u] by {
            assert(r[t] == prev[t]);
            if u < prev.len() {
                assert(r[u] == prev[u]);
            }
        }
    }
}

} // verus!

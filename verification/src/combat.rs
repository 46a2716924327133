//! Combat: shared types, and the parts of the combat models that run on whole
//! numbers (stack-based, one unit per tile, deployment).
//!
//! The active model is chosen once at world setup; only its systems run.

use vstd::prelude::*;
use std::collections::HashMap;
use crate::world::{GameDate, NationId, ProvinceId};

pub mod stack;
pub mod tile;
pub mod deployment;

verus! {

/// Stable id for a unit type definition.
#[derive(Clone, Copy, Debug, PartialEq, Eq, Hash, Structural)]
pub struct UnitTypeId {
    raw: u32,
}

impl UnitTypeId {
    #[verifier::type_invariant]
    spec fn nonzero(self) -> bool {
        self.raw != 0
    }

    /// The raw 1-based value.
    pub closed spec fn spec_raw(self) -> u32 {
        self.raw
    }

    /// Builds an id from its raw 1-based value (zero is not an id).
    pub fn from_raw(raw: u32) -> (r: Self)
        requires
            raw != 0,
        ensures
            r.spec_raw() == raw,
    {
        UnitTypeId { raw }
    }

    pub fn raw(self) -> (r: u32)
        ensures
            r == self.spec_raw(),
            r != 0,
    {
        proof { use_type_invariant(&self); }
        self.raw
    }

    /// Two ids are equal exactly when their raw values are.
    pub proof fn lemma_raw_injective(a: Self, b: Self)
        ensures
            (a.spec_raw() == b.spec_raw()) == (a == b),
    {
    }
}

/// Unit type category.
#[derive(Clone, Copy, Debug, PartialEq, Eq, Hash, Structural)]
pub enum UnitCategory {
    Infantry,
    Cavalry,
    Ranged,
    Siege,
    Naval,
    Custom(u32),
}

impl Default for UnitCategory {
    fn default() -> (r: Self)
        ensures
            r == UnitCategory::Infantry,
    {
        UnitCategory::Infantry
    }
}

/// Definition of a unit type.
pub struct UnitTypeDef {
    pub id: UnitTypeId,
    pub name: String,
    pub category: UnitCategory,
    pub base_strength: u16,
    pub base_morale: u16,
    pub movement_speed: u8,
    /// Game-specific stats by name (`f64` bit patterns).
    pub custom_stats: HashMap<String, u64>,
}

/// Registry of unit type definitions.
pub struct UnitTypeRegistry {
    pub types: Vec<UnitTypeDef>,
    next_raw: u32,
}

impl Default for UnitTypeRegistry {
    fn default() -> (r: Self)
        ensures
            r.types_view().len() == 0,
            r.next_id() == 0,
    {
        UnitTypeRegistry { types: Vec::new(), next_raw: 0 }
    }
}

/// Position of the first definition with id `id`.
pub open spec fn unit_type_pos(s: Seq<UnitTypeDef>, id: UnitTypeId) -> Option<int>
    decreases s.len(),
{
    if s.len() == 0 {
        None
    } else if s[0].id == id {
        Some(0)
    } else {
        match unit_type_pos(s.drop_first(), id) {
            Some(p) => Some(p + 1),
            None => None,
        }
    }
}

proof fn lemma_unit_type_pos(s: Seq<UnitTypeDef>, id: UnitTypeId)
    ensures
        match unit_type_pos(s, id) {
            Some(p) => 0 <= p < s.len() && s[p].id == id && forall|j: int| 0 <= j < p ==> #[trigger] s[j].id != id,
            None => forall|j: int| 0 <= j < s.len() ==> #[trigger] s[j].id != id,
        },
    decreases s.len(),
{
    if s.len() > 0 && s[0].id != id {
        let t = s.drop_first();
        lemma_unit_type_pos(t, id);
        assert forall|j: int| 1 <= j < s.len() implies #[trigger] s[j] == t[j - 1] by {}
    }
}

impl UnitTypeRegistry {
    /// The raw id the next registration gets.
    pub closed spec fn next_id(&self) -> u32 {
        self.next_raw
    }

    /// The definitions, in registration order.
    pub closed spec fn types_view(&self) -> Seq<UnitTypeDef> {
        self.types@
    }

    pub fn new() -> (r: Self)
        ensures
            r.types_view().len() == 0,
            r.next_id() == 1,
    {
        UnitTypeRegistry { types: Vec::new(), next_raw: 1 }
    }

    /// Register a unit type under the next id, with no custom stats. A registry made
    /// by `default` has no next id yet (zero), so it takes registrations only after
    /// `new`.
    pub fn register(&mut self, name: String, category: UnitCategory, base_strength: u16, base_morale: u16, movement_speed: u8) -> (r: UnitTypeId)
        requires
            old(self).next_id() != 0,
            old(self).next_id() < u32::MAX,
        ensures
            r.spec_raw() == old(self).next_id(),
            final(self).next_id() == old(self).next_id() + 1,
            final(self).types_view().len() == old(self).types_view().len() + 1,
            final(self).types_view().drop_last() == old(self).types_view(),
            final(self).types_view().last().id == r,
            final(self).types_view().last().name == name,
            final(self).types_view().last().category == category,
            final(self).types_view().last().base_strength == base_strength,
            final(self).types_view().last().base_morale == base_morale,
            final(self).types_view().last().movement_speed == movement_speed,
            final(self).types_view().last().custom_stats@ == Map::<String, u64>::empty(),
    {
        let id = UnitTypeId::from_raw(self.next_raw);
        self.next_raw = self.next_raw + 1;
        self.types.push(UnitTypeDef {
            id,
            name,
            category,
            base_strength,
            base_morale,
            movement_speed,
            custom_stats: HashMap::new(),
        });
        proof {
            assert(self.types@.drop_last() =~= old(self).types@);
        }
        id
    }

    /// The first definition with id `id`.
    pub fn get(&self, id: UnitTypeId) -> (r: Option<&UnitTypeDef>)
        ensures
            match unit_type_pos(self.types_view(), id) {
                Some(p) => r matches Some(x) && *x == self.types_view()[p],
                None => r is None,
            },
    {
        proof {
            lemma_unit_type_pos(self.types@, id);
        }
        let ghost pos = unit_type_pos(self.types@, id);
        let mut i: usize = 0;
        while i < self.types.len()
            invariant
                i <= self.types@.len(),
                pos == unit_type_pos(self.types@, id),
                match pos {
                    Some(p) => 0 <= p < self.types@.len() && self.types@[p].id == id
                        && forall|j: int| 0 <= j < p ==> #[trigger] self.types@[j].id != id,
                    None => forall|j: int| 0 <= j < self.types@.len() ==> #[trigger] self.types@[j].id != id,
                },
                forall|j: int| 0 <= j < i ==> #[trigger] self.types@[j].id != id,
            decreases self.types@.len() - i,
        {
            let t = self.types[i].id;
            proof {
                UnitTypeId::lemma_raw_injective(t, id);
            }
            if t.raw() == id.raw() {
                return Some(&self.types[i]);
            }
            i += 1;
        }
        None
    }
}

/// Which side won a battle.
#[derive(Clone, Copy, Debug, PartialEq, Eq, Structural)]
pub enum BattleSide {
    Attacker,
    Defender,
    Draw,
}

/// Result of a finished battle.
pub struct CombatResult {
    pub location: ProvinceId,
    pub date: GameDate,
    pub winner: BattleSide,
    pub attacker_casualties: u32,
    pub defender_casualties: u32,
    pub attacker_nations: Vec<NationId>,
    pub defender_nations: Vec<NationId>,
}

/// Log of all battle results (war score, history).
pub struct CombatResultLog {
    pub results: Vec<CombatResult>,
}

impl Default for CombatResultLog {
    fn default() -> (r: Self)
        ensures
            r.results@.len() == 0,
    {
        CombatResultLog { results: Vec::new() }
    }
}

impl CombatResultLog {
    pub fn new() -> (r: Self)
        ensures
            r.results@.len() == 0,
    {
        CombatResultLog { results: Vec::new() }
    }

    /// Append `result`.
    pub fn push(&mut self, result: CombatResult)
        ensures
            final(self).results@ == old(self).results@.push(result),
    {
        self.results.push(result);
    }
}

} // verus!

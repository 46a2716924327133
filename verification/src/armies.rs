//! Army system: military units with a composition and a commander.
//!
//! Armies are entities, and also have stable `ArmyId` handles for save/load and
//! scripts; the registry maps the handles to entities.

use vstd::prelude::*;
use std::collections::HashMap;
use bevy_ecs::entity::Entity;
use crate::world::{NationId, ProvinceId};

verus! {

broadcast use vstd::std_specs::hash::group_hash_axioms;

/// An entity handle of the ECS world (`bevy_ecs::entity::Entity`), carried as is.
#[verifier::external_type_specification]
#[verifier::external_body]
pub struct ExEntity(Entity);

/// Stable id for an army.
#[derive(Clone, Copy, Debug, PartialEq, Eq, Hash, Structural)]
pub struct ArmyId {
    raw: u32,
}

impl ArmyId {
    #[verifier::type_invariant]
    spec fn nonzero(self) -> bool {
        self.raw != 0
    }

    /// The raw 1-based value.
    pub closed spec fn spec_raw(self) -> u32 {
        self.raw
    }

    /// Builds an id from its raw 1-based value (zero is not an id).
    pub fn from_raw(raw: u32) -> (r: Self)
        requires
            raw != 0,
        ensures
            r.spec_raw() == raw,
    {
        ArmyId { raw }
    }

    pub fn raw(self) -> (r: u32)
        ensures
            r == self.spec_raw(),
            r != 0,
    {
        proof { use_type_invariant(&self); }
        self.raw
    }

    /// Two ids are equal exactly when their raw values are.
    pub proof fn lemma_raw_injective(a: Self, b: Self)
        ensures
            (a.spec_raw() == b.spec_raw()) == (a == b),
    {
    }
}

/// Army component (core state).
#[derive(Clone, Copy, Debug, PartialEq, Eq, Structural)]
pub struct Army {
    pub id: ArmyId,
    pub owner: NationId,
    pub location: ProvinceId,
    pub strength: u16,
    pub organization: u16,
}

/// A stack of units inside an army (unit types are game-defined ids).
#[derive(Clone, Copy, Debug, PartialEq, Eq, Structural)]
pub struct UnitStack {
    pub unit_type: u32,
    pub count: u32,
}

/// Army composition.
pub struct ArmyComposition {
    pub stacks: Vec<UnitStack>,
}

impl Default for ArmyComposition {
    fn default() -> (r: Self)
        ensures
            r.stacks@.len() == 0,
    {
        ArmyComposition { stacks: Vec::new() }
    }
}

/// Commander link: the persistent id of a character, if any.
#[derive(Clone, Copy, Debug, PartialEq, Eq, Structural)]
pub struct ArmyCommander {
    pub character_persistent_id: Option<u64>,
}

impl Default for ArmyCommander {
    fn default() -> (r: Self)
        ensures
            r.character_persistent_id is None,
    {
        ArmyCommander { character_persistent_id: None }
    }
}

/// What an army is doing.
#[derive(Clone, Copy, Debug, PartialEq, Eq, Structural)]
pub enum ArmyStatus {
    Idle,
    Marching { to: ProvinceId },
    Sieging { target: ProvinceId },
}

impl Default for ArmyStatus {
    fn default() -> (r: Self)
        ensures
            r == ArmyStatus::Idle,
    {
        ArmyStatus::Idle
    }
}

/// `x` raised to at least one.
pub open spec fn at_least_one(x: u32) -> u32 {
    if x >= 1 { x } else { 1 }
}

/// `x + 1`, stopping at `u32::MAX`.
pub open spec fn next_raw_after(x: u32) -> u32 {
    if x == u32::MAX { u32::MAX } else { (x + 1) as u32 }
}

/// Maps stable army ids (raw) to entities.
pub struct ArmyRegistry {
    pub next_raw: u32,
    pub entity_by_raw: HashMap<u32, Entity>,
}

impl Default for ArmyRegistry {
    fn default() -> (r: Self)
        ensures
            r.next_raw == 0,
            r.entity_by_raw@ == Map::<u32, Entity>::empty(),
    {
        ArmyRegistry { next_raw: 0, entity_by_raw: HashMap::new() }
    }
}

impl ArmyRegistry {
    pub fn new() -> (r: Self)
        ensures
            r.next_raw == 1,
            r.entity_by_raw@ == Map::<u32, Entity>::empty(),
    {
        ArmyRegistry { next_raw: 1, entity_by_raw: HashMap::new() }
    }

    fn alloc_id(&mut self) -> (r: ArmyId)
        ensures
            r.spec_raw() == at_least_one(old(self).next_raw),
            final(self).next_raw == next_raw_after(r.spec_raw()),
            final(self).entity_by_raw@ == old(self).entity_by_raw@,
    {
        let raw = if self.next_raw < 1 { 1 } else { self.next_raw };
        self.next_raw = if raw == u32::MAX { u32::MAX } else { raw + 1 };
        ArmyId::from_raw(raw)
    }

    /// The entity of army `id`, if registered.
    pub fn get_entity(&self, id: ArmyId) -> (r: Option<Entity>)
        ensures
            match r {
                Some(e) => self.entity_by_raw@.contains_key(id.spec_raw()) && e == self.entity_by_raw@[id.spec_raw()],
                None => !self.entity_by_raw@.contains_key(id.spec_raw()),
            },
    {
        match self.entity_by_raw.get(&id.raw()) {
            Some(e) => Some(*e),
            None => None,
        }
    }

    /// Link army `id` to `entity`.
    pub fn register_entity(&mut self, id: ArmyId, entity: Entity)
        ensures
            final(self).entity_by_raw@ == old(self).entity_by_raw@.insert(id.spec_raw(), entity),
            final(self).next_raw == old(self).next_raw,
    {
        self.entity_by_raw.insert(id.raw(), entity);
    }

    /// Link a loaded army `id` to `entity`, and keep the next id past it.
    pub fn register_loaded(&mut self, id: ArmyId, entity: Entity)
        ensures
            final(self).entity_by_raw@ == old(self).entity_by_raw@.insert(id.spec_raw(), entity),
            final(self).next_raw == (if old(self).next_raw >= next_raw_after(id.spec_raw()) {
                old(self).next_raw
            } else {
                next_raw_after(id.spec_raw())
            }),
    {
        let raw = id.raw();
        self.entity_by_raw.insert(raw, entity);
        let after = if raw == u32::MAX { u32::MAX } else { raw + 1 };
        if after > self.next_raw {
            self.next_raw = after;
        }
    }
}

/// The army a newly spawned army starts as: the next id from `reg`, at full strength
/// (1000) and organization (100).
pub fn new_army(reg: &mut ArmyRegistry, owner: NationId, location: ProvinceId) -> (r: Army)
    ensures
        r.id.spec_raw() == at_least_one(old(reg).next_raw),
        final(reg).next_raw == next_raw_after(r.id.spec_raw()),
        final(reg).entity_by_raw@ == old(reg).entity_by_raw@,
        r.owner == owner,
        r.location == location,
        r.strength == 1000,
        r.organization == 100,
{
    let id = reg.alloc_id();
    Army { id, owner, location, strength: 1000, organization: 100 }
}

} // verus!

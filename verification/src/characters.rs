//! Character system: leaders, generals, advisors and other people.
//!
//! Characters are entities with components; worlds may have none, and systems handle
//! their absence.

use vstd::prelude::*;
use std::collections::HashMap;
use crate::world::NationId;

verus! {

/// Base character data (identity and life dates).
#[derive(Clone, Copy, Debug, PartialEq, Eq, Structural)]
pub struct Character {
    /// Name reference into a game-defined string table.
    pub name_id: u32,
    /// Unique id for external references (save migration, debugging).
    pub persistent_id: u64,
    /// Birth year (calendars differ between games).
    pub birth_year: Option<i32>,
    pub death_year: Option<i32>,
}

impl Default for Character {
    fn default() -> (r: Self)
        ensures
            r == (Character { name_id: 0, persistent_id: 0, birth_year: None, death_year: None }),
    {
        Character { name_id: 0, persistent_id: 0, birth_year: None, death_year: None }
    }
}

/// Role of a character in the game world.
#[derive(Clone, Copy, Debug, PartialEq, Eq, Structural)]
pub enum CharacterRole {
    /// Head of state of a nation.
    Leader(NationId),
    /// Military commander; the army link is kept by the army system.
    General { nation: NationId, army_raw: u32 },
    /// Advisor or court position.
    Advisor(NationId),
    /// Game-defined role id.
    Custom(u32),
}

/// Common stats of grand-strategy characters, plus game-defined stats by id.
pub struct CharacterStats {
    pub military: i16,
    pub diplomacy: i16,
    pub administration: i16,
    /// Game-defined stats (intrigue, legitimacy, ...) by id.
    pub custom: HashMap<u32, i32>,
}

impl Default for CharacterStats {
    fn default() -> (r: Self)
        ensures
            r.military == 0,
            r.diplomacy == 0,
            r.administration == 0,
            r.custom@ == Map::<u32, i32>::empty(),
    {
        CharacterStats { military: 0, diplomacy: 0, administration: 0, custom: HashMap::new() }
    }
}

} // verus!

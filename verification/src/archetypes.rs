//! Core archetypes for grand strategy: Province, Nation, Unit, and terrain types.

use vstd::prelude::*;
use crate::world::{NationId, ProvinceId, ScopeId};

verus! {

/// Terrain type for a province (land vs sea).
pub const TERRAIN_LAND: u8 = 0;
pub const TERRAIN_SEA: u8 = 1;

/// A terrain type definition; games register these to define their terrain palette.
pub struct TerrainType {
    /// Terrain id (matches Province.terrain).
    pub id: u8,
    /// Display name (e.g. "Grassland", "Ocean", "Desert").
    pub name: String,
    /// Display color as [R, G, B, A].
    pub color: [u8; 4],
    /// Whether this terrain is passable by land units.
    pub is_land: bool,
}

impl TerrainType {
    /// A field-by-field copy.
    pub fn copied(&self) -> (r: Self)
        ensures
            r == *self,
    {
        TerrainType { id: self.id, name: self.name.clone(), color: self.color, is_land: self.is_land }
    }
}

/// `k` is the first position in `s` whose terrain id is `id`.
pub open spec fn first_terrain_with_id(s: Seq<TerrainType>, id: u8, k: int) -> bool {
    &&& 0 <= k < s.len()
    &&& s[k].id == id
    &&& forall|j: int| 0 <= j < k ==> #[trigger] s[j].id != id
}

/// No terrain in `s` has id `id`.
pub open spec fn no_terrain_with_id(s: Seq<TerrainType>, id: u8) -> bool {
    forall|j: int| 0 <= j < s.len() ==> #[trigger] s[j].id != id
}

/// Colour shown for terrain ids that are not registered (dark gray).
pub open spec fn unknown_terrain_color() -> [u8; 4] {
    [0x40u8, 0x40u8, 0x40u8, 0xFFu8]
}

/// Registry of all terrain types. Ships with two defaults: Land (0) and Sea (1).
pub struct TerrainRegistry {
    pub types: Vec<TerrainType>,
}

impl Default for TerrainRegistry {
    fn default() -> (r: Self)
        ensures
            r.types@.len() == 2,
            r.types@[0].id == 0 && r.types@[0].name@ == "Land"@ && r.types@[0].is_land
                && r.types@[0].color == [0x22u8, 0x8Bu8, 0x22u8, 0xFFu8],
            r.types@[1].id == 1 && r.types@[1].name@ == "Sea"@ && !r.types@[1].is_land
                && r.types@[1].color == [0x1Eu8, 0x3Au8, 0x5Fu8, 0xFFu8],
    {
        let mut types: Vec<TerrainType> = Vec::new();
        types.push(TerrainType { id: 0, name: "Land".to_owned(), color: [0x22, 0x8B, 0x22, 0xFF], is_land: true });
        types.push(TerrainType { id: 1, name: "Sea".to_owned(), color: [0x1E, 0x3A, 0x5F, 0xFF], is_land: false });
        TerrainRegistry { types }
    }
}

impl TerrainRegistry {
    /// Position of the first terrain with id `id`.
    fn find(&self, id: u8) -> (r: Option<usize>)
        ensures
            match r {
                Some(k) => first_terrain_with_id(self.types@, id, k as int),
                None => no_terrain_with_id(self.types@, id),
            },
    {
        let n = self.types.len();
        let mut i: usize = 0;
        while i < n
            invariant
                n == self.types@.len(),
                i <= n,
                forall|j: int| 0 <= j < i ==> #[trigger] self.types@[j].id != id,
            decreases n - i,
        {
            if self.types[i].id == id {
                return Some(i);
            }
            i += 1;
        }
        None
    }

    /// Look up a terrain type by id (the first one registered with that id).
    pub fn get(&self, id: u8) -> (r: Option<&TerrainType>)
        ensures
            match r {
                Some(t) => exists|k: int| first_terrain_with_id(self.types@, id, k) && *t == self.types@[k],
                None => no_terrain_with_id(self.types@, id),
            },
    {
        match self.find(id) {
            Some(k) => Some(&self.types[k]),
            None => None,
        }
    }

    /// Register a new terrain type, or replace the first one with the same id.
    pub fn register(&mut self, t: TerrainType)
        ensures
            ({
                let s = old(self).types@;
                if no_terrain_with_id(s, t.id) {
                    final(self).types@ == s.push(t)
                } else {
                    exists|k: int| first_terrain_with_id(s, t.id, k) && final(self).types@ == s.update(k, t)
                }
            }),
    {
        match self.find(t.id) {
            Some(k) => {
                self.types[k] = t;
            },
            None => {
                self.types.push(t);
            },
        }
    }

    /// Display color for a terrain id; dark gray when not registered.
    pub fn color(&self, id: u8) -> (r: [u8; 4])
        ensures
            match self.find_spec(id) {
                Some(k) => r == self.types@[k].color,
                None => r == unknown_terrain_color(),
            },
    {
        match self.get(id) {
            Some(t) => t.color,
            None => [0x40, 0x40, 0x40, 0xFF],
        }
    }

    /// Display name for a terrain id; "Unknown" when not registered.
    pub fn name(&self, id: u8) -> (r: &str)
        ensures
            match self.find_spec(id) {
                Some(k) => r@ == self.types@[k].name@,
                None => r@ == "Unknown"@,
            },
    {
        match self.get(id) {
            Some(t) => t.name.as_str(),
            None => "Unknown",
        }
    }

    /// Position of the first terrain with id `id`, if any.
    pub open spec fn find_spec(&self, id: u8) -> Option<int> {
        if no_terrain_with_id(self.types@, id) {
            None
        } else {
            Some(choose|k: int| first_terrain_with_id(self.types@, id, k))
        }
    }
}

/// Registering a terrain type and then looking its id up gives it back.
pub proof fn law_terrain_register_get(a: TerrainRegistry, b: TerrainRegistry, t: TerrainType)
    requires
        ({
            let s = a.types@;
            if no_terrain_with_id(s, t.id) {
                b.types@ == s.push(t)
            } else {
                exists|k: int| first_terrain_with_id(s, t.id, k) && b.types@ == s.update(k, t)
            }
        }),
    ensures
        b.find_spec(t.id) matches Some(k) && b.types@[k] == t,
        b.types@.len() == a.types@.len() + (if no_terrain_with_id(a.types@, t.id) { 1int } else { 0int }),
{
    let s = a.types@;
    if no_terrain_with_id(s, t.id) {
        assert(first_terrain_with_id(b.types@, t.id, s.len() as int));
        lemma_first_terrain_unique(b.types@, t.id);
    } else {
        let k = choose|k: int| first_terrain_with_id(s, t.id, k) && b.types@ == s.update(k, t);
        assert(first_terrain_with_id(b.types@, t.id, k));
        lemma_first_terrain_unique(b.types@, t.id);
    }
}

/// There is at most one first position with a given terrain id.
pub proof fn lemma_first_terrain_unique(s: Seq<TerrainType>, id: u8)
    ensures
        forall|k1: int, k2: int| first_terrain_with_id(s, id, k1) && first_terrain_with_id(s, id, k2) ==> k1 == k2,
{
    assert forall|k1: int, k2: int| first_terrain_with_id(s, id, k1) && first_terrain_with_id(s, id, k2) implies k1 == k2 by {
        if k1 < k2 {
            assert(s[k1].id != id);
        } else if k2 < k1 {
            assert(s[k2].id != id);
        }
    }
}

/// Shared interface of scope entities (provinces, nations), so generic stores and
/// systems can make and identify them without knowing the concrete type.
pub trait ScopeEntity: Sized {
    type Id: ScopeId;

    fn id(&self) -> Self::Id;

    /// A fresh entity with id `id`.
    fn default_for(id: Self::Id) -> Self;
}

/// Province: one map tile/region.
#[derive(Clone, Copy)]
pub struct Province {
    pub id: ProvinceId,
    pub owner: Option<NationId>,
    /// Occupier during wartime (different from owner). None if not occupied.
    pub occupation: Option<NationId>,
    /// Terrain: TERRAIN_LAND (0), TERRAIN_SEA (1), or custom.
    pub terrain: u8,
    /// tax, production, manpower
    pub development: [u16; 3],
    pub population: u32,
}

impl Province {
    pub fn is_land(&self) -> (r: bool)
        ensures
            r == (self.terrain == TERRAIN_LAND),
    {
        self.terrain == TERRAIN_LAND
    }

    /// A fresh province: no owner or occupier, land, development 1/1/1, no population.
    pub fn default_for(id: ProvinceId) -> (r: Self)
        ensures
            r.id == id,
            r.owner is None,
            r.occupation is None,
            r.terrain == TERRAIN_LAND,
            r.development == [1u16, 1u16, 1u16],
            r.population == 0,
    {
        Province {
            id,
            owner: None,
            occupation: None,
            terrain: TERRAIN_LAND,
            development: [1, 1, 1],
            population: 0,
        }
    }
}

/// Nation/tag: one country. `war_exhaustion_bits` holds the bit pattern of the
/// `f32` war exhaustion (0.0 = fresh, 100.0 = exhausted).
#[derive(Clone, Copy)]
pub struct Nation {
    pub id: NationId,
    pub name_id: u32,
    pub prestige: i32,
    pub stability: i8,
    pub treasury: i64,
    pub manpower: u32,
    pub war_exhaustion_bits: u32,
}

impl Nation {
    /// A fresh nation: everything zero (war exhaustion 0.0).
    pub fn default_for(id: NationId) -> (r: Self)
        ensures
            r.id == id,
            r.name_id == 0,
            r.prestige == 0,
            r.stability == 0,
            r.treasury == 0,
            r.manpower == 0,
            r.war_exhaustion_bits == 0,
    {
        Nation { id, name_id: 0, prestige: 0, stability: 0, treasury: 0, manpower: 0, war_exhaustion_bits: 0 }
    }
}

impl ScopeEntity for Province {
    type Id = ProvinceId;

    fn id(&self) -> (r: ProvinceId)
        ensures
            r == self.id,
    {
        self.id
    }

    fn default_for(id: ProvinceId) -> (r: Self)
        ensures
            r.id == id,
            r.owner is None,
            r.occupation is None,
            r.terrain == TERRAIN_LAND,
            r.development == [1u16, 1u16, 1u16],
            r.population == 0,
    {
        Province::default_for(id)
    }
}

impl ScopeEntity for Nation {
    type Id = NationId;

    fn id(&self) -> (r: NationId)
        ensures
            r == self.id,
    {
        self.id
    }

    fn default_for(id: NationId) -> (r: Self)
        ensures
            r.id == id,
            r.name_id == 0,
            r.prestige == 0,
            r.stability == 0,
            r.treasury == 0,
            r.manpower == 0,
            r.war_exhaustion_bits == 0,
    {
        Nation::default_for(id)
    }
}

/// Unit: army or fleet.
#[derive(Clone, Copy)]
pub struct Unit {
    pub province: ProvinceId,
    pub owner: NationId,
    pub strength: u16,
    /// 0 = army, 1 = fleet, etc.
    pub kind: u8,
}

} // verus!

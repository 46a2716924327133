//! Game world data: ids, map layouts, adjacency, bulk stores, and game time.
//!
//! Provinces and nations use dense storage so thousands of entities can be
//! iterated without pointer chasing. Ids are 1-based; index = raw - 1.

use vstd::prelude::*;
use crate::archetypes::{Nation, Province, TERRAIN_LAND};
use crate::armies::ArmyRegistry;
use crate::character_gen::CharacterGenConfig;
use crate::event_bus::EventBus;
use crate::events::{ActiveEvent, EventQueue, EventRegistry};
use crate::modifiers::{NationModifiers, ProvinceModifiers};
use crate::progress_trees::{ProgressState, ProgressTrees, scopes_view};
use crate::tags::{NationTags, ProvinceTags, TagRegistry};

verus! {

/// Scope ids (ProvinceId, NationId) so generic systems can work with either.
pub trait ScopeId: Sized + Copy {
    /// Raw 1-based id value.
    spec fn spec_raw(&self) -> u32;

    /// Dense 0-based index for array access.
    fn index(self) -> (r: usize)
        ensures
            r == self.spec_raw() - 1,
    ;

    /// Raw 1-based id value.
    fn raw(self) -> (r: u32)
        ensures
            r == self.spec_raw(),
            r != 0,
    ;

    /// Construct from a raw 1-based id (zero is not an id).
    fn from_raw(raw: u32) -> (r: Self)
        requires
            raw != 0,
        ensures
            r.spec_raw() == raw,
    ;

    /// Ids are determined by their raw values.
    proof fn lemma_raw_injective(a: Self, b: Self)
        ensures
            (a.spec_raw() == b.spec_raw()) == (a == b),
    ;

    /// Whether these are nation ids (stores split by nation and province keep such
    /// scopes per nation, every other scope per province).
    spec fn spec_is_nation() -> bool;

    fn is_nation() -> (r: bool)
        ensures
            r == Self::spec_is_nation(),
    ;
}

/// Stable id for a province (map slot). Dense index into province arrays.
#[derive(Clone, Copy, Debug, PartialEq, Eq, Hash, Structural)]
pub struct ProvinceId {
    raw: u32,
}

impl ProvinceId {
    #[verifier::type_invariant]
    spec fn nonzero(self) -> bool {
        self.raw != 0
    }

    /// The raw 1-based value.
    pub closed spec fn view(self) -> u32 {
        self.raw
    }
}

impl ScopeId for ProvinceId {
    closed spec fn spec_raw(&self) -> u32 {
        self.raw
    }

    fn index(self) -> (r: usize) {
        proof { use_type_invariant(&self); }
        (self.raw - 1) as usize
    }

    fn raw(self) -> (r: u32) {
        proof { use_type_invariant(&self); }
        self.raw
    }

    fn from_raw(raw: u32) -> (r: Self) {
        ProvinceId { raw }
    }

    proof fn lemma_raw_injective(a: Self, b: Self) {
    }

    open spec fn spec_is_nation() -> bool {
        false
    }

    fn is_nation() -> (r: bool) {
        false
    }
}

/// Stable id for a nation/tag.
#[derive(Clone, Copy, Debug, PartialEq, Eq, Hash, Structural)]
pub struct NationId {
    raw: u32,
}

impl NationId {
    #[verifier::type_invariant]
    spec fn nonzero(self) -> bool {
        self.raw != 0
    }

    /// The id whose raw value is `raw`.
    pub closed spec fn with_raw(raw: u32) -> NationId {
        NationId { raw }
    }

    pub proof fn lemma_with_raw(raw: u32)
        ensures
            Self::with_raw(raw).spec_raw() == raw,
    {
    }
}

impl ScopeId for NationId {
    closed spec fn spec_raw(&self) -> u32 {
        self.raw
    }

    fn index(self) -> (r: usize) {
        proof { use_type_invariant(&self); }
        (self.raw - 1) as usize
    }

    fn raw(self) -> (r: u32) {
        proof { use_type_invariant(&self); }
        self.raw
    }

    fn from_raw(raw: u32) -> (r: Self) {
        NationId { raw }
    }

    proof fn lemma_raw_injective(a: Self, b: Self) {
    }

    open spec fn spec_is_nation() -> bool {
        true
    }

    fn is_nation() -> (r: bool) {
        true
    }
}

/// Entity handle for units.
#[derive(Clone, Copy, Debug, PartialEq, Eq, Hash, Structural)]
pub struct UnitId(pub u64);

/// Total counts fixed at world init (grand strategy: province count is static).
#[derive(Clone, Copy, Debug, PartialEq, Eq, Structural)]
pub struct WorldBounds {
    pub province_count: u32,
    pub nation_count: u32,
}

/// Row-major tile index of `(x, y)` in a grid `width` wide.
pub open spec fn grid_index(width: u32, x: u32, y: u32) -> int {
    y * width + x
}

/// `y * width + x`, computed without overflow.
fn tile_offset(width: u32, x: u32, y: u32) -> (r: u64)
    ensures
        r == grid_index(width, x, y),
{
    proof {
        assert(y * width <= u32::MAX * u32::MAX) by (nonlinear_arith);
    }
    (y as u64) * (width as u64) + (x as u64)
}

/// Tile count of a `width` x `height` grid, saturating at `usize::MAX`.
pub open spec fn spec_area(width: u32, height: u32) -> nat {
    if width * height <= usize::MAX { (width * height) as nat } else { usize::MAX as nat }
}

fn saturating_area(width: u32, height: u32) -> (r: usize)
    ensures
        r == spec_area(width, height),
{
    proof {
        assert(width * height <= u32::MAX * u32::MAX) by (nonlinear_arith);
    }
    let a: u64 = (width as u64) * (height as u64);
    if a <= usize::MAX as u64 { a as usize } else { usize::MAX }
}

/// Square grid layout: each tile (x, y) holds a province raw id (0 = no province).
pub struct MapLayout {
    pub width: u32,
    pub height: u32,
    /// Index = y * width + x; value = province raw id (0 = empty).
    pub tiles: Vec<u32>,
}

impl MapLayout {
    pub fn new(width: u32, height: u32) -> (r: Self)
        ensures
            r.width == width,
            r.height == height,
            r.tiles@ == Seq::new(spec_area(width, height), |i: int| 0u32),
    {
        let len = saturating_area(width, height);
        MapLayout { width, height, tiles: vec![0u32; len] }
    }

    pub fn index(&self, x: u32, y: u32) -> (r: usize)
        requires
            grid_index(self.width, x, y) <= usize::MAX,
        ensures
            r == grid_index(self.width, x, y),
    {
        (y as usize) * (self.width as usize) + (x as usize)
    }

    /// Province raw id at `(x, y)`; 0 when the index falls outside the tiles.
    pub fn get(&self, x: u32, y: u32) -> (r: u32)
        ensures
            r == (if grid_index(self.width, x, y) < self.tiles@.len() {
                self.tiles@[grid_index(self.width, x, y)]
            } else {
                0
            }),
    {
        let i = tile_offset(self.width, x, y);
        if i < self.tiles.len() as u64 { self.tiles[i as usize] } else { 0 }
    }

    /// Sets the tile at `(x, y)`; does nothing when the index falls outside the tiles.
    pub fn set(&mut self, x: u32, y: u32, province_raw: u32)
        ensures
            final(self).width == old(self).width,
            final(self).height == old(self).height,
            final(self).tiles@ == (if grid_index(old(self).width, x, y) < old(self).tiles@.len() {
                old(self).tiles@.update(grid_index(old(self).width, x, y), province_raw)
            } else {
                old(self).tiles@
            }),
    {
        let i = tile_offset(self.width, x, y);
        if i < self.tiles.len() as u64 {
            self.tiles[i as usize] = province_raw;
        }
    }

    pub fn tile_count(&self) -> (r: usize)
        ensures
            r == self.tiles@.len(),
    {
        self.tiles.len()
    }
}

/// Hex grid layout: axial coordinates (q, r); value = province raw id (0 = empty).
pub struct HexMapLayout {
    pub width: u32,
    pub height: u32,
    /// Index = r * width + q; value = province raw id (0 = empty).
    pub tiles: Vec<u32>,
}

/// `x - 1`, saturating at 0.
pub open spec fn sat_dec(x: u32) -> u32 {
    if x == 0 { 0 } else { (x - 1) as u32 }
}

/// The six axial neighbours of `(q, r)`, with coordinates saturating at 0.
pub open spec fn hex_neighbors(q: u32, r: u32) -> Seq<(u32, u32)> {
    seq![
        ((q + 1) as u32, r),
        ((q + 1) as u32, sat_dec(r)),
        (q, sat_dec(r)),
        (sat_dec(q), r),
        (sat_dec(q), (r + 1) as u32),
        (q, (r + 1) as u32),
    ]
}

impl HexMapLayout {
    pub fn new(width: u32, height: u32) -> (r: Self)
        ensures
            r.width == width,
            r.height == height,
            r.tiles@ == Seq::new(spec_area(width, height), |i: int| 0u32),
    {
        let len = saturating_area(width, height);
        HexMapLayout { width, height, tiles: vec![0u32; len] }
    }

    pub fn index(&self, q: u32, r: u32) -> (res: usize)
        requires
            grid_index(self.width, q, r) <= usize::MAX,
        ensures
            res == grid_index(self.width, q, r),
    {
        (r as usize) * (self.width as usize) + (q as usize)
    }

    /// Province raw id at `(q, r)`; 0 when the index falls outside the tiles.
    pub fn get(&self, q: u32, r: u32) -> (res: u32)
        ensures
            res == (if grid_index(self.width, q, r) < self.tiles@.len() {
                self.tiles@[grid_index(self.width, q, r)]
            } else {
                0
            }),
    {
        let i = tile_offset(self.width, q, r);
        if i < self.tiles.len() as u64 { self.tiles[i as usize] } else { 0 }
    }

    /// Sets the hex at `(q, r)`; does nothing when the index falls outside the tiles.
    pub fn set(&mut self, q: u32, r: u32, province_raw: u32)
        ensures
            final(self).width == old(self).width,
            final(self).height == old(self).height,
            final(self).tiles@ == (if grid_index(old(self).width, q, r) < old(self).tiles@.len() {
                old(self).tiles@.update(grid_index(old(self).width, q, r), province_raw)
            } else {
                old(self).tiles@
            }),
    {
        let i = tile_offset(self.width, q, r);
        if i < self.tiles.len() as u64 {
            self.tiles[i as usize] = province_raw;
        }
    }

    pub fn hex_count(&self) -> (res: usize)
        ensures
            res == self.tiles@.len(),
    {
        self.tiles.len()
    }

    /// Six axial neighbours: (q+1,r), (q+1,r-1), (q,r-1), (q-1,r), (q-1,r+1), (q,r+1).
    pub fn neighbors(&self, q: u32, r: u32) -> (res: [(u32, u32); 6])
        requires
            q < u32::MAX,
            r < u32::MAX,
        ensures
            res@ == hex_neighbors(q, r),
    {
        let rm = if r == 0 { 0 } else { r - 1 };
        let qm = if q == 0 { 0 } else { q - 1 };
        let res = [(q + 1, r), (q + 1, rm), (q, rm), (qm, r), (qm, r + 1), (q, r + 1)];
        proof {
            assert(res@ =~= hex_neighbors(q, r));
        }
        res
    }
}

/// One province as a closed polygon. Coordinates are the bit patterns of the
/// `f64` world coordinates (`f64::to_bits`), in vertex order.
pub struct ProvincePolygon {
    pub province_id: u32,
    pub vertices: Vec<[u64; 2]>,
}

/// Irregular, vector-based map: provinces as polygons.
pub struct VectorMapLayout {
    pub polygons: Vec<ProvincePolygon>,
}

impl VectorMapLayout {
    pub fn new() -> (r: Self)
        ensures
            r.polygons@.len() == 0,
    {
        VectorMapLayout { polygons: Vec::new() }
    }

    /// Adds a polygon; ignored when the province id is 0 or there are no vertices.
    pub fn add(&mut self, province_id: u32, vertices: Vec<[u64; 2]>)
        ensures
            if province_id != 0 && vertices@.len() > 0 {
                &&& final(self).polygons@.len() == old(self).polygons@.len() + 1
                &&& final(self).polygons@.drop_last() == old(self).polygons@
                &&& final(self).polygons@.last().province_id == province_id
                &&& final(self).polygons@.last().vertices@ == vertices@
            } else {
                final(self).polygons@ == old(self).polygons@
            },
    {
        if province_id != 0 && vertices.len() > 0 {
            self.polygons.push(ProvincePolygon { province_id, vertices });
            proof {
                assert(self.polygons@.drop_last() =~= old(self).polygons@);
            }
        }
    }
}

/// Map layout kind: square grid, hex grid, or irregular vector provinces.
pub enum MapKind {
    Square(MapLayout),
    Hex(HexMapLayout),
    Irregular(VectorMapLayout),
}

impl MapKind {
    pub fn square(width: u32, height: u32) -> (r: Self)
        ensures
            r matches MapKind::Square(m) && m.width == width && m.height == height
                && m.tiles@ == Seq::new(spec_area(width, height), |i: int| 0u32),
    {
        MapKind::Square(MapLayout::new(width, height))
    }

    pub fn hex(width: u32, height: u32) -> (r: Self)
        ensures
            r matches MapKind::Hex(m) && m.width == width && m.height == height
                && m.tiles@ == Seq::new(spec_area(width, height), |i: int| 0u32),
    {
        MapKind::Hex(HexMapLayout::new(width, height))
    }

    pub fn irregular() -> (r: Self)
        ensures
            r matches MapKind::Irregular(m) && m.polygons@.len() == 0,
    {
        MapKind::Irregular(VectorMapLayout::new())
    }
}

/// Province adjacency: for each province index, the raw ids of adjacent provinces.
pub struct ProvinceAdjacency {
    /// adjacent[i] = raw ids of the provinces bordering province index i (0-based).
    pub adjacent: Vec<Vec<u32>>,
}

impl ProvinceAdjacency {
    /// The neighbour lists as sequences.
    pub open spec fn view(&self) -> Seq<Seq<u32>> {
        self.adjacent@.map_values(|v: Vec<u32>| v@)
    }

    pub fn new(province_count: usize) -> (r: Self)
        ensures
            r@ == Seq::new(province_count as nat, |i: int| Seq::<u32>::empty()),
    {
        let mut adjacent: Vec<Vec<u32>> = Vec::new();
        let mut i: usize = 0;
        while i < province_count
            invariant
                i <= province_count,
                adjacent@.len() == i,
                forall|k: int| 0 <= k < i ==> (#[trigger] adjacent@[k])@ == Seq::<u32>::empty(),
            decreases province_count - i,
        {
            adjacent.push(Vec::new());
            i += 1;
        }
        let r = ProvinceAdjacency { adjacent };
        proof {
            assert(r@ =~= Seq::new(province_count as nat, |i: int| Seq::<u32>::empty()));
        }
        r
    }

    /// Neighbours of `id`; empty when the id is beyond the table.
    pub fn get(&self, id: ProvinceId) -> (r: &[u32])
        ensures
            r@ == (if id.spec_raw() - 1 < self@.len() { self@[id.spec_raw() - 1] } else { Seq::empty() }),
    {
        let i = id.index();
        if i < self.adjacent.len() {
            self.adjacent[i].as_slice()
        } else {
            &[]
        }
    }

    /// Appends an empty neighbour list (for a new province).
    pub(crate) fn push_empty(&mut self)
        ensures
            final(self)@ == old(self)@.push(Seq::<u32>::empty()),
    {
        self.adjacent.push(Vec::new());
        proof {
            assert(final(self)@ =~= old(self)@.push(Seq::<u32>::empty()));
        }
    }

    /// Replaces the neighbours of `id`; does nothing when the id is beyond the table.
    pub fn set(&mut self, id: ProvinceId, neighbors: Vec<u32>)
        ensures
            final(self)@ == (if id.spec_raw() - 1 < old(self)@.len() {
                old(self)@.update(id.spec_raw() - 1, neighbors@)
            } else {
                old(self)@
            }),
    {
        let i = id.index();
        if i < self.adjacent.len() {
            self.adjacent[i] = neighbors;
            proof {
                assert(self@ =~= old(self)@.update(i as int, neighbors@));
            }
        }
    }

    /// Adds `neighbor_raw` to the neighbours of `id` unless it is 0, already listed,
    /// or the id is beyond the table.
    pub fn add_neighbor(&mut self, id: ProvinceId, neighbor_raw: u32)
        ensures
            final(self)@ == (if neighbor_raw != 0 && id.spec_raw() - 1 < old(self)@.len()
                && !old(self)@[id.spec_raw() - 1].contains(neighbor_raw) {
                old(self)@.update(id.spec_raw() - 1, old(self)@[id.spec_raw() - 1].push(neighbor_raw))
            } else {
                old(self)@
            }),
    {
        if neighbor_raw == 0 {
            return;
        }
        let i = id.index();
        if i < self.adjacent.len() {
            let mut found = false;
            let n = self.adjacent[i].len();
            let mut k: usize = 0;
            while k < n
                invariant
                    i < self.adjacent@.len(),
                    n == self.adjacent@[i as int]@.len(),
                    k <= n,
                    found == exists|j: int| 0 <= j < k && self.adjacent@[i as int]@[j] == neighbor_raw,
                decreases n - k,
            {
                if self.adjacent[i][k] == neighbor_raw {
                    found = true;
                }
                k += 1;
            }
            if !found {
                self.adjacent[i].push(neighbor_raw);
                proof {
                    assert(self@ =~= old(self)@.update(i as int, old(self)@[i as int].push(neighbor_raw)));
                }
            } else {
                proof {
                    assert(self@ =~= old(self)@);
                }
            }
        }
    }
}

/// Bulk province data.
pub struct ProvinceStore {
    pub provinces: Vec<Province>,
}

impl ProvinceStore {
    /// The province with id `id`, if the store holds that many provinces.
    pub fn get(&self, id: ProvinceId) -> (r: Option<&Province>)
        ensures
            r == (if id.spec_raw() - 1 < self.provinces@.len() {
                Some(&self.provinces@[id.spec_raw() - 1])
            } else {
                None
            }),
    {
        let i = id.index();
        if i < self.provinces.len() { Some(&self.provinces[i]) } else { None }
    }

    /// Mutable access to the province with id `id`, if the store holds that many provinces.
    pub fn get_mut(&mut self, id: ProvinceId) -> (r: Option<&mut Province>)
        ensures
            id.spec_raw() - 1 < old(self).provinces@.len() ==> (r matches Some(p)
                && *p == old(self).provinces@[id.spec_raw() - 1]
                && final(self).provinces@ == old(self).provinces@.update(id.spec_raw() - 1, *final(p))),
            id.spec_raw() - 1 >= old(self).provinces@.len() ==> r is None && final(self).provinces@ == old(self).provinces@,
    {
        let i = id.index();
        if i < self.provinces.len() { Some(&mut self.provinces[i]) } else { None }
    }

    /// Every province with its id, in store order (id = position + 1).
    pub fn iter(&self) -> (r: Vec<(ProvinceId, Province)>)
        requires
            self.provinces@.len() <= u32::MAX,
        ensures
            r@.len() == self.provinces@.len(),
            forall|i: int| 0 <= i < r@.len() ==> (#[trigger] r@[i]).0.spec_raw() == i + 1
                && r@[i].1 == self.provinces@[i],
    {
        let mut out: Vec<(ProvinceId, Province)> = Vec::new();
        let n = self.provinces.len();
        let mut i: usize = 0;
        while i < n
            invariant
                n == self.provinces@.len(),
                n <= u32::MAX,
                i <= n,
                out@.len() == i,
                forall|k: int| 0 <= k < i ==> (#[trigger] out@[k]).0.spec_raw() == k + 1
                    && out@[k].1 == self.provinces@[k],
            decreases n - i,
        {
            out.push((ProvinceId::from_raw((i + 1) as u32), self.provinces[i]));
            i += 1;
        }
        out
    }
}

/// Bulk nation data.
pub struct NationStore {
    pub nations: Vec<Nation>,
}

impl NationStore {
    /// The nation with id `id`, if the store holds that many nations.
    pub fn get(&self, id: NationId) -> (r: Option<&Nation>)
        ensures
            r == (if id.spec_raw() - 1 < self.nations@.len() {
                Some(&self.nations@[id.spec_raw() - 1])
            } else {
                None
            }),
    {
        let i = id.index();
        if i < self.nations.len() { Some(&self.nations[i]) } else { None }
    }

    /// Mutable access to the nation with id `id`, if the store holds that many nations.
    pub fn get_mut(&mut self, id: NationId) -> (r: Option<&mut Nation>)
        ensures
            id.spec_raw() - 1 < old(self).nations@.len() ==> (r matches Some(p)
                && *p == old(self).nations@[id.spec_raw() - 1]
                && final(self).nations@ == old(self).nations@.update(id.spec_raw() - 1, *final(p))),
            id.spec_raw() - 1 >= old(self).nations@.len() ==> r is None && final(self).nations@ == old(self).nations@,
    {
        let i = id.index();
        if i < self.nations.len() { Some(&mut self.nations[i]) } else { None }
    }
}

/// What unit of time a single simulation tick represents.
#[derive(Clone, Copy, PartialEq, Eq, Hash, Debug, Structural)]
pub enum TickUnit {
    Second,
    Minute,
    Hour,
    Day,
    Week,
    Month,
    Year,
}

impl Default for TickUnit {
    fn default() -> (r: Self)
        ensures
            r == TickUnit::Day,
    {
        TickUnit::Day
    }
}

/// Configuration for the simulation time system: what a tick means and when the
/// secondary and tertiary schedule tiers fire.
pub struct TimeConfig {
    /// What one simulation tick represents.
    pub tick_unit: TickUnit,
    /// How many ticks until the secondary schedule fires (e.g. 30 days = 1 month).
    pub secondary_every: u32,
    /// How many ticks until the tertiary schedule fires (e.g. 365 days = 1 year).
    pub tertiary_every: u32,
    /// Labels for the three schedule tiers (for UI display).
    pub primary_label: String,
    pub secondary_label: String,
    pub tertiary_label: String,
}

impl TimeConfig {
    /// A configuration with the given unit, thresholds and labels.
    pub open spec fn has(self, unit: TickUnit, secondary: u32, tertiary: u32, labels: Seq<Seq<char>>) -> bool {
        &&& self.tick_unit == unit
        &&& self.secondary_every == secondary
        &&& self.tertiary_every == tertiary
        &&& labels.len() == 3
        &&& self.primary_label@ == labels[0]
        &&& self.secondary_label@ == labels[1]
        &&& self.tertiary_label@ == labels[2]
    }

    /// A field-by-field copy.
    pub fn copied(&self) -> (r: Self)
        ensures
            r == *self,
    {
        TimeConfig {
            tick_unit: self.tick_unit,
            secondary_every: self.secondary_every,
            tertiary_every: self.tertiary_every,
            primary_label: self.primary_label.clone(),
            secondary_label: self.secondary_label.clone(),
            tertiary_label: self.tertiary_label.clone(),
        }
    }

    /// EU4/CK3 style: tick=Day, secondary=Month (30 days), tertiary=Year (365 days).
    pub fn grand_strategy() -> (r: Self)
        ensures
            r.has(TickUnit::Day, 30, 365, seq!["Daily"@, "Monthly"@, "Yearly"@]),
    {
        TimeConfig {
            tick_unit: TickUnit::Day,
            secondary_every: 30,
            tertiary_every: 365,
            primary_label: "Daily".to_owned(),
            secondary_label: "Monthly".to_owned(),
            tertiary_label: "Yearly".to_owned(),
        }
    }

    /// HoI4 style: tick=Hour, secondary=Day (24h), tertiary=Month (720h).
    pub fn tactical() -> (r: Self)
        ensures
            r.has(TickUnit::Hour, 24, 720, seq!["Hourly"@, "Daily"@, "Monthly"@]),
    {
        TimeConfig {
            tick_unit: TickUnit::Hour,
            secondary_every: 24,
            tertiary_every: 24 * 30,
            primary_label: "Hourly".to_owned(),
            secondary_label: "Daily".to_owned(),
            tertiary_label: "Monthly".to_owned(),
        }
    }

    /// RTS style: tick=Second, secondary=Minute (60s), tertiary=Hour (3600s).
    pub fn realtime() -> (r: Self)
        ensures
            r.has(TickUnit::Second, 60, 3600, seq!["Per Second"@, "Per Minute"@, "Per Hour"@]),
    {
        TimeConfig {
            tick_unit: TickUnit::Second,
            secondary_every: 60,
            tertiary_every: 3600,
            primary_label: "Per Second".to_owned(),
            secondary_label: "Per Minute".to_owned(),
            tertiary_label: "Per Hour".to_owned(),
        }
    }

    /// Civilization style: tick=Year, secondary=Decade (10), tertiary=Century (100).
    pub fn civilization() -> (r: Self)
        ensures
            r.has(TickUnit::Year, 10, 100, seq!["Yearly"@, "Per Decade"@, "Per Century"@]),
    {
        TimeConfig {
            tick_unit: TickUnit::Year,
            secondary_every: 10,
            tertiary_every: 100,
            primary_label: "Yearly".to_owned(),
            secondary_label: "Per Decade".to_owned(),
            tertiary_label: "Per Century".to_owned(),
        }
    }

    /// Fully custom configuration.
    pub fn custom(tick_unit: TickUnit, secondary_every: u32, tertiary_every: u32, labels: [&str; 3]) -> (r: Self)
        ensures
            r.has(tick_unit, secondary_every, tertiary_every, seq![labels[0]@, labels[1]@, labels[2]@]),
    {
        TimeConfig {
            tick_unit,
            secondary_every,
            tertiary_every,
            primary_label: labels[0].to_owned(),
            secondary_label: labels[1].to_owned(),
            tertiary_label: labels[2].to_owned(),
        }
    }
}

impl Default for TimeConfig {
    fn default() -> (r: Self)
        ensures
            r.has(TickUnit::Day, 30, 365, seq!["Daily"@, "Monthly"@, "Yearly"@]),
    {
        Self::grand_strategy()
    }
}

/// Full-precision game time, down to the second. The tick counter drives schedule
/// thresholds; the calendar fields are for display.
#[derive(Clone, Copy, PartialEq, Eq, Hash, Debug, Structural)]
pub struct GameTime {
    pub second: u8,
    pub minute: u8,
    pub hour: u8,
    pub day: u16,
    pub month: u8,
    pub year: i32,
    /// Total ticks elapsed since simulation start.
    pub tick: u64,
}

impl Default for GameTime {
    /// 1444-01-01 00:00:00, tick 0.
    fn default() -> (r: Self)
        ensures
            r == (GameTime { second: 0, minute: 0, hour: 0, day: 1, month: 1, year: 1444, tick: 0 }),
    {
        GameTime { second: 0, minute: 0, hour: 0, day: 1, month: 1, year: 1444, tick: 0 }
    }
}

/// Days-since-epoch ordinal used by the engine: `year * 365 + month * 31 + day`.
pub open spec fn days_ordinal(year: i32, month: u8, day: u16) -> int {
    year * 365 + month * 31 + day
}

impl GameTime {
    pub fn new(year: i32, month: u8, day: u16) -> (r: Self)
        ensures
            r == (GameTime { second: 0, minute: 0, hour: 0, day, month, year, tick: 0 }),
    {
        GameTime { second: 0, minute: 0, hour: 0, day, month, year, tick: 0 }
    }

    pub fn with_time(year: i32, month: u8, day: u16, hour: u8, minute: u8, second: u8) -> (r: Self)
        ensures
            r == (GameTime { second, minute, hour, day, month, year, tick: 0 }),
    {
        GameTime { second, minute, hour, day, month, year, tick: 0 }
    }

    /// Total days since epoch for ordering and delta math.
    pub fn to_days_since_epoch(self) -> (r: i64)
        ensures
            r == days_ordinal(self.year, self.month, self.day),
    {
        let y = self.year as i64;
        let m = self.month as i64;
        let d = self.day as i64;
        (y * 365) + (m * 31) + d
    }

    /// Total seconds since midnight.
    pub fn to_seconds_today(self) -> (r: u32)
        ensures
            r == self.hour * 3600 + self.minute * 60 + self.second,
    {
        self.hour as u32 * 3600 + self.minute as u32 * 60 + self.second as u32
    }

    /// The calendar date part (drops sub-day precision).
    pub fn to_date(self) -> (r: GameDate)
        ensures
            r == self.spec_date(),
    {
        GameDate { day: self.day, month: self.month, year: self.year }
    }

    pub open spec fn spec_date(self) -> GameDate {
        GameDate { day: self.day, month: self.month, year: self.year }
    }
}

/// Current game date (day/month/year).
#[derive(Clone, Copy, PartialEq, Eq, Hash, Debug, Structural)]
pub struct GameDate {
    pub day: u16,
    pub month: u8,
    pub year: i32,
}

impl Default for GameDate {
    /// 1444-01-01.
    fn default() -> (r: Self)
        ensures
            r == (GameDate { day: 1, month: 1, year: 1444 }),
    {
        GameDate { day: 1, month: 1, year: 1444 }
    }
}

impl GameDate {
    pub fn new(year: i32, month: u8, day: u16) -> (r: Self)
        ensures
            r == (GameDate { day, month, year }),
    {
        GameDate { day, month, year }
    }

    /// Total days since epoch for ordering and delta math.
    pub fn to_days_since_epoch(self) -> (r: i64)
        ensures
            r == days_ordinal(self.year, self.month, self.day),
    {
        let y = self.year as i64;
        let m = self.month as i64;
        let d = self.day as i64;
        (y * 365) + (m * 31) + d
    }
}

/// A fresh province with raw id `raw` (see `Province::default_for`).
pub open spec fn fresh_province(p: Province, raw: int) -> bool {
    &&& p.id.spec_raw() == raw
    &&& p.owner is None
    &&& p.occupation is None
    &&& p.terrain == TERRAIN_LAND
    &&& p.development == [1u16, 1u16, 1u16]
    &&& p.population == 0
}

/// A fresh nation with raw id `raw` (see `Nation::default_for`).
pub open spec fn fresh_nation(n: Nation, raw: int) -> bool {
    &&& n.id.spec_raw() == raw
    &&& n.name_id == 0
    &&& n.prestige == 0
    &&& n.stability == 0
    &&& n.treasury == 0
    &&& n.manpower == 0
    &&& n.war_exhaustion_bits == 0
}

/// Tiles of a `len`-tile grid filled with province ids 1..=count, cycling.
pub open spec fn cycled_tiles(len: nat, count: u32) -> Seq<u32> {
    Seq::new(len, |i: int| (i % (count as int) + 1) as u32)
}

/// What a builder holds.
pub struct WorldBuilderView {
    pub province_count: u32,
    pub nation_count: u32,
    pub map_kind: Option<MapKind>,
    pub time_config: Option<TimeConfig>,
    pub start_time: Option<GameTime>,
    pub enable_tags: bool,
    pub enable_character_gen: bool,
    pub enable_modifiers: bool,
    pub enable_events: bool,
    pub enable_event_bus: bool,
    pub enable_progress_trees: bool,
    pub enable_armies: bool,
}

/// Builder for a new game world: counts, map, time, and the optional systems.
pub struct WorldBuilder {
    province_count: u32,
    nation_count: u32,
    map_kind: Option<MapKind>,
    time_config: Option<TimeConfig>,
    start_time: Option<GameTime>,
    enable_tags: bool,
    enable_character_gen: bool,
    enable_modifiers: bool,
    enable_events: bool,
    enable_event_bus: bool,
    enable_progress_trees: bool,
    enable_armies: bool,
}

/// The resources a built world starts with; the optional systems are present when
/// they were enabled.
pub struct WorldParts {
    pub bounds: WorldBounds,
    pub time: GameTime,
    pub date: GameDate,
    pub time_config: TimeConfig,
    pub provinces: ProvinceStore,
    pub nations: NationStore,
    pub map_kind: Option<MapKind>,
    pub adjacency: ProvinceAdjacency,
    pub tag_registry: Option<TagRegistry>,
    pub province_tags: Option<ProvinceTags>,
    pub nation_tags: Option<NationTags>,
    pub character_gen: Option<CharacterGenConfig>,
    pub province_modifiers: Option<ProvinceModifiers>,
    pub nation_modifiers: Option<NationModifiers>,
    pub event_registry: Option<EventRegistry>,
    pub event_queue: Option<EventQueue>,
    pub active_event: Option<ActiveEvent>,
    pub event_bus: Option<EventBus>,
    pub progress_trees: Option<ProgressTrees>,
    pub progress_state: Option<ProgressState>,
    pub army_registry: Option<ArmyRegistry>,
}

impl Default for WorldBuilder {
    fn default() -> (r: Self)
        ensures
            r@ == WorldBuilder::empty_view(),
    {
        WorldBuilder::new()
    }
}

impl WorldBuilder {
    pub closed spec fn view(&self) -> WorldBuilderView {
        WorldBuilderView {
            province_count: self.province_count,
            nation_count: self.nation_count,
            map_kind: self.map_kind,
            time_config: self.time_config,
            start_time: self.start_time,
            enable_tags: self.enable_tags,
            enable_character_gen: self.enable_character_gen,
            enable_modifiers: self.enable_modifiers,
            enable_events: self.enable_events,
            enable_event_bus: self.enable_event_bus,
            enable_progress_trees: self.enable_progress_trees,
            enable_armies: self.enable_armies,
        }
    }

    /// No provinces or nations, no map, default time, no optional system.
    pub open spec fn empty_view() -> WorldBuilderView {
        WorldBuilderView {
            province_count: 0,
            nation_count: 0,
            map_kind: None,
            time_config: None,
            start_time: None,
            enable_tags: false,
            enable_character_gen: false,
            enable_modifiers: false,
            enable_events: false,
            enable_event_bus: false,
            enable_progress_trees: false,
            enable_armies: false,
        }
    }

    pub fn new() -> (r: Self)
        ensures
            r@ == Self::empty_view(),
    {
        WorldBuilder {
            province_count: 0,
            nation_count: 0,
            map_kind: None,
            time_config: None,
            start_time: None,
            enable_tags: false,
            enable_character_gen: false,
            enable_modifiers: false,
            enable_events: false,
            enable_event_bus: false,
            enable_progress_trees: false,
            enable_armies: false,
        }
    }

    pub fn provinces(self, n: u32) -> (r: Self)
        ensures
            r@ == (WorldBuilderView { province_count: n, ..self@ }),
    {
        let mut b = self;
        b.province_count = n;
        b
    }

    pub fn nations(self, n: u32) -> (r: Self)
        ensures
            r@ == (WorldBuilderView { nation_count: n, ..self@ }),
    {
        let mut b = self;
        b.nation_count = n;
        b
    }

    /// Square grid map, tiles filled with province ids 1, 2, ... cycling through the
    /// province count (which must not be zero unless the grid is empty).
    pub fn map_size(self, width: u32, height: u32) -> (r: Self)
        requires
            self@.province_count > 0 || spec_area(width, height) == 0,
        ensures
            r@.map_kind matches Some(MapKind::Square(m)) && m.width == width && m.height == height
                && m.tiles@ == cycled_tiles(spec_area(width, height), self@.province_count),
            r@ == (WorldBuilderView { map_kind: r@.map_kind, ..self@ }),
    {
        let mut b = self;
        let mut map = MapLayout::new(width, height);
        let n = b.province_count as usize;
        let len = map.tiles.len();
        let mut i: usize = 0;
        while i < len
            invariant
                len == map.tiles@.len(),
                len == spec_area(width, height),
                map.width == width,
                map.height == height,
                n == b.province_count,
                n > 0 || len == 0,
                i <= len,
                forall|j: int| 0 <= j < i ==> map.tiles@[j] == (j % (n as int) + 1) as u32,
            decreases len - i,
        {
            map.tiles.set(i, ((i % n) as u32) + 1);
            i += 1;
        }
        proof {
            assert(map.tiles@ =~= cycled_tiles(spec_area(width, height), b.province_count));
        }
        b.map_kind = Some(MapKind::Square(map));
        b
    }

    /// Square grid map with every tile empty (0).
    pub fn map_size_empty(self, width: u32, height: u32) -> (r: Self)
        ensures
            r@.map_kind matches Some(MapKind::Square(m)) && m.width == width && m.height == height
                && m.tiles@ == Seq::new(spec_area(width, height), |i: int| 0u32),
            r@ == (WorldBuilderView { map_kind: r@.map_kind, ..self@ }),
    {
        let mut b = self;
        b.map_kind = Some(MapKind::Square(MapLayout::new(width, height)));
        b
    }

    /// Hex grid map, tiles filled with province ids 1, 2, ... cycling through the
    /// province count (which must not be zero unless the grid is empty).
    pub fn map_hex(self, width: u32, height: u32) -> (r: Self)
        requires
            self@.province_count > 0 || spec_area(width, height) == 0,
        ensures
            r@.map_kind matches Some(MapKind::Hex(m)) && m.width == width && m.height == height
                && m.tiles@ == cycled_tiles(spec_area(width, height), self@.province_count),
            r@ == (WorldBuilderView { map_kind: r@.map_kind, ..self@ }),
    {
        let mut b = self;
        let mut hex = HexMapLayout::new(width, height);
        let n = b.province_count as usize;
        let len = hex.tiles.len();
        let mut i: usize = 0;
        while i < len
            invariant
                len == hex.tiles@.len(),
                len == spec_area(width, height),
                hex.width == width,
                hex.height == height,
                n == b.province_count,
                n > 0 || len == 0,
                i <= len,
                forall|j: int| 0 <= j < i ==> hex.tiles@[j] == (j % (n as int) + 1) as u32,
            decreases len - i,
        {
            hex.tiles.set(i, ((i % n) as u32) + 1);
            i += 1;
        }
        proof {
            assert(hex.tiles@ =~= cycled_tiles(spec_area(width, height), b.province_count));
        }
        b.map_kind = Some(MapKind::Hex(hex));
        b
    }

    /// Hex grid map with every tile empty (0).
    pub fn map_hex_empty(self, width: u32, height: u32) -> (r: Self)
        ensures
            r@.map_kind matches Some(MapKind::Hex(m)) && m.width == width && m.height == height
                && m.tiles@ == Seq::new(spec_area(width, height), |i: int| 0u32),
            r@ == (WorldBuilderView { map_kind: r@.map_kind, ..self@ }),
    {
        let mut b = self;
        b.map_kind = Some(MapKind::Hex(HexMapLayout::new(width, height)));
        b
    }

    /// Irregular vector map without polygons.
    pub fn map_irregular(self) -> (r: Self)
        ensures
            r@.map_kind matches Some(MapKind::Irregular(m)) && m.polygons@.len() == 0,
            r@ == (WorldBuilderView { map_kind: r@.map_kind, ..self@ }),
    {
        let mut b = self;
        b.map_kind = Some(MapKind::Irregular(VectorMapLayout::new()));
        b
    }

    /// Enable tags (registry and per-province and per-nation tags).
    pub fn with_tags(self) -> (r: Self)
        ensures
            r@ == (WorldBuilderView { enable_tags: true, ..self@ }),
    {
        let mut b = self;
        b.enable_tags = true;
        b
    }

    /// Enable the default character generator's settings.
    pub fn with_character_generator(self) -> (r: Self)
        ensures
            r@ == (WorldBuilderView { enable_character_gen: true, ..self@ }),
    {
        let mut b = self;
        b.enable_character_gen = true;
        b
    }

    /// Enable modifiers (per province and per nation).
    pub fn with_modifiers(self) -> (r: Self)
        ensures
            r@ == (WorldBuilderView { enable_modifiers: true, ..self@ }),
    {
        let mut b = self;
        b.enable_modifiers = true;
        b
    }

    /// Enable pop-up events (registry, queue, active event).
    pub fn with_events(self) -> (r: Self)
        ensures
            r@ == (WorldBuilderView { enable_events: true, ..self@ }),
    {
        let mut b = self;
        b.enable_events = true;
        b
    }

    /// Enable the event bus.
    pub fn with_event_bus(self) -> (r: Self)
        ensures
            r@ == (WorldBuilderView { enable_event_bus: true, ..self@ }),
    {
        let mut b = self;
        b.enable_event_bus = true;
        b
    }

    /// Enable progress trees (definitions and per-scope progress).
    pub fn with_progress_trees(self) -> (r: Self)
        ensures
            r@ == (WorldBuilderView { enable_progress_trees: true, ..self@ }),
    {
        let mut b = self;
        b.enable_progress_trees = true;
        b
    }

    /// Enable armies (army registry).
    pub fn with_armies(self) -> (r: Self)
        ensures
            r@ == (WorldBuilderView { enable_armies: true, ..self@ }),
    {
        let mut b = self;
        b.enable_armies = true;
        b
    }

    /// Time configuration (the grand strategy one when not set).
    pub fn time_config(self, config: TimeConfig) -> (r: Self)
        ensures
            r@ == (WorldBuilderView { time_config: Some(config), ..self@ }),
    {
        let mut b = self;
        b.time_config = Some(config);
        b
    }

    /// Start time (1444-01-01 00:00:00 when not set).
    pub fn start_time(self, time: GameTime) -> (r: Self)
        ensures
            r@ == (WorldBuilderView { start_time: Some(time), ..self@ }),
    {
        let mut b = self;
        b.start_time = Some(time);
        b
    }

    /// The resources of the world this builder describes: bounds, time and date, time
    /// configuration, fresh provinces and nations (ids 1, 2, ...), the map, empty
    /// adjacency, and the enabled systems in their starting state.
    pub fn build(self) -> (r: WorldParts)
        ensures
            r.bounds == (WorldBounds { province_count: self@.province_count, nation_count: self@.nation_count }),
            r.time == (match self@.start_time {
                Some(t) => t,
                None => GameTime { second: 0, minute: 0, hour: 0, day: 1, month: 1, year: 1444, tick: 0 },
            }),
            r.date == r.time.spec_date(),
            self@.time_config is Some ==> r.time_config == self@.time_config->0,
            self@.time_config is None ==> r.time_config.has(TickUnit::Day, 30, 365, seq!["Daily"@, "Monthly"@, "Yearly"@]),
            r.provinces.provinces@.len() == self@.province_count,
            forall|i: int| 0 <= i < self@.province_count ==> fresh_province(#[trigger] r.provinces.provinces@[i], i + 1),
            r.nations.nations@.len() == self@.nation_count,
            forall|i: int| 0 <= i < self@.nation_count ==> fresh_nation(#[trigger] r.nations.nations@[i], i + 1),
            r.map_kind == self@.map_kind,
            r.adjacency@ == Seq::new(self@.province_count as nat, |i: int| Seq::<u32>::empty()),
            r.tag_registry is Some == self@.enable_tags,
            r.province_tags is Some == self@.enable_tags,
            r.nation_tags is Some == self@.enable_tags,
            r.tag_registry matches Some(t) ==> t.types_view().len() == 0 && t.tags_view().len() == 0,
            r.province_tags matches Some(t) ==> t.entries() == Map::<u64, crate::tags::TagId>::empty(),
            r.nation_tags matches Some(t) ==> t.entries() == Map::<u64, crate::tags::TagId>::empty(),
            r.character_gen is Some == self@.enable_character_gen,
            r.character_gen matches Some(c) ==> c.name_pool@ == seq![0u32] && c.military_min == 0 && c.military_max == 6
                && c.diplomacy_min == 0 && c.diplomacy_max == 6 && c.administration_min == 0 && c.administration_max == 6,
            r.province_modifiers is Some == self@.enable_modifiers,
            r.nation_modifiers is Some == self@.enable_modifiers,
            r.province_modifiers matches Some(m) ==> m.scopes() == Seq::new(self@.province_count as nat, |i: int| Seq::<crate::modifiers::Modifier>::empty()) && m.next_raw() == 1,
            r.nation_modifiers matches Some(m) ==> m.scopes() == Seq::new(self@.nation_count as nat, |i: int| Seq::<crate::modifiers::Modifier>::empty()) && m.next_raw() == 1,
            r.event_registry is Some == self@.enable_events,
            r.event_queue is Some == self@.enable_events,
            r.active_event is Some == self@.enable_events,
            r.event_registry matches Some(e) ==> e.defs().dom().len() == 0 && e.next_id_raw == 1,
            r.event_queue matches Some(q) ==> q.pending@.len() == 0,
            r.active_event matches Some(a) ==> a.current is None,
            r.event_bus is Some == self@.enable_event_bus,
            r.event_bus matches Some(b) ==> b.topics().len() == 0 && b.next_raw() == 1 && b.queued().len() == 0
                && b.index().len() == 0,
            r.progress_trees is Some == self@.enable_progress_trees,
            r.progress_state is Some == self@.enable_progress_trees,
            r.progress_trees matches Some(t) ==> t.trees_view().len() == 0 && t.next_tree() == 1 && t.next_node() == 1,
            r.progress_state matches Some(s) ==> scopes_view(s.per_nation@).len() == self@.nation_count
                && scopes_view(s.per_province@).len() == self@.province_count
                && (forall|i: int| 0 <= i < self@.nation_count
                    ==> (#[trigger] scopes_view(s.per_nation@)[i]) == Map::<u32, crate::progress_trees::TreeStateView>::empty())
                && (forall|i: int| 0 <= i < self@.province_count
                    ==> (#[trigger] scopes_view(s.per_province@)[i]) == Map::<u32, crate::progress_trees::TreeStateView>::empty()),
            r.army_registry is Some == self@.enable_armies,
            r.army_registry matches Some(a) ==> a.next_raw == 1
                && a.entity_by_raw@ == Map::<u32, bevy_ecs::entity::Entity>::empty(),
    {
        let pc = self.province_count;
        let nc = self.nation_count;
        let time = match self.start_time {
            Some(t) => t,
            None => GameTime::default(),
        };
        let date = time.to_date();
        let time_config = match self.time_config {
            Some(c) => c,
            None => TimeConfig::default(),
        };
        let mut provinces: Vec<Province> = Vec::new();
        let mut i: u32 = 0;
        while i < pc
            invariant
                i <= pc,
                provinces@.len() == i,
                forall|j: int| 0 <= j < i ==> fresh_province(#[trigger] provinces@[j], j + 1),
            decreases pc - i,
        {
            provinces.push(Province::default_for(ProvinceId::from_raw(i + 1)));
            i += 1;
        }
        let mut nations: Vec<Nation> = Vec::new();
        let mut k: u32 = 0;
        while k < nc
            invariant
                k <= nc,
                nations@.len() == k,
                forall|j: int| 0 <= j < k ==> fresh_nation(#[trigger] nations@[j], j + 1),
            decreases nc - k,
        {
            nations.push(Nation::default_for(NationId::from_raw(k + 1)));
            k += 1;
        }
        let (tag_registry, province_tags, nation_tags) = if self.enable_tags {
            (Some(TagRegistry::new()), Some(ProvinceTags::default()), Some(NationTags::default()))
        } else {
            (None, None, None)
        };
        let character_gen = if self.enable_character_gen { Some(CharacterGenConfig::default()) } else { None };
        let (province_modifiers, nation_modifiers) = if self.enable_modifiers {
            (Some(ProvinceModifiers::new(pc as usize)), Some(NationModifiers::new(nc as usize)))
        } else {
            (None, None)
        };
        let (event_registry, event_queue, active_event) = if self.enable_events {
            (Some(EventRegistry::new()), Some(EventQueue::default()), Some(ActiveEvent::default()))
        } else {
            (None, None, None)
        };
        let event_bus = if self.enable_event_bus { Some(EventBus::new()) } else { None };
        let (progress_trees, progress_state) = if self.enable_progress_trees {
            (Some(ProgressTrees::new()), Some(ProgressState::new(nc as usize, pc as usize)))
        } else {
            (None, None)
        };
        let army_registry = if self.enable_armies { Some(ArmyRegistry::new()) } else { None };
        WorldParts {
            bounds: WorldBounds { province_count: pc, nation_count: nc },
            time,
            date,
            time_config,
            provinces: ProvinceStore { provinces },
            nations: NationStore { nations },
            map_kind: self.map_kind,
            adjacency: ProvinceAdjacency::new(pc as usize),
            tag_registry,
            province_tags,
            nation_tags,
            character_gen,
            province_modifiers,
            nation_modifiers,
            event_registry,
            event_queue,
            active_event,
            event_bus,
            progress_trees,
            progress_state,
            army_registry,
        }
    }
}

/// The per-province resources of a world, those besides bounds and store optional.
pub struct ProvinceTables {
    pub bounds: WorldBounds,
    pub store: ProvinceStore,
    pub adjacency: Option<ProvinceAdjacency>,
    pub modifiers: Option<ProvinceModifiers>,
    pub progress: Option<ProgressState>,
}

/// Add one province (as the map editor does): the count grows by one, a fresh province
/// with the new raw id joins the store, and the optional tables get an empty entry.
/// Returns the new raw id.
pub fn add_province_to_world(t: &mut ProvinceTables) -> (r: u32)
    requires
        old(t).bounds.province_count < u32::MAX,
    ensures
        r == old(t).bounds.province_count + 1,
        final(t).bounds == (WorldBounds { province_count: r, ..old(t).bounds }),
        final(t).store.provinces@.len() == old(t).store.provinces@.len() + 1,
        final(t).store.provinces@.drop_last() == old(t).store.provinces@,
        fresh_province(final(t).store.provinces@.last(), r as int),
        old(t).adjacency is Some == final(t).adjacency is Some,
        old(t).adjacency matches Some(a) ==> final(t).adjacency->0@ == a@.push(Seq::<u32>::empty()),
        old(t).modifiers is Some == final(t).modifiers is Some,
        old(t).modifiers matches Some(m) ==> final(t).modifiers->0.scopes() == m.scopes().push(Seq::<crate::modifiers::Modifier>::empty())
            && final(t).modifiers->0.next_raw() == m.next_raw(),
        old(t).progress is Some == final(t).progress is Some,
        old(t).progress matches Some(p) ==> scopes_view(final(t).progress->0.per_province@) == scopes_view(p.per_province@).push(Map::empty())
            && final(t).progress->0.per_nation@ == p.per_nation@,
{
    let new_raw = t.bounds.province_count + 1;
    t.bounds.province_count = new_raw;
    t.store.provinces.push(Province::default_for(ProvinceId::from_raw(new_raw)));
    proof {
        assert(t.store.provinces@.drop_last() =~= old(t).store.provinces@);
    }
    match &mut t.adjacency {
        Some(a) => {
            a.push_empty();
        },
        None => {},
    }
    match &mut t.modifiers {
        Some(m) => {
            m.push_scope();
        },
        None => {},
    }
    match &mut t.progress {
        Some(p) => {
            p.push_province();
        },
        None => {},
    }
    new_raw
}

} // verus!

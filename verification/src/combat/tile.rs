//! One-unit-per-tile combat: hit points, movement points, fortification, and the rule
//! that a tile holds one unit. Strength comparison runs outside this library.

use vstd::prelude::*;
use std::collections::HashSet;
use crate::armies::{Army, ArmyStatus};
use crate::combat::stack::{is_neighbor, slice_contains};
use crate::world::{ProvinceAdjacency, ProvinceId, ScopeId};

verus! {

broadcast use vstd::std_specs::hash::group_hash_axioms;

/// Hit points and movement of a unit (tile model).
#[derive(Clone, Copy, Debug, PartialEq, Eq, Structural)]
pub struct UnitHealth {
    pub hp: u16,
    pub max_hp: u16,
    pub xp: u32,
    /// The unit did not move last turn.
    pub fortified: bool,
    /// Movement points left this turn.
    pub movement_remaining: u16,
}

impl UnitHealth {
    /// Full health, no experience, not fortified, `movement` points.
    pub fn new(max_hp: u16, movement: u16) -> (r: Self)
        ensures
            r == (UnitHealth { hp: max_hp, max_hp, xp: 0, fortified: false, movement_remaining: movement }),
    {
        UnitHealth { hp: max_hp, max_hp, xp: 0, fortified: false, movement_remaining: movement }
    }
}

/// Raw ids of `locs`.
pub open spec fn raws(locs: Seq<ProvinceId>) -> Seq<u32> {
    locs.map_values(|p: ProvinceId| p.spec_raw())
}

/// Positions of units standing where an earlier unit stands, in order.
pub open spec fn crowded(locs: Seq<u32>) -> Seq<int>
    decreases locs.len(),
{
    if locs.len() == 0 {
        Seq::empty()
    } else {
        let prev = crowded(locs.drop_last());
        if locs.drop_last().contains(locs.last()) { prev.push(locs.len() - 1) } else { prev }
    }
}

/// The first entry of `nbrs` not in `occ`.
pub open spec fn first_free(nbrs: Seq<u32>, occ: Set<u32>) -> Option<u32>
    decreases nbrs.len(),
{
    if nbrs.len() == 0 {
        None
    } else if !occ.contains(nbrs[0]) {
        Some(nbrs[0])
    } else {
        first_free(nbrs.drop_first(), occ)
    }
}

/// Neighbours of the province with raw id `raw` (none beyond the table).
pub open spec fn row_of(adj: Seq<Seq<u32>>, raw: u32) -> Seq<u32> {
    if 1 <= raw && raw - 1 < adj.len() { adj[raw - 1] } else { Seq::empty() }
}

/// Locations after moving each crowded unit in `pend`, in turn, to the first neighbour
/// of its tile not occupied yet (it stays when there is none).
pub open spec fn displace(adj: Seq<Seq<u32>>, occ: Set<u32>, locs: Seq<u32>, pend: Seq<int>) -> Seq<u32>
    decreases pend.len(),
{
    if pend.len() == 0 {
        locs
    } else {
        let k = pend[0];
        match first_free(row_of(adj, locs[k]), occ) {
            Some(n) => displace(adj, occ.insert(n), locs.update(k, n), pend.drop_first()),
            None => displace(adj, occ, locs, pend.drop_first()),
        }
    }
}

proof fn lemma_crowded_bounds(locs: Seq<u32>)
    ensures
        forall|j: int| 0 <= j < crowded(locs).len() ==> 0 <= #[trigger] crowded(locs)[j] < locs.len(),
    decreases locs.len(),
{
    if locs.len() > 0 {
        let prev = crowded(locs.drop_last());
        lemma_crowded_bounds(locs.drop_last());
        assert forall|j: int| 0 <= j < crowded(locs).len() implies 0 <= #[trigger] crowded(locs)[j] < locs.len() by {
            if j < prev.len() {
                assert(crowded(locs)[j] == prev[j]);
            }
        }
    }
}

proof fn lemma_first_free(nbrs: Seq<u32>, occ: Set<u32>)
    ensures
        match first_free(nbrs, occ) {
            Some(n) => nbrs.contains(n) && !occ.contains(n),
            None => forall|j: int| 0 <= j < nbrs.len() ==> occ.contains(#[trigger] nbrs[j]),
        },
    decreases nbrs.len(),
{
    if nbrs.len() > 0 && occ.contains(nbrs[0]) {
        lemma_first_free(nbrs.drop_first(), occ);
        match first_free(nbrs.drop_first(), occ) {
            Some(n) => {
                let j = choose|j: int| 0 <= j < nbrs.drop_first().len() && nbrs.drop_first()[j] == n;
                assert(nbrs[j + 1] == n);
            },
            None => {
                assert forall|j: int| 0 <= j < nbrs.len() implies occ.contains(#[trigger] nbrs[j]) by {
                    if j > 0 {
                        assert(nbrs[j] == nbrs.drop_first()[j - 1]);
                    }
                }
            },
        }
    }
}

/// Every neighbour entry in `adj` is a province id (not zero).
pub open spec fn neighbors_nonzero(adj: Seq<Seq<u32>>) -> bool {
    forall|i: int, j: int| 0 <= i < adj.len() && 0 <= j < adj[i].len() ==> adj[i][j] != 0
}

/// Whether no neighbour list of `adjacency` holds 0.
pub fn neighbors_all_nonzero(adjacency: &ProvinceAdjacency) -> (r: bool)
    ensures
        r == neighbors_nonzero(adjacency@),
{
    let n = adjacency.adjacent.len();
    let mut i: usize = 0;
    while i < n
        invariant
            i <= n,
            n == adjacency@.len(),
            forall|a: int, b: int| 0 <= a < i && 0 <= b < adjacency@[a].len() ==> adjacency@[a][b] != 0,
        decreases n - i,
    {
        let m = adjacency.adjacent[i].len();
        let mut j: usize = 0;
        while j < m
            invariant
                i < n,
                n == adjacency@.len(),
                j <= m,
                m == adjacency@[i as int].len(),
                forall|b: int| 0 <= b < j ==> adjacency@[i as int][b] != 0,
            decreases m - j,
        {
            if adjacency.adjacent[i][j] == 0 {
                return false;
            }
            j += 1;
        }
        i += 1;
    }
    true
}

/// One unit per tile: a unit standing where an earlier one (in `locations` order)
/// stands moves to the first free neighbour of that tile; a tile counts as taken once
/// a unit stands there or has moved there. A unit with no free neighbour stays.
pub fn tile_enforce_one_unit_per_tile(adjacency: &ProvinceAdjacency, locations: &mut Vec<ProvinceId>)
    requires
        neighbors_nonzero(adjacency@),
    ensures
        raws(final(locations)@) == displace(adjacency@, raws(old(locations)@).to_set(), raws(old(locations)@), crowded(raws(old(locations)@))),
{
    let ghost start = raws(locations@);
    let mut occupied: HashSet<u32> = HashSet::new();
    let mut to_move: Vec<usize> = Vec::new();
    let n = locations.len();
    let mut k: usize = 0;
    proof {
        assert(start.take(0) =~= Seq::<u32>::empty());
        assert(occupied@ =~= start.take(0).to_set());
    }
    while k < n
        invariant
            n == locations@.len(),
            start == raws(locations@),
            locations@ == old(locations)@,
            k <= n,
            occupied@ == start.take(k as int).to_set(),
            to_move@.map_values(|x: usize| x as int) == crowded(start.take(k as int)),
        decreases n - k,
    {
        let p = locations[k].raw();
        proof {
            assert(start.take(k + 1).drop_last() =~= start.take(k as int));
            assert(start.take(k + 1).last() == p);
            assert(start.take(k as int).to_set().contains(p) == start.take(k as int).contains(p));
        }
        if occupied.contains(&p) {
            to_move.push(k);
            proof {
                assert(to_move@.map_values(|x: usize| x as int) =~= crowded(start.take(k as int)).push(k as int));
            }
        } else {
            occupied.insert(p);
        }
        proof {
            assert(start.take(k + 1) =~= start.take(k as int).push(p));
            assert(occupied@ =~= start.take(k + 1).to_set()) by {
                assert forall|x: u32| occupied@.contains(x) <==> start.take(k + 1).to_set().contains(x) by {
                    if start.take(k + 1).contains(x) && x != p {
                        let j = choose|j: int| 0 <= j < k + 1 && #[trigger] start.take(k + 1)[j] == x;
                        assert(start.take(k as int)[j] == x);
                    }
                    if start.take(k as int).contains(x) {
                        let j = choose|j: int| 0 <= j < k && #[trigger] start.take(k as int)[j] == x;
                        assert(start.take(k + 1)[j] == x);
                    }
                }
            }
        }
        k += 1;
    }
    proof {
        assert(start.take(n as int) =~= start);
        lemma_crowded_bounds(start);
    }
    let ghost pend = crowded(start);
    let ghost target = displace(adjacency@, start.to_set(), start, pend);
    let m = to_move.len();
    let mut t: usize = 0;
    proof {
        assert(pend.skip(0) =~= pend);
    }
    while t < m
        invariant
            m == to_move@.len(),
            to_move@.map_values(|x: usize| x as int) == pend,
            forall|j: int| 0 <= j < pend.len() ==> 0 <= #[trigger] pend[j] < start.len(),
            n == locations@.len(),
            n == start.len(),
            t <= m,
            neighbors_nonzero(adjacency@),
            displace(adjacency@, occupied@, raws(locations@), pend.skip(t as int)) == target,
        decreases m - t,
    {
        let kk = to_move[t];
        proof {
            assert(pend[t as int] == kk as int);
            assert(pend.skip(t as int)[0] == kk as int);
            assert(pend.skip(t as int).drop_first() =~= pend.skip(t + 1));
        }
        let from = locations[kk];
        let _from_raw = from.raw();
        let nbrs = adjacency.get(from);
        let ghost row = row_of(adjacency@, from.spec_raw());
        proof {
            assert(raws(locations@)[kk as int] == from.spec_raw());
            assert(nbrs@ == row);
        }
        let mut q: usize = 0;
        while q < nbrs.len() && occupied.contains(&nbrs[q])
            invariant
                nbrs@ == row,
                q <= nbrs@.len(),
                forall|j: int| 0 <= j < q ==> occupied@.contains(#[trigger] row[j]),
            decreases nbrs@.len() - q,
        {
            q += 1;
        }
        let ghost occ0 = occupied@;
        let ghost locs0 = raws(locations@);
        proof {
            lemma_first_free(row, occ0);
        }
        if q < nbrs.len() {
            let nraw = nbrs[q];
            proof {
                assert(first_free(row, occ0) == Some(nraw)) by {
                    lemma_first_free_at(row, occ0, q as int);
                }
                assert(row.contains(nraw));
                let i = from.spec_raw() - 1;
                let j = choose|j: int| 0 <= j < row.len() && #[trigger] row[j] == nraw;
                assert(adjacency@[i][j] == nraw);
            }
            locations.set(kk, ProvinceId::from_raw(nraw));
            occupied.insert(nraw);
            proof {
                assert(raws(locations@) =~= locs0.update(kk as int, nraw));
            }
        } else {
            proof {
                assert(first_free(row, occ0) is None) by {
                    lemma_first_free_none(row, occ0);
                }
            }
        }
        t += 1;
    }
    proof {
        assert(pend.skip(m as int) =~= Seq::<int>::empty());
    }
}

proof fn lemma_first_free_at(nbrs: Seq<u32>, occ: Set<u32>, q: int)
    requires
        0 <= q < nbrs.len(),
        !occ.contains(nbrs[q]),
        forall|j: int| 0 <= j < q ==> occ.contains(#[trigger] nbrs[j]),
    ensures
        first_free(nbrs, occ) == Some(nbrs[q]),
    decreases q,
{
    if q > 0 {
        let t = nbrs.drop_first();
        assert forall|j: int| 0 <= j < q - 1 implies occ.contains(#[trigger] t[j]) by {
            assert(t[j] == nbrs[j + 1]);
        }
        lemma_first_free_at(t, occ, q - 1);
    }
}

proof fn lemma_first_free_none(nbrs: Seq<u32>, occ: Set<u32>)
    requires
        forall|j: int| 0 <= j < nbrs.len() ==> occ.contains(#[trigger] nbrs[j]),
    ensures
        first_free(nbrs, occ) is None,
    decreases nbrs.len(),
{
    if nbrs.len() > 0 {
        let t = nbrs.drop_first();
        assert forall|j: int| 0 <= j < t.len() implies occ.contains(#[trigger] t[j]) by {
            assert(t[j] == nbrs[j + 1]);
        }
        lemma_first_free_none(t, occ);
    }
}

/// One move of a unit: a marching unit with movement left whose target neighbours its
/// tile moves there, spends a point, loses fortification and becomes idle.
pub fn tile_movement(adjacency: &ProvinceAdjacency, army: &mut Army, status: &mut ArmyStatus, health: &mut UnitHealth)
    ensures
        match *old(status) {
            ArmyStatus::Marching { to } => if old(health).movement_remaining > 0 && is_neighbor(*adjacency, old(army).location, to.spec_raw()) {
                &&& *final(army) == (Army { location: to, ..*old(army) })
                &&& *final(status) == ArmyStatus::Idle
                &&& *final(health) == (UnitHealth { movement_remaining: (old(health).movement_remaining - 1) as u16, fortified: false, ..*old(health) })
            } else {
                *final(army) == *old(army) && *final(status) == *old(status) && *final(health) == *old(health)
            },
            _ => *final(army) == *old(army) && *final(status) == *old(status) && *final(health) == *old(health),
        },
{
    if let ArmyStatus::Marching { to } = *status {
        if health.movement_remaining > 0 {
            let neighbors = adjacency.get(army.location);
            if slice_contains(neighbors, to.raw()) {
                army.location = to;
                health.movement_remaining = health.movement_remaining - 1;
                health.fortified = false;
                *status = ArmyStatus::Idle;
            }
        }
    }
}

/// Start of a turn: movement points back to `movement_points_base`; a unit that did
/// not move last turn (all points left) becomes fortified.
pub fn tile_reset_movement(movement_points_base: u16, health: &mut UnitHealth)
    ensures
        final(health).movement_remaining == movement_points_base,
        final(health).fortified == (old(health).fortified || old(health).movement_remaining == movement_points_base),
        final(health).hp == old(health).hp,
        final(health).max_hp == old(health).max_hp,
        final(health).xp == old(health).xp,
{
    let prev = health.movement_remaining;
    health.movement_remaining = movement_points_base;
    if prev == movement_points_base {
        health.fortified = true;
    }
}

} // verus!

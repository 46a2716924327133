//! Diplomacy: bilateral relations, wars, alliances and truces.
//!
//! All thresholds are data in `DiplomacyConfig` so games can tune diplomacy
//! without code changes.

use vstd::prelude::*;
use crate::archetypes::Province;
use crate::tags::TagTypeId;
use crate::world::{days_ordinal, GameDate, NationId, ScopeId, WorldBounds};


verus! {

// ---------------------------------------------------------------------------
// Bilateral relations (N x N matrix)
// ---------------------------------------------------------------------------

/// Bilateral diplomatic relations between two nations.
#[derive(Clone, Copy, Debug, PartialEq, Eq, Structural)]
pub struct Relations {
    /// Opinion: -200 to +200.
    pub opinion: i16,
    /// Trust: -100 to +100. Slower to change than opinion.
    pub trust: i16,
}

impl Default for Relations {
    fn default() -> (r: Self)
        ensures
            r == (Relations { opinion: 0, trust: 0 }),
    {
        Relations { opinion: 0, trust: 0 }
    }
}

/// `v` clamped to `[lo, hi]`.
pub open spec fn clamp(v: int, lo: int, hi: int) -> int {
    if v < lo { lo } else if v > hi { hi } else { v }
}

/// N x N matrix of diplomatic relations between all nation pairs.
pub struct DiplomaticRelations {
    /// Flat matrix: index = a.index() * nation_count + b.index().
    relations: Vec<Relations>,
    nation_count: u32,
}

impl DiplomaticRelations {
    /// The flat matrix.
    pub closed spec fn cells(&self) -> Seq<Relations> {
        self.relations@
    }

    /// The nation count the matrix was made for.
    pub closed spec fn count(&self) -> u32 {
        self.nation_count
    }

    /// Flat position of the pair `(a, b)`.
    pub open spec fn pos(&self, a: NationId, b: NationId) -> int {
        (a.spec_raw() - 1) * self.count() + (b.spec_raw() - 1)
    }

    pub fn new(nation_count: u32) -> (r: Self)
        requires
            nation_count * nation_count <= usize::MAX,
        ensures
            r.count() == nation_count,
            r.cells() == Seq::new((nation_count * nation_count) as nat, |i: int| Relations { opinion: 0, trust: 0 }),
    {
        let n = nation_count as usize;
        let relations = vec![Relations { opinion: 0, trust: 0 }; n * n];
        DiplomaticRelations { relations, nation_count }
    }

    fn idx(&self, a: NationId, b: NationId) -> (r: u64)
        ensures
            r == self.pos(a, b),
    {
        let ai = a.index() as u64;
        let bi = b.index() as u64;
        proof {
            assert(ai * self.nation_count <= (u32::MAX as int) * (u32::MAX as int)) by (nonlinear_arith)
                requires ai < u32::MAX, self.nation_count <= u32::MAX;
        }
        ai * (self.nation_count as u64) + bi
    }

    /// Relations of `a` towards `b`; neutral when the pair falls outside the matrix.
    pub fn get(&self, a: NationId, b: NationId) -> (r: Relations)
        ensures
            r == (if self.pos(a, b) < self.cells().len() {
                self.cells()[self.pos(a, b)]
            } else {
                Relations { opinion: 0, trust: 0 }
            }),
    {
        let i = self.idx(a, b);
        if i < self.relations.len() as u64 { self.relations[i as usize] } else { Relations { opinion: 0, trust: 0 } }
    }

    /// Mutable access to the relations of `a` towards `b`, if the pair is in the matrix.
    pub fn get_mut(&mut self, a: NationId, b: NationId) -> (r: Option<&mut Relations>)
        ensures
            final(self).count() == old(self).count(),
            old(self).pos(a, b) < old(self).cells().len() ==> (r matches Some(p)
                && *p == old(self).cells()[old(self).pos(a, b)]
                && final(self).cells() == old(self).cells().update(old(self).pos(a, b), *final(p))),
            old(self).pos(a, b) >= old(self).cells().len() ==> r is None && final(self).cells() == old(self).cells(),
    {
        let i = self.idx(a, b);
        if i < self.relations.len() as u64 { Some(&mut self.relations[i as usize]) } else { None }
    }

    /// Cells after adding `delta` to the opinion at `p` (clamped to [-200, 200]), if `p`
    /// is in the matrix.
    pub open spec fn opinion_added(cells: Seq<Relations>, p: int, delta: i16) -> Seq<Relations> {
        if 0 <= p < cells.len() {
            cells.update(p, Relations { opinion: clamp(cells[p].opinion + delta, -200, 200) as i16, ..cells[p] })
        } else {
            cells
        }
    }

    /// Cells after adding `delta` to the trust at `p` (clamped to [-100, 100]), if `p`
    /// is in the matrix.
    pub open spec fn trust_added(cells: Seq<Relations>, p: int, delta: i16) -> Seq<Relations> {
        if 0 <= p < cells.len() {
            cells.update(p, Relations { trust: clamp(cells[p].trust + delta, -100, 100) as i16, ..cells[p] })
        } else {
            cells
        }
    }

    /// Modify opinion symmetrically (both a->b and b->a), clamped to [-200, 200].
    pub fn modify_opinion(&mut self, a: NationId, b: NationId, delta: i16)
        ensures
            final(self).count() == old(self).count(),
            final(self).cells() == Self::opinion_added(
                Self::opinion_added(old(self).cells(), old(self).pos(a, b), delta), old(self).pos(b, a), delta),
    {
        let ghost c0 = self.cells();
        let ghost c1 = Self::opinion_added(c0, self.pos(a, b), delta);
        let i = self.idx(a, b);
        if i < self.relations.len() as u64 {
            let v = self.relations[i as usize].opinion as i32 + delta as i32;
            self.relations[i as usize].opinion = if v < -200 { -200 } else if v > 200 { 200 } else { v as i16 };
        }
        proof {
            assert(self.cells() =~= c1);
        }
        let j = self.idx(b, a);
        if j < self.relations.len() as u64 {
            let v = self.relations[j as usize].opinion as i32 + delta as i32;
            self.relations[j as usize].opinion = if v < -200 { -200 } else if v > 200 { 200 } else { v as i16 };
        }
        proof {
            assert(self.cells() =~= Self::opinion_added(c1, self.pos(b, a), delta));
        }
    }

    /// Modify trust symmetrically (both a->b and b->a), clamped to [-100, 100].
    pub fn modify_trust(&mut self, a: NationId, b: NationId, delta: i16)
        ensures
            final(self).count() == old(self).count(),
            final(self).cells() == Self::trust_added(
                Self::trust_added(old(self).cells(), old(self).pos(a, b), delta), old(self).pos(b, a), delta),
    {
        let ghost c0 = self.cells();
        let ghost c1 = Self::trust_added(c0, self.pos(a, b), delta);
        let i = self.idx(a, b);
        if i < self.relations.len() as u64 {
            let v = self.relations[i as usize].trust as i32 + delta as i32;
            self.relations[i as usize].trust = if v < -100 { -100 } else if v > 100 { 100 } else { v as i16 };
        }
        proof {
            assert(self.cells() =~= c1);
        }
        let j = self.idx(b, a);
        if j < self.relations.len() as u64 {
            let v = self.relations[j as usize].trust as i32 + delta as i32;
            self.relations[j as usize].trust = if v < -100 { -100 } else if v > 100 { 100 } else { v as i16 };
        }
        proof {
            assert(self.cells() =~= Self::trust_added(c1, self.pos(b, a), delta));
        }
    }
}

/// Changing the opinion between two distinct nations in the matrix changes both
/// directions alike: from equal opinions they stay equal, within [-200, 200].
pub proof fn law_opinion_symmetric(r0: Seq<Relations>, count: u32, a: NationId, b: NationId, delta: i16)
    requires
        a != b,
        1 <= a.spec_raw() <= count,
        1 <= b.spec_raw() <= count,
        r0.len() == count * count,
        0 <= (a.spec_raw() - 1) * count + (b.spec_raw() - 1) < r0.len(),
        0 <= (b.spec_raw() - 1) * count + (a.spec_raw() - 1) < r0.len(),
        r0[(a.spec_raw() - 1) * count + (b.spec_raw() - 1)].opinion == r0[(b.spec_raw() - 1) * count + (a.spec_raw() - 1)].opinion,
    ensures
        ({
            let pab = (a.spec_raw() - 1) * count + (b.spec_raw() - 1);
            let pba = (b.spec_raw() - 1) * count + (a.spec_raw() - 1);
            let r1 = DiplomaticRelations::opinion_added(DiplomaticRelations::opinion_added(r0, pab, delta), pba, delta);
            &&& r1[pab].opinion == r1[pba].opinion
            &&& r1[pab].opinion == clamp(r0[pab].opinion + delta, -200, 200)
            &&& -200 <= r1[pab].opinion <= 200
        }),
{
    let ai = a.spec_raw() - 1;
    let bi = b.spec_raw() - 1;
    NationId::lemma_raw_injective(a, b);
    assert(0 <= ai * count + bi < count * count) by (nonlinear_arith)
        requires 0 <= ai < count, 0 <= bi < count;
    assert(0 <= bi * count + ai < count * count) by (nonlinear_arith)
        requires 0 <= ai < count, 0 <= bi < count;
    assert(ai * count + bi != bi * count + ai) by (nonlinear_arith)
        requires 0 <= ai < count, 0 <= bi < count, ai != bi;
}

/// Whether `v` lists nation `n`.
pub fn contains_nation(v: &Vec<NationId>, n: NationId) -> (r: bool)
    ensures
        r == v@.contains(n),
{
    let len = v.len();
    let mut i: usize = 0;
    while i < len
        invariant
            len == v@.len(),
            i <= len,
            forall|j: int| 0 <= j < i ==> #[trigger] v@[j] != n,
        decreases len - i,
    {
        if v[i] == n {
            proof { assert(v@[i as int] == n); }
            return true;
        }
        i += 1;
    }
    false
}

// ---------------------------------------------------------------------------
// Wars
// ---------------------------------------------------------------------------

/// Stable id for a war.
#[derive(Clone, Copy, Debug, PartialEq, Eq, Hash, Structural)]
pub struct WarId {
    raw: u32,
}

impl WarId {
    #[verifier::type_invariant]
    spec fn nonzero(self) -> bool {
        self.raw != 0
    }

    /// The raw 1-based value.
    pub closed spec fn spec_raw(self) -> u32 {
        self.raw
    }

    /// Builds an id from its raw 1-based value (zero is not an id).
    pub fn from_raw(raw: u32) -> (r: Self)
        requires
            raw != 0,
        ensures
            r.spec_raw() == raw,
    {
        WarId { raw }
    }

    pub fn raw(self) -> (r: u32)
        ensures
            r == self.spec_raw(),
            r != 0,
    {
        proof { use_type_invariant(&self); }
        self.raw
    }

    /// Two ids are equal exactly when their raw values are.
    pub proof fn lemma_raw_injective(a: Self, b: Self)
        ensures
            (a.spec_raw() == b.spec_raw()) == (a == b),
    {
    }
}

/// What the attacker wants to achieve.
pub enum WarGoal {
    /// Conquer specific provinces.
    Conquest { target_provinces: Vec<u32> },
    /// Make a nation a subject/vassal.
    Subjugation { target: NationId },
    /// Break free from a subject relationship.
    Independence,
    /// Game-defined custom war goal.
    Custom { id: u32, payload: Vec<u8> },
}

/// An active war between two coalitions.
pub struct War {
    pub id: WarId,
    pub attacker_leader: NationId,
    pub defender_leader: NationId,
    pub attackers: Vec<NationId>,
    pub defenders: Vec<NationId>,
    /// War score: -100 (defender winning) to +100 (attacker winning).
    pub war_score: i16,
    pub start_date: GameDate,
    pub war_goal: WarGoal,
}

/// A bilateral alliance between two nations.
#[derive(Clone, Copy)]
pub struct Alliance {
    pub nation_a: NationId,
    pub nation_b: NationId,
    pub formed: GameDate,
}

/// A truce preventing war between two nations until expiry.
#[derive(Clone, Copy)]
pub struct Truce {
    pub nation_a: NationId,
    pub nation_b: NationId,
    pub expires: GameDate,
}

/// The unordered pair `{x, y}` is `{a, b}`.
pub open spec fn pair_is(x: NationId, y: NationId, a: NationId, b: NationId) -> bool {
    (x == a && y == b) || (x == b && y == a)
}

/// The alliances of `s` that are not between `a` and `b`, in order.
pub open spec fn alliances_without(s: Seq<Alliance>, a: NationId, b: NationId) -> Seq<Alliance>
    decreases s.len(),
{
    if s.len() == 0 {
        s
    } else {
        let rest = alliances_without(s.drop_last(), a, b);
        if pair_is(s.last().nation_a, s.last().nation_b, a, b) { rest } else { rest.push(s.last()) }
    }
}

/// The wars of `s` whose id is not `id`, in order.
pub open spec fn wars_without(s: Seq<War>, id: WarId) -> Seq<War>
    decreases s.len(),
{
    if s.len() == 0 {
        s
    } else {
        let rest = wars_without(s.drop_last(), id);
        if s.last().id == id { rest } else { rest.push(s.last()) }
    }
}

/// `a` and `b` are on opposite sides of war `w`.
pub open spec fn opposed_in(w: War, a: NationId, b: NationId) -> bool {
    (w.attackers@.contains(a) && w.defenders@.contains(b)) || (w.attackers@.contains(b) && w.defenders@.contains(a))
}

/// Rust's `/` on integers: quotient rounded toward zero.
pub open spec fn trunc_div(a: int, b: int) -> int
    recommends
        b > 0,
{
    if a >= 0 { a / b } else { -((-a) / b) }
}

/// Rust's `%` on integers: remainder with the sign of the dividend.
pub open spec fn trunc_rem(a: int, b: int) -> int
    recommends
        b > 0,
{
    a - b * trunc_div(a, b)
}

/// Approximate truce expiry: `truce_days` after `current`, split back into year,
/// month (clamped to 1..=12) and day (at least 1) by 365-day years and 31-day months.
pub open spec fn truce_expiry(current: GameDate, truce_days: i64) -> GameDate {
    let total = days_ordinal(current.year, current.month, current.day) + truce_days;
    let remaining = trunc_rem(total, 365) as u16;
    let m = (remaining / 31) as u8;
    let m1 = if m < 1 { 1u8 } else { m };
    let d = remaining % 31;
    GameDate {
        year: trunc_div(total, 365) as i32,
        month: if m1 > 12 { 12u8 } else { m1 },
        day: (if d < 1 { 1 } else { d }) as u16,
    }
}

/// Truces `(att, def, expires)` for every attacker `att` and defender `def`, attackers
/// in order, each with all defenders in order.
pub open spec fn truces_for(attackers: Seq<NationId>, defenders: Seq<NationId>, expires: GameDate) -> Seq<Truce>
    decreases attackers.len(),
{
    if attackers.len() == 0 {
        Seq::empty()
    } else {
        truces_for(attackers.drop_last(), defenders, expires)
            + defenders.map_values(|d: NationId| Truce { nation_a: attackers.last(), nation_b: d, expires })
    }
}

/// Central storage for wars, alliances, and truces.
pub struct WarRegistry {
    pub wars: Vec<War>,
    pub alliances: Vec<Alliance>,
    pub truces: Vec<Truce>,
    next_war_raw: u32,
}

impl WarRegistry {
    pub closed spec fn wars_view(&self) -> Seq<War> {
        self.wars@
    }

    pub closed spec fn alliances_view(&self) -> Seq<Alliance> {
        self.alliances@
    }

    pub closed spec fn truces_view(&self) -> Seq<Truce> {
        self.truces@
    }

    /// Raw id the next declared war gets.
    pub closed spec fn next_war(&self) -> u32 {
        self.next_war_raw
    }

    /// `a` and `b` are at war with each other.
    pub open spec fn spec_at_war(&self, a: NationId, b: NationId) -> bool {
        exists|i: int| 0 <= i < self.wars_view().len() && opposed_in(#[trigger] self.wars_view()[i], a, b)
    }

    /// `a` and `b` are allied.
    pub open spec fn spec_allied(&self, a: NationId, b: NationId) -> bool {
        exists|i: int| 0 <= i < self.alliances_view().len()
            && pair_is(#[trigger] self.alliances_view()[i].nation_a, self.alliances_view()[i].nation_b, a, b)
    }

    /// A truce stands between `a` and `b`.
    pub open spec fn spec_truce(&self, a: NationId, b: NationId) -> bool {
        exists|i: int| 0 <= i < self.truces_view().len()
            && pair_is(#[trigger] self.truces_view()[i].nation_a, self.truces_view()[i].nation_b, a, b)
    }

    pub fn new() -> (r: Self)
        ensures
            r.wars_view().len() == 0,
            r.alliances_view().len() == 0,
            r.truces_view().len() == 0,
            r.next_war() == 1,
    {
        WarRegistry { wars: Vec::new(), alliances: Vec::new(), truces: Vec::new(), next_war_raw: 1 }
    }

    fn remove_alliances_between(&mut self, a: NationId, b: NationId)
        ensures
            final(self).alliances_view() == alliances_without(old(self).alliances_view(), a, b),
            final(self).wars_view() == old(self).wars_view(),
            final(self).truces_view() == old(self).truces_view(),
            final(self).next_war() == old(self).next_war(),
    {
        let mut kept: Vec<Alliance> = Vec::new();
        let n = self.alliances.len();
        let mut i: usize = 0;
        while i < n
            invariant
                n == self.alliances@.len(),
                i <= n,
                self.alliances@ == old(self).alliances@,
                kept@ == alliances_without(self.alliances@.take(i as int), a, b),
            decreases n - i,
        {
            let al = self.alliances[i];
            proof {
                assert(self.alliances@.take(i + 1).drop_last() =~= self.alliances@.take(i as int));
            }
            if !((al.nation_a == a && al.nation_b == b) || (al.nation_a == b && al.nation_b == a)) {
                kept.push(al);
            }
            i += 1;
        }
        proof {
            assert(self.alliances@.take(n as int) =~= self.alliances@);
        }
        self.alliances = kept;
    }

    /// Declare war: the new war gets the next id, with `attacker` and `defender` as sole
    /// members and score 0; any alliance between the two is removed.
    pub fn declare_war(&mut self, attacker: NationId, defender: NationId, war_goal: WarGoal, date: GameDate) -> (r: WarId)
        requires
            old(self).next_war() != 0,
            old(self).next_war() < u32::MAX,
        ensures
            r.spec_raw() == old(self).next_war(),
            final(self).next_war() == old(self).next_war() + 1,
            final(self).alliances_view() == alliances_without(old(self).alliances_view(), attacker, defender),
            final(self).truces_view() == old(self).truces_view(),
            final(self).wars_view().len() == old(self).wars_view().len() + 1,
            final(self).wars_view().drop_last() == old(self).wars_view(),
            ({
                let w = final(self).wars_view().last();
                &&& w.id == r
                &&& w.attacker_leader == attacker
                &&& w.defender_leader == defender
                &&& w.attackers@ == seq![attacker]
                &&& w.defenders@ == seq![defender]
                &&& w.war_score == 0
                &&& w.start_date == date
                &&& w.war_goal == war_goal
            }),
    {
        let id = WarId::from_raw(self.next_war_raw);
        self.next_war_raw = self.next_war_raw + 1;
        self.remove_alliances_between(attacker, defender);
        let mut attackers: Vec<NationId> = Vec::new();
        attackers.push(attacker);
        let mut defenders: Vec<NationId> = Vec::new();
        defenders.push(defender);
        proof {
            assert(attackers@ =~= seq![attacker]);
            assert(defenders@ =~= seq![defender]);
        }
        self.wars.push(War {
            id,
            attacker_leader: attacker,
            defender_leader: defender,
            attackers,
            defenders,
            war_score: 0,
            start_date: date,
            war_goal,
        });
        proof {
            assert(self.wars@.drop_last() =~= old(self).wars@);
        }
        id
    }

    /// Position of the first war with id `id`.
    fn find_war(&self, id: WarId) -> (r: Option<usize>)
        ensures
            match r {
                Some(k) => k < self.wars_view().len() && self.wars_view()[k as int].id == id
                    && forall|j: int| 0 <= j < k ==> #[trigger] self.wars_view()[j].id != id,
                None => forall|j: int| 0 <= j < self.wars_view().len() ==> #[trigger] self.wars_view()[j].id != id,
            },
    {
        let n = self.wars.len();
        let mut i: usize = 0;
        while i < n
            invariant
                n == self.wars@.len(),
                i <= n,
                forall|j: int| 0 <= j < i ==> #[trigger] self.wars@[j].id != id,
            decreases n - i,
        {
            if self.wars[i].id == id {
                return Some(i);
            }
            i += 1;
        }
        None
    }

    /// The first war with id `id`, if any.
    pub open spec fn first_war(&self, id: WarId) -> Option<War> {
        if exists|k: int| 0 <= k < self.wars_view().len() && self.wars_view()[k].id == id {
            let k = choose|k: int| 0 <= k < self.wars_view().len() && self.wars_view()[k].id == id
                && forall|j: int| 0 <= j < k ==> #[trigger] self.wars_view()[j].id != id;
            Some(self.wars_view()[k])
        } else {
            None
        }
    }

    /// The inputs on which `end_war` stays within `i64` when adding the truce length.
    pub open spec fn end_war_ok(current_date: GameDate, truce_length_days: i64) -> bool {
        i64::MIN <= days_ordinal(current_date.year, current_date.month, current_date.day) + truce_length_days <= i64::MAX
    }

    /// End a war: truces (expiring `truce_length_days` after `current_date`) between every
    /// attacker and every defender of the first war with this id are appended, and every
    /// war with this id is removed. Nothing happens when no war has this id.
    pub fn end_war(&mut self, war_id: WarId, truce_length_days: i64, current_date: GameDate)
        requires
            Self::end_war_ok(current_date, truce_length_days),
        ensures
            final(self).next_war() == old(self).next_war(),
            final(self).alliances_view() == old(self).alliances_view(),
            match old(self).first_war(war_id) {
                Some(w) => {
                    &&& final(self).truces_view() == old(self).truces_view()
                        + truces_for(w.attackers@, w.defenders@, truce_expiry(current_date, truce_length_days))
                    &&& final(self).wars_view() == wars_without(old(self).wars_view(), war_id)
                },
                None => {
                    &&& final(self).truces_view() == old(self).truces_view()
                    &&& final(self).wars_view() == old(self).wars_view()
                },
            },
    {
        let k = match self.find_war(war_id) {
            Some(k) => k,
            None => {
                return;
            },
        };
        proof {
            let kk = choose|kk: int| 0 <= kk < self.wars_view().len() && self.wars_view()[kk].id == war_id
                && forall|j: int| 0 <= j < kk ==> #[trigger] self.wars_view()[j].id != war_id;
            if kk < k { assert(self.wars@[kk].id != war_id); }
            if k < kk { assert(self.wars@[k as int].id != war_id); }
        }
        let total = current_date.to_days_since_epoch() + truce_length_days;
        let truce_year = (total / 365) as i32;
        let remaining = (total % 365) as u16;
        let m0 = (remaining / 31) as u8;
        let m1 = if m0 < 1 { 1 } else { m0 };
        let d0 = remaining % 31;
        let truce_date = GameDate {
            year: truce_year,
            month: if m1 > 12 { 12 } else { m1 },
            day: if d0 < 1 { 1 } else { d0 },
        };
        proof {
            assert(truce_date == truce_expiry(current_date, truce_length_days));
        }
        let na = self.wars[k].attackers.len();
        let nd = self.wars[k].defenders.len();
        let ghost w = self.wars@[k as int];
        let mut i: usize = 0;
        while i < na
            invariant
                k < self.wars@.len(),
                self.wars@ == old(self).wars@,
                w == self.wars@[k as int],
                na == w.attackers@.len(),
                nd == w.defenders@.len(),
                i <= na,
                self.alliances@ == old(self).alliances@,
                self.next_war_raw == old(self).next_war_raw,
                self.truces@ == old(self).truces@ + truces_for(w.attackers@.take(i as int), w.defenders@, truce_date),
            decreases na - i,
        {
            let att = self.wars[k].attackers[i];
            let mut j: usize = 0;
            let ghost base = self.truces@;
            while j < nd
                invariant
                    k < self.wars@.len(),
                    self.wars@ == old(self).wars@,
                    w == self.wars@[k as int],
                    na == w.attackers@.len(),
                    nd == w.defenders@.len(),
                    i < na,
                    att == w.attackers@[i as int],
                    j <= nd,
                    self.alliances@ == old(self).alliances@,
                    self.next_war_raw == old(self).next_war_raw,
                    self.truces@ == base + w.defenders@.take(j as int).map_values(
                        |d: NationId| Truce { nation_a: att, nation_b: d, expires: truce_date }),
                decreases nd - j,
            {
                let def = self.wars[k].defenders[j];
                self.truces.push(Truce { nation_a: att, nation_b: def, expires: truce_date });
                proof {
                    assert(w.defenders@.take(j + 1).map_values(|d: NationId| Truce { nation_a: att, nation_b: d, expires: truce_date })
                        =~= w.defenders@.take(j as int).map_values(|d: NationId| Truce { nation_a: att, nation_b: d, expires: truce_date })
                            .push(Truce { nation_a: att, nation_b: def, expires: truce_date }));
                }
                j += 1;
            }
            proof {
                assert(w.defenders@.take(nd as int) =~= w.defenders@);
                assert(w.attackers@.take(i + 1).drop_last() =~= w.attackers@.take(i as int));
                assert(w.attackers@.take(i + 1).last() == att);
                assert(self.truces@ =~= old(self).truces@ + truces_for(w.attackers@.take(i + 1), w.defenders@, truce_date));
            }
            i += 1;
        }
        proof {
            assert(w.attackers@.take(na as int) =~= w.attackers@);
        }
        self.remove_wars_with(war_id);
    }

    /// Check if two nations are at war with each other.
    pub fn are_at_war(&self, a: NationId, b: NationId) -> (r: bool)
        ensures
            r == self.spec_at_war(a, b),
    {
        let n = self.wars.len();
        let mut i: usize = 0;
        while i < n
            invariant
                n == self.wars@.len(),
                i <= n,
                forall|j: int| 0 <= j < i ==> !opposed_in(#[trigger] self.wars@[j], a, b),
            decreases n - i,
        {
            let w = &self.wars[i];
            let aa = contains_nation(&w.attackers, a);
            let ab = contains_nation(&w.attackers, b);
            let da = contains_nation(&w.defenders, a);
            let db = contains_nation(&w.defenders, b);
            if (aa && db) || (ab && da) {
                proof { assert(opposed_in(self.wars_view()[i as int], a, b)); }
                return true;
            }
            i += 1;
        }
        false
    }

    /// Check if two nations are allied.
    pub fn are_allied(&self, a: NationId, b: NationId) -> (r: bool)
        ensures
            r == self.spec_allied(a, b),
    {
        let n = self.alliances.len();
        let mut i: usize = 0;
        while i < n
            invariant
                n == self.alliances@.len(),
                i <= n,
                forall|j: int| 0 <= j < i ==> !pair_is(#[trigger] self.alliances@[j].nation_a, self.alliances@[j].nation_b, a, b),
            decreases n - i,
        {
            let al = self.alliances[i];
            if (al.nation_a == a && al.nation_b == b) || (al.nation_a == b && al.nation_b == a) {
                proof { assert(pair_is(self.alliances_view()[i as int].nation_a, self.alliances_view()[i as int].nation_b, a, b)); }
                return true;
            }
            i += 1;
        }
        false
    }

    /// Check if a truce prevents war between two nations.
    pub fn has_truce(&self, a: NationId, b: NationId) -> (r: bool)
        ensures
            r == self.spec_truce(a, b),
    {
        let n = self.truces.len();
        let mut i: usize = 0;
        while i < n
            invariant
                n == self.truces@.len(),
                i <= n,
                forall|j: int| 0 <= j < i ==> !pair_is(#[trigger] self.truces@[j].nation_a, self.truces@[j].nation_b, a, b),
            decreases n - i,
        {
            let t = self.truces[i];
            if (t.nation_a == a && t.nation_b == b) || (t.nation_a == b && t.nation_b == a) {
                proof { assert(pair_is(self.truces_view()[i as int].nation_a, self.truces_view()[i as int].nation_b, a, b)); }
                return true;
            }
            i += 1;
        }
        false
    }

    /// Form an alliance, unless the two are already allied.
    pub fn form_alliance(&mut self, a: NationId, b: NationId, date: GameDate)
        ensures
            final(self).alliances_view() == (if old(self).spec_allied(a, b) {
                old(self).alliances_view()
            } else {
                old(self).alliances_view().push(Alliance { nation_a: a, nation_b: b, formed: date })
            }),
            final(self).wars_view() == old(self).wars_view(),
            final(self).truces_view() == old(self).truces_view(),
            final(self).next_war() == old(self).next_war(),
    {
        if !self.are_allied(a, b) {
            self.alliances.push(Alliance { nation_a: a, nation_b: b, formed: date });
        }
    }

    /// Break every alliance between the two nations.
    pub fn break_alliance(&mut self, a: NationId, b: NationId)
        ensures
            final(self).alliances_view() == alliances_without(old(self).alliances_view(), a, b),
            final(self).wars_view() == old(self).wars_view(),
            final(self).truces_view() == old(self).truces_view(),
            final(self).next_war() == old(self).next_war(),
    {
        self.remove_alliances_between(a, b);
    }

    /// The first war with id `id`.
    pub fn get_war(&self, id: WarId) -> (r: Option<&War>)
        ensures
            match r {
                Some(w) => self.first_war(id) == Some(*w),
                None => self.first_war(id) is None,
            },
    {
        match self.find_war(id) {
            Some(k) => {
                proof { self.lemma_first_war_at(id, k as int); }
                Some(&self.wars[k])
            },
            None => None,
        }
    }

    /// Mutable access to the first war with id `id`.
    pub fn get_war_mut(&mut self, id: WarId) -> (r: Option<&mut War>)
        ensures
            match old(self).first_war(id) {
                Some(w) => r matches Some(p) && *p == w && exists|k: int| 0 <= k < old(self).wars_view().len()
                    && old(self).wars_view()[k] == w
                    && final(self).wars_view() == old(self).wars_view().update(k, *final(p))
                    && forall|j: int| 0 <= j < k ==> #[trigger] old(self).wars_view()[j].id != id,
                None => r is None && final(self).wars_view() == old(self).wars_view(),
            },
            final(self).alliances_view() == old(self).alliances_view(),
            final(self).truces_view() == old(self).truces_view(),
            final(self).next_war() == old(self).next_war(),
    {
        match self.find_war(id) {
            Some(k) => {
                proof { self.lemma_first_war_at(id, k as int); }
                Some(&mut self.wars[k])
            },
            None => None,
        }
    }

    proof fn lemma_first_war_at(&self, id: WarId, k: int)
        requires
            0 <= k < self.wars_view().len(),
            self.wars_view()[k].id == id,
            forall|j: int| 0 <= j < k ==> #[trigger] self.wars_view()[j].id != id,
        ensures
            self.first_war(id) == Some(self.wars_view()[k]),
    {
        let kk = choose|kk: int| 0 <= kk < self.wars_view().len() && self.wars_view()[kk].id == id
            && forall|j: int| 0 <= j < kk ==> #[trigger] self.wars_view()[j].id != id;
        if kk < k { assert(self.wars_view()[kk].id != id); }
        if k < kk { assert(self.wars_view()[k].id != id); }
    }

    fn remove_wars_with(&mut self, id: WarId)
        ensures
            final(self).wars_view() == wars_without(old(self).wars_view(), id),
            final(self).alliances_view() == old(self).alliances_view(),
            final(self).truces_view() == old(self).truces_view(),
            final(self).next_war() == old(self).next_war(),
    {
        let ghost all = self.wars@;
        let mut i: usize = 0;
        let ghost mut j: int = 0;
        while i < self.wars.len()
            invariant
                0 <= j <= all.len(),
                self.wars@ == wars_without(all.take(j), id) + all.skip(j),
                i == wars_without(all.take(j), id).len(),
                self.alliances@ == old(self).alliances@,
                self.truces@ == old(self).truces@,
                self.next_war_raw == old(self).next_war_raw,
            decreases self.wars@.len() - i,
        {
            proof {
                assert(all.take(j + 1).drop_last() =~= all.take(j));
                assert(self.wars@[i as int] == all[j]);
                assert(all.take(j + 1).last() == all[j]);
            }
            if self.wars[i].id == id {
                let _removed = self.wars.remove(i);
                proof {
                    assert(self.wars@ =~= wars_without(all.take(j + 1), id) + all.skip(j + 1));
                    j = j + 1;
                }
            } else {
                proof {
                    assert(self.wars@ =~= wars_without(all.take(j + 1), id) + all.skip(j + 1));
                    j = j + 1;
                }
                i += 1;
            }
        }
        proof {
            assert(j == all.len());
            assert(all.take(j) =~= all);
            assert(self.wars@ =~= wars_without(all, id));
        }
    }
}

// ---------------------------------------------------------------------------
// Diplomacy config
// ---------------------------------------------------------------------------

/// Configuration for the diplomacy system. All thresholds and rates are exposed.
pub struct DiplomacyConfig {
    /// Opinion decays toward 0 by this amount per secondary tick.
    pub opinion_decay_per_tick: i16,
    /// Opinion bonus for sharing the same religion tag type.
    pub same_religion_bonus: i16,
    /// Opinion bonus for sharing the same culture tag type.
    pub same_culture_bonus: i16,
    /// Opinion penalty for sharing a border.
    pub border_friction: i16,
    /// Opinion bonus for being allied.
    pub alliance_opinion_bonus: i16,
    /// Trust penalty for breaking an alliance.
    pub alliance_break_trust_penalty: i16,
    /// Default truce length in ticks after a war ends.
    pub truce_length_ticks: u32,
    /// Tag type id for religion (if set, enables same-religion opinion).
    pub religion_tag_type: Option<TagTypeId>,
    /// Tag type id for culture (if set, enables same-culture opinion).
    pub culture_tag_type: Option<TagTypeId>,
}

impl Default for DiplomacyConfig {
    fn default() -> (r: Self)
        ensures
            r.opinion_decay_per_tick == 1,
            r.same_religion_bonus == 25,
            r.same_culture_bonus == 15,
            r.border_friction == -20,
            r.alliance_opinion_bonus == 50,
            r.alliance_break_trust_penalty == -30,
            r.truce_length_ticks == 60,
            r.religion_tag_type is None,
            r.culture_tag_type is None,
    {
        DiplomacyConfig {
            opinion_decay_per_tick: 1,
            same_religion_bonus: 25,
            same_culture_bonus: 15,
            border_friction: -20,
            alliance_opinion_bonus: 50,
            alliance_break_trust_penalty: -30,
            truce_length_ticks: 60,
            religion_tag_type: None,
            culture_tag_type: None,
        }
    }
}

// ---------------------------------------------------------------------------
// Systems
// ---------------------------------------------------------------------------

/// The truces of `s` that expire after day ordinal `now`, in order.
pub open spec fn truces_after(s: Seq<Truce>, now: int) -> Seq<Truce>
    decreases s.len(),
{
    if s.len() == 0 {
        s
    } else {
        let rest = truces_after(s.drop_last(), now);
        let t = s.last();
        if days_ordinal(t.expires.year, t.expires.month, t.expires.day) > now { rest.push(t) } else { rest }
    }
}

/// Remove expired truces: only truces expiring after `date` stay.
pub fn system_diplomacy_truce_expiry(date: &GameDate, war_reg: &mut WarRegistry)
    ensures
        final(war_reg).truces_view() == truces_after(old(war_reg).truces_view(), days_ordinal(date.year, date.month, date.day)),
        final(war_reg).wars_view() == old(war_reg).wars_view(),
        final(war_reg).alliances_view() == old(war_reg).alliances_view(),
        final(war_reg).next_war() == old(war_reg).next_war(),
{
    let now = date.to_days_since_epoch();
    let mut kept: Vec<Truce> = Vec::new();
    let n = war_reg.truces.len();
    let mut i: usize = 0;
    while i < n
        invariant
            n == war_reg.truces@.len(),
            i <= n,
            war_reg.truces@ == old(war_reg).truces@,
            war_reg.wars@ == old(war_reg).wars@,
            war_reg.alliances@ == old(war_reg).alliances@,
            war_reg.next_war_raw == old(war_reg).next_war_raw,
            now == days_ordinal(date.year, date.month, date.day),
            kept@ == truces_after(war_reg.truces@.take(i as int), now as int),
        decreases n - i,
    {
        let t = war_reg.truces[i];
        proof {
            assert(war_reg.truces@.take(i + 1).drop_last() =~= war_reg.truces@.take(i as int));
        }
        if t.expires.to_days_since_epoch() > now {
            kept.push(t);
        }
        i += 1;
    }
    proof {
        assert(war_reg.truces@.take(n as int) =~= war_reg.truces@);
    }
    war_reg.truces = kept;
}

/// Number of provinces in `ps` owned by a nation listed in `side`.
pub open spec fn owned_by(ps: Seq<Province>, side: Seq<NationId>) -> nat
    decreases ps.len(),
{
    if ps.len() == 0 {
        0
    } else {
        owned_by(ps.drop_last(), side) + (if ps.last().owner matches Some(o) && side.contains(o) { 1nat } else { 0nat })
    }
}

/// War score from province control: `(att - def) * 100 / max(att + def, 1)` (quotient
/// toward zero) clamped to [-100, 100], where `att` and `def` count provinces owned by
/// attackers and defenders.
pub open spec fn war_score_for(ps: Seq<Province>, w: War) -> i16 {
    let att = owned_by(ps, w.attackers@) as int;
    let def = owned_by(ps, w.defenders@) as int;
    let total = if att + def < 1 { 1 } else { att + def };
    clamp(trunc_div((att - def) * 100, total), -100, 100) as i16
}

/// The war score computation stays within `i32` for every war.
pub open spec fn war_score_ok(ps: Seq<Province>, wars: Seq<War>) -> bool {
    forall|i: int| 0 <= i < wars.len() ==> {
        let att = owned_by(ps, (#[trigger] wars[i]).attackers@) as int;
        let def = owned_by(ps, wars[i].defenders@) as int;
        &&& att + def <= i32::MAX
        &&& (att - def) * 100 <= i32::MAX
        &&& (att - def) * 100 >= i32::MIN
    }
}

proof fn lemma_owned_by_le(ps: Seq<Province>, side: Seq<NationId>)
    ensures
        owned_by(ps, side) <= ps.len(),
    decreases ps.len(),
{
    if ps.len() > 0 {
        lemma_owned_by_le(ps.drop_last(), side);
    }
}

fn count_owned(provinces: &Vec<Province>, side: &Vec<NationId>) -> (r: u64)
    ensures
        r == owned_by(provinces@, side@),
{
    let n = provinces.len();
    let mut c: u64 = 0;
    let mut i: usize = 0;
    while i < n
        invariant
            n == provinces@.len(),
            i <= n,
            c == owned_by(provinces@.take(i as int), side@),
        decreases n - i,
    {
        proof {
            assert(provinces@.take(i + 1).drop_last() =~= provinces@.take(i as int));
            lemma_owned_by_le(provinces@.take(i as int), side@);
        }
        match provinces[i].owner {
            Some(o) => {
                if contains_nation(side, o) {
                    c += 1;
                }
            },
            None => {},
        }
        i += 1;
    }
    proof {
        assert(provinces@.take(n as int) =~= provinces@);
    }
    c
}

/// Whether the war score computation stays within `i32` for every war.
pub fn war_score_fits(provinces: &crate::world::ProvinceStore, war_reg: &WarRegistry) -> (r: bool)
    ensures
        r == war_score_ok(provinces.provinces@, war_reg.wars_view()),
{
    let n = war_reg.wars.len();
    let mut i: usize = 0;
    while i < n
        invariant
            i <= n,
            n == war_reg.wars@.len(),
            forall|j: int| 0 <= j < i ==> {
                let att = owned_by(provinces.provinces@, (#[trigger] war_reg.wars@[j]).attackers@) as int;
                let def = owned_by(provinces.provinces@, war_reg.wars@[j].defenders@) as int;
                &&& att + def <= i32::MAX
                &&& (att - def) * 100 <= i32::MAX
                &&& (att - def) * 100 >= i32::MIN
            },
        decreases n - i,
    {
        let att = count_owned(&provinces.provinces, &war_reg.wars[i].attackers) as i128;
        let def = count_owned(&provinces.provinces, &war_reg.wars[i].defenders) as i128;
        if att + def > 0x7FFF_FFFF || (att - def) * 100 > 0x7FFF_FFFF || (att - def) * 100 < -0x8000_0000 {
            return false;
        }
        i += 1;
    }
    true
}

/// Update every war's score from the provinces its sides own.
pub fn system_diplomacy_war_score(provinces: &crate::world::ProvinceStore, war_reg: &mut WarRegistry)
    requires
        war_score_ok(provinces.provinces@, old(war_reg).wars_view()),
    ensures
        final(war_reg).wars_view().len() == old(war_reg).wars_view().len(),
        forall|i: int| 0 <= i < final(war_reg).wars_view().len() ==> {
            let w0 = old(war_reg).wars_view()[i];
            &&& #[trigger] final(war_reg).wars_view()[i] == War { war_score: war_score_for(provinces.provinces@, w0), ..w0 }
        },
        final(war_reg).alliances_view() == old(war_reg).alliances_view(),
        final(war_reg).truces_view() == old(war_reg).truces_view(),
        final(war_reg).next_war() == old(war_reg).next_war(),
{
    let n = war_reg.wars.len();
    let mut i: usize = 0;
    while i < n
        invariant
            n == war_reg.wars@.len(),
            n == old(war_reg).wars@.len(),
            i <= n,
            war_score_ok(provinces.provinces@, old(war_reg).wars@),
            forall|j: int| 0 <= j < i ==> {
                let w0 = old(war_reg).wars@[j];
                #[trigger] war_reg.wars@[j] == War { war_score: war_score_for(provinces.provinces@, w0), ..w0 }
            },
            forall|j: int| i <= j < n ==> #[trigger] war_reg.wars@[j] == old(war_reg).wars@[j],
            war_reg.alliances@ == old(war_reg).alliances@,
            war_reg.truces@ == old(war_reg).truces@,
            war_reg.next_war_raw == old(war_reg).next_war_raw,
        decreases n - i,
    {
        let att = count_owned(&provinces.provinces, &war_reg.wars[i].attackers);
        let def = count_owned(&provinces.provinces, &war_reg.wars[i].defenders);
        proof {
            let w0 = old(war_reg).wars@[i as int];
            assert(war_reg.wars@[i as int] == w0);
        }
        let att = att as i32;
        let def = def as i32;
        let sum = att + def;
        let total = if sum < 1 { 1 } else { sum };
        let raw_score = ((att - def) * 100) / total;
        let score: i16 = if raw_score < -100 { -100 } else if raw_score > 100 { 100 } else { raw_score as i16 };
        war_reg.wars[i].war_score = score;
        i += 1;
    }
}

/// The alliances of `reg` hold the pair with raw ids `{ai, bi}`.
pub open spec fn allied_raw(reg: WarRegistry, ai: u32, bi: u32) -> bool {
    exists|i: int| 0 <= i < reg.alliances_view().len() && {
        let al = #[trigger] reg.alliances_view()[i];
        (al.nation_a.spec_raw() == ai && al.nation_b.spec_raw() == bi)
            || (al.nation_a.spec_raw() == bi && al.nation_b.spec_raw() == ai)
    }
}

/// Opinion decay at cell `p`: positive opinions move down and negative ones up by
/// `decay`, stopping at 0.
pub open spec fn decayed_at(cells: Seq<Relations>, p: int, decay: i16) -> Seq<Relations> {
    if 0 <= p < cells.len() {
        let o = cells[p].opinion;
        let n = if o > 0 {
            if o - decay < 0 { 0 } else { o - decay }
        } else if o < 0 {
            if o + decay > 0 { 0 } else { o + decay }
        } else {
            o as int
        };
        cells.update(p, Relations { opinion: n as i16, ..cells[p] })
    } else {
        cells
    }
}

/// The decay at cell `p` stays within `i16`.
pub open spec fn decay_ok_at(cells: Seq<Relations>, p: int, decay: i16) -> bool {
    0 <= p < cells.len() ==> {
        let o = cells[p].opinion;
        &&& o > 0 ==> i16::MIN <= o - decay <= i16::MAX
        &&& o < 0 ==> i16::MIN <= o + decay <= i16::MAX
    }
}

/// Opinion at cell `p` raised to at least `floor`.
pub open spec fn floored_at(cells: Seq<Relations>, p: int, floor: i16) -> Seq<Relations> {
    if 0 <= p < cells.len() && cells[p].opinion < floor {
        cells.update(p, Relations { opinion: floor, ..cells[p] })
    } else {
        cells
    }
}

/// Flat position of the raw pair `(ai, bi)` in a matrix for `count` nations.
pub open spec fn raw_pos(count: u32, ai: u32, bi: u32) -> int {
    (ai - 1) * count + (bi - 1)
}

/// One pair `(ai, bi)` of the opinion tick: decay both directions, then, when allied,
/// raise both directions to the alliance bonus.
pub open spec fn pair_tick(cells: Seq<Relations>, count: u32, reg: WarRegistry, config: DiplomacyConfig, ai: u32, bi: u32) -> Seq<Relations> {
    let c1 = decayed_at(cells, raw_pos(count, ai, bi), config.opinion_decay_per_tick);
    let c2 = decayed_at(c1, raw_pos(count, bi, ai), config.opinion_decay_per_tick);
    if allied_raw(reg, ai, bi) {
        floored_at(floored_at(c2, raw_pos(count, ai, bi), config.alliance_opinion_bonus),
            raw_pos(count, bi, ai), config.alliance_opinion_bonus)
    } else {
        c2
    }
}

pub open spec fn pair_tick_ok(cells: Seq<Relations>, count: u32, config: DiplomacyConfig, ai: u32, bi: u32) -> bool {
    let c1 = decayed_at(cells, raw_pos(count, ai, bi), config.opinion_decay_per_tick);
    &&& decay_ok_at(cells, raw_pos(count, ai, bi), config.opinion_decay_per_tick)
    &&& decay_ok_at(c1, raw_pos(count, bi, ai), config.opinion_decay_per_tick)
}

/// Pairs `(ai, b)` for `b` in `ai + 1 .. upto`, in order.
pub open spec fn row_tick(cells: Seq<Relations>, count: u32, reg: WarRegistry, config: DiplomacyConfig, ai: u32, upto: int) -> Seq<Relations>
    decreases upto,
{
    if upto <= ai + 1 || upto > u32::MAX + 1 {
        cells
    } else {
        pair_tick(row_tick(cells, count, reg, config, ai, upto - 1), count, reg, config, ai, (upto - 1) as u32)
    }
}

pub open spec fn row_tick_ok(cells: Seq<Relations>, count: u32, reg: WarRegistry, config: DiplomacyConfig, ai: u32, upto: int) -> bool
    decreases upto,
{
    if upto <= ai + 1 || upto > u32::MAX + 1 {
        true
    } else {
        row_tick_ok(cells, count, reg, config, ai, upto - 1)
            && pair_tick_ok(row_tick(cells, count, reg, config, ai, upto - 1), count, config, ai, (upto - 1) as u32)
    }
}

/// Rows `a` in `1 .. upto`, each over `b` in `a + 1 ..= n`.
pub open spec fn rows_tick(cells: Seq<Relations>, count: u32, reg: WarRegistry, config: DiplomacyConfig, n: u32, upto: int) -> Seq<Relations>
    decreases upto,
{
    if upto <= 1 || upto > u32::MAX + 1 {
        cells
    } else {
        row_tick(rows_tick(cells, count, reg, config, n, upto - 1), count, reg, config, (upto - 1) as u32, n + 1)
    }
}

pub open spec fn rows_tick_ok(cells: Seq<Relations>, count: u32, reg: WarRegistry, config: DiplomacyConfig, n: u32, upto: int) -> bool
    decreases upto,
{
    if upto <= 1 || upto > u32::MAX + 1 {
        true
    } else {
        rows_tick_ok(cells, count, reg, config, n, upto - 1)
            && row_tick_ok(rows_tick(cells, count, reg, config, n, upto - 1), count, reg, config, (upto - 1) as u32, n + 1)
    }
}

fn decay_cell(relations: &mut DiplomaticRelations, a: NationId, b: NationId, decay: i16)
    requires
        decay_ok_at(old(relations).cells(), old(relations).pos(a, b), decay),
    ensures
        final(relations).count() == old(relations).count(),
        final(relations).cells() == decayed_at(old(relations).cells(), old(relations).pos(a, b), decay),
{
    let i = relations.idx(a, b);
    if i < relations.relations.len() as u64 {
        let o = relations.relations[i as usize].opinion;
        if o > 0 {
            let v = o - decay;
            relations.relations[i as usize].opinion = if v < 0 { 0 } else { v };
        } else if o < 0 {
            let v = o + decay;
            relations.relations[i as usize].opinion = if v > 0 { 0 } else { v };
        }
        proof {
            assert(relations.cells() =~= decayed_at(old(relations).cells(), old(relations).pos(a, b), decay));
        }
    }
}

fn floor_cell(relations: &mut DiplomaticRelations, a: NationId, b: NationId, floor: i16)
    ensures
        final(relations).count() == old(relations).count(),
        final(relations).cells() == floored_at(old(relations).cells(), old(relations).pos(a, b), floor),
{
    let i = relations.idx(a, b);
    if i < relations.relations.len() as u64 {
        if relations.relations[i as usize].opinion < floor {
            relations.relations[i as usize].opinion = floor;
            proof {
                assert(relations.cells() =~= floored_at(old(relations).cells(), old(relations).pos(a, b), floor));
            }
        }
    }
}

/// Opinion drift: for every pair of nations `a < b` (by raw id, up to the world's nation
/// count), opinions in both directions decay toward 0, and allied pairs are raised to at
/// least the alliance bonus.
pub fn system_diplomacy_opinion_tick(
    config: &DiplomacyConfig,
    bounds: &WorldBounds,
    relations: &mut DiplomaticRelations,
    war_reg: &WarRegistry,
)
    requires
        bounds.nation_count < u32::MAX,
        rows_tick_ok(old(relations).cells(), old(relations).count(), *war_reg, *config, bounds.nation_count, bounds.nation_count + 1),
    ensures
        final(relations).count() == old(relations).count(),
        final(relations).cells() == rows_tick(old(relations).cells(), old(relations).count(), *war_reg, *config,
            bounds.nation_count, bounds.nation_count + 1),
{
    let n = bounds.nation_count;
    let decay = config.opinion_decay_per_tick;
    let ghost count = relations.count();
    let ghost c0 = relations.cells();
    let mut ai: u32 = 1;
    while ai <= n
        invariant
            1 <= ai <= n as int + 1,
            relations.count() == count,
            n < u32::MAX,
            n == bounds.nation_count,
            decay == config.opinion_decay_per_tick,
            rows_tick_ok(c0, count, *war_reg, *config, n, n + 1),
            relations.cells() == rows_tick(c0, count, *war_reg, *config, n, ai as int),
        decreases n + 1 - ai,
    {
        proof {
            lemma_rows_ok_prefix(c0, count, *war_reg, *config, n, n + 1, ai + 1);
        }
        let ghost row_start = relations.cells();
        let mut bi: u32 = ai + 1;
        while bi <= n
            invariant
                1 <= ai <= n,
                n < u32::MAX,
                decay == config.opinion_decay_per_tick,
                ai + 1 <= bi <= n as int + 1,
                relations.count() == count,
                row_tick_ok(row_start, count, *war_reg, *config, ai, n + 1),
                relations.cells() == row_tick(row_start, count, *war_reg, *config, ai, bi as int),
            decreases n + 1 - bi,
        {
            proof {
                lemma_row_ok_prefix(row_start, count, *war_reg, *config, ai, n + 1, bi + 1);
            }
            let a = NationId::from_raw(ai);
            let b = NationId::from_raw(bi);
            proof {
                assert(relations.pos(a, b) == raw_pos(count, ai, bi));
                assert(relations.pos(b, a) == raw_pos(count, bi, ai));
            }
            decay_cell(relations, a, b, decay);
            decay_cell(relations, b, a, decay);
            let allied = war_reg.are_allied(a, b);
            proof {
                lemma_allied_raw(*war_reg, a, b);
            }
            if allied {
                floor_cell(relations, a, b, config.alliance_opinion_bonus);
                floor_cell(relations, b, a, config.alliance_opinion_bonus);
            }
            bi += 1;
        }
        ai += 1;
    }
}

proof fn lemma_allied_raw(reg: WarRegistry, a: NationId, b: NationId)
    ensures
        reg.spec_allied(a, b) == allied_raw(reg, a.spec_raw(), b.spec_raw()),
{
    if allied_raw(reg, a.spec_raw(), b.spec_raw()) {
        let i = choose|i: int| 0 <= i < reg.alliances_view().len() && {
            let al = #[trigger] reg.alliances_view()[i];
            (al.nation_a.spec_raw() == a.spec_raw() && al.nation_b.spec_raw() == b.spec_raw())
                || (al.nation_a.spec_raw() == b.spec_raw() && al.nation_b.spec_raw() == a.spec_raw())
        };
        let al = reg.alliances_view()[i];
        NationId::lemma_raw_injective(al.nation_a, a);
        NationId::lemma_raw_injective(al.nation_b, b);
        NationId::lemma_raw_injective(al.nation_a, b);
        NationId::lemma_raw_injective(al.nation_b, a);
        assert(pair_is(reg.alliances_view()[i].nation_a, reg.alliances_view()[i].nation_b, a, b));
    }
    if reg.spec_allied(a, b) {
        let i = choose|i: int| 0 <= i < reg.alliances_view().len()
            && pair_is(#[trigger] reg.alliances_view()[i].nation_a, reg.alliances_view()[i].nation_b, a, b);
        let al = reg.alliances_view()[i];
        assert((al.nation_a.spec_raw() == a.spec_raw() && al.nation_b.spec_raw() == b.spec_raw())
            || (al.nation_a.spec_raw() == b.spec_raw() && al.nation_b.spec_raw() == a.spec_raw()));
    }
}

proof fn lemma_row_ok_prefix(cells: Seq<Relations>, count: u32, reg: WarRegistry, config: DiplomacyConfig, ai: u32, upto: int, k: int)
    requires
        row_tick_ok(cells, count, reg, config, ai, upto),
        k <= upto,
        upto <= u32::MAX + 1,
    ensures
        row_tick_ok(cells, count, reg, config, ai, k),
        ai + 1 < k ==> pair_tick_ok(row_tick(cells, count, reg, config, ai, k - 1), count, config, ai, (k - 1) as u32),
    decreases upto - k,
{
    if k < upto {
        if !(upto <= ai + 1 || upto > u32::MAX + 1) {
            lemma_row_ok_prefix(cells, count, reg, config, ai, upto - 1, k);
        } else {
            lemma_row_ok_trivial(cells, count, reg, config, ai, k);
        }
    }
}

proof fn lemma_row_ok_trivial(cells: Seq<Relations>, count: u32, reg: WarRegistry, config: DiplomacyConfig, ai: u32, k: int)
    requires
        k <= ai + 1 || k > u32::MAX + 1,
    ensures
        row_tick_ok(cells, count, reg, config, ai, k),
{
}

/// With a non-negative decay, decaying a pair never leaves `i16`.
proof fn lemma_row_ok_nonneg(cells: Seq<Relations>, count: u32, reg: WarRegistry, config: DiplomacyConfig, ai: u32, upto: int)
    requires
        config.opinion_decay_per_tick >= 0,
    ensures
        row_tick_ok(cells, count, reg, config, ai, upto),
    decreases upto,
{
    if !(upto <= ai + 1 || upto > u32::MAX + 1) {
        lemma_row_ok_nonneg(cells, count, reg, config, ai, upto - 1);
    }
}

proof fn lemma_rows_ok_nonneg(cells: Seq<Relations>, count: u32, reg: WarRegistry, config: DiplomacyConfig, n: u32, upto: int)
    requires
        config.opinion_decay_per_tick >= 0,
    ensures
        rows_tick_ok(cells, count, reg, config, n, upto),
    decreases upto,
{
    if !(upto <= 1 || upto > u32::MAX + 1) {
        lemma_rows_ok_nonneg(cells, count, reg, config, n, upto - 1);
        lemma_row_ok_nonneg(rows_tick(cells, count, reg, config, n, upto - 1), count, reg, config, (upto - 1) as u32, n + 1);
    }
}

/// `decay_cell` where the decay at that cell stays within `i16`; returns whether it
/// did, and changes nothing when it did not.
fn decay_cell_checked(relations: &mut DiplomaticRelations, a: NationId, b: NationId, decay: i16) -> (r: bool)
    ensures
        final(relations).count() == old(relations).count(),
        r == decay_ok_at(old(relations).cells(), old(relations).pos(a, b), decay),
        r ==> final(relations).cells() == decayed_at(old(relations).cells(), old(relations).pos(a, b), decay),
        !r ==> final(relations).cells() == old(relations).cells(),
{
    let i = relations.idx(a, b);
    if i < relations.relations.len() as u64 {
        let o = relations.relations[i as usize].opinion as i32;
        let d = decay as i32;
        if o > 0 && (o - d < -32768 || o - d > 32767) {
            return false;
        }
        if o < 0 && (o + d < -32768 || o + d > 32767) {
            return false;
        }
    }
    decay_cell(relations, a, b, decay);
    true
}

/// Whether the opinion tick over `relations` keeps every opinion within `i16` (and the
/// nation count is below `u32::MAX`): it is run on a copy, each decay checked first.
pub fn opinion_tick_fits(
    config: &DiplomacyConfig,
    bounds: &WorldBounds,
    relations: &DiplomaticRelations,
    war_reg: &WarRegistry,
) -> (r: bool)
    ensures
        r == (bounds.nation_count < u32::MAX && rows_tick_ok(relations.cells(), relations.count(), *war_reg,
            *config, bounds.nation_count, bounds.nation_count + 1)),
{
    let n = bounds.nation_count;
    if n == u32::MAX {
        return false;
    }
    let decay = config.opinion_decay_per_tick;
    let ghost count = relations.count();
    let ghost c0 = relations.cells();
    let len = relations.relations.len();
    let mut copy: Vec<Relations> = Vec::new();
    let mut k: usize = 0;
    while k < len
        invariant
            len == c0.len(),
            c0 == relations.cells(),
            k <= len,
            copy@ == c0.take(k as int),
        decreases len - k,
    {
        copy.push(relations.relations[k]);
        proof {
            assert(c0.take(k + 1) =~= c0.take(k as int).push(c0[k as int]));
        }
        k += 1;
    }
    proof {
        assert(c0.take(len as int) =~= c0);
    }
    let mut scratch = DiplomaticRelations { relations: copy, nation_count: relations.nation_count };
    let mut ai: u32 = 1;
    while ai <= n
        invariant
            1 <= ai <= n as int + 1,
            scratch.count() == count,
            n < u32::MAX,
            n == bounds.nation_count,
            decay == config.opinion_decay_per_tick,
            c0 == relations.cells(),
            count == relations.count(),
            rows_tick_ok(c0, count, *war_reg, *config, n, ai as int),
            scratch.cells() == rows_tick(c0, count, *war_reg, *config, n, ai as int),
        decreases n + 1 - ai,
    {
        let ghost row_start = scratch.cells();
        let mut bi: u32 = ai + 1;
        while bi <= n
            invariant
                1 <= ai <= n,
                n < u32::MAX,
                decay == config.opinion_decay_per_tick,
                ai + 1 <= bi <= n as int + 1,
                scratch.count() == count,
                n == bounds.nation_count,
                c0 == relations.cells(),
                count == relations.count(),
                rows_tick_ok(c0, count, *war_reg, *config, n, ai as int),
                row_start == rows_tick(c0, count, *war_reg, *config, n, ai as int),
                row_tick_ok(row_start, count, *war_reg, *config, ai, bi as int),
                scratch.cells() == row_tick(row_start, count, *war_reg, *config, ai, bi as int),
            decreases n + 1 - bi,
        {
            let a = NationId::from_raw(ai);
            let b = NationId::from_raw(bi);
            proof {
                assert(scratch.pos(a, b) == raw_pos(count, ai, bi));
                assert(scratch.pos(b, a) == raw_pos(count, bi, ai));
            }
            let ghost before = scratch.cells();
            if !decay_cell_checked(&mut scratch, a, b, decay) {
                proof {
                    lemma_tick_not_ok(c0, count, *war_reg, *config, n, ai, bi);
                }
                return false;
            }
            if !decay_cell_checked(&mut scratch, b, a, decay) {
                proof {
                    lemma_tick_not_ok(c0, count, *war_reg, *config, n, ai, bi);
                }
                return false;
            }
            let allied = war_reg.are_allied(a, b);
            proof {
                lemma_allied_raw(*war_reg, a, b);
            }
            if allied {
                floor_cell(&mut scratch, a, b, config.alliance_opinion_bonus);
                floor_cell(&mut scratch, b, a, config.alliance_opinion_bonus);
            }
            bi += 1;
        }
        ai += 1;
    }
    true
}

/// A pair of row `ai` whose decay leaves `i16` makes the whole tick leave it.
proof fn lemma_tick_not_ok(c0: Seq<Relations>, count: u32, reg: WarRegistry, config: DiplomacyConfig, n: u32, ai: u32, bi: u32)
    requires
        1 <= ai <= n,
        ai + 1 <= bi <= n,
        n < u32::MAX,
        !pair_tick_ok(row_tick(rows_tick(c0, count, reg, config, n, ai as int), count, reg, config, ai, bi as int),
            count, config, ai, bi),
    ensures
        !rows_tick_ok(c0, count, reg, config, n, n + 1),
{
    if rows_tick_ok(c0, count, reg, config, n, n + 1) {
        lemma_rows_ok_prefix(c0, count, reg, config, n, n + 1, ai + 1);
        lemma_row_ok_prefix(rows_tick(c0, count, reg, config, n, ai as int), count, reg, config, ai, n + 1, bi + 1);
    }
}

/// The opinion tick where it keeps every opinion within `i16` (and the nation count is
/// below `u32::MAX`); returns whether it ran, and changes nothing when it did not.
pub fn try_opinion_tick(
    config: &DiplomacyConfig,
    bounds: &WorldBounds,
    relations: &mut DiplomaticRelations,
    war_reg: &WarRegistry,
) -> (r: bool)
    ensures
        r == (bounds.nation_count < u32::MAX && rows_tick_ok(old(relations).cells(), old(relations).count(),
            *war_reg, *config, bounds.nation_count, bounds.nation_count + 1)),
        final(relations).count() == old(relations).count(),
        r ==> final(relations).cells() == rows_tick(old(relations).cells(), old(relations).count(), *war_reg, *config,
            bounds.nation_count, bounds.nation_count + 1),
        !r ==> final(relations).cells() == old(relations).cells(),
{
    if opinion_tick_fits(config, bounds, relations, war_reg) {
        system_diplomacy_opinion_tick(config, bounds, relations, war_reg);
        true
    } else {
        false
    }
}

/// With a non-negative decay the opinion tick never leaves `i16`, whatever the opinions.
pub proof fn law_nonneg_decay_tick_fits(cells: Seq<Relations>, count: u32, reg: WarRegistry, config: DiplomacyConfig, n: u32)
    requires
        config.opinion_decay_per_tick >= 0,
    ensures
        rows_tick_ok(cells, count, reg, config, n, n + 1),
{
    lemma_rows_ok_nonneg(cells, count, reg, config, n, n + 1);
}

proof fn lemma_rows_ok_prefix(cells: Seq<Relations>, count: u32, reg: WarRegistry, config: DiplomacyConfig, n: u32, upto: int, k: int)
    requires
        rows_tick_ok(cells, count, reg, config, n, upto),
        k <= upto,
        upto <= n + 1,
    ensures
        rows_tick_ok(cells, count, reg, config, n, k),
        k >= 2 ==> row_tick_ok(rows_tick(cells, count, reg, config, n, k - 1), count, reg, config, (k - 1) as u32, n + 1),
    decreases upto - k,
{
    if k < upto {
        lemma_rows_ok_prefix(cells, count, reg, config, n, upto - 1, k);
    }
}

// ---------------------------------------------------------------------------
// Laws
// ---------------------------------------------------------------------------

proof fn lemma_alliances_without(s: Seq<Alliance>, a: NationId, b: NationId)
    ensures
        forall|i: int| 0 <= i < alliances_without(s, a, b).len() ==>
            !pair_is(#[trigger] alliances_without(s, a, b)[i].nation_a, alliances_without(s, a, b)[i].nation_b, a, b),
        forall|i: int| 0 <= i < alliances_without(s, a, b).len() ==> s.contains(#[trigger] alliances_without(s, a, b)[i]),
        forall|i: int| 0 <= i < s.len() && !pair_is(#[trigger] s[i].nation_a, s[i].nation_b, a, b)
            ==> alliances_without(s, a, b).contains(s[i]),
    decreases s.len(),
{
    if s.len() > 0 {
        lemma_alliances_without(s.drop_last(), a, b);
        let rest = alliances_without(s.drop_last(), a, b);
        assert forall|i: int| 0 <= i < alliances_without(s, a, b).len() implies s.contains(#[trigger] alliances_without(s, a, b)[i]) by {
            if i < rest.len() {
                let x = rest[i];
                assert(s.drop_last().contains(x));
                let j = choose|j: int| 0 <= j < s.drop_last().len() && s.drop_last()[j] == x;
                assert(s[j] == x);
            } else {
                assert(s[s.len() - 1] == s.last());
            }
        }
        assert forall|i: int| 0 <= i < s.len() && !pair_is(#[trigger] s[i].nation_a, s[i].nation_b, a, b)
            implies alliances_without(s, a, b).contains(s[i]) by {
            if i < s.len() - 1 {
                assert(s.drop_last()[i] == s[i]);
                assert(rest.contains(s[i]));
                let j = choose|j: int| 0 <= j < rest.len() && rest[j] == s[i];
                assert(alliances_without(s, a, b)[j] == s[i]);
            } else {
                assert(alliances_without(s, a, b)[rest.len() as int] == s[i]);
            }
        }
    }
}

/// Declaring war puts the two nations at war with each other and leaves them unallied.
pub proof fn law_declare_war(old_reg: WarRegistry, new_reg: WarRegistry, attacker: NationId, defender: NationId)
    requires
        new_reg.alliances_view() == alliances_without(old_reg.alliances_view(), attacker, defender),
        new_reg.wars_view().len() > 0,
        new_reg.wars_view().last().attackers@ == seq![attacker],
        new_reg.wars_view().last().defenders@ == seq![defender],
    ensures
        new_reg.spec_at_war(attacker, defender),
        new_reg.spec_at_war(defender, attacker),
        !new_reg.spec_allied(attacker, defender),
{
    let k = new_reg.wars_view().len() - 1;
    let w = new_reg.wars_view()[k];
    assert(w.attackers@[0] == attacker);
    assert(w.defenders@[0] == defender);
    assert(opposed_in(new_reg.wars_view()[k], attacker, defender));
    assert(opposed_in(new_reg.wars_view()[k], defender, attacker));
    lemma_alliances_without(old_reg.alliances_view(), attacker, defender);
}

/// After forming an alliance the two nations are allied, in either order.
pub proof fn law_form_alliance(old_reg: WarRegistry, new_reg: WarRegistry, a: NationId, b: NationId, date: GameDate)
    requires
        new_reg.alliances_view() == (if old_reg.spec_allied(a, b) {
            old_reg.alliances_view()
        } else {
            old_reg.alliances_view().push(Alliance { nation_a: a, nation_b: b, formed: date })
        }),
    ensures
        new_reg.spec_allied(a, b),
        new_reg.spec_allied(b, a),
        new_reg.alliances_view().len() == old_reg.alliances_view().len() + (if old_reg.spec_allied(a, b) { 0int } else { 1int }),
{
    if old_reg.spec_allied(a, b) {
        let i = choose|i: int| 0 <= i < old_reg.alliances_view().len()
            && pair_is(#[trigger] old_reg.alliances_view()[i].nation_a, old_reg.alliances_view()[i].nation_b, a, b);
        assert(pair_is(new_reg.alliances_view()[i].nation_a, new_reg.alliances_view()[i].nation_b, b, a));
    } else {
        let k = old_reg.alliances_view().len() as int;
        assert(pair_is(new_reg.alliances_view()[k].nation_a, new_reg.alliances_view()[k].nation_b, a, b));
        assert(pair_is(new_reg.alliances_view()[k].nation_a, new_reg.alliances_view()[k].nation_b, b, a));
    }
}

/// After breaking an alliance the two nations are not allied, and other alliances stay.
pub proof fn law_break_alliance(old_reg: WarRegistry, new_reg: WarRegistry, a: NationId, b: NationId, c: NationId, d: NationId)
    requires
        new_reg.alliances_view() == alliances_without(old_reg.alliances_view(), a, b),
        !pair_is(c, d, a, b),
    ensures
        !new_reg.spec_allied(a, b),
        !new_reg.spec_allied(b, a),
        new_reg.spec_allied(c, d) == old_reg.spec_allied(c, d),
{
    let s = old_reg.alliances_view();
    lemma_alliances_without(s, a, b);
    if old_reg.spec_allied(c, d) {
        let i = choose|i: int| 0 <= i < s.len() && pair_is(#[trigger] s[i].nation_a, s[i].nation_b, c, d);
        assert(!pair_is(s[i].nation_a, s[i].nation_b, a, b));
        assert(new_reg.alliances_view().contains(s[i]));
        let j = choose|j: int| 0 <= j < new_reg.alliances_view().len() && new_reg.alliances_view()[j] == s[i];
        assert(pair_is(new_reg.alliances_view()[j].nation_a, new_reg.alliances_view()[j].nation_b, c, d));
    }
    if new_reg.spec_allied(c, d) {
        let j = choose|j: int| 0 <= j < new_reg.alliances_view().len()
            && pair_is(#[trigger] new_reg.alliances_view()[j].nation_a, new_reg.alliances_view()[j].nation_b, c, d);
        assert(s.contains(new_reg.alliances_view()[j]));
        let i = choose|i: int| 0 <= i < s.len() && s[i] == new_reg.alliances_view()[j];
        assert(pair_is(s[i].nation_a, s[i].nation_b, c, d));
    }
}

proof fn lemma_truces_for_contains(attackers: Seq<NationId>, defenders: Seq<NationId>, e: GameDate, i: int, j: int)
    requires
        0 <= i < attackers.len(),
        0 <= j < defenders.len(),
    ensures
        truces_for(attackers, defenders, e).contains(Truce { nation_a: attackers[i], nation_b: defenders[j], expires: e }),
    decreases attackers.len(),
{
    let t = Truce { nation_a: attackers[i], nation_b: defenders[j], expires: e };
    let row = defenders.map_values(|d: NationId| Truce { nation_a: attackers.last(), nation_b: d, expires: e });
    let prev = truces_for(attackers.drop_last(), defenders, e);
    if i == attackers.len() - 1 {
        assert(row[j] == t);
        assert((prev + row)[prev.len() + j] == t);
    } else {
        lemma_truces_for_contains(attackers.drop_last(), defenders, e, i, j);
        let k = choose|k: int| 0 <= k < prev.len() && prev[k] == t;
        assert((prev + row)[k] == t);
    }
}

/// Ending a war leaves a truce between each of its attackers and each of its defenders.
pub proof fn law_end_war_truce(old_reg: WarRegistry, new_reg: WarRegistry, war_id: WarId, w: War, days: i64,
    current: GameDate, a: NationId, b: NationId)
    requires
        old_reg.first_war(war_id) == Some(w),
        new_reg.truces_view() == old_reg.truces_view() + truces_for(w.attackers@, w.defenders@, truce_expiry(current, days)),
        w.attackers@.contains(a),
        w.defenders@.contains(b),
    ensures
        new_reg.spec_truce(a, b),
        new_reg.spec_truce(b, a),
{
    let i = choose|i: int| 0 <= i < w.attackers@.len() && w.attackers@[i] == a;
    let j = choose|j: int| 0 <= j < w.defenders@.len() && w.defenders@[j] == b;
    let e = truce_expiry(current, days);
    lemma_truces_for_contains(w.attackers@, w.defenders@, e, i, j);
    let tf = truces_for(w.attackers@, w.defenders@, e);
    let k = choose|k: int| 0 <= k < tf.len() && tf[k] == Truce { nation_a: a, nation_b: b, expires: e };
    let n = old_reg.truces_view().len() as int;
    assert(new_reg.truces_view()[n + k] == tf[k]);
    assert(pair_is(new_reg.truces_view()[n + k].nation_a, new_reg.truces_view()[n + k].nation_b, a, b));
    assert(pair_is(new_reg.truces_view()[n + k].nation_a, new_reg.truces_view()[n + k].nation_b, b, a));
}

proof fn lemma_wars_without(s: Seq<War>, id: WarId)
    ensures
        forall|i: int| 0 <= i < wars_without(s, id).len() ==> (#[trigger] wars_without(s, id)[i]).id != id,
        forall|i: int| 0 <= i < wars_without(s, id).len() ==> s.contains(#[trigger] wars_without(s, id)[i]),
    decreases s.len(),
{
    if s.len() > 0 {
        lemma_wars_without(s.drop_last(), id);
        let rest = wars_without(s.drop_last(), id);
        assert forall|i: int| 0 <= i < wars_without(s, id).len() implies s.contains(#[trigger] wars_without(s, id)[i]) by {
            if i < rest.len() {
                let x = rest[i];
                let j = choose|j: int| 0 <= j < s.drop_last().len() && s.drop_last()[j] == x;
                assert(s[j] == x);
            } else {
                assert(s[s.len() - 1] == s.last());
            }
        }
    }
}

/// Ending a war removes it: no war with its id remains, and two nations that were at war
/// only through wars with this id are no longer at war.
pub proof fn law_end_war_removes(old_reg: WarRegistry, new_reg: WarRegistry, war_id: WarId, a: NationId, b: NationId)
    requires
        new_reg.wars_view() == wars_without(old_reg.wars_view(), war_id),
        forall|i: int| 0 <= i < old_reg.wars_view().len() && opposed_in(#[trigger] old_reg.wars_view()[i], a, b)
            ==> old_reg.wars_view()[i].id == war_id,
    ensures
        forall|i: int| 0 <= i < new_reg.wars_view().len() ==> (#[trigger] new_reg.wars_view()[i]).id != war_id,
        !new_reg.spec_at_war(a, b),
{
    lemma_wars_without(old_reg.wars_view(), war_id);
    if new_reg.spec_at_war(a, b) {
        let i = choose|i: int| 0 <= i < new_reg.wars_view().len() && opposed_in(#[trigger] new_reg.wars_view()[i], a, b);
        let x = new_reg.wars_view()[i];
        assert(old_reg.wars_view().contains(x));
        let j = choose|j: int| 0 <= j < old_reg.wars_view().len() && old_reg.wars_view()[j] == x;
        assert(opposed_in(old_reg.wars_view()[j], a, b));
    }
}

/// War, alliance and truce queries do not depend on the order of the two nations.
pub proof fn law_queries_symmetric(reg: WarRegistry, a: NationId, b: NationId)
    ensures
        reg.spec_at_war(a, b) == reg.spec_at_war(b, a),
        reg.spec_allied(a, b) == reg.spec_allied(b, a),
        reg.spec_truce(a, b) == reg.spec_truce(b, a),
{
    if reg.spec_at_war(a, b) {
        let i = choose|i: int| 0 <= i < reg.wars_view().len() && opposed_in(#[trigger] reg.wars_view()[i], a, b);
        assert(opposed_in(reg.wars_view()[i], b, a));
    }
    if reg.spec_at_war(b, a) {
        let i = choose|i: int| 0 <= i < reg.wars_view().len() && opposed_in(#[trigger] reg.wars_view()[i], b, a);
        assert(opposed_in(reg.wars_view()[i], a, b));
    }
    if reg.spec_allied(a, b) {
        let i = choose|i: int| 0 <= i < reg.alliances_view().len()
            && pair_is(#[trigger] reg.alliances_view()[i].nation_a, reg.alliances_view()[i].nation_b, a, b);
        assert(pair_is(reg.alliances_view()[i].nation_a, reg.alliances_view()[i].nation_b, b, a));
    }
    if reg.spec_allied(b, a) {
        let i = choose|i: int| 0 <= i < reg.alliances_view().len()
            && pair_is(#[trigger] reg.alliances_view()[i].nation_a, reg.alliances_view()[i].nation_b, b, a);
        assert(pair_is(reg.alliances_view()[i].nation_a, reg.alliances_view()[i].nation_b, a, b));
    }
    if reg.spec_truce(a, b) {
        let i = choose|i: int| 0 <= i < reg.truces_view().len()
            && pair_is(#[trigger] reg.truces_view()[i].nation_a, reg.truces_view()[i].nation_b, a, b);
        assert(pair_is(reg.truces_view()[i].nation_a, reg.truces_view()[i].nation_b, b, a));
    }
    if reg.spec_truce(b, a) {
        let i = choose|i: int| 0 <= i < reg.truces_view().len()
            && pair_is(#[trigger] reg.truces_view()[i].nation_a, reg.truces_view()[i].nation_b, b, a);
        assert(pair_is(reg.truces_view()[i].nation_a, reg.truces_view()[i].nation_b, a, b));
    }
}

/// The war score follows the province count: it is positive only when the attackers
/// own more provinces than the defenders, negative only when the defenders own more,
/// zero when they own as many; +100 when only the attackers own provinces and -100
/// when only the defenders do.
pub proof fn law_war_score_sign(ps: Seq<Province>, w: War)
    ensures
        ({
            let att = owned_by(ps, w.attackers@);
            let def = owned_by(ps, w.defenders@);
            let s = war_score_for(ps, w);
            &&& s > 0 ==> att > def
            &&& s < 0 ==> def > att
            &&& att == def ==> s == 0
            &&& (att > 0 && def == 0) ==> s == 100
            &&& (def > 0 && att == 0) ==> s == -100
        }),
{
    let att = owned_by(ps, w.attackers@) as int;
    let def = owned_by(ps, w.defenders@) as int;
    let total = if att + def < 1 { 1 } else { att + def };
    let x = (att - def) * 100;
    if att > def {
        assert(x / total >= 0) by (nonlinear_arith)
            requires x > 0, total > 0;
    } else if att < def {
        assert((-x) / total >= 0) by (nonlinear_arith)
            requires -x > 0, total > 0;
    }
    if att > 0 && def == 0 {
        assert(x / total == 100) by (nonlinear_arith)
            requires x == att * 100, total == att, att > 0;
    }
    if def > 0 && att == 0 {
        assert((-x) / total == 100) by (nonlinear_arith)
            requires -x == def * 100, total == def, def > 0;
    }
}

/// Swapping the two sides of a war negates its score.
pub proof fn law_war_score_antisymmetric(ps: Seq<Province>, w: War)
    ensures
        war_score_for(ps, War { attackers: w.defenders, defenders: w.attackers, ..w }) == -war_score_for(ps, w),
{
}

/// With a non-negative decay, one decay step moves an opinion toward 0 by the decay
/// and stops at 0: its size becomes `max(0, |o| - d)` and its sign never flips, so
/// decaying `-o` gives the negation of decaying `o`. Trust and every other cell stay.
pub proof fn law_decay_toward_zero(cells: Seq<Relations>, p: int, d: i16)
    requires
        0 <= p < cells.len(),
        d >= 0,
    ensures
        decayed_at(cells, p, d).len() == cells.len(),
        ({
            let o = cells[p].opinion as int;
            let n = decayed_at(cells, p, d)[p].opinion as int;
            &&& vstd::math::abs(n) == vstd::math::max(0, vstd::math::abs(o) - d)
            &&& o > 0 ==> n >= 0
            &&& o < 0 ==> n <= 0
            &&& o == 0 ==> n == 0
        }),
        decayed_at(cells, p, d)[p].trust == cells[p].trust,
        forall|q: int| 0 <= q < cells.len() && q != p ==> #[trigger] decayed_at(cells, p, d)[q] == cells[q],
{
}

/// War scores always lie in [-100, 100].
pub proof fn law_war_score_bounded(ps: Seq<Province>, w: War)
    ensures
        -100 <= war_score_for(ps, w) <= 100,
{
}

} // verus!

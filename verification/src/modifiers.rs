//! Modifier system: stackable, expiring modifiers attached to scopes.
//!
//! Games that do not use modifiers simply leave these stores out. Modifier values
//! are `f64`s kept as their bit patterns; the arithmetic that applies them runs
//! outside this library.

use vstd::prelude::*;
use std::marker::PhantomData;
use crate::world::{days_ordinal, GameDate, NationId, ProvinceId, ScopeId};

verus! {

/// Stable id for a modifier instance.
#[derive(Clone, Copy, Debug, PartialEq, Eq, Hash, Structural)]
pub struct ModifierId {
    raw: u32,
}

impl ModifierId {
    #[verifier::type_invariant]
    spec fn nonzero(self) -> bool {
        self.raw != 0
    }

    /// The raw 1-based value.
    pub closed spec fn spec_raw(self) -> u32 {
        self.raw
    }

    /// Builds an id from its raw 1-based value (zero is not an id).
    pub fn from_raw(raw: u32) -> (r: Self)
        requires
            raw != 0,
        ensures
            r.spec_raw() == raw,
    {
        ModifierId { raw }
    }

    pub fn raw(self) -> (r: u32)
        ensures
            r == self.spec_raw(),
            r != 0,
    {
        proof { use_type_invariant(&self); }
        self.raw
    }

    /// Two ids are equal exactly when their raw values are.
    pub proof fn lemma_raw_injective(a: Self, b: Self)
        ensures
            (a.spec_raw() == b.spec_raw()) == (a == b),
    {
    }
}

/// Stable id for a modifier category (tax income, stability, a custom one, ...).
#[derive(Clone, Copy, Debug, PartialEq, Eq, Hash, Structural)]
pub struct ModifierTypeId {
    raw: u32,
}

impl ModifierTypeId {
    #[verifier::type_invariant]
    spec fn nonzero(self) -> bool {
        self.raw != 0
    }

    /// The raw 1-based value.
    pub closed spec fn spec_raw(self) -> u32 {
        self.raw
    }

    /// Builds an id from its raw 1-based value (zero is not an id).
    pub fn from_raw(raw: u32) -> (r: Self)
        requires
            raw != 0,
        ensures
            r.spec_raw() == raw,
    {
        ModifierTypeId { raw }
    }

    pub fn raw(self) -> (r: u32)
        ensures
            r == self.spec_raw(),
            r != 0,
    {
        proof { use_type_invariant(&self); }
        self.raw
    }
}

/// How a modifier changes a base value (each operand is an `f64` bit pattern).
#[derive(Clone, Copy, Debug, PartialEq, Eq, Structural)]
pub enum ModifierValue {
    /// Add to the base value.
    Additive(u64),
    /// Multiply the base by (1 + x).
    Multiplicative(u64),
    /// Override the value.
    Override(u64),
    /// Custom operation id and operand, resolved by a calculator.
    Custom { op_id: u32, value: u64 },
}

/// One modifier instance.
#[derive(Clone, Copy, Debug, PartialEq, Eq, Structural)]
pub struct Modifier {
    pub id: ModifierId,
    pub ty: ModifierTypeId,
    pub value: ModifierValue,
    /// Game-defined source (event, building, trait, ...) for tracking and removal.
    pub source_id: u32,
    /// Date after which the modifier no longer applies.
    pub expires_on: Option<GameDate>,
}

/// Whether `m` applies on `now`: always without a date or an expiry, else when `now`
/// is not past the expiry (dates compared by `to_days_since_epoch`).
pub open spec fn spec_modifier_active(m: Modifier, now: Option<GameDate>) -> bool {
    match (m.expires_on, now) {
        (Some(exp), Some(n)) => days_ordinal(n.year, n.month, n.day) <= days_ordinal(exp.year, exp.month, exp.day),
        _ => true,
    }
}

/// Whether `m` takes part when modifiers are applied on `now`.
pub fn modifier_active(m: &Modifier, now: Option<GameDate>) -> (r: bool)
    ensures
        r == spec_modifier_active(*m, now),
{
    match (m.expires_on, now) {
        (Some(exp), Some(n)) => n.to_days_since_epoch() <= exp.to_days_since_epoch(),
        _ => true,
    }
}

/// `x` raised to at least one.
pub open spec fn at_least_one(x: u32) -> u32 {
    if x >= 1 { x } else { 1 }
}

/// `x + 1`, stopping at `u32::MAX`.
pub open spec fn next_raw_after(x: u32) -> u32 {
    if x == u32::MAX { u32::MAX } else { (x + 1) as u32 }
}

/// Modifiers of each scope (scope with raw id `r` at position `r - 1`).
pub struct ScopedModifiers<Id: ScopeId> {
    pub per_scope: Vec<Vec<Modifier>>,
    pub next_id_raw: u32,
    _marker: PhantomData<Id>,
}

impl<Id: ScopeId> ScopedModifiers<Id> {
    /// The modifiers of each scope.
    pub closed spec fn scopes(&self) -> Seq<Seq<Modifier>> {
        self.per_scope@.map_values(|v: Vec<Modifier>| v@)
    }

    /// The next raw id to hand out.
    pub closed spec fn next_raw(&self) -> u32 {
        self.next_id_raw
    }

    /// The modifiers of scope `id` (none when it is out of range).
    pub open spec fn mods_of(&self, id: Id) -> Seq<Modifier> {
        let i = id.spec_raw() - 1;
        if 0 <= i < self.scopes().len() { self.scopes()[i] } else { Seq::empty() }
    }

    /// Empty lists for `count` scopes.
    pub fn new(count: usize) -> (r: Self)
        ensures
            r.scopes() == Seq::new(count as nat, |i: int| Seq::<Modifier>::empty()),
            r.next_raw() == 1,
    {
        let mut per_scope: Vec<Vec<Modifier>> = Vec::new();
        let mut i: usize = 0;
        while i < count
            invariant
                i <= count,
                per_scope@.len() == i,
                forall|j: int| 0 <= j < i ==> (#[trigger] per_scope@[j])@.len() == 0,
            decreases count - i,
        {
            per_scope.push(Vec::new());
            i += 1;
        }
        let r = ScopedModifiers { per_scope, next_id_raw: 1, _marker: PhantomData };
        proof {
            assert forall|j: int| 0 <= j < count implies #[trigger] r.scopes()[j] =~= Seq::<Modifier>::empty() by {
                assert(r.scopes()[j] == per_scope@[j]@);
            }
            assert(r.scopes() =~= Seq::new(count as nat, |i: int| Seq::<Modifier>::empty()));
        }
        r
    }

    /// Appends an empty list (for a new scope).
    pub(crate) fn push_scope(&mut self)
        ensures
            final(self).scopes() == old(self).scopes().push(Seq::<Modifier>::empty()),
            final(self).next_raw() == old(self).next_raw(),
    {
        self.per_scope.push(Vec::new());
        proof {
            assert(self.scopes() =~= old(self).scopes().push(Seq::<Modifier>::empty()));
        }
    }

    fn alloc_id(&mut self) -> (r: ModifierId)
        ensures
            r.spec_raw() == at_least_one(old(self).next_raw()),
            final(self).next_raw() == next_raw_after(r.spec_raw()),
            final(self).scopes() == old(self).scopes(),
    {
        let raw = if self.next_id_raw < 1 { 1 } else { self.next_id_raw };
        self.next_id_raw = if raw == u32::MAX { u32::MAX } else { raw + 1 };
        ModifierId::from_raw(raw)
    }

    /// The modifiers of scope `id`, oldest first (empty when `id` is out of range).
    pub fn list(&self, id: Id) -> (r: &[Modifier])
        ensures
            r@ == self.mods_of(id),
    {
        let i = id.index();
        if i < self.per_scope.len() {
            self.per_scope[i].as_slice()
        } else {
            proof {
                assert(Seq::<Modifier>::empty() =~= self.mods_of(id));
            }
            &[]
        }
    }

    /// Give `m` a fresh id and attach it to scope `id` (when `id` is in range); the id
    /// is returned (and used up) either way.
    pub fn add(&mut self, id: Id, m: Modifier) -> (r: ModifierId)
        ensures
            r.spec_raw() == at_least_one(old(self).next_raw()),
            final(self).next_raw() == next_raw_after(r.spec_raw()),
            0 <= id.spec_raw() - 1 < old(self).scopes().len() ==> final(self).scopes()
                == old(self).scopes().update(id.spec_raw() - 1, old(self).mods_of(id).push(Modifier { id: r, ..m })),
            !(0 <= id.spec_raw() - 1 < old(self).scopes().len()) ==> final(self).scopes() == old(self).scopes(),
    {
        let mut m = m;
        let mid = self.alloc_id();
        m.id = mid;
        let i = id.index();
        if i < self.per_scope.len() {
            self.per_scope[i].push(m);
            proof {
                assert(self.scopes() =~= old(self).scopes().update(i as int, old(self).mods_of(id).push(m)));
            }
        }
        mid
    }

    /// Remove every modifier with id `mid` from scope `id`; true when one was removed.
    pub fn remove(&mut self, id: Id, mid: ModifierId) -> (r: bool)
        ensures
            final(self).next_raw() == old(self).next_raw(),
            0 <= id.spec_raw() - 1 < old(self).scopes().len() ==> final(self).scopes()
                == old(self).scopes().update(id.spec_raw() - 1, old(self).mods_of(id).filter(|x: Modifier| x.id != mid)),
            !(0 <= id.spec_raw() - 1 < old(self).scopes().len()) ==> final(self).scopes() == old(self).scopes(),
            r == (old(self).mods_of(id).filter(|x: Modifier| x.id != mid).len() != old(self).mods_of(id).len()),
    {
        let i = id.index();
        if i >= self.per_scope.len() {
            proof {
                assert(old(self).mods_of(id) =~= Seq::<Modifier>::empty());
                reveal(Seq::filter);
                assert(Seq::<Modifier>::empty().filter(|x: Modifier| x.id != mid) =~= Seq::<Modifier>::empty());
            }
            return false;
        }
        let ghost before = self.per_scope@[i as int]@;
        let mut kept: Vec<Modifier> = Vec::new();
        let n = self.per_scope[i].len();
        let mut j: usize = 0;
        proof {
            reveal(Seq::filter);
            assert(before.take(0).filter(|x: Modifier| x.id != mid) =~= Seq::<Modifier>::empty());
        }
        while j < n
            invariant
                i < self.per_scope@.len(),
                n == before.len(),
                self.per_scope@[i as int]@ == before,
                j <= n,
                kept@ == before.take(j as int).filter(|x: Modifier| x.id != mid),
            decreases n - j,
        {
            let x = self.per_scope[i][j];
            let keep = x.id.raw() != mid.raw();
            proof {
                ModifierId::lemma_raw_injective(x.id, mid);
                assert(before.take(j + 1) =~= before.take(j as int).push(x));
                before.take(j as int).lemma_filter_push(x, |x: Modifier| x.id != mid);
            }
            if keep {
                kept.push(x);
            }
            j += 1;
        }
        proof {
            assert(before.take(n as int) =~= before);
        }
        let changed = kept.len() != n;
        self.per_scope.set(i, kept);
        proof {
            assert(self.scopes() =~= old(self).scopes().update(i as int, before.filter(|x: Modifier| x.id != mid)));
        }
        changed
    }
}

/// Modifiers of provinces.
pub type ProvinceModifiers = ScopedModifiers<ProvinceId>;

/// Modifiers of nations.
pub type NationModifiers = ScopedModifiers<NationId>;

/// Modifiers attached to a character.
pub struct CharacterModifiers {
    pub mods: Vec<Modifier>,
}

impl Default for CharacterModifiers {
    fn default() -> (r: Self)
        ensures
            r.mods@.len() == 0,
    {
        CharacterModifiers { mods: Vec::new() }
    }
}

/// Modifiers attached to an army.
pub struct ArmyModifiers {
    pub mods: Vec<Modifier>,
}

impl Default for ArmyModifiers {
    fn default() -> (r: Self)
        ensures
            r.mods@.len() == 0,
    {
        ArmyModifiers { mods: Vec::new() }
    }
}

proof fn lemma_filter_keeps_all(s: Seq<Modifier>, mid: ModifierId)
    requires
        forall|j: int| 0 <= j < s.len() ==> (#[trigger] s[j]).id != mid,
    ensures
        s.filter(|x: Modifier| x.id != mid) == s,
    decreases s.len(),
{
    reveal(Seq::filter);
    if s.len() > 0 {
        lemma_filter_keeps_all(s.drop_last(), mid);
        assert(s.drop_last().push(s.last()) =~= s);
    }
}

/// When a modifier applies: always without an expiry date or without a current date.
/// With both, for dates of months 1..=12 and days 1..=31: in the expiry's own year it
/// applies exactly up to and including the expiry day (a later month or a later day of
/// the expiry month ends it); two or more years after the expiry year it never applies,
/// and two or more years before it always does.
pub proof fn law_modifier_expiry(m: Modifier, now: GameDate)
    ensures
        spec_modifier_active(m, None),
        m.expires_on is None ==> spec_modifier_active(m, Some(now)),
        m.expires_on matches Some(exp) ==> (
            1 <= now.month <= 12 && 1 <= now.day <= 31 && 1 <= exp.month <= 12 && 1 <= exp.day <= 31 ==> {
                &&& now.year == exp.year ==> (spec_modifier_active(m, Some(now))
                    <==> (now.month < exp.month || (now.month == exp.month && now.day <= exp.day)))
                &&& now.year >= exp.year + 2 ==> !spec_modifier_active(m, Some(now))
                &&& now.year + 2 <= exp.year ==> spec_modifier_active(m, Some(now))
            }
        ),
{
}

/// Adding a modifier to a scope and then removing it by the id it was given restores
/// the scope's list, when no modifier there had that id before.
pub proof fn law_modifier_add_then_remove<Id: ScopeId>(a: ScopedModifiers<Id>, b: ScopedModifiers<Id>, c: ScopedModifiers<Id>, id: Id, m: Modifier, mid: ModifierId)
    requires
        0 <= id.spec_raw() - 1 < a.scopes().len(),
        forall|j: int| 0 <= j < a.mods_of(id).len() ==> (#[trigger] a.mods_of(id)[j]).id != mid,
        b.scopes() == a.scopes().update(id.spec_raw() - 1, a.mods_of(id).push(Modifier { id: mid, ..m })),
        c.scopes() == b.scopes().update(id.spec_raw() - 1, b.mods_of(id).filter(|x: Modifier| x.id != mid)),
    ensures
        c.scopes() == a.scopes(),
        c.mods_of(id) == a.mods_of(id),
{
    let s = a.mods_of(id);
    s.lemma_filter_push(Modifier { id: mid, ..m }, |x: Modifier| x.id != mid);
    lemma_filter_keeps_all(s, mid);
    assert(b.mods_of(id) == s.push(Modifier { id: mid, ..m }));
    assert(c.scopes() =~= a.scopes());
}

} // verus!

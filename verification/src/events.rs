//! Pop-up event system: multi-choice, chainable events with editable text.
//!
//! Definitions live in an `EventRegistry`; runtime instances wait in an `EventQueue`
//! until the UI shows them.

use vstd::prelude::*;
use std::collections::HashMap;
use std::collections::VecDeque;
use vstd::std_specs::iter::IteratorSpec;
use vstd::std_specs::hash::spec_keys_iter;
use crate::event_bus::scope_types;
use crate::world::{NationId, ProvinceId, ScopeId};

verus! {

broadcast use vstd::std_specs::hash::group_hash_axioms;

/// Stable id for an event definition.
#[derive(Clone, Copy, Debug, PartialEq, Eq, Hash, Structural)]
pub struct EventId {
    raw: u32,
}

impl EventId {
    #[verifier::type_invariant]
    spec fn nonzero(self) -> bool {
        self.raw != 0
    }

    /// The raw 1-based value.
    pub closed spec fn spec_raw(self) -> u32 {
        self.raw
    }

    /// Builds an id from its raw 1-based value (zero is not an id).
    pub fn from_raw(raw: u32) -> (r: Self)
        requires
            raw != 0,
        ensures
            r.spec_raw() == raw,
    {
        EventId { raw }
    }

    pub fn raw(self) -> (r: u32)
        ensures
            r == self.spec_raw(),
            r != 0,
    {
        proof { use_type_invariant(&self); }
        self.raw
    }

    /// Two ids are equal exactly when their raw values are.
    pub proof fn lemma_raw_injective(a: Self, b: Self)
        ensures
            (a.spec_raw() == b.spec_raw()) == (a == b),
    {
    }
}

/// Scope (target) of an event instance: a scope type discriminant as in
/// `event_bus::scope_types` (custom scopes use values >= 1000 by convention) and a raw
/// entity id, 64-bit ids split into low and high halves.
#[derive(Clone, Copy, Debug, PartialEq, Eq, Structural)]
pub struct EventScope {
    pub scope_type: u32,
    pub raw: u32,
    pub raw_hi: u32,
}

impl EventScope {
    pub fn global() -> (r: Self)
        ensures
            r == (EventScope { scope_type: scope_types::GLOBAL, raw: 0, raw_hi: 0 }),
    {
        EventScope { scope_type: scope_types::GLOBAL, raw: 0, raw_hi: 0 }
    }

    pub fn nation(id: NationId) -> (r: Self)
        ensures
            r == (EventScope { scope_type: scope_types::NATION, raw: id.spec_raw(), raw_hi: 0 }),
    {
        EventScope { scope_type: scope_types::NATION, raw: id.raw(), raw_hi: 0 }
    }

    pub fn province(id: ProvinceId) -> (r: Self)
        ensures
            r == (EventScope { scope_type: scope_types::PROVINCE, raw: id.spec_raw(), raw_hi: 0 }),
    {
        EventScope { scope_type: scope_types::PROVINCE, raw: id.raw(), raw_hi: 0 }
    }

    /// Character scope: the 64-bit id split into its low and high 32 bits.
    pub fn character_raw(raw: u64) -> (r: Self)
        ensures
            r.scope_type == scope_types::CHARACTER,
            r.raw == raw % 0x1_0000_0000,
            r.raw_hi == raw / 0x1_0000_0000,
    {
        let lo = (raw & 0xffff_ffff) as u32;
        let hi = (raw >> 32u64) as u32;
        proof {
            assert((raw & 0xffff_ffff) == raw % 0x1_0000_0000) by (bit_vector);
            assert((raw >> 32u64) == raw / 0x1_0000_0000) by (bit_vector);
        }
        EventScope { scope_type: scope_types::CHARACTER, raw: lo, raw_hi: hi }
    }

    pub fn army_raw(raw: u32) -> (r: Self)
        ensures
            r == (EventScope { scope_type: scope_types::ARMY, raw, raw_hi: 0 }),
    {
        EventScope { scope_type: scope_types::ARMY, raw, raw_hi: 0 }
    }

    /// Custom scope with a game-defined type discriminant.
    pub fn custom(scope_type: u32, raw: u32) -> (r: Self)
        ensures
            r == (EventScope { scope_type, raw, raw_hi: 0 }),
    {
        EventScope { scope_type, raw, raw_hi: 0 }
    }

    pub fn is_global(&self) -> (r: bool)
        ensures
            r == (self.scope_type == scope_types::GLOBAL),
    {
        self.scope_type == scope_types::GLOBAL
    }

    /// Same as `global`, under the name of the former enum variant.
    #[allow(non_snake_case)]
    pub fn Global() -> (r: Self)
        ensures
            r == (EventScope { scope_type: scope_types::GLOBAL, raw: 0, raw_hi: 0 }),
    {
        Self::global()
    }

    /// Same as `nation`, under the name of the former enum variant.
    #[allow(non_snake_case)]
    pub fn Nation(id: NationId) -> (r: Self)
        ensures
            r == (EventScope { scope_type: scope_types::NATION, raw: id.spec_raw(), raw_hi: 0 }),
    {
        Self::nation(id)
    }

    /// Same as `province`, under the name of the former enum variant.
    #[allow(non_snake_case)]
    pub fn Province(id: ProvinceId) -> (r: Self)
        ensures
            r == (EventScope { scope_type: scope_types::PROVINCE, raw: id.spec_raw(), raw_hi: 0 }),
    {
        Self::province(id)
    }

    /// Same as `character_raw`, under the name of the former enum variant.
    #[allow(non_snake_case)]
    pub fn CharacterRaw(raw: u64) -> (r: Self)
        ensures
            r.scope_type == scope_types::CHARACTER,
            r.raw == raw % 0x1_0000_0000,
            r.raw_hi == raw / 0x1_0000_0000,
    {
        Self::character_raw(raw)
    }

    /// Same as `army_raw`, under the name of the former enum variant.
    #[allow(non_snake_case)]
    pub fn ArmyRaw(raw: u32) -> (r: Self)
        ensures
            r == (EventScope { scope_type: scope_types::ARMY, raw, raw_hi: 0 }),
    {
        Self::army_raw(raw)
    }
}

/// One choice in an event.
pub struct EventChoice {
    pub text: String,
    /// Event to chain into after this choice, if any.
    pub next_event: Option<EventId>,
    /// Game-defined opaque effects payload.
    pub effects_payload: Vec<u8>,
}

/// What a choice holds, as plain values.
pub struct EventChoiceView {
    pub text: Seq<char>,
    pub next_event: Option<EventId>,
    pub effects_payload: Seq<u8>,
}

impl View for EventChoice {
    type V = EventChoiceView;

    open spec fn view(&self) -> EventChoiceView {
        EventChoiceView { text: self.text@, next_event: self.next_event, effects_payload: self.effects_payload@ }
    }
}

/// A byte-for-byte copy of `v`.
pub(crate) fn copy_bytes(v: &Vec<u8>) -> (r: Vec<u8>)
    ensures
        r@ == v@,
{
    let mut out: Vec<u8> = Vec::new();
    let mut i: usize = 0;
    while i < v.len()
        invariant
            i <= v.len(),
            out@ == v@.take(i as int),
        decreases v.len() - i,
    {
        out.push(v[i]);
        i += 1;
        proof {
            assert(out@ =~= v@.take(i as int));
        }
    }
    proof {
        assert(v@.take(v.len() as int) =~= v@);
    }
    out
}

impl EventChoice {
    /// A field-by-field copy.
    pub fn copied(&self) -> (r: Self)
        ensures
            r@ == self@,
    {
        EventChoice { text: self.text.clone(), next_event: self.next_event, effects_payload: copy_bytes(&self.effects_payload) }
    }
}

/// Event definition (data-driven). The image size is kept as the bit patterns of its
/// two `f32` values (0.0, bits 0, means: use the global style or size automatically).
pub struct EventDefinition {
    pub id: EventId,
    pub title: String,
    pub body: String,
    pub choices: Vec<EventChoice>,
    /// Image path shown in the pop-up (overrides the global style image).
    pub image: String,
    pub image_w_bits: u32,
    pub image_h_bits: u32,
}

/// What a definition holds, as plain values.
pub struct EventDefinitionView {
    pub id: EventId,
    pub title: Seq<char>,
    pub body: Seq<char>,
    pub choices: Seq<EventChoiceView>,
    pub image: Seq<char>,
    pub image_w_bits: u32,
    pub image_h_bits: u32,
}

impl View for EventDefinition {
    type V = EventDefinitionView;

    open spec fn view(&self) -> EventDefinitionView {
        EventDefinitionView {
            id: self.id,
            title: self.title@,
            body: self.body@,
            choices: self.choices@.map_values(|c: EventChoice| c@),
            image: self.image@,
            image_w_bits: self.image_w_bits,
            image_h_bits: self.image_h_bits,
        }
    }
}

impl EventDefinition {
    /// A field-by-field copy.
    pub fn copied(&self) -> (r: Self)
        ensures
            r@ == self@,
    {
        let mut choices: Vec<EventChoice> = Vec::new();
        let mut i: usize = 0;
        while i < self.choices.len()
            invariant
                i <= self.choices@.len(),
                choices@.len() == i,
                forall|j: int| 0 <= j < i ==> (#[trigger] choices@[j])@ == self.choices@[j]@,
            decreases self.choices@.len() - i,
        {
            let c = self.choices[i].copied();
            choices.push(c);
            i += 1;
        }
        proof {
            assert(choices@.map_values(|c: EventChoice| c@) =~= self.choices@.map_values(|c: EventChoice| c@));
        }
        EventDefinition {
            id: self.id,
            title: self.title.clone(),
            body: self.body.clone(),
            choices,
            image: self.image.clone(),
            image_w_bits: self.image_w_bits,
            image_h_bits: self.image_h_bits,
        }
    }
}

/// A choice with its link to `id` cleared (other choices are unchanged).
pub open spec fn unlink_choice(c: EventChoiceView, id: EventId) -> EventChoiceView {
    if c.next_event == Some(id) { EventChoiceView { next_event: None, ..c } } else { c }
}

/// A definition with every choice link to `id` cleared.
pub open spec fn unlink_def(d: EventDefinitionView, id: EventId) -> EventDefinitionView {
    EventDefinitionView { choices: d.choices.map_values(|c: EventChoiceView| unlink_choice(c, id)), ..d }
}

/// Clears, in `def`, every choice link to `id`.
fn unlink_choices(def: &mut EventDefinition, id: EventId)
    ensures
        final(def)@ == unlink_def(old(def)@, id),
{
    let n = def.choices.len();
    let mut j: usize = 0;
    while j < n
        invariant
            n == def.choices@.len(),
            n == old(def).choices@.len(),
            j <= n,
            def.id == old(def).id,
            def.title@ == old(def).title@,
            def.body@ == old(def).body@,
            def.image@ == old(def).image@,
            def.image_w_bits == old(def).image_w_bits,
            def.image_h_bits == old(def).image_h_bits,
            forall|k: int| 0 <= k < j ==> (#[trigger] def.choices@[k])@ == unlink_choice(old(def).choices@[k]@, id),
            forall|k: int| j <= k < n ==> (#[trigger] def.choices@[k])@ == old(def).choices@[k]@,
        decreases n - j,
    {
        let hit = match def.choices[j].next_event {
            Some(e) => e.raw() == id.raw(),
            None => false,
        };
        proof {
            if let Some(e) = def.choices@[j as int].next_event {
                EventId::lemma_raw_injective(e, id);
            }
        }
        if hit {
            def.choices[j].next_event = None;
        }
        j += 1;
    }
    proof {
        assert(def@.choices =~= unlink_def(old(def)@, id).choices);
    }
}

/// The keys of `m`, each once.
fn keys_of(m: &HashMap<u32, EventDefinition>) -> (r: Vec<u32>)
    ensures
        r@.to_set() == m@.dom(),
        r@.no_duplicates(),
{
    let mut keys: Vec<u32> = Vec::new();
    for k in it: m.keys()
        invariant
            it.seq() == spec_keys_iter(m).remaining(),
            keys@ == it.seq().unref().take(it.index() as int),
    {
        keys.push(*k);
        proof {
            assert(keys@ =~= it.seq().unref().take(it.index() + 1));
        }
    }
    proof {
        assert(keys@ =~= spec_keys_iter(m).remaining().unref());
    }
    keys
}

/// `x` raised to at least one.
pub open spec fn at_least_one(x: u32) -> u32 {
    if x >= 1 { x } else { 1 }
}

/// `x + 1`, stopping at `u32::MAX`.
pub open spec fn next_raw_after(x: u32) -> u32 {
    if x == u32::MAX { u32::MAX } else { (x + 1) as u32 }
}

/// Event registry: definitions by raw id.
pub struct EventRegistry {
    pub events: HashMap<u32, EventDefinition>,
    pub next_id_raw: u32,
}

impl EventRegistry {
    /// The definitions by raw id, as plain values.
    pub open spec fn defs(&self) -> Map<u32, EventDefinitionView> {
        self.events@.map_values(|d: EventDefinition| d@)
    }

    pub fn new() -> (r: Self)
        ensures
            r.defs() == Map::<u32, EventDefinitionView>::empty(),
            r.next_id_raw == 1,
    {
        let r = EventRegistry { events: HashMap::new(), next_id_raw: 1 };
        proof {
            assert(r.defs() =~= Map::<u32, EventDefinitionView>::empty());
        }
        r
    }

    fn alloc_id(&mut self) -> (r: EventId)
        ensures
            r.spec_raw() == at_least_one(old(self).next_id_raw),
            final(self).next_id_raw == next_raw_after(r.spec_raw()),
            final(self).events@ == old(self).events@,
    {
        let raw = if self.next_id_raw < 1 { 1 } else { self.next_id_raw };
        self.next_id_raw = if raw == u32::MAX { u32::MAX } else { raw + 1 };
        EventId::from_raw(raw)
    }

    /// Store `def` under a freshly allocated id (written into the definition), and
    /// return that id. Once ids run out at `u32::MAX`, the definition stored under it
    /// is replaced.
    pub fn insert(&mut self, def: EventDefinition) -> (r: EventId)
        ensures
            r.spec_raw() == at_least_one(old(self).next_id_raw),
            final(self).next_id_raw == next_raw_after(r.spec_raw()),
            final(self).defs() == old(self).defs().insert(r.spec_raw(), EventDefinitionView { id: r, ..def@ }),
    {
        let mut def = def;
        let id = self.alloc_id();
        def.id = id;
        let ghost dv = def@;
        self.events.insert(id.raw(), def);
        proof {
            assert(self.defs() =~= old(self).defs().insert(id.spec_raw(), dv));
        }
        id
    }

    pub fn get(&self, id: EventId) -> (r: Option<&EventDefinition>)
        ensures
            match r {
                Some(d) => self.defs().contains_key(id.spec_raw()) && d@ == self.defs()[id.spec_raw()],
                None => !self.defs().contains_key(id.spec_raw()),
            },
    {
        self.events.get(&id.raw())
    }

    /// Remove the definition stored under `id`, and clear every choice link to `id` in
    /// the definitions that remain.
    pub fn remove(&mut self, id: EventId)
        ensures
            final(self).next_id_raw == old(self).next_id_raw,
            final(self).defs() == old(self).defs().remove(id.spec_raw()).map_values(|d: EventDefinitionView| unlink_def(d, id)),
    {
        self.events.remove(&id.raw());
        let ghost base = self.defs();
        proof {
            assert(base =~= old(self).defs().remove(id.spec_raw()));
        }
        let keys = keys_of(&self.events);
        let mut i: usize = 0;
        while i < keys.len()
            invariant
                i <= keys@.len(),
                keys@.to_set() == base.dom(),
                keys@.no_duplicates(),
                self.defs().dom() == base.dom(),
                self.next_id_raw == old(self).next_id_raw,
                forall|j: int| 0 <= j < i ==> self.defs()[#[trigger] keys@[j]] == unlink_def(base[keys@[j]], id),
                forall|k: u32| base.dom().contains(k) && !keys@.take(i as int).contains(k) ==> #[trigger] self.defs()[k] == base[k],
            decreases keys@.len() - i,
        {
            let k = keys[i];
            let ghost before = self.defs();
            proof {
                assert(keys@.to_set().contains(k));
                assert(!keys@.take(i as int).contains(k)) by {
                    if keys@.take(i as int).contains(k) {
                        let j = choose|j: int| 0 <= j < i && keys@.take(i as int)[j] == k;
                        assert(keys@[j] == keys@[i as int]);
                    }
                }
            }
            match self.events.remove(&k) {
                Some(def) => {
                    proof {
                        assert(def@ == before[k]);
                        assert(before[k] == base[k]);
                    }
                    let mut def = def;
                    unlink_choices(&mut def, id);
                    self.events.insert(k, def);
                },
                None => {
                    proof {
                        assert(before.contains_key(k));
                    }
                },
            }
            proof {
                assert(self.defs() =~= before.insert(k, unlink_def(base[k], id)));
                assert forall|j: int| 0 <= j < i + 1 implies self.defs()[#[trigger] keys@[j]] == unlink_def(base[keys@[j]], id) by {
                    if j < i {
                        assert(keys@[j] != k);
                    }
                }
                assert forall|kk: u32| base.dom().contains(kk) && !keys@.take(i + 1).contains(kk) implies #[trigger] self.defs()[kk] == base[kk] by {
                    assert(kk != k) by {
                        assert(keys@.take(i + 1)[i as int] == k);
                    }
                    if keys@.take(i as int).contains(kk) {
                        let j = choose|j: int| 0 <= j < i && keys@.take(i as int)[j] == kk;
                        assert(keys@.take(i + 1)[j] == kk);
                    }
                }
            }
            i += 1;
        }
        proof {
            assert forall|k: u32| #[trigger] base.dom().contains(k) implies self.defs()[k] == unlink_def(base[k], id) by {
                assert(keys@.to_set().contains(k));
                let j = choose|j: int| 0 <= j < keys@.len() && keys@[j] == k;
                assert(self.defs()[keys@[j]] == unlink_def(base[keys@[j]], id));
            }
            assert(self.defs() =~= base.map_values(|d: EventDefinitionView| unlink_def(d, id)));
        }
    }

    /// Store a copy of the definition under `id` as a new event (see `insert`) and
    /// return the new id; `None` when there is no such definition.
    pub fn duplicate(&mut self, id: EventId) -> (r: Option<EventId>)
        ensures
            !old(self).defs().contains_key(id.spec_raw()) ==> r is None && *final(self) == *old(self),
            old(self).defs().contains_key(id.spec_raw()) ==> (r matches Some(nid) && {
                &&& nid.spec_raw() == at_least_one(old(self).next_id_raw)
                &&& final(self).next_id_raw == next_raw_after(nid.spec_raw())
                &&& final(self).defs() == old(self).defs().insert(nid.spec_raw(),
                        EventDefinitionView { id: nid, ..old(self).defs()[id.spec_raw()] })
            }),
    {
        let copy = match self.events.get(&id.raw()) {
            Some(d) => d.copied(),
            None => { return None; },
        };
        Some(self.insert(copy))
    }
}

/// One queued event instance (runtime).
pub struct EventInstance {
    pub event_id: EventId,
    pub scope: EventScope,
    /// Payload for parameterized events.
    pub payload: Vec<u8>,
}

/// Queue of pending events to show as pop-ups, oldest first.
pub struct EventQueue {
    pub pending: VecDeque<EventInstance>,
}

impl Default for EventQueue {
    fn default() -> (r: Self)
        ensures
            r.pending@.len() == 0,
    {
        EventQueue { pending: VecDeque::new() }
    }
}

impl EventQueue {
    /// Queue `inst` at the back.
    pub fn push(&mut self, inst: EventInstance)
        ensures
            final(self).pending@ == old(self).pending@.push(inst),
    {
        self.pending.push_back(inst);
    }

    /// Take the oldest pending instance.
    pub fn pop(&mut self) -> (r: Option<EventInstance>)
        ensures
            old(self).pending@.len() == 0 ==> r is None && final(self).pending@ == old(self).pending@,
            old(self).pending@.len() > 0 ==> r == Some(old(self).pending@[0]) && final(self).pending@ == old(self).pending@.drop_first(),
    {
        self.pending.pop_front()
    }
}

/// Event currently displayed in the UI.
pub struct ActiveEvent {
    pub current: Option<EventInstance>,
}

impl Default for ActiveEvent {
    fn default() -> (r: Self)
        ensures
            r.current is None,
    {
        ActiveEvent { current: None }
    }
}

/// Queue an instance of `event_id` with `scope` and `payload`.
pub fn queue_event(queue: &mut EventQueue, event_id: EventId, scope: EventScope, payload: Vec<u8>)
    ensures
        final(queue).pending@.len() == old(queue).pending@.len() + 1,
        final(queue).pending@.drop_last() == old(queue).pending@,
        final(queue).pending@.last().event_id == event_id,
        final(queue).pending@.last().scope == scope,
        final(queue).pending@.last().payload@ == payload@,
{
    queue.push(EventInstance { event_id, scope, payload });
    proof {
        assert(queue.pending@.drop_last() =~= old(queue).pending@);
    }
}

/// The events waiting to be shown, the displayed one first.
pub open spec fn shown_then_pending(active: Option<EventInstance>, pending: Seq<EventInstance>) -> Seq<EventInstance> {
    match active {
        Some(e) => seq![e] + pending,
        None => pending,
    }
}

/// Advance the displayed event (the UI calls this each frame or tick): when nothing is
/// displayed, the oldest pending instance becomes the displayed one; otherwise the queue
/// is left as it was. No instance is lost or reordered.
pub fn pull_next_event(queue: &mut EventQueue, active: &mut ActiveEvent)
    ensures
        old(active).current is Some ==> final(active).current == old(active).current && final(queue).pending@ == old(queue).pending@,
        old(active).current is None && old(queue).pending@.len() > 0 ==> final(active).current == Some(old(queue).pending@[0]) && final(queue).pending@ == old(queue).pending@.drop_first(),
        old(active).current is None && old(queue).pending@.len() == 0 ==> final(active).current is None && final(queue).pending@.len() == 0,
        shown_then_pending(final(active).current, final(queue).pending@) == shown_then_pending(old(active).current, old(queue).pending@),
{
    let next = queue.pop();
    if active.current.is_none() {
        active.current = next;
    } else {
        match next {
            Some(e) => {
                queue.pending.push_front(e);
            },
            None => {},
        }
        proof {
            if old(queue).pending@.len() > 0 {
                assert(queue.pending@ =~= old(queue).pending@);
            }
        }
    }
    proof {
        if old(active).current is None && old(queue).pending@.len() > 0 {
            assert(seq![old(queue).pending@[0]] + old(queue).pending@.drop_first() =~= old(queue).pending@);
        }
    }
}

/// How the event pop-up is positioned. Coordinates are kept as `f32` bit patterns.
#[derive(Clone, Copy, Debug, PartialEq, Eq, Structural)]
pub enum PopupAnchor {
    /// Centered in the window.
    Center,
    /// Fixed position of the pop-up's top-left corner.
    Fixed { x_bits: u32, y_bits: u32 },
}

impl Default for PopupAnchor {
    fn default() -> (r: Self)
        ensures
            r == PopupAnchor::Center,
    {
        PopupAnchor::Center
    }
}

/// Visual style for event pop-ups; it applies to the next pop-up shown. Sizes are kept
/// as `f32` bit patterns (bits 0 is 0.0: automatic or default).
pub struct EventPopupStyle {
    pub anchor: PopupAnchor,
    /// Pop-up width.
    pub width_bits: u32,
    /// Colours (RGBA).
    pub bg_color: [u8; 4],
    pub title_color: [u8; 4],
    pub body_color: [u8; 4],
    pub button_color: [u8; 4],
    /// Image shown above the body text, if not empty.
    pub image_path: String,
    pub image_w_bits: u32,
    pub image_h_bits: u32,
    /// Whether the game pauses while the event shows.
    pub modal: bool,
    pub title_font_size_bits: u32,
    pub body_font_size_bits: u32,
}

impl Default for EventPopupStyle {
    fn default() -> (r: Self)
        ensures
            r.anchor == PopupAnchor::Center,
            r.width_bits == 0,
            r.bg_color@ == seq![30u8, 30, 40, 230],
            r.title_color@ == seq![255u8, 220, 120, 255],
            r.body_color@ == seq![220u8, 220, 220, 255],
            r.button_color@ == seq![200u8, 200, 255, 255],
            r.image_path@.len() == 0,
            r.image_w_bits == 0,
            r.image_h_bits == 0,
            r.modal,
            r.title_font_size_bits == 0,
            r.body_font_size_bits == 0,
    {
        let r = EventPopupStyle {
            anchor: PopupAnchor::Center,
            width_bits: 0,
            bg_color: [30, 30, 40, 230],
            title_color: [255, 220, 120, 255],
            body_color: [220, 220, 220, 255],
            button_color: [200, 200, 255, 255],
            image_path: String::new(),
            image_w_bits: 0,
            image_h_bits: 0,
            modal: true,
            title_font_size_bits: 0,
            body_font_size_bits: 0,
        };
        proof {
            assert(r.bg_color@ =~= seq![30u8, 30, 40, 230]);
            assert(r.title_color@ =~= seq![255u8, 220, 120, 255]);
            assert(r.body_color@ =~= seq![220u8, 220, 220, 255]);
            assert(r.button_color@ =~= seq![200u8, 200, 255, 255]);
        }
        r
    }
}

/// Pre-made event patterns; a template gives a definition to customise and insert.
pub enum EventTemplate {
    /// Title, body and an "Acknowledged" button.
    Notification,
    /// Title, body and Accept / Decline.
    BinaryChoice,
    /// Title, body and three options.
    ThreeWayChoice,
    /// Title, body and "Continue" (to chain into a next event).
    Narrative,
    /// Title, body and Accept / Decline / Negotiate.
    DiplomaticProposal,
}

/// A choice with `text`, no link and no effects.
pub open spec fn plain_choice_view(text: Seq<char>) -> EventChoiceView {
    EventChoiceView { text, next_event: None, effects_payload: Seq::empty() }
}

/// A definition with `title`, `body` and `choices`, no image.
pub open spec fn plain_def_view(id: EventId, title: Seq<char>, body: Seq<char>, choices: Seq<EventChoiceView>) -> EventDefinitionView {
    EventDefinitionView { id, title, body, choices, image: Seq::empty(), image_w_bits: 0, image_h_bits: 0 }
}

/// What `t.create()` holds, with id `id`.
pub open spec fn template_view(t: EventTemplate, id: EventId) -> EventDefinitionView {
    match t {
        EventTemplate::Notification => plain_def_view(id, "Notification"@, "Something has happened in your realm."@,
            seq![plain_choice_view("Acknowledged"@)]),
        EventTemplate::BinaryChoice => plain_def_view(id, "A Decision Awaits"@, "You must choose between two paths."@,
            seq![plain_choice_view("Accept"@), plain_choice_view("Decline"@)]),
        EventTemplate::ThreeWayChoice => plain_def_view(id, "A Complex Situation"@, "Three options present themselves."@,
            seq![plain_choice_view("Option A"@), plain_choice_view("Option B"@), plain_choice_view("Option C"@)]),
        EventTemplate::Narrative => plain_def_view(id, "A Tale Unfolds"@, "The story continues..."@,
            seq![plain_choice_view("Continue"@)]),
        EventTemplate::DiplomaticProposal => plain_def_view(id, "Diplomatic Proposal"@, "A foreign power approaches with a proposition."@,
            seq![plain_choice_view("Accept"@), plain_choice_view("Decline"@), plain_choice_view("Negotiate"@)]),
    }
}

fn plain_choice(text: &str) -> (r: EventChoice)
    ensures
        r@ == plain_choice_view(text@),
{
    let r = EventChoice { text: text.to_owned(), next_event: None, effects_payload: Vec::new() };
    proof {
        assert(r.effects_payload@ =~= Seq::<u8>::empty());
    }
    r
}

fn plain_def(title: &str, body: &str, choices: Vec<EventChoice>) -> (r: EventDefinition)
    ensures
        r.id.spec_raw() == 1,
        r@ == plain_def_view(r.id, title@, body@, choices@.map_values(|c: EventChoice| c@)),
{
    let r = EventDefinition {
        id: EventId::from_raw(1),
        title: title.to_owned(),
        body: body.to_owned(),
        choices,
        image: String::new(),
        image_w_bits: 0,
        image_h_bits: 0,
    };
    proof {
        assert(r.image@ =~= Seq::<char>::empty());
    }
    r
}

impl EventTemplate {
    /// The definition this template stands for, under the placeholder id 1 (the
    /// registry assigns the real id on insertion).
    pub fn create(&self) -> (r: EventDefinition)
        ensures
            r.id.spec_raw() == 1,
            r@ == template_view(*self, r.id),
    {
        match self {
            EventTemplate::Notification => {
                let choices = vec![plain_choice("Acknowledged")];
                let r = plain_def("Notification", "Something has happened in your realm.", choices);
                proof {
                    assert(r@.choices =~= seq![plain_choice_view("Acknowledged"@)]);
                }
                r
            },
            EventTemplate::BinaryChoice => {
                let choices = vec![plain_choice("Accept"), plain_choice("Decline")];
                let r = plain_def("A Decision Awaits", "You must choose between two paths.", choices);
                proof {
                    assert(r@.choices =~= seq![plain_choice_view("Accept"@), plain_choice_view("Decline"@)]);
                }
                r
            },
            EventTemplate::ThreeWayChoice => {
                let choices = vec![plain_choice("Option A"), plain_choice("Option B"), plain_choice("Option C")];
                let r = plain_def("A Complex Situation", "Three options present themselves.", choices);
                proof {
                    assert(r@.choices =~= seq![plain_choice_view("Option A"@), plain_choice_view("Option B"@), plain_choice_view("Option C"@)]);
                }
                r
            },
            EventTemplate::Narrative => {
                let choices = vec![plain_choice("Continue")];
                let r = plain_def("A Tale Unfolds", "The story continues...", choices);
                proof {
                    assert(r@.choices =~= seq![plain_choice_view("Continue"@)]);
                }
                r
            },
            EventTemplate::DiplomaticProposal => {
                let choices = vec![plain_choice("Accept"), plain_choice("Decline"), plain_choice("Negotiate")];
                let r = plain_def("Diplomatic Proposal", "A foreign power approaches with a proposition.", choices);
                proof {
                    assert(r@.choices =~= seq![plain_choice_view("Accept"@), plain_choice_view("Decline"@), plain_choice_view("Negotiate"@)]);
                }
                r
            },
        }
    }
}

/// Register the built-in templates, in the order Notification, BinaryChoice,
/// ThreeWayChoice, Narrative, DiplomaticProposal, and return their ids in that order.
pub fn register_builtin_templates(reg: &mut EventRegistry) -> (r: [EventId; 5])
    ensures
        r@[0].spec_raw() == at_least_one(old(reg).next_id_raw),
        forall|i: int| 0 <= i < 4 ==> (#[trigger] r@[i + 1]).spec_raw() == next_raw_after(r@[i].spec_raw()),
        final(reg).next_id_raw == next_raw_after(r@[4].spec_raw()),
        final(reg).defs() == old(reg).defs()
            .insert(r@[0].spec_raw(), template_view(EventTemplate::Notification, r@[0]))
            .insert(r@[1].spec_raw(), template_view(EventTemplate::BinaryChoice, r@[1]))
            .insert(r@[2].spec_raw(), template_view(EventTemplate::ThreeWayChoice, r@[2]))
            .insert(r@[3].spec_raw(), template_view(EventTemplate::Narrative, r@[3]))
            .insert(r@[4].spec_raw(), template_view(EventTemplate::DiplomaticProposal, r@[4])),
{
    let a = reg.insert(EventTemplate::Notification.create());
    let b = reg.insert(EventTemplate::BinaryChoice.create());
    let c = reg.insert(EventTemplate::ThreeWayChoice.create());
    let d = reg.insert(EventTemplate::Narrative.create());
    let e = reg.insert(EventTemplate::DiplomaticProposal.create());
    let r = [a, b, c, d, e];
    proof {
        assert(r@[1] == b && r@[2] == c && r@[3] == d && r@[4] == e);
    }
    r
}

/// A keyword: where it appears in event text it is highlighted and hovering it shows
/// the description.
pub struct KeywordEntry {
    /// Text to match (case-insensitively).
    pub keyword: String,
    /// Tooltip title.
    pub title: String,
    /// Tooltip body.
    pub description: String,
    /// Icon path, empty for none.
    pub icon: String,
    /// Highlight colour (RGBA); all zero means the default.
    pub color: [u8; 4],
}

/// Registered keywords, in registration order.
pub struct KeywordRegistry {
    pub entries: Vec<KeywordEntry>,
}

impl Default for KeywordRegistry {
    fn default() -> (r: Self)
        ensures
            r.entries@.len() == 0,
    {
        KeywordRegistry { entries: Vec::new() }
    }
}

impl KeywordRegistry {
    /// Register a keyword; returns its index.
    pub fn add(&mut self, entry: KeywordEntry) -> (r: usize)
        requires
            old(self).entries@.len() < usize::MAX,
        ensures
            r == old(self).entries@.len(),
            final(self).entries@ == old(self).entries@.push(entry),
    {
        let idx = self.entries.len();
        self.entries.push(entry);
        idx
    }

    /// Remove the keyword at `idx`; false (and nothing removed) when there is none.
    pub fn remove(&mut self, idx: usize) -> (r: bool)
        ensures
            r == (idx < old(self).entries@.len()),
            r ==> final(self).entries@ == old(self).entries@.remove(idx as int),
            !r ==> final(self).entries@ == old(self).entries@,
    {
        if idx < self.entries.len() {
            self.entries.remove(idx);
            true
        } else {
            false
        }
    }

    /// Remove every keyword.
    pub fn clear(&mut self)
        ensures
            final(self).entries@.len() == 0,
    {
        self.entries.clear();
    }

    /// Each registered keyword, lower-cased, as UTF-8 bytes.
    pub open spec fn lowered_keywords(&self) -> Seq<Seq<u8>> {
        Seq::new(self.entries@.len(), |k: int| lowercase_utf8(self.entries@[k].keyword@))
    }

    /// Every keyword match in `text`, compared case-insensitively, as
    /// `(byte_start, byte_end, entry_index)` in the lower-cased text: sorted by
    /// position, longer matches preferred at one position, overlaps dropped.
    pub fn find_matches(&self, text: &str) -> (r: Vec<(usize, usize, usize)>)
        ensures
            r@ == keyword_matches(lowercase_utf8(text@), self.lowered_keywords()),
            forall|j: int|
                0 <= j < r@.len() ==> is_occurrence(
                    lowercase_utf8(text@),
                    self.lowered_keywords(),
                    #[trigger] r@[j],
                ),
            forall|j: int| 0 <= j < r@.len() - 1 ==> (#[trigger] r@[j]).1 <= r@[j + 1].0,
    {
        let lower = to_lowercase_bytes(text);
        let n = self.entries.len();
        let mut kws: Vec<Vec<u8>> = Vec::new();
        let mut i: usize = 0;
        while i < n
            invariant
                i <= n,
                n == self.entries@.len(),
                kws@.len() == i,
                forall|k: int| 0 <= k < i ==> (#[trigger] kws@[k])@ == lowercase_utf8(self.entries@[k].keyword@),
            decreases n - i,
        {
            let kw = to_lowercase_bytes(self.entries[i].keyword.as_str());
            kws.push(kw);
            i += 1;
        }
        proof {
            assert(byte_views(kws@) =~= self.lowered_keywords());
        }
        match_keywords(lower.as_slice(), kws.as_slice())
    }
}

/// What `str::to_lowercase` gives for a text, as UTF-8 bytes.
pub uninterp spec fn lowercase_utf8(text: Seq<char>) -> Seq<u8>;

/// Lower-cases `text` (`str::to_lowercase`) and returns its UTF-8 bytes.
///
/// Trusted: the result is `lowercase_utf8(text@)`, a function of the text alone
/// (Unicode lower-case mapping, no locale).
#[verifier::external_body]
pub(crate) fn to_lowercase_bytes(text: &str) -> (r: Vec<u8>)
    ensures
        r@ == lowercase_utf8(text@),
{
    text.to_lowercase().into_bytes()
}

/// The byte contents of each buffer.
pub open spec fn byte_views(v: Seq<Vec<u8>>) -> Seq<Seq<u8>> {
    v.map_values(|b: Vec<u8>| b@)
}

/// `kw` occurs in `text` starting at byte `p`.
pub open spec fn occurs_at(text: Seq<u8>, kw: Seq<u8>, p: int) -> bool {
    0 <= p && p + kw.len() <= text.len() && text.subrange(p, p + kw.len()) == kw
}

/// `m` is a match of keyword `m.2` in `text`: a non-empty occurrence from `m.0` to `m.1`.
pub open spec fn is_occurrence(text: Seq<u8>, kws: Seq<Seq<u8>>, m: (usize, usize, usize)) -> bool {
    &&& (m.2 as int) < kws.len()
    &&& m.0 < m.1
    &&& m.1 == m.0 + kws[m.2 as int].len()
    &&& occurs_at(text, kws[m.2 as int], m.0 as int)
}

/// Occurrences of keyword `kw` (entry `i`) found scanning `text` left to right from
/// byte `p`, each search resuming after the previous occurrence.
pub open spec fn scan_occurrences(text: Seq<u8>, kw: Seq<u8>, i: int, p: int) -> Seq<(usize, usize, usize)>
    decreases text.len() - p,
{
    if kw.len() == 0 || p < 0 || p + kw.len() > text.len() {
        Seq::empty()
    } else if occurs_at(text, kw, p) {
        seq![(p as usize, (p + kw.len()) as usize, i as usize)] + scan_occurrences(text, kw, i, p + kw.len())
    } else {
        scan_occurrences(text, kw, i, p + 1)
    }
}

/// The occurrences of the first `n` keywords, keyword by keyword.
pub open spec fn all_occurrences(text: Seq<u8>, kws: Seq<Seq<u8>>, n: int) -> Seq<(usize, usize, usize)>
    decreases n,
{
    if n <= 0 {
        Seq::empty()
    } else {
        all_occurrences(text, kws, n - 1) + scan_occurrences(text, kws[n - 1], n - 1, 0)
    }
}

/// Match `a` goes before match `b`: it starts earlier, or at the same byte and is longer.
pub open spec fn match_precedes(a: (usize, usize, usize), b: (usize, usize, usize)) -> bool {
    a.0 < b.0 || (a.0 == b.0 && a.1 > b.1)
}

/// `m` inserted into `s` after every element that it does not go before.
pub open spec fn insert_match(s: Seq<(usize, usize, usize)>, m: (usize, usize, usize)) -> Seq<(usize, usize, usize)>
    decreases s.len(),
{
    if s.len() == 0 {
        seq![m]
    } else if match_precedes(m, s[0]) {
        seq![m] + s
    } else {
        seq![s[0]] + insert_match(s.drop_first(), m)
    }
}

/// `s` stably sorted by `match_precedes`.
pub open spec fn sort_matches(s: Seq<(usize, usize, usize)>) -> Seq<(usize, usize, usize)>
    decreases s.len(),
{
    if s.len() == 0 {
        s
    } else {
        insert_match(sort_matches(s.drop_last()), s.last())
    }
}

/// The matches of `s`, in order, that start at or after the end of the last one kept
/// (the first one at or after `end`).
pub open spec fn keep_non_overlapping(s: Seq<(usize, usize, usize)>, end: int) -> Seq<(usize, usize, usize)>
    decreases s.len(),
{
    if s.len() == 0 {
        s
    } else if s[0].0 >= end {
        seq![s[0]] + keep_non_overlapping(s.drop_first(), s[0].1 as int)
    } else {
        keep_non_overlapping(s.drop_first(), end)
    }
}

/// The keyword matches of `text`: all occurrences sorted, overlapping ones dropped.
pub open spec fn keyword_matches(text: Seq<u8>, kws: Seq<Seq<u8>>) -> Seq<(usize, usize, usize)> {
    keep_non_overlapping(sort_matches(all_occurrences(text, kws, kws.len() as int)), 0)
}

/// Whether `kw` occurs in `text` at byte `p`.
fn bytes_match_at(text: &[u8], kw: &Vec<u8>, p: usize) -> (r: bool)
    requires
        p + kw@.len() <= text@.len(),
    ensures
        r == occurs_at(text@, kw@, p as int),
{
    let k = kw.len();
    let tl = text.len();
    let mut j: usize = 0;
    while j < k
        invariant
            j <= k,
            k == kw@.len(),
            tl == text@.len(),
            p + k <= text@.len(),
            text@.subrange(p as int, p + j) == kw@.subrange(0, j as int),
        decreases k - j,
    {
        if text[p + j] != kw[j] {
            proof {
                assert(text@.subrange(p as int, p + k)[j as int] != kw@[j as int]);
            }
            return false;
        }
        proof {
            assert(text@.subrange(p as int, p + j + 1) =~= kw@.subrange(0, j + 1));
        }
        j += 1;
    }
    proof {
        assert(kw@.subrange(0, k as int) =~= kw@);
    }
    true
}

fn precedes(a: (usize, usize, usize), b: (usize, usize, usize)) -> (r: bool)
    ensures
        r == match_precedes(a, b),
{
    a.0 < b.0 || (a.0 == b.0 && a.1 > b.1)
}

/// Inserting before the first element that `m` goes before is `insert_match`.
proof fn lemma_insert_match_at(s: Seq<(usize, usize, usize)>, m: (usize, usize, usize), j: int)
    requires
        0 <= j <= s.len(),
        forall|k: int| 0 <= k < j ==> !match_precedes(m, #[trigger] s[k]),
        j < s.len() ==> match_precedes(m, s[j]),
    ensures
        insert_match(s, m) == s.insert(j, m),
    decreases j,
{
    if j == 0 {
        assert(insert_match(s, m) =~= s.insert(0, m));
    } else {
        assert(!match_precedes(m, s[0]));
        let t = s.drop_first();
        assert forall|k: int| 0 <= k < j - 1 implies !match_precedes(m, #[trigger] t[k]) by {
            assert(t[k] == s[k + 1]);
        }
        lemma_insert_match_at(t, m, j - 1);
        assert(s.insert(j, m) =~= seq![s[0]] + t.insert(j - 1, m));
    }
}

/// The keyword matches of `lower_text` for the keywords `lower_keywords` (both already
/// lower-cased): every left-to-right occurrence of each non-empty keyword, sorted by
/// start (longer first at one start, then by keyword), overlapping ones dropped.
pub fn match_keywords(lower_text: &[u8], lower_keywords: &[Vec<u8>]) -> (r: Vec<(usize, usize, usize)>)
    ensures
        r@ == keyword_matches(lower_text@, byte_views(lower_keywords@)),
        forall|j: int|
            0 <= j < r@.len() ==> is_occurrence(lower_text@, byte_views(lower_keywords@), #[trigger] r@[j]),
        forall|j: int| 0 <= j < r@.len() - 1 ==> (#[trigger] r@[j]).1 <= r@[j + 1].0,
{
    let ghost text = lower_text@;
    let ghost kws = byte_views(lower_keywords@);
    let n = lower_keywords.len();
    let len = lower_text.len();
    let mut occ: Vec<(usize, usize, usize)> = Vec::new();
    let mut i: usize = 0;
    while i < n
        invariant
            i <= n,
            n == lower_keywords@.len(),
            len == text.len(),
            text == lower_text@,
            kws == byte_views(lower_keywords@),
            occ@ == all_occurrences(text, kws, i as int),
            forall|j: int| 0 <= j < occ@.len() ==> is_occurrence(text, kws, #[trigger] occ@[j]),
        decreases n - i,
    {
        let kw = &lower_keywords[i];
        let k = kw.len();
        let ghost before = occ@;
        assert(kw@ == kws[i as int]);
        if k > 0 {
            let mut p: usize = 0;
            while p <= len && k <= len - p
                invariant
                    p <= len,
                    k > 0,
                    i < n,
                    n == lower_keywords@.len(),
                    len == text.len(),
                    text == lower_text@,
                    kws == byte_views(lower_keywords@),
                    k == kw@.len(),
                    kw@ == kws[i as int],
                    before + scan_occurrences(text, kws[i as int], i as int, 0)
                        == occ@ + scan_occurrences(text, kws[i as int], i as int, p as int),
                    forall|j: int| 0 <= j < occ@.len() ==> is_occurrence(text, kws, #[trigger] occ@[j]),
                decreases len - p,
            {
                if bytes_match_at(lower_text, kw, p) {
                    let m = (p, p + k, i);
                    proof {
                        assert(occ@.push(m) + scan_occurrences(text, kws[i as int], i as int, p + k)
                            =~= occ@ + scan_occurrences(text, kws[i as int], i as int, p as int));
                    }
                    occ.push(m);
                    p = p + k;
                } else {
                    p = p + 1;
                }
            }
            proof {
                assert(occ@ + scan_occurrences(text, kws[i as int], i as int, p as int) =~= occ@);
            }
        }
        proof {
            assert(all_occurrences(text, kws, i + 1) == all_occurrences(text, kws, i as int)
                + scan_occurrences(text, kws[i as int], i as int, 0));
            if k == 0 {
                assert(before + scan_occurrences(text, kws[i as int], i as int, 0) =~= before);
            }
        }
        i += 1;
    }
    let mut sorted: Vec<(usize, usize, usize)> = Vec::new();
    let mut t: usize = 0;
    while t < occ.len()
        invariant
            t <= occ@.len(),
            sorted@ == sort_matches(occ@.take(t as int)),
            forall|j: int| 0 <= j < occ@.len() ==> is_occurrence(text, kws, #[trigger] occ@[j]),
            forall|j: int| 0 <= j < sorted@.len() ==> is_occurrence(text, kws, #[trigger] sorted@[j]),
        decreases occ@.len() - t,
    {
        let m = occ[t];
        let mut j: usize = 0;
        while j < sorted.len() && !precedes(m, sorted[j])
            invariant
                j <= sorted@.len(),
                forall|k: int| 0 <= k < j ==> !match_precedes(m, #[trigger] sorted@[k]),
            decreases sorted@.len() - j,
        {
            j += 1;
        }
        proof {
            lemma_insert_match_at(sorted@, m, j as int);
            assert(occ@.take(t + 1).drop_last() =~= occ@.take(t as int));
        }
        let ghost old_sorted = sorted@;
        sorted.insert(j, m);
        proof {
            assert forall|q: int| 0 <= q < sorted@.len() implies is_occurrence(text, kws, #[trigger] sorted@[q]) by {
                if q < j {
                    assert(sorted@[q] == old_sorted[q]);
                } else if q > j {
                    assert(sorted@[q] == old_sorted[q - 1]);
                }
            }
        }
        t += 1;
    }
    proof {
        assert(occ@.take(occ@.len() as int) =~= occ@);
    }
    let mut out: Vec<(usize, usize, usize)> = Vec::new();
    let mut end: usize = 0;
    let mut j: usize = 0;
    let slen = sorted.len();
    proof {
        assert(sorted@.subrange(0, slen as int) =~= sorted@);
    }
    while j < slen
        invariant
            j <= slen,
            slen == sorted@.len(),
            keep_non_overlapping(sorted@, 0)
                == out@ + keep_non_overlapping(sorted@.subrange(j as int, slen as int), end as int),
            forall|q: int| 0 <= q < sorted@.len() ==> is_occurrence(text, kws, #[trigger] sorted@[q]),
            forall|q: int| 0 <= q < out@.len() ==> is_occurrence(text, kws, #[trigger] out@[q]),
            forall|q: int| 0 <= q < out@.len() - 1 ==> (#[trigger] out@[q]).1 <= out@[q + 1].0,
            out@.len() > 0 ==> out@.last().1 == end,
        decreases slen - j,
    {
        let m = sorted[j];
        let ghost rest = sorted@.subrange(j as int, slen as int);
        proof {
            assert(rest.drop_first() =~= sorted@.subrange(j + 1, slen as int));
            assert(rest[0] == m);
        }
        if m.0 >= end {
            proof {
                assert(out@.push(m) + keep_non_overlapping(rest.drop_first(), m.1 as int)
                    =~= out@ + keep_non_overlapping(rest, end as int));
            }
            out.push(m);
            end = m.1;
        }
        j += 1;
    }
    proof {
        assert(sorted@.subrange(slen as int, slen as int) =~= Seq::<(usize, usize, usize)>::empty());
        assert(out@ + Seq::<(usize, usize, usize)>::empty() =~= out@);
    }
    out
}

} // verus!

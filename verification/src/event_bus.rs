//! EventBus: publish/poll messaging for scripts and modular systems.
//!
//! Delivery is queued: systems publish during a tick; consumers poll or drain at
//! safe points, in publication order.

use vstd::prelude::*;
use std::collections::VecDeque;
use crate::editor_utils::str_eq;

pub mod scope_types;

verus! {

/// Stable id for an event topic (string-backed).
#[derive(Clone, Copy, Debug, PartialEq, Eq, Hash, Structural)]
pub struct EventTopicId {
    raw: u32,
}

impl EventTopicId {
    #[verifier::type_invariant]
    spec fn nonzero(self) -> bool {
        self.raw != 0
    }

    /// The raw 1-based value.
    pub closed spec fn spec_raw(self) -> u32 {
        self.raw
    }

    /// Builds an id from its raw 1-based value (zero is not an id).
    pub fn from_raw(raw: u32) -> (r: Self)
        requires
            raw != 0,
        ensures
            r.spec_raw() == raw,
    {
        EventTopicId { raw }
    }

    pub fn raw(self) -> (r: u32)
        ensures
            r == self.spec_raw(),
            r != 0,
    {
        proof { use_type_invariant(&self); }
        self.raw
    }

    /// Two ids are equal exactly when their raw values are.
    pub proof fn lemma_raw_injective(a: Self, b: Self)
        ensures
            (a.spec_raw() == b.spec_raw()) == (a == b),
    {
    }
}

/// Scope for routing/filtering: a scope type discriminant (see `scope_types`; custom
/// game scopes use values >= 1000 by convention) and a raw entity id (64-bit ids split
/// into low and high halves).
#[derive(Clone, Copy, Debug, PartialEq, Eq, Structural)]
pub struct EntityScopeRef {
    pub scope_type: u32,
    pub raw: u32,
    pub raw_hi: u32,
}

/// Older name of `EntityScopeRef`.
pub type EventScopeRef = EntityScopeRef;

impl EntityScopeRef {
    pub fn global() -> (r: Self)
        ensures
            r == (EntityScopeRef { scope_type: scope_types::GLOBAL, raw: 0, raw_hi: 0 }),
    {
        EntityScopeRef { scope_type: scope_types::GLOBAL, raw: 0, raw_hi: 0 }
    }

    pub fn nation(raw: u32) -> (r: Self)
        ensures
            r == (EntityScopeRef { scope_type: scope_types::NATION, raw, raw_hi: 0 }),
    {
        EntityScopeRef { scope_type: scope_types::NATION, raw, raw_hi: 0 }
    }

    pub fn province(raw: u32) -> (r: Self)
        ensures
            r == (EntityScopeRef { scope_type: scope_types::PROVINCE, raw, raw_hi: 0 }),
    {
        EntityScopeRef { scope_type: scope_types::PROVINCE, raw, raw_hi: 0 }
    }

    /// Character scope: the 64-bit id split into its low and high 32 bits.
    pub fn character(raw: u64) -> (r: Self)
        ensures
            r.scope_type == scope_types::CHARACTER,
            r.raw == raw % 0x1_0000_0000,
            r.raw_hi == raw / 0x1_0000_0000,
    {
        let lo = (raw & 0xffff_ffff) as u32;
        let hi = (raw >> 32u64) as u32;
        proof {
            assert((raw & 0xffff_ffff) == raw % 0x1_0000_0000) by (bit_vector);
            assert((raw >> 32u64) == raw / 0x1_0000_0000) by (bit_vector);
        }
        EntityScopeRef { scope_type: scope_types::CHARACTER, raw: lo, raw_hi: hi }
    }

    pub fn army(raw: u32) -> (r: Self)
        ensures
            r == (EntityScopeRef { scope_type: scope_types::ARMY, raw, raw_hi: 0 }),
    {
        EntityScopeRef { scope_type: scope_types::ARMY, raw, raw_hi: 0 }
    }

    /// Custom scope with a game-defined type discriminant.
    pub fn custom(scope_type: u32, raw: u32) -> (r: Self)
        ensures
            r == (EntityScopeRef { scope_type, raw, raw_hi: 0 }),
    {
        EntityScopeRef { scope_type, raw, raw_hi: 0 }
    }

    pub fn is_global(&self) -> (r: bool)
        ensures
            r == (self.scope_type == scope_types::GLOBAL),
    {
        self.scope_type == scope_types::GLOBAL
    }
}

/// Opaque payload.
pub struct EventPayload {
    pub payload_type_id: u32,
    pub bytes: Vec<u8>,
}

/// One published event.
pub struct EventEnvelope {
    pub topic: EventTopicId,
    pub scope: EntityScopeRef,
    pub payload: EventPayload,
    /// Game-defined timestamp for ordering (0 if unused).
    pub timestamp: i64,
}

/// Id of the last entry of `s` named `name`.
pub open spec fn topic_by_name(s: Seq<(Seq<char>, EventTopicId)>, name: Seq<char>) -> Option<EventTopicId>
    decreases s.len(),
{
    if s.len() == 0 {
        None
    } else if s.last().0 == name {
        Some(s.last().1)
    } else {
        topic_by_name(s.drop_last(), name)
    }
}

/// Index entries built from the topic table: name `i` maps to raw id `i + 1`.
pub open spec fn topic_entries(names: Seq<Seq<char>>) -> Seq<(Seq<char>, u32)> {
    Seq::new(names.len(), |i: int| (names[i], (i + 1) as u32))
}

/// The next raw after folding the table positions into `start` (max with position + 2).
pub open spec fn next_after_topics(start: u32, n: nat) -> u32
    decreases n,
{
    if n == 0 {
        start
    } else {
        let prev = next_after_topics(start, (n - 1) as nat);
        let cand = if n >= u32::MAX { u32::MAX } else { (n + 1) as u32 };
        if prev >= cand { prev } else { cand }
    }
}

/// EventBus: topic registry plus queued events.
pub struct EventBus {
    /// id_to_topic[raw - 1] = topic name.
    pub id_to_topic: Vec<String>,
    pub next_topic_raw: u32,
    pub queue: VecDeque<EventEnvelope>,
    /// The name -> id index, as the entries inserted into it in order.
    topic_index: Vec<(String, EventTopicId)>,
}

impl EventBus {
    pub closed spec fn topics(&self) -> Seq<Seq<char>> {
        self.id_to_topic@.map_values(|s: String| s@)
    }

    pub closed spec fn next_raw(&self) -> u32 {
        self.next_topic_raw
    }

    pub closed spec fn queued(&self) -> Seq<EventEnvelope> {
        self.queue@
    }

    /// The name index entries (name, raw id), in insertion order.
    pub closed spec fn index(&self) -> Seq<(Seq<char>, u32)> {
        self.topic_index@.map_values(|e: (String, EventTopicId)| (e.0@, e.1.spec_raw()))
    }

    /// Raw id the index holds for `name` (the last entry with that name).
    pub open spec fn indexed_raw(entries: Seq<(Seq<char>, u32)>, name: Seq<char>) -> Option<u32>
        decreases entries.len(),
    {
        if entries.len() == 0 {
            None
        } else if entries.last().0 == name {
            Some(entries.last().1)
        } else {
            Self::indexed_raw(entries.drop_last(), name)
        }
    }

    /// Index the next lookup sees: rebuilt from the table when empty.
    pub open spec fn ensured_index(&self) -> Seq<(Seq<char>, u32)> {
        if self.index().len() == 0 { topic_entries(self.topics()) } else { self.index() }
    }

    /// Next raw the next registration sees (after a rebuild when the index is empty).
    pub open spec fn ensured_next(&self) -> u32 {
        if self.index().len() == 0 {
            let n = next_after_topics(self.next_raw(), self.topics().len());
            if n >= 1 { n } else { 1 }
        } else {
            self.next_raw()
        }
    }

    /// Whether an index entry names the table position it points at.
    pub open spec fn entry_ok(topics: Seq<Seq<char>>, e: (Seq<char>, u32)) -> bool {
        1 <= e.1 <= topics.len() && topics[e.1 - 1] == e.0
    }

    /// The table, the index and the next raw id agree: every index entry points at the
    /// table position with its name, and the next id is one past the table (at most that
    /// while the index is still to be built).
    pub open spec fn well_formed(&self) -> bool {
        if self.index().len() == 0 {
            self.next_raw() <= self.topics().len() + 1
        } else {
            &&& self.next_raw() == self.topics().len() + 1
            &&& forall|j: int| 0 <= j < self.index().len() ==> Self::entry_ok(self.topics(), #[trigger] self.index()[j])
        }
    }

    pub fn new() -> (r: Self)
        ensures
            r.well_formed(),
            r.topics().len() == 0,
            r.next_raw() == 1,
            r.queued().len() == 0,
            r.index().len() == 0,
    {
        EventBus { id_to_topic: Vec::new(), next_topic_raw: 1, queue: VecDeque::new(), topic_index: Vec::new() }
    }

    fn ensure_index(&mut self)
        requires
            old(self).topics().len() < u32::MAX,
        ensures
            final(self).topics() == old(self).topics(),
            final(self).queued() == old(self).queued(),
            final(self).index() == old(self).ensured_index(),
            final(self).next_raw() == old(self).ensured_next(),
    {
        if self.topic_index.len() != 0 {
            return;
        }
        let n = self.id_to_topic.len();
        let mut i: usize = 0;
        while i < n
            invariant
                n == self.id_to_topic@.len(),
                n < u32::MAX,
                i <= n,
                self.id_to_topic@ == old(self).id_to_topic@,
                self.queue@ == old(self).queue@,
                self.topic_index@.len() == i,
                self.index() == topic_entries(self.topics()).take(i as int),
                self.next_topic_raw == next_after_topics(old(self).next_topic_raw, i as nat),
            decreases n - i,
        {
            let raw = (i as u32) + 1;
            let name = self.id_to_topic[i].clone();
            let ghost before = self.topic_index@;
            let ghost old_index = self.index();
            let id = EventTopicId::from_raw(raw);
            self.topic_index.push((name, id));
            let cand = if raw == u32::MAX { u32::MAX } else { raw + 1 };
            if cand > self.next_topic_raw {
                self.next_topic_raw = cand;
            }
            proof {
                assert(name@ == self.topics()[i as int]);
                assert(self.topic_index@ == before.push((name, id)));
                assert forall|j: int| 0 <= j <= i implies #[trigger] self.index()[j] == topic_entries(self.topics())[j] by {
                    if j < i {
                        assert(self.topic_index@[j] == before[j]);
                        assert(old_index[j] == topic_entries(self.topics())[j]);
                    }
                }
                assert(self.index() =~= topic_entries(self.topics()).take(i + 1));
            }
            i += 1;
        }
        proof {
            assert(topic_entries(self.topics()).take(n as int) =~= topic_entries(self.topics()));
        }
        if self.next_topic_raw < 1 {
            self.next_topic_raw = 1;
        }
    }

    fn lookup(&self, name: &str) -> (r: Option<EventTopicId>)
        ensures
            match Self::indexed_raw(self.index(), name@) {
                Some(raw) => r matches Some(id) && id.spec_raw() == raw,
                None => r is None,
            },
    {
        let mut i = self.topic_index.len();
        proof {
            assert(self.index().take(i as int) =~= self.index());
        }
        while i > 0
            invariant
                i <= self.topic_index@.len(),
                Self::indexed_raw(self.index(), name@) == Self::indexed_raw(self.index().take(i as int), name@),
            decreases i,
        {
            let entry = &self.topic_index[i - 1];
            proof {
                assert(self.index().take(i as int).drop_last() =~= self.index().take(i - 1));
                assert(self.index().take(i as int).last() == (entry.0@, entry.1.spec_raw()));
            }
            if str_eq(entry.0.as_str(), name) {
                return Some(entry.1);
            }
            i -= 1;
        }
        None
    }

    /// What `get_or_register_topic(name)` does: `old` before, `new` after, `r` returned.
    pub open spec fn registers_topic(old: Self, new: Self, name: Seq<char>, r: EventTopicId) -> bool {
        let ix = old.ensured_index();
        let next = old.ensured_next();
        &&& new.queued() == old.queued()
        &&& match Self::indexed_raw(ix, name) {
            Some(raw) => {
                &&& r.spec_raw() == raw
                &&& new.topics() == old.topics()
                &&& new.index() == ix
                &&& new.next_raw() == next
            },
            None => {
                &&& r.spec_raw() == (if next >= 1 { next } else { 1 })
                &&& new.topics() == old.topics().push(name)
                &&& new.index() == ix.push((name, r.spec_raw()))
                &&& new.next_raw() == (if r.spec_raw() == u32::MAX { u32::MAX } else { (r.spec_raw() + 1) as u32 })
            },
        }
        &&& Self::indexed_raw(new.index(), name) == Some(r.spec_raw())
    }

    /// The id of topic `name`, registering it when the index does not hold it: a new
    /// topic gets the next raw id and is appended to the table.
    pub fn get_or_register_topic(&mut self, name: &str) -> (r: EventTopicId)
        requires
            old(self).topics().len() < u32::MAX,
        ensures
            Self::registers_topic(*old(self), *final(self), name@, r),
    {
        self.ensure_index();
        if let Some(id) = self.lookup(name) {
            return id;
        }
        let raw = if self.next_topic_raw < 1 { 1 } else { self.next_topic_raw };
        self.next_topic_raw = if raw == u32::MAX { u32::MAX } else { raw + 1 };
        let id = EventTopicId::from_raw(raw);
        self.id_to_topic.push(name.to_owned());
        self.topic_index.push((name.to_owned(), id));
        proof {
            assert(self.topics() =~= old(self).topics().push(name@));
            assert(self.index() =~= old(self).ensured_index().push((name@, raw)));
        }
        id
    }

    /// Name of the topic at table position `raw - 1`, if any.
    pub fn topic_name(&self, id: EventTopicId) -> (r: Option<&str>)
        ensures
            match r {
                Some(s) => id.spec_raw() - 1 < self.topics().len() && s@ == self.topics()[id.spec_raw() - 1],
                None => id.spec_raw() - 1 >= self.topics().len(),
            },
    {
        let i = (id.raw() - 1) as usize;
        if i < self.id_to_topic.len() { Some(self.id_to_topic[i].as_str()) } else { None }
    }

    /// Queue an event at the back.
    pub fn publish(&mut self, env: EventEnvelope)
        ensures
            final(self).queued() == old(self).queued().push(env),
            final(self).topics() == old(self).topics(),
            final(self).index() == old(self).index(),
            final(self).next_raw() == old(self).next_raw(),
    {
        self.queue.push_back(env);
    }

    /// Take the oldest queued event.
    pub fn poll(&mut self) -> (r: Option<EventEnvelope>)
        ensures
            old(self).queued().len() == 0 ==> r is None && final(self).queued() == old(self).queued(),
            old(self).queued().len() > 0 ==> r == Some(old(self).queued()[0]) && final(self).queued() == old(self).queued().drop_first(),
            final(self).topics() == old(self).topics(),
            final(self).index() == old(self).index(),
            final(self).next_raw() == old(self).next_raw(),
    {
        self.queue.pop_front()
    }

    /// Take every queued event, oldest first.
    pub fn drain_all(&mut self) -> (r: Vec<EventEnvelope>)
        ensures
            r@ == old(self).queued(),
            final(self).queued().len() == 0,
            final(self).topics() == old(self).topics(),
            final(self).index() == old(self).index(),
            final(self).next_raw() == old(self).next_raw(),
    {
        let mut out: Vec<EventEnvelope> = Vec::new();
        while self.queue.len() > 0
            invariant
                out@ + self.queue@ == old(self).queue@,
                self.id_to_topic@ == old(self).id_to_topic@,
                self.topic_index@ == old(self).topic_index@,
                self.next_topic_raw == old(self).next_topic_raw,
            decreases self.queue@.len(),
        {
            let ghost q = self.queue@;
            match self.queue.pop_front() {
                Some(e) => {
                    out.push(e);
                    proof {
                        assert(out@ + self.queue@ =~= old(self).queue@);
                    }
                },
                None => {},
            }
        }
        proof {
            assert(out@ =~= old(self).queue@);
        }
        out
    }
}

/// Publish an event on `topic` (registered on first use).
pub fn publish_event(bus: &mut EventBus, topic: &str, scope: EntityScopeRef, payload_type_id: u32, bytes: Vec<u8>, timestamp: i64)
    requires
        old(bus).topics().len() < u32::MAX,
    ensures
        final(bus).queued().len() == old(bus).queued().len() + 1,
        final(bus).queued().drop_last() == old(bus).queued(),
        ({
            let e = final(bus).queued().last();
            &&& EventBus::indexed_raw(final(bus).index(), topic@) == Some(e.topic.spec_raw())
            &&& e.scope == scope
            &&& e.payload.payload_type_id == payload_type_id
            &&& e.payload.bytes@ == bytes@
            &&& e.timestamp == timestamp
        }),
{
    let topic_id = bus.get_or_register_topic(topic);
    bus.publish(EventEnvelope { topic: topic_id, scope, payload: EventPayload { payload_type_id, bytes }, timestamp });
    proof {
        assert(bus.queued().drop_last() =~= old(bus).queued());
    }
}

proof fn lemma_indexed_raw_found(entries: Seq<(Seq<char>, u32)>, name: Seq<char>)
    requires
        EventBus::indexed_raw(entries, name) is Some,
    ensures
        entries.len() > 0,
        exists|j: int| 0 <= j < entries.len() && #[trigger] entries[j] == (name, EventBus::indexed_raw(entries, name)->0),
    decreases entries.len(),
{
    if entries.last().0 == name {
        assert(entries[entries.len() - 1] == (name, EventBus::indexed_raw(entries, name)->0));
    } else {
        lemma_indexed_raw_found(entries.drop_last(), name);
        let j = choose|j: int| 0 <= j < entries.drop_last().len() && #[trigger] entries.drop_last()[j] == (name, EventBus::indexed_raw(entries, name)->0);
        assert(entries[j] == entries.drop_last()[j]);
    }
}

proof fn lemma_next_after_topics(start: u32, n: nat)
    requires
        n < u32::MAX,
    ensures
        n == 0 ==> next_after_topics(start, n) == start,
        n >= 1 ==> next_after_topics(start, n) == (if start >= n + 1 { start as int } else { (n + 1) as int }),
    decreases n,
{
    if n > 0 {
        lemma_next_after_topics(start, (n - 1) as nat);
    }
}

proof fn lemma_ensured_well_formed(b: EventBus)
    requires
        b.well_formed(),
        b.topics().len() < u32::MAX,
    ensures
        b.ensured_next() == b.topics().len() + 1,
        forall|j: int| 0 <= j < b.ensured_index().len() ==> EventBus::entry_ok(b.topics(), #[trigger] b.ensured_index()[j]),
{
    if b.index().len() == 0 {
        lemma_next_after_topics(b.next_raw(), b.topics().len());
    }
}

/// Asking twice for the same topic name gives the same id, and the second call changes
/// neither the topic table nor the index.
pub proof fn law_topic_register_idempotent(a: EventBus, b: EventBus, c: EventBus, name: Seq<char>, r1: EventTopicId, r2: EventTopicId)
    requires
        EventBus::registers_topic(a, b, name, r1),
        EventBus::registers_topic(b, c, name, r2),
    ensures
        r1 == r2,
        c.topics() == b.topics(),
        c.index() == b.index(),
        c.queued() == a.queued(),
{
    lemma_indexed_raw_found(b.index(), name);
    EventTopicId::lemma_raw_injective(r1, r2);
}

/// On a well-formed bus, the id returned for `name` names `name`: `topic_name` of it gives
/// the name back, and the bus stays well-formed. (Not when the id space is exhausted.)
pub proof fn law_registered_topic_name(a: EventBus, b: EventBus, name: Seq<char>, r: EventTopicId)
    requires
        a.well_formed(),
        a.topics().len() + 1 < u32::MAX,
        EventBus::registers_topic(a, b, name, r),
    ensures
        b.well_formed(),
        1 <= r.spec_raw() <= b.topics().len(),
        b.topics()[r.spec_raw() - 1] == name,
{
    lemma_ensured_well_formed(a);
    let ix = a.ensured_index();
    match EventBus::indexed_raw(ix, name) {
        Some(raw) => {
            lemma_indexed_raw_found(ix, name);
            let j = choose|j: int| 0 <= j < ix.len() && #[trigger] ix[j] == (name, raw);
            assert(EventBus::entry_ok(a.topics(), ix[j]));
        },
        None => {
            assert forall|j: int| 0 <= j < b.index().len() implies EventBus::entry_ok(b.topics(), #[trigger] b.index()[j]) by {
                if j < ix.len() {
                    assert(b.index()[j] == ix[j]);
                    assert(EventBus::entry_ok(a.topics(), ix[j]));
                }
            }
        },
    }
}

/// Events come out in the order they went in: after `publish(e)`, `poll` returns the
/// oldest event queued before it, or `e` itself when none was.
pub proof fn law_publish_poll_fifo(b0: EventBus, b1: EventBus, b2: EventBus, e: EventEnvelope, r: Option<EventEnvelope>)
    requires
        b1.queued() == b0.queued().push(e),
        b1.queued().len() > 0 ==> r == Some(b1.queued()[0]) && b2.queued() == b1.queued().drop_first(),
    ensures
        b0.queued().len() == 0 ==> r == Some(e) && b2.queued().len() == 0,
        b0.queued().len() > 0 ==> r == Some(b0.queued()[0]) && b2.queued() == b0.queued().drop_first().push(e),
{
    if b0.queued().len() > 0 {
        assert(b1.queued().drop_first() =~= b0.queued().drop_first().push(e));
    }
}

} // verus!

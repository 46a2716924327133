//! Generic tag system for abstract mechanics (religion, culture, ideology, ...).
//!
//! Games register their own tag types and tag values; tags can be attached to
//! provinces and nations. Ids are 1-based and stay stable across save/load.
//!
//! The registry keeps lookup indexes that are built lazily from `types` and
//! `tags`. They are held as snapshots of the definitions that were indexed
//! (later entries win on a repeated key), which is exactly what a key/value
//! index filled in the same order holds.

use vstd::prelude::*;
use std::collections::HashMap;
use std::marker::PhantomData;
use crate::world::{NationId, ProvinceId, ScopeId};

verus! {

/// `raw + 1`, saturating at `u32::MAX`.
pub open spec fn sat_inc(raw: u32) -> u32 {
    if raw == u32::MAX { u32::MAX } else { (raw + 1) as u32 }
}

/// The larger of two raw ids.
pub open spec fn max_u32(a: u32, b: u32) -> u32 {
    if a >= b { a } else { b }
}

pub fn saturating_inc(raw: u32) -> (r: u32)
    ensures r == sat_inc(raw),
{
    if raw == u32::MAX { u32::MAX } else { raw + 1 }
}

/// Stable id for a tag type/category (e.g. religion, culture, ideology, custom).
#[derive(Clone, Copy, Debug, PartialEq, Eq, Hash, Structural)]
pub struct TagTypeId {
    raw: u32,
}

impl TagTypeId {
    #[verifier::type_invariant]
    spec fn nonzero(self) -> bool {
        self.raw != 0
    }

    /// The raw 1-based value.
    pub closed spec fn spec_raw(self) -> u32 {
        self.raw
    }

    /// Builds an id from its raw 1-based value (zero is not an id).
    pub fn from_raw(raw: u32) -> (r: Self)
        requires
            raw != 0,
        ensures
            r.spec_raw() == raw,
    {
        TagTypeId { raw }
    }

    pub fn raw(self) -> (r: u32)
        ensures
            r == self.spec_raw(),
            r != 0,
    {
        proof { use_type_invariant(&self); }
        self.raw
    }

    /// Two ids are equal exactly when their raw values are.
    pub proof fn lemma_raw_injective(a: Self, b: Self)
        ensures
            (a.spec_raw() == b.spec_raw()) == (a == b),
    {
    }
}

/// Stable id for a tag value (e.g. "Catholic", "English", "Democracy").
#[derive(Clone, Copy, Debug, PartialEq, Eq, Hash, Structural)]
pub struct TagId {
    raw: u32,
}

impl TagId {
    #[verifier::type_invariant]
    spec fn nonzero(self) -> bool {
        self.raw != 0
    }

    /// The raw 1-based value.
    pub closed spec fn spec_raw(self) -> u32 {
        self.raw
    }

    /// Builds an id from its raw 1-based value (zero is not an id).
    pub fn from_raw(raw: u32) -> (r: Self)
        requires
            raw != 0,
        ensures
            r.spec_raw() == raw,
    {
        TagId { raw }
    }

    pub fn raw(self) -> (r: u32)
        ensures
            r == self.spec_raw(),
            r != 0,
    {
        proof { use_type_invariant(&self); }
        self.raw
    }

    /// Two ids are equal exactly when their raw values are.
    pub proof fn lemma_raw_injective(a: Self, b: Self)
        ensures
            (a.spec_raw() == b.spec_raw()) == (a == b),
    {
    }
}

/// A tag type/category definition.
pub struct TagTypeDef {
    pub id: TagTypeId,
    pub name: String,
}

impl TagTypeDef {
    /// A field-by-field copy.
    pub fn copied(&self) -> (r: Self)
        ensures
            r == *self,
    {
        TagTypeDef { id: self.id, name: self.name.clone() }
    }
}

/// A tag value definition.
pub struct TagDef {
    pub id: TagId,
    pub type_id: TagTypeId,
    pub name: String,
}

impl TagDef {
    /// A field-by-field copy.
    pub fn copied(&self) -> (r: Self)
        ensures
            r == *self,
    {
        TagDef { id: self.id, type_id: self.type_id, name: self.name.clone() }
    }
}

/// Id of the last type in `s` named `name` (the entry an index filled from `s` holds).
pub open spec fn type_id_by_name(s: Seq<TagTypeDef>, name: Seq<char>) -> Option<TagTypeId>
    decreases s.len(),
{
    if s.len() == 0 {
        None
    } else if s.last().name@ == name {
        Some(s.last().id)
    } else {
        type_id_by_name(s.drop_last(), name)
    }
}

/// Name of the last type in `s` whose raw id is `raw`.
pub open spec fn type_name_by_raw(s: Seq<TagTypeDef>, raw: u32) -> Option<Seq<char>>
    decreases s.len(),
{
    if s.len() == 0 {
        None
    } else if s.last().id.spec_raw() == raw {
        Some(s.last().name@)
    } else {
        type_name_by_raw(s.drop_last(), raw)
    }
}

/// Id of the last tag in `s` of type `type_raw` named `name`.
pub open spec fn tag_id_by_key(s: Seq<TagDef>, type_raw: u32, name: Seq<char>) -> Option<TagId>
    decreases s.len(),
{
    if s.len() == 0 {
        None
    } else if s.last().type_id.spec_raw() == type_raw && s.last().name@ == name {
        Some(s.last().id)
    } else {
        tag_id_by_key(s.drop_last(), type_raw, name)
    }
}

/// The last tag in `s` whose raw id is `raw`.
pub open spec fn tag_def_by_raw(s: Seq<TagDef>, raw: u32) -> Option<TagDef>
    decreases s.len(),
{
    if s.len() == 0 {
        None
    } else if s.last().id.spec_raw() == raw {
        Some(s.last())
    } else {
        tag_def_by_raw(s.drop_last(), raw)
    }
}

/// The next type raw after folding the ids of `s` into `start` (max with raw + 1).
pub open spec fn next_after_types(start: u32, s: Seq<TagTypeDef>) -> u32
    decreases s.len(),
{
    if s.len() == 0 {
        start
    } else {
        max_u32(next_after_types(start, s.drop_last()), sat_inc(s.last().id.spec_raw()))
    }
}

/// The next tag raw after folding the ids of `s` into `start` (max with raw + 1).
pub open spec fn next_after_tags(start: u32, s: Seq<TagDef>) -> u32
    decreases s.len(),
{
    if s.len() == 0 {
        start
    } else {
        max_u32(next_after_tags(start, s.drop_last()), sat_inc(s.last().id.spec_raw()))
    }
}

/// Registry of tag types and tag values. Data-driven; games can seed this at init.
pub struct TagRegistry {
    pub types: Vec<TagTypeDef>,
    pub tags: Vec<TagDef>,
    /// Next ids (1-based). Stored so save/load preserves stable ids.
    pub next_type_raw: u32,
    pub next_tag_raw: u32,
    /// Type definitions the lookup index holds, in insertion order (empty until the
    /// first lookup builds it).
    pub indexed_types: Vec<TagTypeDef>,
    /// Tag definitions the lookup index holds, in insertion order.
    pub indexed_tags: Vec<TagDef>,
}

impl TagRegistry {
    /// The registered types.
    pub open spec fn types_view(&self) -> Seq<TagTypeDef> {
        self.types@
    }

    /// The registered tags.
    pub open spec fn tags_view(&self) -> Seq<TagDef> {
        self.tags@
    }

    /// The next type raw id to hand out (before the floor of 1).
    pub open spec fn next_type(&self) -> u32 {
        self.next_type_raw
    }

    /// The next tag raw id to hand out (before the floor of 1).
    pub open spec fn next_tag(&self) -> u32 {
        self.next_tag_raw
    }

    /// Type definitions held by the lookup index.
    pub open spec fn type_index(&self) -> Seq<TagTypeDef> {
        self.indexed_types@
    }

    /// Tag definitions held by the lookup index.
    pub open spec fn tag_index(&self) -> Seq<TagDef> {
        self.indexed_tags@
    }

    /// Whether the lookup index would be rebuilt before the next lookup.
    pub open spec fn index_empty(&self) -> bool {
        self.type_index().len() == 0 && self.tag_index().len() == 0
    }

    /// The registry as it stands after the lazy index build that precedes every lookup.
    pub open spec fn indexed_state(
        types: Seq<TagTypeDef>,
        tags: Seq<TagDef>,
        next_type: u32,
        next_tag: u32,
    ) -> (u32, u32) {
        (
            max_u32(next_after_types(next_type, types), 1),
            max_u32(next_after_tags(next_tag, tags), 1),
        )
    }

    /// The result of `rebuild_indexes` on `old`: index equal to the definitions, next raws folded.
    pub open spec fn rebuilt_from(self, old: Self) -> bool {
        &&& self.types_view() == old.types_view()
        &&& self.tags_view() == old.tags_view()
        &&& self.type_index() == old.types_view()
        &&& self.tag_index() == old.tags_view()
        &&& self.next_type() == max_u32(next_after_types(old.next_type(), old.types_view()), 1)
        &&& self.next_tag() == max_u32(next_after_tags(old.next_tag(), old.tags_view()), 1)
    }

    /// The registry after the lazy index build: rebuilt when the index is empty, else unchanged.
    pub open spec fn ensured_from(self, old: Self) -> bool {
        if old.index_empty() {
            self.rebuilt_from(old)
        } else {
            self == old
        }
    }

    pub fn new() -> (r: Self)
        ensures
            r.types_view().len() == 0,
            r.tags_view().len() == 0,
            r.next_type() == 1,
            r.next_tag() == 1,
            r.index_empty(),
            registry_well_formed(r),
    {
        TagRegistry {
            types: Vec::new(),
            tags: Vec::new(),
            next_type_raw: 1,
            next_tag_raw: 1,
            indexed_types: Vec::new(),
            indexed_tags: Vec::new(),
        }
    }

    /// A registry from saved definitions and next ids; the lookup index is left empty,
    /// to be built from them before the first lookup.
    pub fn from_parts(types: Vec<TagTypeDef>, tags: Vec<TagDef>, next_type_raw: u32, next_tag_raw: u32) -> (r: Self)
        ensures
            r.types_view() == types@,
            r.tags_view() == tags@,
            r.next_type() == next_type_raw,
            r.next_tag() == next_tag_raw,
            r.index_empty(),
    {
        TagRegistry { types, tags, next_type_raw, next_tag_raw, indexed_types: Vec::new(), indexed_tags: Vec::new() }
    }

    fn ensure_indexes(&mut self)
        ensures
            final(self).ensured_from(*old(self)),
    {
        if self.indexed_types.len() != 0 || self.indexed_tags.len() != 0 {
            return;
        }
        self.rebuild_indexes();
    }

    /// Rebuilds the lookup index from `types` and `tags`, and raises the next raws
    /// above every id in use.
    pub fn rebuild_indexes(&mut self)
        ensures
            final(self).rebuilt_from(*old(self)),
    {
        self.indexed_types = Vec::new();
        self.indexed_tags = Vec::new();
        let n = self.types.len();
        let mut i: usize = 0;
        while i < n
            invariant
                n == self.types@.len(),
                i <= n,
                self.types@ == old(self).types_view(),
                self.tags@ == old(self).tags_view(),
                self.next_tag_raw == old(self).next_tag(),
                self.indexed_types@ == self.types@.take(i as int),
                self.indexed_tags@.len() == 0,
                self.next_type_raw == next_after_types(old(self).next_type(), self.types@.take(i as int)),
            decreases n - i,
        {
            let t = self.types[i].copied();
            let inc = saturating_inc(t.id.raw());
            if inc > self.next_type_raw {
                self.next_type_raw = inc;
            }
            self.indexed_types.push(t);
            proof {
                assert(self.types@.take(i + 1).drop_last() == self.types@.take(i as int));
            }
            i += 1;
        }
        proof {
            assert(self.types@.take(n as int) == self.types@);
        }
        let m = self.tags.len();
        let mut j: usize = 0;
        while j < m
            invariant
                m == self.tags@.len(),
                j <= m,
                self.types@ == old(self).types_view(),
                self.tags@ == old(self).tags_view(),
                self.indexed_types@ == self.types@,
                self.next_type_raw == next_after_types(old(self).next_type(), self.types@),
                self.indexed_tags@ == self.tags@.take(j as int),
                self.next_tag_raw == next_after_tags(old(self).next_tag(), self.tags@.take(j as int)),
            decreases m - j,
        {
            let t = self.tags[j].copied();
            let inc = saturating_inc(t.id.raw());
            if inc > self.next_tag_raw {
                self.next_tag_raw = inc;
            }
            self.indexed_tags.push(t);
            proof {
                assert(self.tags@.take(j + 1).drop_last() == self.tags@.take(j as int));
            }
            j += 1;
        }
        proof {
            assert(self.tags@.take(m as int) == self.tags@);
        }
        if self.next_type_raw < 1 {
            self.next_type_raw = 1;
        }
        if self.next_tag_raw < 1 {
            self.next_tag_raw = 1;
        }
    }

    /// Index lookup: the type registered under `name`.
    fn lookup_type(&self, name: &String) -> (r: Option<TagTypeId>)
        ensures
            r == type_id_by_name(self.type_index(), name@),
    {
        let mut i = self.indexed_types.len();
        proof {
            assert(self.indexed_types@.take(i as int) == self.indexed_types@);
        }
        while i > 0
            invariant
                i <= self.indexed_types@.len(),
                type_id_by_name(self.indexed_types@, name@)
                    == type_id_by_name(self.indexed_types@.take(i as int), name@),
            decreases i,
        {
            proof {
                assert(self.indexed_types@.take(i as int).drop_last()
                    == self.indexed_types@.take(i - 1));
            }
            if self.indexed_types[i - 1].name == *name {
                return Some(self.indexed_types[i - 1].id);
            }
            i -= 1;
        }
        None
    }

    /// Index lookup: the tag registered under `(type_raw, name)`.
    fn lookup_tag(&self, type_raw: u32, name: &String) -> (r: Option<TagId>)
        ensures
            r == tag_id_by_key(self.tag_index(), type_raw, name@),
    {
        let mut i = self.indexed_tags.len();
        proof {
            assert(self.indexed_tags@.take(i as int) == self.indexed_tags@);
        }
        while i > 0
            invariant
                i <= self.indexed_tags@.len(),
                tag_id_by_key(self.indexed_tags@, type_raw, name@)
                    == tag_id_by_key(self.indexed_tags@.take(i as int), type_raw, name@),
            decreases i,
        {
            proof {
                assert(self.indexed_tags@.take(i as int).drop_last()
                    == self.indexed_tags@.take(i - 1));
            }
            if self.indexed_tags[i - 1].type_id.raw() == type_raw && self.indexed_tags[i - 1].name == *name {
                return Some(self.indexed_tags[i - 1].id);
            }
            i -= 1;
        }
        None
    }

    /// Type index the next lookup sees (rebuilt first when empty).
    pub open spec fn ensured_type_index(self) -> Seq<TagTypeDef> {
        if self.index_empty() { self.types_view() } else { self.type_index() }
    }

    /// Tag index the next lookup sees (rebuilt first when empty).
    pub open spec fn ensured_tag_index(self) -> Seq<TagDef> {
        if self.index_empty() { self.tags_view() } else { self.tag_index() }
    }

    /// Next type raw the next registration sees (after a rebuild when the index is empty).
    pub open spec fn ensured_next_type(self) -> u32 {
        if self.index_empty() {
            Self::indexed_state(self.types_view(), self.tags_view(), self.next_type(), self.next_tag()).0
        } else {
            self.next_type()
        }
    }

    /// Next tag raw the next registration sees (after a rebuild when the index is empty).
    pub open spec fn ensured_next_tag(self) -> u32 {
        if self.index_empty() {
            Self::indexed_state(self.types_view(), self.tags_view(), self.next_type(), self.next_tag()).1
        } else {
            self.next_tag()
        }
    }

    /// What `register_type(name)` does: `old` before, `new` after, `r` returned.
    pub open spec fn register_type_spec(old: Self, new: Self, name: Seq<char>, r: TagTypeId) -> bool {
        let ix = old.ensured_type_index();
        let next = old.ensured_next_type();
        &&& match type_id_by_name(ix, name) {
            Some(id) => {
                &&& r == id
                &&& new.types_view() == old.types_view()
                &&& new.type_index() == ix
                &&& new.next_type() == next
            },
            None => {
                &&& r.spec_raw() == max_u32(next, 1)
                &&& new.types_view().len() == old.types_view().len() + 1
                &&& new.types_view().drop_last() == old.types_view()
                &&& new.types_view().last().id == r
                &&& new.types_view().last().name@ == name
                &&& new.type_index() == ix.push(new.types_view().last())
                &&& new.next_type() == sat_inc(max_u32(next, 1))
            },
        }
        &&& new.tags_view() == old.tags_view()
        &&& new.tag_index() == old.ensured_tag_index()
        &&& new.next_tag() == old.ensured_next_tag()
        &&& !new.index_empty()
    }

    /// What `register_tag(type_id, name)` does: `old` before, `new` after, `r` returned.
    pub open spec fn register_tag_spec(old: Self, new: Self, type_id: TagTypeId, name: Seq<char>, r: TagId) -> bool {
        let ix = old.ensured_tag_index();
        let next = old.ensured_next_tag();
        &&& match tag_id_by_key(ix, type_id.spec_raw(), name) {
            Some(id) => {
                &&& r == id
                &&& new.tags_view() == old.tags_view()
                &&& new.tag_index() == ix
                &&& new.next_tag() == next
            },
            None => {
                &&& r.spec_raw() == max_u32(next, 1)
                &&& new.tags_view().len() == old.tags_view().len() + 1
                &&& new.tags_view().drop_last() == old.tags_view()
                &&& new.tags_view().last().id == r
                &&& new.tags_view().last().type_id == type_id
                &&& new.tags_view().last().name@ == name
                &&& new.tag_index() == ix.push(new.tags_view().last())
                &&& new.next_tag() == sat_inc(max_u32(next, 1))
            },
        }
        &&& new.types_view() == old.types_view()
        &&& new.type_index() == old.ensured_type_index()
        &&& new.next_type() == old.ensured_next_type()
        &&& !new.index_empty()
    }

    /// Register (or get existing) tag type by name.
    ///
    /// After the lazy index build, an indexed type with this name is returned unchanged;
    /// otherwise a new type gets the next raw id, is appended and indexed.
    pub fn register_type(&mut self, name: &str) -> (r: TagTypeId)
        ensures
            Self::register_type_spec(*old(self), *final(self), name@, r),
    {
        let name: String = name.to_owned();
        self.ensure_indexes();
        if let Some(id) = self.lookup_type(&name) {
            proof {
                lemma_found_type_nonempty(self.indexed_types@, name@);
            }
            return id;
        }
        let raw = if self.next_type_raw < 1 { 1 } else { self.next_type_raw };
        self.next_type_raw = saturating_inc(raw);
        let id = TagTypeId::from_raw(raw);
        let def = TagTypeDef { id, name: name.clone() };
        self.types.push(def.copied());
        self.indexed_types.push(def);
        proof {
            assert(self.types@.drop_last() =~= old(self).types@);
        }
        id
    }

    /// Register (or get existing) tag value of type `type_id`.
    ///
    /// After the lazy index build, an indexed tag with this type and name is returned
    /// unchanged; otherwise a new tag gets the next raw id, is appended and indexed.
    pub fn register_tag(&mut self, type_id: TagTypeId, name: &str) -> (r: TagId)
        ensures
            Self::register_tag_spec(*old(self), *final(self), type_id, name@, r),
    {
        let name: String = name.to_owned();
        self.ensure_indexes();
        let type_raw = type_id.raw();
        if let Some(id) = self.lookup_tag(type_raw, &name) {
            proof {
                lemma_found_tag_nonempty(self.indexed_tags@, type_raw, name@);
            }
            return id;
        }
        let raw = if self.next_tag_raw < 1 { 1 } else { self.next_tag_raw };
        self.next_tag_raw = saturating_inc(raw);
        let id = TagId::from_raw(raw);
        let def = TagDef { id, type_id, name: name.clone() };
        self.tags.push(def.copied());
        self.indexed_tags.push(def);
        proof {
            assert(self.tags@.drop_last() =~= old(self).tags@);
        }
        id
    }

    /// Name of the type with id `id`, as the lookup index holds it.
    pub fn get_type_name(&mut self, id: TagTypeId) -> (r: Option<String>)
        ensures
            final(self).ensured_from(*old(self)),
            final(self).types_view() == old(self).types_view(),
            final(self).tags_view() == old(self).tags_view(),
            final(self).type_index() == old(self).ensured_type_index(),
            final(self).tag_index() == old(self).ensured_tag_index(),
            final(self).next_type() == old(self).ensured_next_type(),
            final(self).next_tag() == old(self).ensured_next_tag(),
            r is Some <==> type_name_by_raw(old(self).ensured_type_index(), id.spec_raw()) is Some,
            r matches Some(s) ==> Some(s@) == type_name_by_raw(old(self).ensured_type_index(), id.spec_raw()),
    {
        self.ensure_indexes();
        self.lookup_type_name(id.raw())
    }

    fn lookup_type_name(&self, raw: u32) -> (r: Option<String>)
        ensures
            r is Some <==> type_name_by_raw(self.type_index(), raw) is Some,
            r matches Some(s) ==> Some(s@) == type_name_by_raw(self.type_index(), raw),
    {
        let mut i = self.indexed_types.len();
        proof {
            assert(self.indexed_types@.take(i as int) == self.indexed_types@);
        }
        while i > 0
            invariant
                i <= self.indexed_types@.len(),
                type_name_by_raw(self.indexed_types@, raw)
                    == type_name_by_raw(self.indexed_types@.take(i as int), raw),
            decreases i,
        {
            proof {
                assert(self.indexed_types@.take(i as int).drop_last()
                    == self.indexed_types@.take(i - 1));
            }
            if self.indexed_types[i - 1].id.raw() == raw {
                return Some(self.indexed_types[i - 1].name.clone());
            }
            i -= 1;
        }
        None
    }

    /// Definition of the tag with id `id`, as the lookup index holds it.
    pub fn get_tag(&mut self, id: TagId) -> (r: Option<TagDef>)
        ensures
            final(self).ensured_from(*old(self)),
            final(self).types_view() == old(self).types_view(),
            final(self).tags_view() == old(self).tags_view(),
            final(self).type_index() == old(self).ensured_type_index(),
            final(self).tag_index() == old(self).ensured_tag_index(),
            final(self).next_type() == old(self).ensured_next_type(),
            final(self).next_tag() == old(self).ensured_next_tag(),
            r == tag_def_by_raw(old(self).ensured_tag_index(), id.spec_raw()),
    {
        self.ensure_indexes();
        self.lookup_tag_def(id.raw())
    }

    fn lookup_tag_def(&self, raw: u32) -> (r: Option<TagDef>)
        ensures
            r == tag_def_by_raw(self.tag_index(), raw),
    {
        let mut i = self.indexed_tags.len();
        proof {
            assert(self.indexed_tags@.take(i as int) == self.indexed_tags@);
        }
        while i > 0
            invariant
                i <= self.indexed_tags@.len(),
                tag_def_by_raw(self.indexed_tags@, raw)
                    == tag_def_by_raw(self.indexed_tags@.take(i as int), raw),
            decreases i,
        {
            proof {
                assert(self.indexed_tags@.take(i as int).drop_last()
                    == self.indexed_tags@.take(i - 1));
            }
            if self.indexed_tags[i - 1].id.raw() == raw {
                return Some(self.indexed_tags[i - 1].copied());
            }
            i -= 1;
        }
        None
    }
}

proof fn lemma_found_type_nonempty(s: Seq<TagTypeDef>, name: Seq<char>)
    requires
        type_id_by_name(s, name) is Some,
    ensures
        s.len() > 0,
{
}

proof fn lemma_found_tag_nonempty(s: Seq<TagDef>, type_raw: u32, name: Seq<char>)
    requires
        tag_id_by_key(s, type_raw, name) is Some,
    ensures
        s.len() > 0,
{
}

/// Every type in `s` has a raw id below `next`.
pub open spec fn type_ids_below(s: Seq<TagTypeDef>, next: u32) -> bool {
    forall|k: int| 0 <= k < s.len() ==> #[trigger] s[k].id.spec_raw() < next
}

/// Every tag in `s` has a raw id below `next`.
pub open spec fn tag_ids_below(s: Seq<TagDef>, next: u32) -> bool {
    forall|k: int| 0 <= k < s.len() ==> #[trigger] s[k].id.spec_raw() < next
}

/// Registering the same type name twice returns the same id, and the second call
/// changes neither the types nor the index.
pub proof fn law_register_type_idempotent(
    a: TagRegistry,
    b: TagRegistry,
    c: TagRegistry,
    name: Seq<char>,
    r1: TagTypeId,
    r2: TagTypeId,
)
    requires
        TagRegistry::register_type_spec(a, b, name, r1),
        TagRegistry::register_type_spec(b, c, name, r2),
    ensures
        r1 == r2,
        c.types_view() == b.types_view(),
        c.type_index() == b.type_index(),
{
    let ix = a.ensured_type_index();
    if type_id_by_name(ix, name) is None {
        assert(b.type_index().drop_last() =~= ix);
    }
}

/// Registering the same tag (type and name) twice returns the same id, and the second
/// call changes neither the tags nor the index.
pub proof fn law_register_tag_idempotent(
    a: TagRegistry,
    b: TagRegistry,
    c: TagRegistry,
    type_id: TagTypeId,
    name: Seq<char>,
    r1: TagId,
    r2: TagId,
)
    requires
        TagRegistry::register_tag_spec(a, b, type_id, name, r1),
        TagRegistry::register_tag_spec(b, c, type_id, name, r2),
    ensures
        r1 == r2,
        c.tags_view() == b.tags_view(),
        c.tag_index() == b.tag_index(),
{
    let ix = a.ensured_tag_index();
    if tag_id_by_key(ix, type_id.spec_raw(), name) is None {
        assert(b.tag_index().drop_last() =~= ix);
    }
}

/// A type name that is not indexed yet gets an id that differs from every indexed id,
/// as long as every indexed id lies below the next raw and the next raw is not exhausted;
/// afterwards every indexed id again lies below the next raw.
pub proof fn law_register_type_fresh(a: TagRegistry, b: TagRegistry, name: Seq<char>, r: TagTypeId)
    requires
        TagRegistry::register_type_spec(a, b, name, r),
        type_id_by_name(a.ensured_type_index(), name) is None,
        type_ids_below(a.ensured_type_index(), max_u32(a.ensured_next_type(), 1)),
        a.ensured_next_type() < u32::MAX,
    ensures
        forall|k: int| 0 <= k < a.ensured_type_index().len() ==> #[trigger] a.ensured_type_index()[k].id != r,
        type_ids_below(b.type_index(), b.next_type()),
{
    let ix = a.ensured_type_index();
    assert forall|k: int| 0 <= k < ix.len() implies #[trigger] ix[k].id != r by {
        TagTypeId::lemma_raw_injective(ix[k].id, r);
    }
    assert forall|k: int| 0 <= k < b.type_index().len() implies #[trigger] b.type_index()[k].id.spec_raw() < b.next_type() by {
        if k < ix.len() {
            assert(b.type_index()[k] == ix[k]);
        }
    }
}

/// A tag that is not indexed yet gets an id that differs from every indexed id, as long
/// as every indexed id lies below the next raw and the next raw is not exhausted;
/// afterwards every indexed id again lies below the next raw.
pub proof fn law_register_tag_fresh(a: TagRegistry, b: TagRegistry, type_id: TagTypeId, name: Seq<char>, r: TagId)
    requires
        TagRegistry::register_tag_spec(a, b, type_id, name, r),
        tag_id_by_key(a.ensured_tag_index(), type_id.spec_raw(), name) is None,
        tag_ids_below(a.ensured_tag_index(), max_u32(a.ensured_next_tag(), 1)),
        a.ensured_next_tag() < u32::MAX,
    ensures
        forall|k: int| 0 <= k < a.ensured_tag_index().len() ==> #[trigger] a.ensured_tag_index()[k].id != r,
        tag_ids_below(b.tag_index(), b.next_tag()),
{
    let ix = a.ensured_tag_index();
    assert forall|k: int| 0 <= k < ix.len() implies #[trigger] ix[k].id != r by {
        TagId::lemma_raw_injective(ix[k].id, r);
    }
    assert forall|k: int| 0 <= k < b.tag_index().len() implies #[trigger] b.tag_index()[k].id.spec_raw() < b.next_tag() by {
        if k < ix.len() {
            assert(b.tag_index()[k] == ix[k]);
        }
    }
}

/// After a type name is registered, looking its id up gives the name back.
pub proof fn law_registered_type_name(a: TagRegistry, b: TagRegistry, name: Seq<char>, r: TagTypeId)
    requires
        TagRegistry::register_type_spec(a, b, name, r),
        type_id_by_name(a.ensured_type_index(), name) is None,
    ensures
        !b.index_empty(),
        type_name_by_raw(b.type_index(), r.spec_raw()) == Some(name),
        type_name_by_raw(b.ensured_type_index(), r.spec_raw()) == Some(name),
{
    assert(b.type_index().drop_last() =~= a.ensured_type_index());
}

/// After a tag is registered, looking its id up gives its definition (name and type) back.
pub proof fn law_registered_tag_def(a: TagRegistry, b: TagRegistry, type_id: TagTypeId, name: Seq<char>, r: TagId)
    requires
        TagRegistry::register_tag_spec(a, b, type_id, name, r),
        tag_id_by_key(a.ensured_tag_index(), type_id.spec_raw(), name) is None,
    ensures
        !b.index_empty(),
        tag_def_by_raw(b.tag_index(), r.spec_raw()) matches Some(d) && d.id == r && d.type_id == type_id && d.name@ == name,
        tag_def_by_raw(b.ensured_tag_index(), r.spec_raw()) matches Some(d) && d.id == r && d.type_id == type_id && d.name@ == name,
{
    assert(b.tag_index().drop_last() =~= a.ensured_tag_index());
}

/// The registry holds type `r` named `n`.
pub open spec fn has_type(reg: TagRegistry, r: TagTypeId, n: Seq<char>) -> bool {
    exists|k: int| 0 <= k < reg.types_view().len() && (#[trigger] reg.types_view()[k]).id == r
        && reg.types_view()[k].name@ == n
}

/// The registry holds tag `r` of type `ty` named `n`.
pub open spec fn has_tag(reg: TagRegistry, r: TagId, ty: TagTypeId, n: Seq<char>) -> bool {
    exists|k: int| 0 <= k < reg.tags_view().len() && (#[trigger] reg.tags_view()[k]).id == r
        && reg.tags_view()[k].type_id == ty && reg.tags_view()[k].name@ == n
}

/// No two types share a raw id.
pub open spec fn type_ids_distinct(s: Seq<TagTypeDef>) -> bool {
    forall|i: int, j: int| 0 <= i < j < s.len() ==> (#[trigger] s[i]).id.spec_raw() != (#[trigger] s[j]).id.spec_raw()
}

/// No two tags share a raw id.
pub open spec fn tag_ids_distinct(s: Seq<TagDef>) -> bool {
    forall|i: int, j: int| 0 <= i < j < s.len() ==> (#[trigger] s[i]).id.spec_raw() != (#[trigger] s[j]).id.spec_raw()
}

/// A registry whose ids are distinct and below the ids it hands out next, and whose
/// lookup index, once built, holds exactly its definitions.
pub open spec fn registry_well_formed(reg: TagRegistry) -> bool {
    &&& !reg.index_empty() ==> reg.type_index() == reg.types_view() && reg.tag_index() == reg.tags_view()
    &&& type_ids_distinct(reg.types_view())
    &&& tag_ids_distinct(reg.tags_view())
    &&& type_ids_below(reg.types_view(), reg.ensured_next_type())
    &&& tag_ids_below(reg.tags_view(), reg.ensured_next_tag())
}

proof fn lemma_type_name_by_raw(s: Seq<TagTypeDef>, raw: u32)
    requires
        type_ids_distinct(s),
    ensures
        forall|k: int| 0 <= k < s.len() && (#[trigger] s[k]).id.spec_raw() == raw ==> type_name_by_raw(s, raw) == Some(s[k].name@),
        (forall|k: int| 0 <= k < s.len() ==> (#[trigger] s[k]).id.spec_raw() != raw) ==> type_name_by_raw(s, raw) is None,
    decreases s.len(),
{
    if s.len() > 0 {
        let t = s.drop_last();
        assert(type_ids_distinct(t)) by {
            assert forall|i: int, j: int| 0 <= i < j < t.len() implies (#[trigger] t[i]).id.spec_raw() != (#[trigger] t[j]).id.spec_raw() by {
                assert(t[i] == s[i] && t[j] == s[j]);
            }
        }
        lemma_type_name_by_raw(t, raw);
        assert forall|k: int| 0 <= k < s.len() && (#[trigger] s[k]).id.spec_raw() == raw implies type_name_by_raw(s, raw) == Some(s[k].name@) by {
            if k < s.len() - 1 {
                assert(s[k] == t[k]);
                assert(s.last().id.spec_raw() != raw);
            }
        }
        if forall|k: int| 0 <= k < s.len() ==> (#[trigger] s[k]).id.spec_raw() != raw {
            assert(s.last().id.spec_raw() != raw);
            assert forall|k: int| 0 <= k < t.len() implies (#[trigger] t[k]).id.spec_raw() != raw by {
                assert(t[k] == s[k]);
            }
        }
    }
}

proof fn lemma_tag_def_by_raw(s: Seq<TagDef>, raw: u32)
    requires
        tag_ids_distinct(s),
    ensures
        forall|k: int| 0 <= k < s.len() && (#[trigger] s[k]).id.spec_raw() == raw ==> tag_def_by_raw(s, raw) == Some(s[k]),
        (forall|k: int| 0 <= k < s.len() ==> (#[trigger] s[k]).id.spec_raw() != raw) ==> tag_def_by_raw(s, raw) is None,
    decreases s.len(),
{
    if s.len() > 0 {
        let t = s.drop_last();
        assert(tag_ids_distinct(t)) by {
            assert forall|i: int, j: int| 0 <= i < j < t.len() implies (#[trigger] t[i]).id.spec_raw() != (#[trigger] t[j]).id.spec_raw() by {
                assert(t[i] == s[i] && t[j] == s[j]);
            }
        }
        lemma_tag_def_by_raw(t, raw);
        assert forall|k: int| 0 <= k < s.len() && (#[trigger] s[k]).id.spec_raw() == raw implies tag_def_by_raw(s, raw) == Some(s[k]) by {
            if k < s.len() - 1 {
                assert(s[k] == t[k]);
                assert(s.last().id.spec_raw() != raw);
            }
        }
        if forall|k: int| 0 <= k < s.len() ==> (#[trigger] s[k]).id.spec_raw() != raw {
            assert(s.last().id.spec_raw() != raw);
            assert forall|k: int| 0 <= k < t.len() implies (#[trigger] t[k]).id.spec_raw() != raw by {
                assert(t[k] == s[k]);
            }
        }
    }
}

proof fn lemma_type_id_by_name_found(s: Seq<TagTypeDef>, name: Seq<char>)
    requires
        type_id_by_name(s, name) is Some,
    ensures
        exists|k: int| 0 <= k < s.len() && (#[trigger] s[k]).id == type_id_by_name(s, name)->0 && s[k].name@ == name,
    decreases s.len(),
{
    if s.last().name@ == name {
        assert(s[s.len() - 1] == s.last());
    } else {
        let t = s.drop_last();
        lemma_type_id_by_name_found(t, name);
        let k = choose|k: int| 0 <= k < t.len() && (#[trigger] t[k]).id == type_id_by_name(t, name)->0 && t[k].name@ == name;
        assert(s[k] == t[k]);
    }
}

proof fn lemma_tag_id_by_key_found(s: Seq<TagDef>, type_raw: u32, name: Seq<char>)
    requires
        tag_id_by_key(s, type_raw, name) is Some,
    ensures
        exists|k: int| 0 <= k < s.len() && (#[trigger] s[k]).id == tag_id_by_key(s, type_raw, name)->0
            && s[k].type_id.spec_raw() == type_raw && s[k].name@ == name,
    decreases s.len(),
{
    if s.last().type_id.spec_raw() == type_raw && s.last().name@ == name {
        assert(s[s.len() - 1] == s.last());
    } else {
        let t = s.drop_last();
        lemma_tag_id_by_key_found(t, type_raw, name);
        let k = choose|k: int| 0 <= k < t.len() && (#[trigger] t[k]).id == tag_id_by_key(t, type_raw, name)->0
            && t[k].type_id.spec_raw() == type_raw && t[k].name@ == name;
        assert(s[k] == t[k]);
    }
}

/// On a well-formed registry, the lookup of a held type's id gives its name back, and
/// the lookup of an id no type has gives nothing.
pub proof fn law_type_lookup(reg: TagRegistry, id: TagTypeId)
    requires
        registry_well_formed(reg),
    ensures
        forall|n: Seq<char>| has_type(reg, id, n) ==> type_name_by_raw(reg.ensured_type_index(), id.spec_raw()) == Some(n),
        (forall|k: int| 0 <= k < reg.types_view().len() ==> (#[trigger] reg.types_view()[k]).id != id)
            ==> type_name_by_raw(reg.ensured_type_index(), id.spec_raw()) is None,
{
    let s = reg.types_view();
    assert(reg.ensured_type_index() == s);
    lemma_type_name_by_raw(s, id.spec_raw());
    assert forall|n: Seq<char>| has_type(reg, id, n) implies type_name_by_raw(s, id.spec_raw()) == Some(n) by {
        let k = choose|k: int| 0 <= k < s.len() && (#[trigger] s[k]).id == id && s[k].name@ == n;
    }
    if forall|k: int| 0 <= k < s.len() ==> (#[trigger] s[k]).id != id {
        assert forall|k: int| 0 <= k < s.len() implies (#[trigger] s[k]).id.spec_raw() != id.spec_raw() by {
            TagTypeId::lemma_raw_injective(s[k].id, id);
        }
    }
}

/// On a well-formed registry, the lookup of a held tag's id gives its definition back,
/// and the lookup of an id no tag has gives nothing.
pub proof fn law_tag_lookup(reg: TagRegistry, id: TagId)
    requires
        registry_well_formed(reg),
    ensures
        forall|ty: TagTypeId, n: Seq<char>| has_tag(reg, id, ty, n) ==> (tag_def_by_raw(reg.ensured_tag_index(), id.spec_raw())
            matches Some(d) && d.id == id && d.type_id == ty && d.name@ == n),
        (forall|k: int| 0 <= k < reg.tags_view().len() ==> (#[trigger] reg.tags_view()[k]).id != id)
            ==> tag_def_by_raw(reg.ensured_tag_index(), id.spec_raw()) is None,
{
    let s = reg.tags_view();
    assert(reg.ensured_tag_index() == s);
    lemma_tag_def_by_raw(s, id.spec_raw());
    assert forall|ty: TagTypeId, n: Seq<char>| has_tag(reg, id, ty, n) implies (tag_def_by_raw(s, id.spec_raw())
        matches Some(d) && d.id == id && d.type_id == ty && d.name@ == n) by {
        let k = choose|k: int| 0 <= k < s.len() && (#[trigger] s[k]).id == id && s[k].type_id == ty && s[k].name@ == n;
    }
    if forall|k: int| 0 <= k < s.len() ==> (#[trigger] s[k]).id != id {
        assert forall|k: int| 0 <= k < s.len() implies (#[trigger] s[k]).id.spec_raw() != id.spec_raw() by {
            TagId::lemma_raw_injective(s[k].id, id);
        }
    }
}

/// A lookup (which first builds an empty index) keeps a registry well-formed and
/// changes neither its types nor its tags.
pub proof fn law_lookup_keeps_well_formed(a: TagRegistry, b: TagRegistry)
    requires
        registry_well_formed(a),
        b.ensured_from(a),
    ensures
        registry_well_formed(b),
        b.types_view() == a.types_view(),
        b.tags_view() == a.tags_view(),
        b.ensured_type_index() == a.ensured_type_index(),
        b.ensured_tag_index() == a.ensured_tag_index(),
{
}

/// Registering a type keeps a well-formed registry well-formed (while the next type
/// id is below `u32::MAX`): the registry then holds the type under the returned id,
/// still holds every type and tag it held, and its tags are unchanged.
pub proof fn law_register_type_keeps_well_formed(a: TagRegistry, b: TagRegistry, name: Seq<char>, r: TagTypeId)
    requires
        registry_well_formed(a),
        a.ensured_next_type() < u32::MAX,
        TagRegistry::register_type_spec(a, b, name, r),
    ensures
        registry_well_formed(b),
        has_type(b, r, name),
        forall|r2: TagTypeId, n2: Seq<char>| has_type(a, r2, n2) ==> has_type(b, r2, n2),
        b.tags_view() == a.tags_view(),
{
    let ix = a.ensured_type_index();
    assert(ix == a.types_view());
    assert(b.tag_index() == b.tags_view());
    assert(tag_ids_below(b.tags_view(), b.ensured_next_tag()));
    match type_id_by_name(ix, name) {
        Some(id) => {
            lemma_type_id_by_name_found(ix, name);
        },
        None => {
            let s = b.types_view();
            let n = s.len() - 1;
            assert(s[n] == s.last());
            assert(s =~= a.types_view().push(s.last()));
            assert(b.type_index() == b.types_view());
            assert forall|r2: TagTypeId, n2: Seq<char>| has_type(a, r2, n2) implies has_type(b, r2, n2) by {
                let k = choose|k: int| 0 <= k < a.types_view().len() && (#[trigger] a.types_view()[k]).id == r2
                    && a.types_view()[k].name@ == n2;
                assert(s[k] == s.drop_last()[k]);
            }
            assert(type_ids_distinct(s)) by {
                assert forall|i: int, j: int| 0 <= i < j < s.len() implies (#[trigger] s[i]).id.spec_raw() != (#[trigger] s[j]).id.spec_raw() by {
                    assert(s[i] == a.types_view()[i]);
                    if j < n {
                        assert(s[j] == a.types_view()[j]);
                    }
                }
            }
            assert forall|k: int| 0 <= k < s.len() implies #[trigger] s[k].id.spec_raw() < b.ensured_next_type() by {
                if k < n {
                    assert(s[k] == a.types_view()[k]);
                }
            }
        },
    }
}

/// Registering a tag keeps a well-formed registry well-formed (while the next tag id is
/// below `u32::MAX`): the registry then holds the tag under the returned id, still
/// holds every type and tag it held, and its types are unchanged.
pub proof fn law_register_tag_keeps_well_formed(a: TagRegistry, b: TagRegistry, type_id: TagTypeId, name: Seq<char>, r: TagId)
    requires
        registry_well_formed(a),
        a.ensured_next_tag() < u32::MAX,
        TagRegistry::register_tag_spec(a, b, type_id, name, r),
    ensures
        registry_well_formed(b),
        has_tag(b, r, type_id, name),
        forall|r2: TagId, t2: TagTypeId, n2: Seq<char>| has_tag(a, r2, t2, n2) ==> has_tag(b, r2, t2, n2),
        b.types_view() == a.types_view(),
{
    let ix = a.ensured_tag_index();
    assert(ix == a.tags_view());
    assert(b.type_index() == b.types_view());
    assert(type_ids_below(b.types_view(), b.ensured_next_type()));
    match tag_id_by_key(ix, type_id.spec_raw(), name) {
        Some(id) => {
            lemma_tag_id_by_key_found(ix, type_id.spec_raw(), name);
            let k = choose|k: int| 0 <= k < ix.len() && (#[trigger] ix[k]).id == id
                && ix[k].type_id.spec_raw() == type_id.spec_raw() && ix[k].name@ == name;
            TagTypeId::lemma_raw_injective(ix[k].type_id, type_id);
        },
        None => {
            let s = b.tags_view();
            let n = s.len() - 1;
            assert(s[n] == s.last());
            assert(s =~= a.tags_view().push(s.last()));
            assert(b.tag_index() == b.tags_view());
            assert forall|r2: TagId, t2: TagTypeId, n2: Seq<char>| has_tag(a, r2, t2, n2) implies has_tag(b, r2, t2, n2) by {
                let k = choose|k: int| 0 <= k < a.tags_view().len() && (#[trigger] a.tags_view()[k]).id == r2
                    && a.tags_view()[k].type_id == t2 && a.tags_view()[k].name@ == n2;
                assert(s[k] == s.drop_last()[k]);
            }
            assert(tag_ids_distinct(s)) by {
                assert forall|i: int, j: int| 0 <= i < j < s.len() implies (#[trigger] s[i]).id.spec_raw() != (#[trigger] s[j]).id.spec_raw() by {
                    assert(s[i] == a.tags_view()[i]);
                    if j < n {
                        assert(s[j] == a.tags_view()[j]);
                    }
                }
            }
            assert forall|k: int| 0 <= k < s.len() implies #[trigger] s[k].id.spec_raw() < b.ensured_next_tag() by {
                if k < n {
                    assert(s[k] == a.tags_view()[k]);
                }
            }
        },
    }
}

/// Map key of a (scope, tag type) pair: the scope's raw id in the high 32 bits, the
/// type's raw id in the low 32 bits.
pub open spec fn scoped_key(scope_raw: u32, type_raw: u32) -> u64 {
    (scope_raw * 0x1_0000_0000 + type_raw) as u64
}

pub(crate) fn make_key(scope_raw: u32, type_raw: u32) -> (r: u64)
    ensures
        r == scoped_key(scope_raw, type_raw),
{
    proof {
        assert(scope_raw * 0x1_0000_0000 + type_raw <= u64::MAX) by (nonlinear_arith)
            requires scope_raw <= u32::MAX, type_raw <= u32::MAX;
    }
    (scope_raw as u64) * 0x1_0000_0000u64 + (type_raw as u64)
}

/// Distinct pairs have distinct keys.
pub proof fn lemma_scoped_key_injective(a1: u32, b1: u32, a2: u32, b2: u32)
    ensures
        (scoped_key(a1, b1) == scoped_key(a2, b2)) == (a1 == a2 && b1 == b2),
{
    assert(a1 * 0x1_0000_0000 + b1 <= u64::MAX) by (nonlinear_arith)
        requires a1 <= u32::MAX, b1 <= u32::MAX;
    assert(a2 * 0x1_0000_0000 + b2 <= u64::MAX) by (nonlinear_arith)
        requires a2 <= u32::MAX, b2 <= u32::MAX;
    if a1 * 0x1_0000_0000 + b1 == a2 * 0x1_0000_0000 + b2 {
        assert(a1 == a2 && b1 == b2) by (nonlinear_arith)
            requires
                a1 * 0x1_0000_0000 + b1 == a2 * 0x1_0000_0000 + b2,
                0 <= b1 < 0x1_0000_0000,
                0 <= b2 < 0x1_0000_0000,
                0 <= a1,
                0 <= a2;
    }
}

/// Tags of scopes: for a scope and a tag type, the tag value it has, if any.
pub struct ScopedTags<Id: ScopeId> {
    /// Tag by `scoped_key` of (scope raw id, tag type raw id).
    pub tags: HashMap<u64, TagId>,
    _marker: PhantomData<Id>,
}

impl<Id: ScopeId> Default for ScopedTags<Id> {
    fn default() -> (r: Self)
        ensures
            r.entries() == Map::<u64, TagId>::empty(),
    {
        ScopedTags { tags: HashMap::new(), _marker: PhantomData }
    }
}

impl<Id: ScopeId> ScopedTags<Id> {
    /// The tags by key.
    pub closed spec fn entries(&self) -> Map<u64, TagId> {
        self.tags@
    }

    /// The tag of type `ty` that scope `id` has.
    pub open spec fn tag_of(&self, id: Id, ty: TagTypeId) -> Option<TagId> {
        let k = scoped_key(id.spec_raw(), ty.spec_raw());
        if self.entries().contains_key(k) { Some(self.entries()[k]) } else { None }
    }

    pub fn get(&self, id: Id, ty: TagTypeId) -> (r: Option<TagId>)
        ensures
            r == self.tag_of(id, ty),
    {
        broadcast use vstd::std_specs::hash::group_hash_axioms;
        let k = make_key(id.raw(), ty.raw());
        match self.tags.get(&k) {
            Some(t) => Some(*t),
            None => None,
        }
    }

    /// Give scope `id` the tag `tag` of type `ty` (replacing the one it had).
    pub fn set(&mut self, id: Id, ty: TagTypeId, tag: TagId)
        ensures
            final(self).entries() == old(self).entries().insert(scoped_key(id.spec_raw(), ty.spec_raw()), tag),
    {
        broadcast use vstd::std_specs::hash::group_hash_axioms;
        let k = make_key(id.raw(), ty.raw());
        self.tags.insert(k, tag);
    }

    /// Take from scope `id` its tag of type `ty`.
    pub fn clear(&mut self, id: Id, ty: TagTypeId)
        ensures
            final(self).entries() == old(self).entries().remove(scoped_key(id.spec_raw(), ty.spec_raw())),
    {
        broadcast use vstd::std_specs::hash::group_hash_axioms;
        let k = make_key(id.raw(), ty.raw());
        self.tags.remove(&k);
    }
}

/// After `set(id, ty, tag)`, scope `id` has `tag` for type `ty`, and every other
/// (scope, type) pair keeps its tag.
pub proof fn law_scoped_tags_set<Id: ScopeId>(a: ScopedTags<Id>, b: ScopedTags<Id>, id: Id, ty: TagTypeId, tag: TagId, id2: Id, ty2: TagTypeId)
    requires
        b.entries() == a.entries().insert(scoped_key(id.spec_raw(), ty.spec_raw()), tag),
    ensures
        b.tag_of(id, ty) == Some(tag),
        !(id2 == id && ty2 == ty) ==> b.tag_of(id2, ty2) == a.tag_of(id2, ty2),
{
    lemma_scoped_key_injective(id.spec_raw(), ty.spec_raw(), id2.spec_raw(), ty2.spec_raw());
    Id::lemma_raw_injective(id, id2);
    TagTypeId::lemma_raw_injective(ty, ty2);
}

/// After `clear(id, ty)`, scope `id` has no tag of type `ty`, and every other
/// (scope, type) pair keeps its tag.
pub proof fn law_scoped_tags_clear<Id: ScopeId>(a: ScopedTags<Id>, b: ScopedTags<Id>, id: Id, ty: TagTypeId, id2: Id, ty2: TagTypeId)
    requires
        b.entries() == a.entries().remove(scoped_key(id.spec_raw(), ty.spec_raw())),
    ensures
        b.tag_of(id, ty) is None,
        !(id2 == id && ty2 == ty) ==> b.tag_of(id2, ty2) == a.tag_of(id2, ty2),
{
    lemma_scoped_key_injective(id.spec_raw(), ty.spec_raw(), id2.spec_raw(), ty2.spec_raw());
    Id::lemma_raw_injective(id, id2);
    TagTypeId::lemma_raw_injective(ty, ty2);
}

/// Tags of provinces.
pub type ProvinceTags = ScopedTags<ProvinceId>;

/// Tags of nations.
pub type NationTags = ScopedTags<NationId>;

} // verus!

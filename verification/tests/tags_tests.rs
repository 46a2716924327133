use teleology_core::tags::{NationTags, ProvinceTags, TagId, TagRegistry, TagTypeId};
use teleology_core::world::{NationId, ProvinceId, ScopeId};

#[test]
fn tag_registry_register_type() {
    let mut reg = TagRegistry::new();
    let religion = reg.register_type("religion");
    let culture = reg.register_type("culture");
    assert_ne!(religion, culture);
    assert_eq!(reg.types.len(), 2);
}

#[test]
fn tag_registry_idempotent_type() {
    let mut reg = TagRegistry::new();
    let id1 = reg.register_type("religion");
    let id2 = reg.register_type("religion");
    assert_eq!(id1, id2);
    assert_eq!(reg.types.len(), 1);
}

#[test]
fn tag_registry_register_tag() {
    let mut reg = TagRegistry::new();
    let religion = reg.register_type("religion");
    let catholic = reg.register_tag(religion, "Catholic");
    let orthodox = reg.register_tag(religion, "Orthodox");
    assert_ne!(catholic, orthodox);
    assert_eq!(reg.tags.len(), 2);
}

#[test]
fn tag_registry_idempotent_tag() {
    let mut reg = TagRegistry::new();
    let religion = reg.register_type("religion");
    let id1 = reg.register_tag(religion, "Catholic");
    let id2 = reg.register_tag(religion, "Catholic");
    assert_eq!(id1, id2);
    assert_eq!(reg.tags.len(), 1);
}

#[test]
fn tag_registry_get_type_name() {
    let mut reg = TagRegistry::new();
    let religion = reg.register_type("religion");
    assert_eq!(reg.get_type_name(religion).as_deref(), Some("religion"));
}

#[test]
fn tag_registry_get_tag() {
    let mut reg = TagRegistry::new();
    let religion = reg.register_type("religion");
    let catholic = reg.register_tag(religion, "Catholic");
    let tag = reg.get_tag(catholic).unwrap();
    assert_eq!(tag.name, "Catholic");
    assert_eq!(tag.type_id, religion);
}

#[test]
fn tag_registry_same_name_under_two_types_differs() {
    let mut reg = TagRegistry::new();
    let religion = reg.register_type("religion");
    let culture = reg.register_type("culture");
    let a = reg.register_tag(religion, "Old");
    let b = reg.register_tag(culture, "Old");
    assert_ne!(a, b);
    assert_eq!(a.raw(), 1);
    assert_eq!(b.raw(), 2);
}

#[test]
fn tag_registry_unknown_ids_give_none() {
    let mut reg = TagRegistry::new();
    assert!(reg.get_type_name(TagTypeId::from_raw(3)).is_none());
    assert!(reg.get_tag(TagId::from_raw(3)).is_none());
}

#[test]
fn scoped_tags_set_get_clear() {
    let mut tags = ProvinceTags::default();
    let pid = ProvinceId::from_raw(1);
    let ty = TagTypeId::from_raw(1);
    let tag = TagId::from_raw(10);
    assert!(tags.get(pid, ty).is_none());
    tags.set(pid, ty, tag);
    assert_eq!(tags.get(pid, ty), Some(tag));
    tags.clear(pid, ty);
    assert!(tags.get(pid, ty).is_none());
}

#[test]
fn scoped_tags_nation() {
    let mut tags = NationTags::default();
    let nid = NationId::from_raw(2);
    let ty = TagTypeId::from_raw(1);
    let tag = TagId::from_raw(5);
    tags.set(nid, ty, tag);
    assert_eq!(tags.get(nid, ty), Some(tag));
}

#[test]
fn scoped_tags_multiple_types() {
    let mut tags = ProvinceTags::default();
    let pid = ProvinceId::from_raw(1);
    let religion = TagTypeId::from_raw(1);
    let culture = TagTypeId::from_raw(2);
    let catholic = TagId::from_raw(10);
    let english = TagId::from_raw(20);
    tags.set(pid, religion, catholic);
    tags.set(pid, culture, english);
    assert_eq!(tags.get(pid, religion), Some(catholic));
    assert_eq!(tags.get(pid, culture), Some(english));
}

#[test]
fn scoped_tags_set_leaves_other_scopes() {
    let mut tags = ProvinceTags::default();
    let ty = TagTypeId::from_raw(1);
    tags.set(ProvinceId::from_raw(1), ty, TagId::from_raw(3));
    tags.set(ProvinceId::from_raw(2), ty, TagId::from_raw(4));
    tags.clear(ProvinceId::from_raw(1), ty);
    assert!(tags.get(ProvinceId::from_raw(1), ty).is_none());
    assert_eq!(tags.get(ProvinceId::from_raw(2), ty), Some(TagId::from_raw(4)));
}

#[test]
fn tag_lookups_survive_later_registrations() {
    let mut reg = TagRegistry::new();
    let religion = reg.register_type("religion");
    let catholic = reg.register_tag(religion, "Catholic");
    let culture = reg.register_type("culture");
    let english = reg.register_tag(culture, "English");
    assert_eq!(reg.register_type("religion"), religion);
    assert_eq!(reg.get_type_name(religion).as_deref(), Some("religion"));
    assert_eq!(reg.get_type_name(culture).as_deref(), Some("culture"));
    assert_eq!(reg.get_type_name(TagTypeId::from_raw(99)), None);
    let c = reg.get_tag(catholic).unwrap();
    assert_eq!((c.id, c.type_id, c.name.as_str()), (catholic, religion, "Catholic"));
    let e = reg.get_tag(english).unwrap();
    assert_eq!((e.id, e.type_id, e.name.as_str()), (english, culture, "English"));
    assert!(reg.get_tag(TagId::from_raw(99)).is_none());
    assert_eq!(reg.types.len(), 2);
    assert_eq!(reg.tags.len(), 2);
}

#[test]
fn registry_from_saved_parts_keeps_ids_and_continues_after_them() {
    let mut reg = TagRegistry::new();
    let religion = reg.register_type("religion");
    let catholic = reg.register_tag(religion, "Catholic");
    let types: Vec<_> = reg.types.iter().map(|t| t.copied()).collect();
    let tags: Vec<_> = reg.tags.iter().map(|t| t.copied()).collect();
    let mut loaded = TagRegistry::from_parts(types, tags, 1, 1);
    assert_eq!(loaded.get_type_name(religion).as_deref(), Some("religion"));
    assert_eq!(loaded.get_tag(catholic).unwrap().name, "Catholic");
    let culture = loaded.register_type("culture");
    assert_ne!(culture, religion);
    assert_eq!(loaded.register_tag(religion, "Catholic"), catholic);
}

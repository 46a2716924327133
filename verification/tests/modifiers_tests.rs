use teleology_core::modifiers::{
    modifier_active, Modifier, ModifierId, ModifierTypeId, ModifierValue, NationModifiers, ProvinceModifiers,
};
use teleology_core::world::{GameDate, NationId, ProvinceId, ScopeId};

fn make_modifier(ty_raw: u32, value: ModifierValue) -> Modifier {
    Modifier { id: ModifierId::from_raw(1), ty: ModifierTypeId::from_raw(ty_raw), value, source_id: 0, expires_on: None }
}

#[test]
fn scoped_modifiers_add_and_list() {
    let mut mods = ProvinceModifiers::new(4);
    let pid = ProvinceId::from_raw(1);
    let m = make_modifier(1, ModifierValue::Additive(5.0f64.to_bits()));
    let mid = mods.add(pid, m);
    assert_eq!(mods.list(pid).len(), 1);
    assert_eq!(mods.list(pid)[0].id, mid);
}

#[test]
fn scoped_modifiers_remove() {
    let mut mods = NationModifiers::new(3);
    let nid = NationId::from_raw(1);
    let m = make_modifier(1, ModifierValue::Additive(10.0f64.to_bits()));
    let mid = mods.add(nid, m);
    assert_eq!(mods.list(nid).len(), 1);
    assert!(mods.remove(nid, mid));
    assert_eq!(mods.list(nid).len(), 0);
}

#[test]
fn scoped_modifiers_remove_nonexistent() {
    let mut mods = ProvinceModifiers::new(2);
    let pid = ProvinceId::from_raw(1);
    let fake_id = ModifierId::from_raw(999);
    assert!(!mods.remove(pid, fake_id));
}

#[test]
fn scoped_modifiers_ids_count_up_and_out_of_range_is_ignored() {
    let mut mods = ProvinceModifiers::new(1);
    let a = mods.add(ProvinceId::from_raw(1), make_modifier(1, ModifierValue::Override(0)));
    let b = mods.add(ProvinceId::from_raw(7), make_modifier(1, ModifierValue::Override(0)));
    assert_eq!(a.raw(), 1);
    assert_eq!(b.raw(), 2);
    assert!(mods.list(ProvinceId::from_raw(7)).is_empty());
    assert_eq!(mods.list(ProvinceId::from_raw(1)).len(), 1);
    assert_eq!(mods.next_id_raw, 3);
}

#[test]
fn modifier_expiry_filter() {
    let mut m = make_modifier(1, ModifierValue::Additive(100.0f64.to_bits()));
    m.expires_on = Some(GameDate::new(1400, 1, 1));
    assert!(!modifier_active(&m, Some(GameDate::new(1500, 1, 1))));
    assert!(modifier_active(&m, None));
    m.expires_on = Some(GameDate::new(1600, 1, 1));
    assert!(modifier_active(&m, Some(GameDate::new(1500, 1, 1))));
    assert!(modifier_active(&m, Some(GameDate::new(1600, 1, 1))));
    m.expires_on = None;
    assert!(modifier_active(&m, Some(GameDate::new(1500, 1, 1))));
}

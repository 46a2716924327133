use teleology_core::event_bus::scope_types;
use teleology_core::events::{
    pull_next_event, queue_event, register_builtin_templates, ActiveEvent, EventChoice, EventDefinition, EventId,
    EventInstance, EventPopupStyle, EventQueue, EventRegistry, EventScope, EventTemplate, KeywordEntry,
    KeywordRegistry, PopupAnchor,
};
use teleology_core::events::match_keywords;
use teleology_core::world::{NationId, ProvinceId, ScopeId};

#[test]
fn event_scope_global() {
    let s = EventScope::global();
    assert!(s.is_global());
    assert_eq!(s.scope_type, scope_types::GLOBAL);
}

#[test]
fn event_scope_nation() {
    let nid = NationId::from_raw(5);
    let s = EventScope::nation(nid);
    assert!(!s.is_global());
    assert_eq!(s.scope_type, scope_types::NATION);
    assert_eq!(s.raw, 5);
}

#[test]
fn event_scope_province() {
    let pid = ProvinceId::from_raw(3);
    let s = EventScope::province(pid);
    assert_eq!(s.scope_type, scope_types::PROVINCE);
    assert_eq!(s.raw, 3);
}

#[test]
fn event_scope_character() {
    let raw: u64 = 0x1_0000_0002;
    let s = EventScope::character_raw(raw);
    assert_eq!(s.scope_type, scope_types::CHARACTER);
    assert_eq!(s.raw, 2);
    assert_eq!(s.raw_hi, 1);
}

#[test]
fn event_scope_army() {
    let s = EventScope::army_raw(42);
    assert_eq!(s.scope_type, scope_types::ARMY);
    assert_eq!(s.raw, 42);
}

#[test]
fn event_scope_custom() {
    let s = EventScope::custom(1001, 7);
    assert_eq!(s.scope_type, 1001);
    assert_eq!(s.raw, 7);
    assert!(!s.is_global());
}

#[test]
fn event_scope_variant_constructors() {
    assert_eq!(EventScope::Global(), EventScope::global());
    assert_eq!(EventScope::Nation(NationId::from_raw(2)), EventScope::nation(NationId::from_raw(2)));
    assert_eq!(EventScope::Province(ProvinceId::from_raw(2)).scope_type, scope_types::PROVINCE);
    assert_eq!(EventScope::CharacterRaw(7).raw, 7);
    assert_eq!(EventScope::ArmyRaw(3).scope_type, scope_types::ARMY);
}

fn test_def() -> EventDefinition {
    EventDefinition {
        id: EventId::from_raw(1),
        title: "Test".into(),
        body: "Body".into(),
        choices: vec![EventChoice { text: "OK".into(), next_event: None, effects_payload: Vec::new() }],
        image: String::new(),
        image_w_bits: 0,
        image_h_bits: 0,
    }
}

#[test]
fn event_registry_insert_and_get() {
    let mut reg = EventRegistry::new();
    let id = reg.insert(test_def());
    let got = reg.get(id).unwrap();
    assert_eq!(got.title, "Test");
    assert_eq!(got.choices.len(), 1);
}

#[test]
fn event_registry_unique_ids() {
    let mut reg = EventRegistry::new();
    let tmpl = EventTemplate::Notification;
    let id1 = reg.insert(tmpl.create());
    let id2 = reg.insert(tmpl.create());
    assert_ne!(id1.raw(), id2.raw());
}

#[test]
fn event_registry_insert_writes_the_new_id() {
    let mut reg = EventRegistry::new();
    reg.next_id_raw = 0;
    let id = reg.insert(test_def());
    assert_eq!(id.raw(), 1);
    assert_eq!(reg.next_id_raw, 2);
    assert_eq!(reg.get(id).unwrap().id, id);
}

#[test]
fn event_registry_remove_clears_links() {
    let mut reg = EventRegistry::new();
    let target = reg.insert(test_def());
    let mut linking = test_def();
    linking.choices[0].next_event = Some(target);
    let other = reg.insert(linking);
    reg.remove(target);
    assert!(reg.get(target).is_none());
    assert!(reg.get(other).unwrap().choices[0].next_event.is_none());
}

#[test]
fn event_registry_duplicate_copies() {
    let mut reg = EventRegistry::new();
    let id = reg.insert(test_def());
    let copy = reg.duplicate(id).unwrap();
    assert_ne!(copy, id);
    assert_eq!(reg.get(copy).unwrap().title, "Test");
    assert_eq!(reg.get(copy).unwrap().id, copy);
    assert!(reg.duplicate(EventId::from_raw(99)).is_none());
}

#[test]
fn event_queue_push_pop() {
    let mut q = EventQueue::default();
    assert!(q.pop().is_none());
    let inst = EventInstance { event_id: EventId::from_raw(1), scope: EventScope::global(), payload: vec![1, 2, 3] };
    q.push(inst);
    let popped = q.pop().unwrap();
    assert_eq!(popped.event_id.raw(), 1);
    assert!(q.pop().is_none());
}

#[test]
fn event_queue_fifo_order() {
    let mut q = EventQueue::default();
    for i in 1..=3 {
        q.push(EventInstance { event_id: EventId::from_raw(i), scope: EventScope::global(), payload: Vec::new() });
    }
    assert_eq!(q.pop().unwrap().event_id.raw(), 1);
    assert_eq!(q.pop().unwrap().event_id.raw(), 2);
    assert_eq!(q.pop().unwrap().event_id.raw(), 3);
}

#[test]
fn queue_event_helper() {
    let mut q = EventQueue::default();
    queue_event(&mut q, EventId::from_raw(1), EventScope::global(), vec![42]);
    let inst = q.pop().unwrap();
    assert_eq!(inst.payload, vec![42]);
}

#[test]
fn pull_next_event_into_active() {
    let mut q = EventQueue::default();
    let mut active = ActiveEvent::default();
    queue_event(&mut q, EventId::from_raw(1), EventScope::global(), Vec::new());
    pull_next_event(&mut q, &mut active);
    assert!(active.current.is_some());
    assert_eq!(active.current.as_ref().unwrap().event_id.raw(), 1);
}

#[test]
fn pull_next_event_keeps_queue_while_showing() {
    let mut q = EventQueue::default();
    let mut active = ActiveEvent::default();
    queue_event(&mut q, EventId::from_raw(1), EventScope::global(), Vec::new());
    queue_event(&mut q, EventId::from_raw(2), EventScope::global(), Vec::new());
    pull_next_event(&mut q, &mut active);
    pull_next_event(&mut q, &mut active);
    assert_eq!(active.current.as_ref().unwrap().event_id.raw(), 1);
    assert_eq!(q.pending.len(), 1);
    assert_eq!(q.pending[0].event_id.raw(), 2);
}

#[test]
fn register_builtin_templates_returns_five_ids() {
    let mut reg = EventRegistry::new();
    let ids = register_builtin_templates(&mut reg);
    assert_eq!(ids.len(), 5);
    for i in 0..5 {
        assert!(reg.get(ids[i]).is_some());
    }
    assert_eq!(reg.get(ids[4]).unwrap().title, "Diplomatic Proposal");
}

#[test]
fn event_template_notification() {
    let def = EventTemplate::Notification.create();
    assert_eq!(def.choices.len(), 1);
    assert_eq!(def.title, "Notification");
}

#[test]
fn event_template_binary_choice() {
    let def = EventTemplate::BinaryChoice.create();
    assert_eq!(def.choices.len(), 2);
}

#[test]
fn event_template_diplomatic_proposal() {
    let def = EventTemplate::DiplomaticProposal.create();
    assert_eq!(def.choices.len(), 3);
}

#[test]
fn event_template_texts() {
    let def = EventTemplate::ThreeWayChoice.create();
    assert_eq!(def.body, "Three options present themselves.");
    assert_eq!(def.choices[2].text, "Option C");
    let def = EventTemplate::Narrative.create();
    assert_eq!(def.choices[0].text, "Continue");
    assert_eq!(def.id.raw(), 1);
}

#[test]
fn keyword_registry_remove() {
    let mut reg = KeywordRegistry::default();
    let idx = reg.add(KeywordEntry {
        keyword: "test".into(),
        title: "Test".into(),
        description: "".into(),
        icon: String::new(),
        color: [0; 4],
    });
    assert!(reg.remove(idx));
    assert!(reg.entries.is_empty());
    assert!(!reg.remove(0));
}

#[test]
fn keyword_registry_clear() {
    let mut reg = KeywordRegistry::default();
    reg.add(KeywordEntry { keyword: "a".into(), title: "A".into(), description: "".into(), icon: String::new(), color: [0; 4] });
    reg.add(KeywordEntry { keyword: "b".into(), title: "B".into(), description: "".into(), icon: String::new(), color: [0; 4] });
    reg.clear();
    assert!(reg.entries.is_empty());
}

#[test]
fn popup_style_default() {
    let style = EventPopupStyle::default();
    assert_eq!(style.anchor, PopupAnchor::Center);
    assert!(style.modal);
    assert_eq!(style.bg_color, [30, 30, 40, 230]);
}

fn keyword(kw: &str) -> KeywordEntry {
    KeywordEntry {
        keyword: kw.into(),
        title: kw.into(),
        description: String::new(),
        icon: String::new(),
        color: [0; 4],
    }
}

#[test]
fn keyword_registry_add_and_find() {
    let mut reg = KeywordRegistry::default();
    reg.add(KeywordEntry {
        keyword: "Prestige".into(),
        title: "Prestige".into(),
        description: "Fame".into(),
        icon: String::new(),
        color: [0; 4],
    });
    let matches = reg.find_matches("Your Prestige has increased!");
    assert_eq!(matches.len(), 1);
    assert_eq!(matches[0].2, 0);
}

#[test]
fn keyword_registry_case_insensitive() {
    let mut reg = KeywordRegistry::default();
    reg.add(KeywordEntry {
        keyword: "gold".into(),
        title: "Gold".into(),
        description: "Currency".into(),
        icon: String::new(),
        color: [0; 4],
    });
    let matches = reg.find_matches("You gained GOLD and Gold!");
    assert_eq!(matches.len(), 2);
}

#[test]
fn keyword_matches_positions_case_folded() {
    let mut reg = KeywordRegistry::default();
    reg.add(keyword("GOLD"));
    let matches = reg.find_matches("You gained GOLD and Gold!");
    assert_eq!(matches, vec![(11, 15, 0), (20, 24, 0)]);
}

#[test]
fn keyword_matches_prefer_longer_and_drop_overlaps() {
    let mut reg = KeywordRegistry::default();
    reg.add(keyword("gold"));
    reg.add(keyword("golden"));
    reg.add(keyword("den"));
    let matches = reg.find_matches("Golden gold");
    assert_eq!(matches, vec![(0, 6, 1), (7, 11, 0)]);
}

#[test]
fn keyword_matches_same_span_keeps_first_entry() {
    let mut reg = KeywordRegistry::default();
    reg.add(keyword("tax"));
    reg.add(keyword("TAX"));
    let matches = reg.find_matches("tax");
    assert_eq!(matches, vec![(0, 3, 0)]);
}

#[test]
fn keyword_matches_empty_keyword_ignored() {
    let mut reg = KeywordRegistry::default();
    reg.add(keyword(""));
    reg.add(keyword("a"));
    assert_eq!(reg.find_matches("aa"), vec![(0, 1, 1), (1, 2, 1)]);
}

#[test]
fn match_keywords_non_overlapping_scan() {
    let text = b"aaaa".to_vec();
    let kws = vec![b"aa".to_vec(), b"aaa".to_vec()];
    assert_eq!(match_keywords(&text, &kws), vec![(0, 3, 1)]);
    let kws2 = vec![b"aa".to_vec()];
    assert_eq!(match_keywords(&text, &kws2), vec![(0, 2, 0), (2, 4, 0)]);
    assert_eq!(match_keywords(b"", &kws2), vec![]);
}

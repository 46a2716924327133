use teleology_core::event_bus::{publish_event, EntityScopeRef, EventBus, EventEnvelope, EventPayload, EventTopicId};

fn envelope(topic: EventTopicId, ts: i64) -> EventEnvelope {
    EventEnvelope {
        topic,
        scope: EntityScopeRef::global(),
        payload: EventPayload { payload_type_id: 0, bytes: Vec::new() },
        timestamp: ts,
    }
}

#[test]
fn topic_registration_is_idempotent() {
    let mut bus = EventBus::new();
    let a = bus.get_or_register_topic("war.declared");
    let b = bus.get_or_register_topic("war.ended");
    let a2 = bus.get_or_register_topic("war.declared");
    assert_eq!(a, a2);
    assert_ne!(a, b);
    assert_eq!(a.raw(), 1);
    assert_eq!(b.raw(), 2);
    assert_eq!(bus.id_to_topic.len(), 2);
}

#[test]
fn topic_name_gives_back_the_name() {
    let mut bus = EventBus::new();
    let a = bus.get_or_register_topic("alpha");
    assert_eq!(bus.topic_name(a), Some("alpha"));
    assert_eq!(bus.topic_name(EventTopicId::from_raw(9)), None);
}

#[test]
fn index_is_rebuilt_from_the_table() {
    let mut bus = EventBus::new();
    bus.id_to_topic.push("loaded".to_string());
    bus.next_topic_raw = 0;
    let id = bus.get_or_register_topic("loaded");
    assert_eq!(id.raw(), 1);
    let fresh = bus.get_or_register_topic("fresh");
    assert_eq!(fresh.raw(), 2);
}

#[test]
fn publish_poll_fifo() {
    let mut bus = EventBus::new();
    let t = bus.get_or_register_topic("t");
    bus.publish(envelope(t, 1));
    bus.publish(envelope(t, 2));
    assert_eq!(bus.poll().unwrap().timestamp, 1);
    assert_eq!(bus.poll().unwrap().timestamp, 2);
    assert!(bus.poll().is_none());
}

#[test]
fn drain_all_empties_in_order() {
    let mut bus = EventBus::new();
    let t = bus.get_or_register_topic("t");
    for i in 0..3 {
        bus.publish(envelope(t, i));
    }
    let all = bus.drain_all();
    assert_eq!(all.iter().map(|e| e.timestamp).collect::<Vec<_>>(), vec![0, 1, 2]);
    assert!(bus.queue.is_empty());
}

#[test]
fn publish_event_registers_topic() {
    let mut bus = EventBus::new();
    publish_event(&mut bus, "ui.click", EntityScopeRef::nation(3), 7, vec![9], 42);
    let e = bus.poll().unwrap();
    assert_eq!(bus.topic_name(e.topic), Some("ui.click"));
    assert_eq!(e.scope.raw, 3);
    assert_eq!(e.payload.payload_type_id, 7);
    assert_eq!(e.payload.bytes, vec![9]);
    assert_eq!(e.timestamp, 42);
}

#[test]
fn entity_scope_character_splits_id() {
    let s = EntityScopeRef::character(0x5_0000_0009);
    assert_eq!(s.raw, 9);
    assert_eq!(s.raw_hi, 5);
    assert!(EntityScopeRef::global().is_global());
    assert!(!EntityScopeRef::custom(1000, 1).is_global());
}

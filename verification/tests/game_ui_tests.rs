use teleology_core::game_ui::{UiCommand, UiCommandBuffer, UiPrefab, UiPrefabRegistry};

#[test]
fn prefab_substitute_placeholders() {
    let prefab = UiPrefab {
        name: "resource_bar".into(),
        commands: vec![
            UiCommand::Label { text: "{0}: {1}".into(), font_size_bits: 14.0f32.to_bits() },
            UiCommand::ProgressBar { fraction_bits: 0, text: "{0}".into(), w_bits: 200.0f32.to_bits() },
        ],
    };
    let expanded = prefab.instantiate(&["Gold", "1234"]);
    match &expanded[0] {
        UiCommand::Label { text, .. } => assert_eq!(text, "Gold: 1234"),
        _ => panic!("expected Label"),
    }
    match &expanded[1] {
        UiCommand::ProgressBar { text, .. } => assert_eq!(text, "Gold"),
        _ => panic!("expected ProgressBar"),
    }
}

#[test]
fn substitute_replaces_every_occurrence_and_two_digit_indices() {
    let params: Vec<&str> = vec!["a", "b", "c", "d", "e", "f", "g", "h", "i", "j", "K"];
    let cmd = UiCommand::Button { id: 3, text: "{10}{0}{0}-{1}".into() };
    match cmd.substitute(&params) {
        UiCommand::Button { id, text } => {
            assert_eq!(id, 3);
            assert_eq!(text, "Kaa-b");
        },
        _ => panic!("expected Button"),
    }
    match UiCommand::Separator.substitute(&params) {
        UiCommand::Separator => {},
        _ => panic!("expected Separator"),
    }
}

#[test]
fn substitute_leaves_unknown_placeholders() {
    let cmd = UiCommand::Image { path: "img/{2}.png".into(), w_bits: 1, h_bits: 2 };
    match cmd.substitute(&["x"]) {
        UiCommand::Image { path, w_bits, h_bits } => {
            assert_eq!(path, "img/{2}.png");
            assert_eq!((w_bits, h_bits), (1, 2));
        },
        _ => panic!("expected Image"),
    }
}

#[test]
fn prefab_registry_insert_get() {
    let mut reg = UiPrefabRegistry::new();
    reg.insert(UiPrefab { name: "hud".into(), commands: vec![UiCommand::Separator] });
    assert!(reg.get("hud").is_some());
    assert!(reg.get("missing").is_none());
    assert_eq!(reg.names_sorted(), vec!["hud"]);
}

#[test]
fn prefab_registry_replace_remove_and_sort() {
    let mut reg = UiPrefabRegistry::default();
    reg.insert(UiPrefab { name: "zeta".into(), commands: vec![] });
    reg.insert(UiPrefab { name: "alpha".into(), commands: vec![] });
    reg.insert(UiPrefab { name: "mid".into(), commands: vec![] });
    reg.insert(UiPrefab { name: "alpha".into(), commands: vec![UiCommand::EndWindow] });
    assert_eq!(reg.prefabs.len(), 3);
    assert_eq!(reg.get("alpha").unwrap().commands.len(), 1);
    assert_eq!(reg.names_sorted(), vec!["alpha", "mid", "zeta"]);
    let removed = reg.remove("mid").unwrap();
    assert_eq!(removed.name, "mid");
    assert!(reg.remove("mid").is_none());
    assert_eq!(reg.names_sorted(), vec!["alpha", "zeta"]);
}

#[test]
fn command_buffer_recording() {
    let mut buf = UiCommandBuffer::new();
    buf.push(UiCommand::Separator);
    assert_eq!(buf.commands.len(), 1);
    buf.begin_recording("my_prefab");
    buf.push(UiCommand::Label { text: "hello".into(), font_size_bits: 14.0f32.to_bits() });
    buf.push(UiCommand::Button { id: 1, text: "ok".into() });
    assert_eq!(buf.commands.len(), 1);
    assert_eq!(buf.recording_commands.len(), 2);
    let prefab = buf.end_recording().unwrap();
    assert_eq!(prefab.name, "my_prefab");
    assert_eq!(prefab.commands.len(), 2);
    assert!(!buf.is_recording());
    assert!(buf.end_recording().is_none());
}

#[test]
fn was_clicked_checks_last_frame() {
    let mut buf = UiCommandBuffer::default();
    buf.clicked_buttons = vec![4, 9];
    assert!(buf.was_clicked(9));
    assert!(!buf.was_clicked(5));
}

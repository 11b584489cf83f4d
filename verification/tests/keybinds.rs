use verse::keybinds::{
    is_bindable, is_modifier, named_codes, Action, KeyBinding, KeyCategory, KeyCode, Keymap, KeymapFile, Modifiers,
    Physical, LAYOUT_SLOTS,
};

fn modifiers(ctrl: bool, shift: bool) -> Modifiers {
    Modifiers { ctrl, shift, alt: false, logo: false }
}

fn pressed(code: KeyCode) -> Physical {
    Physical::Code(code)
}

#[test]
fn the_defaults_bind_every_action() {
    let keymap = Keymap::default();
    for action in Action::all() {
        assert!(keymap.binding(action).is_some(), "{} has no default key", action.label());
    }
}

#[test]
fn no_two_default_actions_share_a_key() {
    let keymap = Keymap::default();
    let mut seen: Vec<KeyBinding> = Vec::new();

    for action in Action::all() {
        let binding = keymap.binding(action).expect("a default");
        assert!(!seen.contains(&binding), "{} reuses {}", action.label(), binding.shown());
        seen.push(binding);
    }
}

#[test]
fn every_layout_slot_has_a_number_key() {
    let keymap = Keymap::default();
    for slot in 1..=LAYOUT_SLOTS {
        assert!(keymap.binding(Action::SelectLayout(slot)).is_some());
    }
}

#[test]
fn a_press_resolves_to_the_action_holding_it() {
    let keymap = Keymap::default();
    assert_eq!(keymap.resolve(pressed(KeyCode::Space), Modifiers::empty()), Some(Action::PlayPause));
}

#[test]
fn the_arrow_keys_are_the_transport_and_the_volume() {
    let keymap = Keymap::default();
    let empty = Modifiers::empty();

    for (code, action) in [
        (KeyCode::ArrowUp, Action::VolumeUp),
        (KeyCode::ArrowDown, Action::VolumeDown),
        (KeyCode::ArrowRight, Action::Next),
        (KeyCode::ArrowLeft, Action::Previous),
    ] {
        assert_eq!(keymap.resolve(pressed(code), empty), Some(action));
    }
}

#[test]
fn a_modified_press_does_not_fire_a_plain_binding() {
    let keymap = Keymap::default();
    assert_eq!(
        keymap.resolve(pressed(KeyCode::KeyS), modifiers(true, false)),
        None,
        "Ctrl+S fired the binding held by plain S"
    );
}

#[test]
fn rebinding_takes_the_key_from_whoever_held_it() {
    let mut keymap = Keymap::default();
    let space = KeyBinding::plain(KeyCode::Space);

    let displaced = keymap.set(Action::Shuffle, space);

    assert_eq!(displaced, vec![Action::PlayPause]);
    assert_eq!(keymap.binding(Action::PlayPause), None);
    assert_eq!(keymap.resolve(pressed(KeyCode::Space), Modifiers::empty()), Some(Action::Shuffle));
}

#[test]
fn rebinding_an_action_to_its_own_key_displaces_nothing() {
    let mut keymap = Keymap::default();
    let space = KeyBinding::plain(KeyCode::Space);

    assert!(keymap.set(Action::PlayPause, space).is_empty());
    assert_eq!(keymap.binding(Action::PlayPause), Some(space));
}

#[test]
fn a_cleared_action_answers_no_key() {
    let mut keymap = Keymap::default();
    keymap.clear(Action::PlayPause);

    assert_eq!(keymap.binding(Action::PlayPause), None);
    assert_eq!(keymap.resolve(pressed(KeyCode::Space), Modifiers::empty()), None);
}

#[test]
fn a_binding_survives_a_round_trip_through_the_file() {
    let mut keymap = Keymap::default();
    keymap.set(Action::Shuffle, KeyBinding { ctrl: true, shift: true, alt: false, code: KeyCode::KeyJ });

    let restored = Keymap::from_file(&KeymapFile::from_keymap(&keymap));

    assert_eq!(restored, keymap);
}

#[test]
fn an_unbound_action_stays_unbound_across_a_round_trip() {
    let mut keymap = Keymap::default();
    keymap.clear(Action::PlayPause);

    let restored = Keymap::from_file(&KeymapFile::from_keymap(&keymap));

    assert_eq!(restored.binding(Action::PlayPause), None, "an unbound action came back with its default");
}

#[test]
fn an_absent_entry_falls_back_to_the_default() {
    let restored = Keymap::from_file(&KeymapFile::default());
    assert_eq!(restored, Keymap::default());
}

#[test]
fn an_unreadable_binding_is_dropped_rather_than_guessed() {
    let mut file = KeymapFile::from_keymap(&Keymap::default());
    file.insert(Action::PlayPause.key(), "Ctrl+Nonsense".to_owned());

    let restored = Keymap::from_file(&file);

    assert_eq!(restored.binding(Action::PlayPause), None);
    assert_eq!(
        restored.binding(Action::Next),
        Keymap::default().binding(Action::Next),
        "one bad entry disturbed the others"
    );
}

#[test]
fn every_modifier_combination_round_trips_as_text() {
    for (ctrl, shift, alt) in
        [(false, false, false), (true, false, false), (false, true, false), (false, false, true), (true, true, true)]
    {
        let binding = KeyBinding { ctrl, shift, alt, code: KeyCode::KeyK };
        assert_eq!(KeyBinding::parse(&binding.stored()), Some(binding));
    }
}

#[test]
fn a_bindable_key_always_survives_being_stored() {
    for code in named_codes() {
        assert!(is_bindable(code), "{code:?} is spelled but not bindable");
        let binding = KeyBinding::plain(code);
        assert_eq!(KeyBinding::parse(&binding.stored()), Some(binding), "{code:?} could be bound but not read back");
    }
}

#[test]
fn every_named_code_round_trips_as_text() {
    for code in named_codes() {
        let binding = KeyBinding::plain(code);
        assert_eq!(KeyBinding::parse(&binding.stored()), Some(binding), "{code:?} did not survive");
    }
}

#[test]
fn a_key_outside_the_table_cannot_be_bound() {
    assert!(!is_bindable(KeyCode::F13));
    assert!(!is_bindable(KeyCode::Numpad0));
    assert!(is_bindable(KeyCode::KeyA));
}

#[test]
fn junk_text_parses_to_nothing() {
    for text in ["", "Ctrl+", "NotAKey", "Ctrl+A+B", "Hyper+A"] {
        assert_eq!(KeyBinding::parse(text), None, "{text:?} parsed");
    }
}

#[test]
fn actions_have_distinct_storage_keys() {
    let mut keys: Vec<String> = Action::all().into_iter().map(Action::key).collect();
    keys.sort();
    let total = keys.len();
    keys.dedup();

    assert_eq!(keys.len(), total, "two actions serialize to the same name");
}

#[test]
fn a_modifier_key_is_not_bindable_on_its_own() {
    assert!(is_modifier(KeyCode::ControlLeft));
    assert!(!is_modifier(KeyCode::KeyA));
}

#[test]
fn a_binding_is_stored_by_name_and_shown_by_symbol() {
    let binding = KeyBinding { ctrl: true, shift: false, alt: true, code: KeyCode::Comma };
    assert_eq!(binding.stored(), "Ctrl+Alt+Comma");
    assert_eq!(binding.shown(), "Ctrl+Alt+,");
    assert_eq!(KeyBinding::plain(KeyCode::ArrowLeft).shown(), "Left");
    assert_eq!(KeyBinding::plain(KeyCode::Other(7)).stored(), "Unknown");
}

#[test]
fn a_layout_slot_is_labelled_by_its_number() {
    assert_eq!(Action::SelectLayout(10).label(), "Switch to layout 10");
    assert_eq!(Action::SelectLayout(3).key(), "select_layout_3");
    assert_eq!(Action::SelectLayout(3).category(), KeyCategory::Layouts);
    assert_eq!(Action::ToggleEditMode.category(), KeyCategory::Interface);
    assert_eq!(KeyCategory::all().len(), 3);
    assert_eq!(KeyCategory::Playback.label(), "Playback");
    assert!(!Action::Shuffle.description().is_empty());
}

use verse::input::{drop_pane, key_command, Command, DropTarget, KeyContext, PaneDrag, RowClick};
use verse::keybinds::{Action, KeyBinding, KeyCode, Keymap, Modifiers, Physical};
use verse::layout::{DropZone, Layout, PaneId};
use verse::pane::PaneKind;

fn idle() -> KeyContext {
    KeyContext { capturing: false, options_open: false, preferences_open: false, layouts: 3 }
}

#[test]
fn shift_extends_and_the_command_key_toggles() {
    let shift = Modifiers { ctrl: true, shift: true, alt: false, logo: false };
    let ctrl = Modifiers { ctrl: true, shift: false, alt: false, logo: false };
    assert_eq!(RowClick::from_modifiers(shift), RowClick::Extend);
    assert_eq!(RowClick::from_modifiers(ctrl), RowClick::Toggle);
    assert_eq!(RowClick::from_modifiers(Modifiers::empty()), RowClick::Replace);
}

#[test]
fn an_edge_of_the_layout_wins_over_a_pane() {
    let mut drag = PaneDrag::grabbed(PaneId(0));
    drag.hovered(DropTarget::Pane(PaneId(1), DropZone::Left));
    drag.hovered(DropTarget::RootEdge(DropZone::Top));
    assert_eq!(drag.over(), Some(DropTarget::RootEdge(DropZone::Top)));
    drag.hover_ended(DropTarget::RootEdge(DropZone::Top));
    assert_eq!(drag.over(), Some(DropTarget::Pane(PaneId(1), DropZone::Left)));
}

#[test]
fn a_pane_is_never_dropped_on_itself() {
    let mut drag = PaneDrag::grabbed(PaneId(0));
    drag.hovered(DropTarget::Pane(PaneId(0), DropZone::Center));
    assert_eq!(drag.over(), None);
}

#[test]
fn a_late_departure_keeps_the_pane_entered() {
    let mut drag = PaneDrag::grabbed(PaneId(0));
    drag.hovered(DropTarget::Pane(PaneId(1), DropZone::Left));
    drag.hovered(DropTarget::Pane(PaneId(2), DropZone::Right));
    drag.hover_ended(DropTarget::Pane(PaneId(1), DropZone::Left));
    assert_eq!(drag.over(), Some(DropTarget::Pane(PaneId(2), DropZone::Right)));
}

#[test]
fn dropping_on_a_centre_swaps_what_the_panes_show() {
    let mut layout = Layout::<u32, u32>::single("t", PaneKind::Library);
    let second = layout.split(PaneId(0), verse::layout::Axis::Vertical, PaneKind::Queue).expect("split");
    let mut drag = PaneDrag::grabbed(PaneId(0));
    drag.hovered(DropTarget::Pane(second, DropZone::Center));
    assert!(drop_pane(&mut layout, drag));
    assert_eq!(layout.kind(PaneId(0)), Some(PaneKind::Queue));
    assert_eq!(layout.kind(second), Some(PaneKind::Library));
}

#[test]
fn dropping_over_nothing_changes_nothing() {
    let mut layout = Layout::<u32, u32>::single("t", PaneKind::Library);
    assert!(!drop_pane(&mut layout, PaneDrag::grabbed(PaneId(0))));
}

#[test]
fn a_press_asks_for_what_its_action_does() {
    let keymap = Keymap::default();
    let press = |code| key_command(&keymap, Physical::Code(code), Modifiers::empty(), idle());
    assert_eq!(press(KeyCode::Space), Some(Command::PlayPause));
    assert_eq!(press(KeyCode::ArrowUp), Some(Command::VolumeUp));
    assert_eq!(press(KeyCode::Digit2), Some(Command::SelectLayout(1)));
    assert_eq!(press(KeyCode::Digit9), None, "a layout that does not exist was selected");
    assert_eq!(press(KeyCode::KeyZ), None);
}

#[test]
fn the_preferences_hold_back_edit_mode_and_layouts() {
    let keymap = Keymap::default();
    let open = KeyContext { preferences_open: true, ..idle() };
    assert_eq!(key_command(&keymap, Physical::Code(KeyCode::KeyE), Modifiers::empty(), open), None);
    assert_eq!(key_command(&keymap, Physical::Code(KeyCode::Digit1), Modifiers::empty(), open), None);
    assert_eq!(
        key_command(&keymap, Physical::Code(KeyCode::KeyS), Modifiers::empty(), open),
        Some(Command::TogglePreferences)
    );
}

#[test]
fn a_capture_takes_every_press_and_escape_closes_the_options() {
    let keymap = Keymap::default();
    let capturing = KeyContext { capturing: true, ..idle() };
    assert_eq!(key_command(&keymap, Physical::Code(KeyCode::Space), Modifiers::empty(), capturing), Some(Command::Capture));
    let options = KeyContext { options_open: true, ..idle() };
    assert_eq!(
        key_command(&keymap, Physical::Code(KeyCode::Escape), Modifiers::empty(), options),
        Some(Command::ClosePaneOptions)
    );
}

#[test]
fn a_rebound_key_asks_for_its_new_action() {
    let mut keymap = Keymap::default();
    keymap.set(Action::Shuffle, KeyBinding::plain(KeyCode::Space));
    assert_eq!(
        key_command(&keymap, Physical::Code(KeyCode::Space), Modifiers::empty(), idle()),
        Some(Command::Shuffle)
    );
}

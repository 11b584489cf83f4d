//! What the app makes of a pane being dragged, a row being clicked, and a key
//! being pressed.
//!
//! A dragged pane remembers what it is over in two places, the edge of the
//! whole layout and a pane, because the pointer can be over both at once; the
//! edge wins. Arrivals and departures are reported in layout order rather
//! than in the order they happened, so a departure only clears what it is
//! the departure of.

use vstd::prelude::*;

use crate::keybinds::{fires, rank, Action, KeyCode, Keymap, Modifiers, Physical};
use crate::layout::{edge_moved, pane_moved, DropZone, Layout, PaneId};

verus! {

/// Where a dragged pane would land.
#[derive(Debug, Clone, Copy, PartialEq, Eq, Structural)]
pub enum DropTarget {
    Pane(PaneId, DropZone),
    RootEdge(DropZone),
}

/// Whether a pane is being dragged, and which part of the pane drawn is
/// under the pointer.
#[derive(Debug, Clone, Copy, PartialEq, Eq, Structural)]
pub struct DragContext {
    pub active: bool,
    pub drop_zone: Option<DropZone>,
}

/// What a collection's controls do with its tracks.
#[derive(Debug, Clone, Copy, PartialEq, Eq, Structural)]
pub enum Act {
    Play,
    Next,
    Queue,
}

/// What a click on a row does to the selection.
#[derive(Debug, Clone, Copy, PartialEq, Eq, Structural)]
pub enum RowClick {
    Replace,
    Toggle,
    Extend,
}

impl RowClick {
    /// Shift extends the selection, the command key toggles the row, and a
    /// plain click replaces it; shift wins over the command key.
    pub fn from_modifiers(modifiers: Modifiers) -> (click: Self)
        ensures
            click == if modifiers.shift {
                RowClick::Extend
            } else if modifiers.ctrl {
                RowClick::Toggle
            } else {
                RowClick::Replace
            },
    {
        if modifiers.shift() {
            RowClick::Extend
        } else if modifiers.control() {
            RowClick::Toggle
        } else {
            RowClick::Replace
        }
    }
}

/// A pane being dragged: which one, and what the pointer is over.
#[derive(Debug, Clone, Copy)]
pub struct PaneDrag {
    pub source: PaneId,
    pub root_edge: Option<DropZone>,
    pub pane_zone: Option<(PaneId, DropZone)>,
}

impl PaneDrag {
    /// A drag of pane `source`, over nothing yet.
    pub fn grabbed(source: PaneId) -> (drag: Self)
        ensures
            drag == (PaneDrag { source, root_edge: None, pane_zone: None }),
    {
        PaneDrag { source, root_edge: None, pane_zone: None }
    }

    pub open spec fn over_spec(self) -> Option<DropTarget> {
        match self.root_edge {
            Some(edge) => Some(DropTarget::RootEdge(edge)),
            None => match self.pane_zone {
                Some((id, zone)) => Some(DropTarget::Pane(id, zone)),
                None => None,
            },
        }
    }

    /// Where the pane would land if dropped now: an edge of the layout before
    /// a pane.
    pub fn over(&self) -> (target: Option<DropTarget>)
        ensures
            target == self.over_spec(),
    {
        if let Some(edge) = self.root_edge {
            return Some(DropTarget::RootEdge(edge));
        }
        match self.pane_zone {
            Some((id, zone)) => Some(DropTarget::Pane(id, zone)),
            None => None,
        }
    }

    pub open spec fn hovered_spec(self, target: DropTarget) -> PaneDrag {
        match target {
            DropTarget::RootEdge(edge) => PaneDrag { root_edge: Some(edge), ..self },
            DropTarget::Pane(id, zone) => if id == self.source {
                PaneDrag { pane_zone: None, ..self }
            } else {
                PaneDrag { pane_zone: Some((id, zone)), ..self }
            },
        }
    }

    /// The pointer arrived over `target`. Over the dragged pane itself it is
    /// over no pane at all.
    pub fn hovered(&mut self, target: DropTarget)
        ensures
            *final(self) == old(self).hovered_spec(target),
    {
        match target {
            DropTarget::RootEdge(edge) => self.root_edge = Some(edge),
            DropTarget::Pane(id, zone) => {
                if id == self.source {
                    self.pane_zone = None;
                } else {
                    self.pane_zone = Some((id, zone));
                }
            },
        }
    }

    pub open spec fn left_spec(self, target: DropTarget) -> PaneDrag {
        match target {
            DropTarget::RootEdge(edge) => if self.root_edge == Some(edge) {
                PaneDrag { root_edge: None, ..self }
            } else {
                self
            },
            DropTarget::Pane(id, _) => if self.pane_zone matches Some((over, _)) && over == id {
                PaneDrag { pane_zone: None, ..self }
            } else {
                self
            },
        }
    }

    /// The pointer left `target`: clears it only if it is what the drag is
    /// over, since the departure can arrive after the next arrival.
    pub fn hover_ended(&mut self, target: DropTarget)
        ensures
            *final(self) == old(self).left_spec(target),
    {
        match target {
            DropTarget::RootEdge(edge) => {
                if self.root_edge == Some(edge) {
                    self.root_edge = None;
                }
            },
            DropTarget::Pane(id, _) => {
                if let Some((over, _)) = self.pane_zone {
                    if over == id {
                        self.pane_zone = None;
                    }
                }
            },
        }
    }
}

/// A late departure never clears what the drag has moved on to: leaving a
/// pane other than the one the drag is over changes nothing.
pub proof fn lemma_late_departure(drag: PaneDrag, left: PaneId, entered: PaneId, zone: DropZone, left_zone: DropZone)
    requires
        left != entered,
        entered != drag.source,
    ensures
        drag.hovered_spec(DropTarget::Pane(entered, zone)).left_spec(DropTarget::Pane(left, left_zone))
            == drag.hovered_spec(DropTarget::Pane(entered, zone)),
{
}

/// Drops the dragged pane where it is over, if anywhere: swapped with a pane
/// dropped on its centre, split beside a pane dropped on its side, or along
/// an edge of the whole layout. Answers whether the layout changed.
pub fn drop_pane<S: Default + Copy, L: Copy>(layout: &mut Layout<S, L>, drag: PaneDrag) -> (moved: bool)
    ensures
        match drag.over_spec() {
            Some(DropTarget::Pane(pane, zone)) => pane_moved(*old(layout), *final(layout), drag.source, pane, zone, moved),
            Some(DropTarget::RootEdge(edge)) => edge_moved(*old(layout), *final(layout), drag.source, edge, moved),
            None => !moved && *final(layout) == *old(layout),
        },
{
    match drag.over() {
        Some(DropTarget::Pane(pane, zone)) => layout.move_pane(drag.source, pane, zone),
        Some(DropTarget::RootEdge(edge)) => layout.move_pane_to_root_edge(drag.source, edge),
        None => false,
    }
}

/// What a key press asks of the app.
#[derive(Debug, Clone, Copy, PartialEq, Eq, Structural)]
pub enum Command {
    /// The press is being captured as a new binding.
    Capture,
    ClosePaneOptions,
    PlayPause,
    Next,
    Previous,
    ToggleMute,
    VolumeUp,
    VolumeDown,
    CycleLoop,
    Shuffle,
    TogglePreferences,
    ToggleEditMode,
    /// Switch to the layout at this place in the list.
    SelectLayout(usize),
}

/// What the app is doing when a key arrives.
#[derive(Debug, Clone, Copy, PartialEq, Eq, Structural)]
pub struct KeyContext {
    /// A binding is being captured.
    pub capturing: bool,
    /// A pane's options are open.
    pub options_open: bool,
    /// The preferences are open.
    pub preferences_open: bool,
    /// How many layouts there are.
    pub layouts: usize,
}

/// What an action asks for, given what the app is doing: edit mode and
/// switching layouts are refused while the preferences are open, and a
/// layout that does not exist is not switched to.
pub open spec fn command_for(action: Action, context: KeyContext) -> Option<Command> {
    match action {
        Action::PlayPause => Some(Command::PlayPause),
        Action::Next => Some(Command::Next),
        Action::Previous => Some(Command::Previous),
        Action::ToggleMute => Some(Command::ToggleMute),
        Action::VolumeUp => Some(Command::VolumeUp),
        Action::VolumeDown => Some(Command::VolumeDown),
        Action::CycleLoop => Some(Command::CycleLoop),
        Action::Shuffle => Some(Command::Shuffle),
        Action::TogglePreferences => Some(Command::TogglePreferences),
        Action::ToggleEditMode => if context.preferences_open {
            None
        } else {
            Some(Command::ToggleEditMode)
        },
        Action::SelectLayout(slot) => if context.preferences_open || slot - 1 >= context.layouts {
            None
        } else {
            Some(Command::SelectLayout((slot - 1) as usize))
        },
    }
}

/// What a key press asks of the app: everything goes to a capture in
/// progress; Escape closes a pane's options; otherwise the keymap decides.
pub fn key_command(keymap: &Keymap, physical: Physical, modifiers: Modifiers, context: KeyContext) -> (command:
    Option<Command>)
    requires
        !keymap@.contains_key(Action::SelectLayout(0)),
    ensures
        context.capturing ==> command == Some(Command::Capture),
        !context.capturing && context.options_open && physical == Physical::Code(KeyCode::Escape) ==> command
            == Some(Command::ClosePaneOptions),
        !context.capturing && !(context.options_open && physical == Physical::Code(KeyCode::Escape)) ==> {
            ||| command is None && forall|a: Action| #[trigger] keymap@.contains_key(a) ==> !fires(
                keymap@[a],
                physical,
                modifiers,
            )
            ||| exists|a: Action|
                {
                    &&& keymap@.contains_key(a)
                    &&& fires(keymap@[a], physical, modifiers)
                    &&& forall|y: Action|
                        #![trigger keymap@[y]]
                        keymap@.contains_key(y) && rank(y) < rank(a) ==> !fires(keymap@[y], physical, modifiers)
                    &&& command == command_for(a, context)
                }
        },
{
    if context.capturing {
        return Some(Command::Capture);
    }
    if context.options_open && physical == Physical::Code(KeyCode::Escape) {
        return Some(Command::ClosePaneOptions);
    }
    match keymap.resolve(physical, modifiers) {
        Some(action) => {
            let command = match action {
                Action::PlayPause => Some(Command::PlayPause),
                Action::Next => Some(Command::Next),
                Action::Previous => Some(Command::Previous),
                Action::ToggleMute => Some(Command::ToggleMute),
                Action::VolumeUp => Some(Command::VolumeUp),
                Action::VolumeDown => Some(Command::VolumeDown),
                Action::CycleLoop => Some(Command::CycleLoop),
                Action::Shuffle => Some(Command::Shuffle),
                Action::TogglePreferences => Some(Command::TogglePreferences),
                Action::ToggleEditMode => {
                    if context.preferences_open {
                        None
                    } else {
                        Some(Command::ToggleEditMode)
                    }
                },
                Action::SelectLayout(slot) => {
                    let index = (slot - 1) as usize;
                    if context.preferences_open || index >= context.layouts {
                        None
                    } else {
                        Some(Command::SelectLayout(index))
                    }
                },
            };
            proof {
                assert(command == command_for(action, context));
            }
            command
        },
        None => None,
    }
}

/// Each action asks for the command of the same name: playback, volume,
/// loop and shuffle keys always, edit mode unless the preferences are open,
/// and layout `slot` (counted from one) switches to the layout at place
/// `slot - 1` unless the preferences are open or there is no such layout.
pub proof fn lemma_commands_name_their_actions(context: KeyContext, slot: u8)
    ensures
        command_for(Action::PlayPause, context) == Some(Command::PlayPause),
        command_for(Action::Next, context) == Some(Command::Next),
        command_for(Action::Previous, context) == Some(Command::Previous),
        command_for(Action::ToggleMute, context) == Some(Command::ToggleMute),
        command_for(Action::VolumeUp, context) == Some(Command::VolumeUp),
        command_for(Action::VolumeDown, context) == Some(Command::VolumeDown),
        command_for(Action::CycleLoop, context) == Some(Command::CycleLoop),
        command_for(Action::Shuffle, context) == Some(Command::Shuffle),
        command_for(Action::TogglePreferences, context) == Some(Command::TogglePreferences),
        !context.preferences_open ==> command_for(Action::ToggleEditMode, context) == Some(Command::ToggleEditMode),
        context.preferences_open ==> command_for(Action::ToggleEditMode, context) is None,
        1 <= slot && slot <= context.layouts && !context.preferences_open ==> command_for(
            Action::SelectLayout(slot),
            context,
        ) == Some(Command::SelectLayout((slot - 1) as usize)),
        1 <= slot && (slot > context.layouts || context.preferences_open) ==> command_for(
            Action::SelectLayout(slot),
            context,
        ) is None,
{
}

/// A press is never turned into a command of another name: whatever the
/// keymap resolves it to, the command that comes out (when one does) is
/// that action's own, or a layout switch for a layout key.
pub proof fn lemma_command_is_the_actions_own(action: Action, context: KeyContext, command: Command)
    requires
        command_for(action, context) == Some(command),
    ensures
        command == Command::CycleLoop <==> action == Action::CycleLoop,
        command == Command::Shuffle <==> action == Action::Shuffle,
        command == Command::ToggleMute <==> action == Action::ToggleMute,
        command == Command::PlayPause <==> action == Action::PlayPause,
        command == Command::Next <==> action == Action::Next,
        command == Command::Previous <==> action == Action::Previous,
        command == Command::VolumeUp <==> action == Action::VolumeUp,
        command == Command::VolumeDown <==> action == Action::VolumeDown,
        command == Command::TogglePreferences <==> action == Action::TogglePreferences,
        command == Command::ToggleEditMode <==> action == Action::ToggleEditMode,
        command is SelectLayout <==> action is SelectLayout,
        command != Command::Capture && command != Command::ClosePaneOptions,
{
}

} // verus!

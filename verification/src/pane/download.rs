//! The download pane's own state, and how it words a found recording.

use vstd::prelude::*;

use crate::text::{minutes_seconds, minutes_seconds_text, same_text};

verus! {

/// Which found item the pointer is over, by its id.
#[derive(Debug, Default)]
pub struct State {
    pub hovered: Option<String>,
}

impl State {
    /// Whether the item `id` is lit.
    pub fn is_hovered(&self, id: &str) -> (lit: bool)
        ensures
            lit == (self.hovered.deep_view() == Some(id@)),
    {
        match &self.hovered {
            Some(held) => same_text(held.as_str(), id),
            None => false,
        }
    }
}

#[derive(Debug, Clone)]
pub enum PanelMessage {
    Hovered(String),
    Unhovered(String),
}

/// What a message makes of the lit item: the pointer arriving lights one;
/// leaving puts out only the one that is lit.
pub open spec fn updated(hovered: Option<Seq<char>>, message: PanelMessage) -> Option<Seq<char>> {
    match message {
        PanelMessage::Hovered(id) => Some(id@),
        PanelMessage::Unhovered(id) => if hovered == Some(id@) {
            None
        } else {
            hovered
        },
    }
}

pub fn update(state: &mut State, message: &PanelMessage)
    ensures
        final(state).hovered.deep_view() == updated(old(state).hovered.deep_view(), *message),
{
    match message {
        PanelMessage::Hovered(id) => state.hovered = Some(id.clone()),
        PanelMessage::Unhovered(id) => {
            if state.is_hovered(id.as_str()) {
                state.hovered = None;
            }
        },
    }
}

/// A recording's length as minutes and seconds, or nothing where it is not
/// known.
pub fn clock(seconds: Option<u32>) -> (text: String)
    ensures
        text@ == match seconds {
            Some(total) => minutes_seconds_text(total as nat),
            None => Seq::empty(),
        },
{
    match seconds {
        Some(total) => minutes_seconds(total as u64),
        None => String::new(),
    }
}

/// Who a recording is by, or a stand-in where nobody is named.
pub fn credit(artist: Option<&str>) -> (text: String)
    ensures
        text@ == match artist {
            Some(name) => name@,
            None => "Unknown artist"@,
        },
{
    match artist {
        Some(name) => String::from_str(name),
        None => String::from_str("Unknown artist"),
    }
}

} // verus!

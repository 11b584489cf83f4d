//! The queue pane's own state: whether it shows what has already played.

use vstd::prelude::*;

verus! {

/// How one queue pane draws itself.
#[derive(Debug, Clone, Copy, PartialEq, Eq, Structural)]
pub struct State {
    pub show_history: bool,
}

impl Default for State {
    /// History hidden.
    fn default() -> (state: Self)
        ensures
            !state.show_history,
    {
        State { show_history: false }
    }
}

#[derive(Debug, Clone, Copy, PartialEq, Eq, Structural)]
pub enum Message {
    ToggleHistory,
}

/// What a message makes of a queue pane's state.
pub open spec fn updated(state: State, message: Message) -> State {
    match message {
        Message::ToggleHistory => State { show_history: !state.show_history },
    }
}

pub fn update(state: &mut State, message: &Message)
    ensures
        *final(state) == updated(*old(state), *message),
{
    match message {
        Message::ToggleHistory => state.show_history = !state.show_history,
    }
}

/// The noun for a count of tracks.
pub fn plural(count: usize) -> (noun: &'static str)
    ensures
        noun@ == if count == 1 { "track"@ } else { "tracks"@ },
{
    if count == 1 {
        "track"
    } else {
        "tracks"
    }
}

} // verus!

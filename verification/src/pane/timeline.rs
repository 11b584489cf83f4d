//! The timeline pane's own state: which clock it shows on the right, and the
//! position a pointer is aiming at on its rail.
//!
//! The position is of whatever type the rail reports it in; nothing here reads
//! it.

use vstd::prelude::*;

verus! {

/// How one timeline pane draws itself.
#[derive(Debug, Clone, Copy, PartialEq)]
pub struct State<P> {
    pub show_remaining: bool,
    pub hovered: Option<P>,
}

impl<P> Default for State<P> {
    /// The total shown, and nothing aimed at.
    fn default() -> (state: Self)
        ensures
            !state.show_remaining,
            state.hovered is None,
    {
        State { show_remaining: false, hovered: None }
    }
}

#[derive(Debug, Clone, Copy, PartialEq)]
pub enum Message<P> {
    ToggleRemaining,
    Hovered(Option<P>),
}

/// What a message makes of a timeline pane's state.
pub open spec fn updated<P>(state: State<P>, message: Message<P>) -> State<P> {
    match message {
        Message::ToggleRemaining => State { show_remaining: !state.show_remaining, ..state },
        Message::Hovered(position) => State { hovered: position, ..state },
    }
}

pub fn update<P: Copy>(state: &mut State<P>, message: &Message<P>)
    ensures
        *final(state) == updated(*old(state), *message),
{
    match message {
        Message::ToggleRemaining => state.show_remaining = !state.show_remaining,
        Message::Hovered(position) => state.hovered = *position,
    }
}

} // verus!

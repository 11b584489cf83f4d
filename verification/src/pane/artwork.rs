//! The artwork pane's own state: the cover it drew last.
//!
//! A track change takes a frame or two to resolve, and showing the
//! placeholder in that gap blinks between covers that are usually the same
//! image, so the pane keeps drawing the cover it drew last until the new one
//! arrives, or until there is genuinely nothing to draw.

use vstd::prelude::*;

verus! {

/// What one artwork pane drew last.
#[derive(Debug)]
pub struct State<H> {
    pub last: Option<H>,
}

impl<H> Default for State<H> {
    /// Nothing drawn yet.
    fn default() -> (state: Self)
        ensures
            state.last is None,
    {
        State { last: None }
    }
}

impl<H: Clone> State<H> {
    /// What to draw: a cover that is ready, kept for later; with nothing
    /// ready, the cover drawn last while something is playing, and nothing
    /// (forgetting the cover) once nothing is.
    pub fn bridge(&mut self, drawn: Option<H>, playing: bool) -> (shown: Option<H>)
        ensures
            match drawn {
                Some(cover) => {
                    &&& shown == Some(cover)
                    &&& final(self).last matches Some(kept) && cloned(cover, kept)
                },
                None => if playing {
                    &&& final(self).last == old(self).last
                    &&& match old(self).last {
                        Some(held) => shown matches Some(copy) && cloned(held, copy),
                        None => shown is None,
                    }
                } else {
                    shown is None && final(self).last is None
                },
            },
    {
        match drawn {
            Some(cover) => {
                self.last = Some(cover.clone());
                Some(cover)
            },
            None => {
                if !playing {
                    self.clear();
                    return None;
                }
                match &self.last {
                    Some(held) => Some(held.clone()),
                    None => None,
                }
            },
        }
    }

    /// Forgets the cover drawn last, for a track read to carry no art.
    pub fn clear(&mut self)
        ensures
            final(self).last is None,
    {
        self.last = None;
    }
}

} // verus!

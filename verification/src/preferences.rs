//! The sections of the preferences view.

use vstd::prelude::*;

verus! {

/// A section of the preferences view.
#[derive(Debug, Clone, Copy, PartialEq, Eq, Structural)]
pub enum PrefSection {
    Appearance,
    Library,
}

impl Default for PrefSection {
    /// The view opens on the appearance settings.
    fn default() -> (section: Self)
        ensures
            section == PrefSection::Appearance,
    {
        PrefSection::Appearance
    }
}

} // verus!

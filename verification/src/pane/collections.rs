//! The collections pane's own state: which collection has its panel open, and
//! which tile the pointer is over.
//!
//! Both are keyed on the collection's [`Id`] rather than on a tile's place in
//! the grid: a query typed while a panel is open renumbers every tile, and a
//! panel keyed on its place would move to whichever album fell into that
//! slot.

use vstd::prelude::*;

use crate::text::{minutes_seconds, minutes_seconds_text, same_text};

verus! {

/// What an album is told apart by: its name and its artist.
#[derive(Debug)]
pub struct AlbumKey {
    pub name: String,
    pub artist: Option<String>,
}

/// A collection as it is compared: an album by its name and artist, a
/// playlist by its number.
pub enum Named {
    Album(Seq<char>, Option<Seq<char>>),
    Playlist(i64),
}

/// Which collection a panel is open on.
#[derive(Debug)]
pub enum Id {
    Album(AlbumKey),
    Playlist(i64),
}

impl View for Id {
    type V = Named;

    open spec fn view(&self) -> Named {
        match self {
            Id::Album(key) => Named::Album(key.name@, key.artist.deep_view()),
            Id::Playlist(id) => Named::Playlist(*id),
        }
    }
}

fn same_artist(a: &Option<String>, b: &Option<String>) -> (same: bool)
    ensures
        same == (a.deep_view() == b.deep_view()),
{
    match (a, b) {
        (Some(x), Some(y)) => same_text(x.as_str(), y.as_str()),
        (None, None) => true,
        _ => false,
    }
}

impl Id {
    /// Whether two ids name the same collection.
    pub fn same(&self, other: &Id) -> (same: bool)
        ensures
            same == (self@ == other@),
    {
        match (self, other) {
            (Id::Album(a), Id::Album(b)) => same_text(a.name.as_str(), b.name.as_str()) && same_artist(
                &a.artist,
                &b.artist,
            ),
            (Id::Playlist(a), Id::Playlist(b)) => *a == *b,
            _ => false,
        }
    }

    /// A copy of the id.
    pub fn duplicate(&self) -> (copy: Id)
        ensures
            copy@ == self@,
    {
        match self {
            Id::Album(key) => Id::Album(
                AlbumKey {
                    name: key.name.clone(),
                    artist: match &key.artist {
                        Some(artist) => Some(artist.clone()),
                        None => None,
                    },
                },
            ),
            Id::Playlist(id) => Id::Playlist(*id),
        }
    }
}

impl Clone for Id {
    fn clone(&self) -> (copy: Self)
        ensures
            copy@ == self@,
    {
        self.duplicate()
    }
}

/// Which grid a place indexes: albums and playlists are numbered apart.
#[derive(Debug, Clone, Copy, PartialEq, Eq, Structural)]
pub enum Kind {
    Album,
    Playlist,
}

/// How one collections pane draws itself.
#[derive(Debug, Default)]
pub struct State {
    pub expanded: Option<Id>,
    pub hovered: Option<Id>,
}

/// An optional id as it is compared.
pub open spec fn named(id: Option<Id>) -> Option<Named> {
    match id {
        Some(id) => Some(id@),
        None => None,
    }
}

impl State {
    /// Whether the panel of `id` is open.
    pub fn is_open(&self, id: &Id) -> (open: bool)
        ensures
            open == (named(self.expanded) == Some(id@)),
    {
        match &self.expanded {
            Some(held) => held.same(id),
            None => false,
        }
    }

    /// Whether the tile of `id` is lit.
    pub fn is_hovered(&self, id: &Id) -> (lit: bool)
        ensures
            lit == (named(self.hovered) == Some(id@)),
    {
        match &self.hovered {
            Some(held) => held.same(id),
            None => false,
        }
    }
}

#[derive(Debug, Clone)]
pub enum PanelMessage {
    Toggle(Id),
    Hovered(Id),
    Unhovered(Id),
}

/// What a message does to a collections pane, as compared: a toggle opens
/// the collection's panel, closing any other, or closes it if it was the one
/// open; the pointer arriving lights a tile; leaving puts out only the tile
/// that is lit, since a departure can arrive after the next arrival.
pub open spec fn updated(expanded: Option<Named>, hovered: Option<Named>, message: PanelMessage) -> (
    Option<Named>,
    Option<Named>,
) {
    match message {
        PanelMessage::Toggle(id) => (if expanded == Some(id@) { None } else { Some(id@) }, hovered),
        PanelMessage::Hovered(id) => (expanded, Some(id@)),
        PanelMessage::Unhovered(id) => (expanded, if hovered == Some(id@) { None } else { hovered }),
    }
}

pub fn update(state: &mut State, message: &PanelMessage)
    ensures
        (named(final(state).expanded), named(final(state).hovered)) == updated(
            named(old(state).expanded),
            named(old(state).hovered),
            *message,
        ),
{
    match message {
        PanelMessage::Toggle(id) => {
            if state.is_open(id) {
                state.expanded = None;
            } else {
                state.expanded = Some(id.duplicate());
            }
        },
        PanelMessage::Hovered(id) => state.hovered = Some(id.duplicate()),
        PanelMessage::Unhovered(id) => {
            if state.is_hovered(id) {
                state.hovered = None;
            }
        },
    }
}

/// At most one panel is ever open: whatever toggle arrives, what is open
/// after it is the collection toggled or nothing.
pub proof fn lemma_one_panel(expanded: Option<Named>, hovered: Option<Named>, id: Id)
    ensures
        updated(expanded, hovered, PanelMessage::Toggle(id)).0 == Some(id@) || updated(
            expanded,
            hovered,
            PanelMessage::Toggle(id),
        ).0 is None,
        updated(updated(expanded, hovered, PanelMessage::Toggle(id)).0, hovered, PanelMessage::Toggle(id)).0
            == if expanded == Some(id@) { Some(id@) } else { None },
{
}

/// A running time in whole seconds as minutes and seconds.
pub fn clock(total: u64) -> (text: String)
    ensures
        text@ == minutes_seconds_text(total as nat),
{
    minutes_seconds(total)
}

} // verus!

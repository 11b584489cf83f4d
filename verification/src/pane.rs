use vstd::prelude::*;

pub mod artwork;
pub mod collections;
pub mod download;
pub mod library;
pub mod queue;
pub mod timeline;
pub mod track_info;

use crate::keybinds::name_mark;
use crate::layout::PaneId;
use crate::table::{kept, lemma_kept, lemma_table_absent, lemma_table_last, table};
use crate::text::{decimal, push_decimal, same_text};
use crate::text::{contains_text, infix, lowercase, to_lowercase};

verus! {

/// The groups the pane picker files kinds under.
#[derive(Debug, Clone, Copy, PartialEq, Eq, Structural, Hash)]
pub enum PaneCategory {
    Browse,
    Playback,
    Detail,
    Tools,
}

impl PaneCategory {
    pub open spec fn title_spec(self) -> Seq<char> {
        match self {
            PaneCategory::Browse => "Browse"@,
            PaneCategory::Playback => "Playback"@,
            PaneCategory::Detail => "Detail"@,
            PaneCategory::Tools => "Tools"@,
        }
    }

    pub fn title(self) -> (title: &'static str)
        ensures
            title@ == self.title_spec(),
    {
        match self {
            PaneCategory::Browse => "Browse",
            PaneCategory::Playback => "Playback",
            PaneCategory::Detail => "Detail",
            PaneCategory::Tools => "Tools",
        }
    }

    /// The place of the category in the picker.
    pub open spec fn rank(self) -> int {
        match self {
            PaneCategory::Browse => 0,
            PaneCategory::Playback => 1,
            PaneCategory::Detail => 2,
            PaneCategory::Tools => 3,
        }
    }
}

/// What a pane can contain.
#[derive(Debug, Clone, Copy, PartialEq, Eq, Structural, PartialOrd, Ord, Hash)]
pub enum PaneKind {
    Library,
    Search,
    Albums,
    Artists,
    Playlists,
    Collections,
    Folders,
    Queue,
    NowPlaying,
    Controls,
    Timeline,
    Volume,
    History,
    Lyrics,
    TrackInfo,
    Artwork,
    Visualizer,
    Equalizer,
    Empty,
}


/// Every kind, in the order the picker lists them.
pub open spec fn all_kinds() -> Seq<PaneKind> {
    seq![
        PaneKind::Library,
        PaneKind::Search,
        PaneKind::Albums,
        PaneKind::Artists,
        PaneKind::Playlists,
        PaneKind::Collections,
        PaneKind::Folders,
        PaneKind::Queue,
        PaneKind::NowPlaying,
        PaneKind::Controls,
        PaneKind::Timeline,
        PaneKind::Volume,
        PaneKind::History,
        PaneKind::Lyrics,
        PaneKind::TrackInfo,
        PaneKind::Artwork,
        PaneKind::Visualizer,
        PaneKind::Equalizer,
        PaneKind::Empty
    ]
}

impl PaneKind {
    pub const ALL: [PaneKind; 19] = [
        PaneKind::Library,
        PaneKind::Search,
        PaneKind::Albums,
        PaneKind::Artists,
        PaneKind::Playlists,
        PaneKind::Collections,
        PaneKind::Folders,
        PaneKind::Queue,
        PaneKind::NowPlaying,
        PaneKind::Controls,
        PaneKind::Timeline,
        PaneKind::Volume,
        PaneKind::History,
        PaneKind::Lyrics,
        PaneKind::TrackInfo,
        PaneKind::Artwork,
        PaneKind::Visualizer,
        PaneKind::Equalizer,
        PaneKind::Empty
    ];

    pub open spec fn title_spec(self) -> Seq<char> {
        match self {
            PaneKind::Library => "Library"@,
            PaneKind::Search => "Search"@,
            PaneKind::Albums => "Albums"@,
            PaneKind::Artists => "Artists"@,
            PaneKind::Playlists => "Playlists"@,
            PaneKind::Collections => "Collections"@,
            PaneKind::Folders => "Folders"@,
            PaneKind::Queue => "Queue"@,
            PaneKind::NowPlaying => "Now Playing"@,
            PaneKind::Controls => "Controls"@,
            PaneKind::Timeline => "Timeline"@,
            PaneKind::Volume => "Volume"@,
            PaneKind::History => "History"@,
            PaneKind::Lyrics => "Lyrics"@,
            PaneKind::TrackInfo => "Track Information"@,
            PaneKind::Artwork => "Artwork"@,
            PaneKind::Visualizer => "Visualizer"@,
            PaneKind::Equalizer => "Equalizer"@,
            PaneKind::Empty => "Empty"@,
        }
    }

    pub fn title(self) -> (title: &'static str)
        ensures
            title@ == self.title_spec(),
    {
        match self {
            PaneKind::Library => "Library",
            PaneKind::Search => "Search",
            PaneKind::Albums => "Albums",
            PaneKind::Artists => "Artists",
            PaneKind::Playlists => "Playlists",
            PaneKind::Collections => "Collections",
            PaneKind::Folders => "Folders",
            PaneKind::Queue => "Queue",
            PaneKind::NowPlaying => "Now Playing",
            PaneKind::Controls => "Controls",
            PaneKind::Timeline => "Timeline",
            PaneKind::Volume => "Volume",
            PaneKind::History => "History",
            PaneKind::Lyrics => "Lyrics",
            PaneKind::TrackInfo => "Track Information",
            PaneKind::Artwork => "Artwork",
            PaneKind::Visualizer => "Visualizer",
            PaneKind::Equalizer => "Equalizer",
            PaneKind::Empty => "Empty",
        }
    }

    pub open spec fn category_spec(self) -> PaneCategory {
        match self {
            PaneKind::Library => PaneCategory::Browse,
            PaneKind::Search => PaneCategory::Browse,
            PaneKind::Albums => PaneCategory::Browse,
            PaneKind::Artists => PaneCategory::Browse,
            PaneKind::Playlists => PaneCategory::Browse,
            PaneKind::Collections => PaneCategory::Browse,
            PaneKind::Folders => PaneCategory::Browse,
            PaneKind::Queue => PaneCategory::Playback,
            PaneKind::NowPlaying => PaneCategory::Playback,
            PaneKind::Controls => PaneCategory::Playback,
            PaneKind::Timeline => PaneCategory::Playback,
            PaneKind::Volume => PaneCategory::Playback,
            PaneKind::History => PaneCategory::Playback,
            PaneKind::Lyrics => PaneCategory::Detail,
            PaneKind::TrackInfo => PaneCategory::Detail,
            PaneKind::Artwork => PaneCategory::Detail,
            PaneKind::Visualizer => PaneCategory::Detail,
            PaneKind::Equalizer => PaneCategory::Tools,
            PaneKind::Empty => PaneCategory::Tools,
        }
    }

    pub fn category(self) -> (category: PaneCategory)
        ensures
            category == self.category_spec(),
    {
        match self {
            PaneKind::Library => PaneCategory::Browse,
            PaneKind::Search => PaneCategory::Browse,
            PaneKind::Albums => PaneCategory::Browse,
            PaneKind::Artists => PaneCategory::Browse,
            PaneKind::Playlists => PaneCategory::Browse,
            PaneKind::Collections => PaneCategory::Browse,
            PaneKind::Folders => PaneCategory::Browse,
            PaneKind::Queue => PaneCategory::Playback,
            PaneKind::NowPlaying => PaneCategory::Playback,
            PaneKind::Controls => PaneCategory::Playback,
            PaneKind::Timeline => PaneCategory::Playback,
            PaneKind::Volume => PaneCategory::Playback,
            PaneKind::History => PaneCategory::Playback,
            PaneKind::Lyrics => PaneCategory::Detail,
            PaneKind::TrackInfo => PaneCategory::Detail,
            PaneKind::Artwork => PaneCategory::Detail,
            PaneKind::Visualizer => PaneCategory::Detail,
            PaneKind::Equalizer => PaneCategory::Tools,
            PaneKind::Empty => PaneCategory::Tools,
        }
    }

    pub open spec fn keywords_spec(self) -> Seq<char> {
        match self {
            PaneKind::Library => "songs tracks music collection"@,
            PaneKind::Search => "filter find query lookup"@,
            PaneKind::Albums => "records releases discography"@,
            PaneKind::Artists => "bands performers musicians"@,
            PaneKind::Playlists => "mixes sets collections"@,
            PaneKind::Collections => "albums grid covers artwork browse library"@,
            PaneKind::Folders => "files directories browse disk"@,
            PaneKind::Queue => "up next playlist upcoming"@,
            PaneKind::NowPlaying => "current track player"@,
            PaneKind::Controls => "transport play pause next previous skip"@,
            PaneKind::Timeline => "seek bar scrub position progress elapsed"@,
            PaneKind::Volume => "loudness level mute gain slider sound"@,
            PaneKind::History => "recent played log past"@,
            PaneKind::Lyrics => "words text karaoke"@,
            PaneKind::TrackInfo => "metadata tags details properties"@,
            PaneKind::Artwork => "cover art album picture image sleeve"@,
            PaneKind::Visualizer => "spectrum waveform graphics visualizer"@,
            PaneKind::Equalizer => "eq bands tone audio equalizer"@,
            PaneKind::Empty => "blank none clear placeholder"@,
        }
    }

    pub fn keywords(self) -> (keywords: &'static str)
        ensures
            keywords@ == self.keywords_spec(),
    {
        match self {
            PaneKind::Library => "songs tracks music collection",
            PaneKind::Search => "filter find query lookup",
            PaneKind::Albums => "records releases discography",
            PaneKind::Artists => "bands performers musicians",
            PaneKind::Playlists => "mixes sets collections",
            PaneKind::Collections => "albums grid covers artwork browse library",
            PaneKind::Folders => "files directories browse disk",
            PaneKind::Queue => "up next playlist upcoming",
            PaneKind::NowPlaying => "current track player",
            PaneKind::Controls => "transport play pause next previous skip",
            PaneKind::Timeline => "seek bar scrub position progress elapsed",
            PaneKind::Volume => "loudness level mute gain slider sound",
            PaneKind::History => "recent played log past",
            PaneKind::Lyrics => "words text karaoke",
            PaneKind::TrackInfo => "metadata tags details properties",
            PaneKind::Artwork => "cover art album picture image sleeve",
            PaneKind::Visualizer => "spectrum waveform graphics visualizer",
            PaneKind::Equalizer => "eq bands tone audio equalizer",
            PaneKind::Empty => "blank none clear placeholder",
        }
    }

    /// Whether a query, already lowercased, finds this kind: in its title, its
    /// keywords, or its category's title.
    pub open spec fn matches_spec(self, query_lower: Seq<char>) -> bool {
        ||| infix(query_lower, lowercase(self.title_spec()))
        ||| infix(query_lower, self.keywords_spec())
        ||| infix(query_lower, lowercase(self.category_spec().title_spec()))
    }

    pub fn matches(self, query_lower: &str) -> (found: bool)
        ensures
            found == self.matches_spec(query_lower@),
    {
        let title = to_lowercase(self.title());
        if contains_text(title.as_str(), query_lower) {
            return true;
        }
        if contains_text(self.keywords(), query_lower) {
            return true;
        }
        let category = to_lowercase(self.category().title());
        contains_text(category.as_str(), query_lower)
    }
}


/// The kinds of the picker, joined back together from their groups.
pub open spec fn flatten(groups: Seq<(PaneCategory, Vec<PaneKind>)>) -> Seq<PaneKind>
    decreases groups.len(),
{
    if groups.len() == 0 {
        Seq::empty()
    } else {
        flatten(groups.drop_last()) + groups.last().1@
    }
}

/// `all_kinds` lists each category's kinds together, in picker order.
pub proof fn lemma_all_kinds_grouped()
    ensures
        all_kinds().len() == 19,
        forall|a: int| 0 <= a < 18 ==> all_kinds()[a].category_spec().rank() <= #[trigger] all_kinds()[a + 1].category_spec().rank(),
        forall|a: int, b: int| 0 <= a < b < 19 ==> all_kinds()[a] != all_kinds()[b],
{
    let k = all_kinds();
    assert(k[0] == PaneKind::Library);
    assert(k[1] == PaneKind::Search);
    assert(k[2] == PaneKind::Albums);
    assert(k[3] == PaneKind::Artists);
    assert(k[4] == PaneKind::Playlists);
    assert(k[5] == PaneKind::Collections);
    assert(k[6] == PaneKind::Folders);
    assert(k[7] == PaneKind::Queue);
    assert(k[8] == PaneKind::NowPlaying);
    assert(k[9] == PaneKind::Controls);
    assert(k[10] == PaneKind::Timeline);
    assert(k[11] == PaneKind::Volume);
    assert(k[12] == PaneKind::History);
    assert(k[13] == PaneKind::Lyrics);
    assert(k[14] == PaneKind::TrackInfo);
    assert(k[15] == PaneKind::Artwork);
    assert(k[16] == PaneKind::Visualizer);
    assert(k[17] == PaneKind::Equalizer);
    assert(k[18] == PaneKind::Empty);
}

impl PaneKind {
    /// The kinds, grouped by category: each group holds the run of kinds of
    /// one category, in picker order, and no category is split.
    pub fn by_category() -> (groups: Vec<(PaneCategory, Vec<PaneKind>)>)
        ensures
            flatten(groups@) == all_kinds(),
            forall|g: int| 0 <= g < groups@.len() ==> #[trigger] groups@[g].1@.len() > 0,
            forall|g: int, j: int| 0 <= g < groups@.len() && 0 <= j < groups@[g].1@.len()
                ==> #[trigger] groups@[g].1@[j].category_spec() == groups@[g].0,
            forall|g: int, h: int| 0 <= g < h < groups@.len() ==> #[trigger] groups@[g].0 != #[trigger] groups@[h].0,
    {
        proof { lemma_all_kinds_grouped(); }
        let all = PaneKind::ALL;
        proof { assert(all@ == all_kinds()); }
        let mut groups: Vec<(PaneCategory, Vec<PaneKind>)> = Vec::new();
        let mut i: usize = 0;
        while i < 19
            invariant
                i <= 19,
                all@ == all_kinds(),
                all_kinds().len() == 19,
                forall|a: int| 0 <= a < 18 ==> all_kinds()[a].category_spec().rank() <= #[trigger] all_kinds()[a + 1].category_spec().rank(),
                flatten(groups@) == all_kinds().take(i as int),
                i > 0 <==> groups@.len() > 0,
                i > 0 ==> groups@.last().0 == all_kinds()[i - 1].category_spec(),
                forall|g: int| 0 <= g < groups@.len() ==> #[trigger] groups@[g].1@.len() > 0,
                forall|g: int, j: int| 0 <= g < groups@.len() && 0 <= j < groups@[g].1@.len()
                    ==> #[trigger] groups@[g].1@[j].category_spec() == groups@[g].0,
                forall|g: int, h: int| 0 <= g < h < groups@.len() ==> groups@[g].0.rank() < groups@[h].0.rank(),
            decreases 19 - i,
        {
            let kind = all[i];
            let category = kind.category();
            let n = groups.len();
            let ghost before = groups@;
            proof {
                assert(all_kinds().take(i + 1) == all_kinds().take(i as int).push(kind));
            }
            if n > 0 && groups[n - 1].0 == category {
                let (held, mut kinds) = groups.pop().unwrap();
                let ghost inner = kinds@;
                kinds.push(kind);
                groups.push((held, kinds));
                proof {
                    assert(groups@.drop_last() == before.drop_last());
                    assert(flatten(groups@) == flatten(before.drop_last()) + inner.push(kind));
                    assert(flatten(before) == flatten(before.drop_last()) + inner);
                    assert(flatten(groups@) =~= flatten(before).push(kind));
                    assert forall|g: int, j: int| 0 <= g < groups@.len() && 0 <= j < groups@[g].1@.len()
                        implies #[trigger] groups@[g].1@[j].category_spec() == groups@[g].0 by {
                        if g < n - 1 {
                            assert(groups@[g] == before[g]);
                        }
                    }
                    assert forall|g: int| 0 <= g < groups@.len() implies #[trigger] groups@[g].1@.len() > 0 by {
                        if g < n - 1 {
                            assert(groups@[g] == before[g]);
                        }
                    }
                    assert forall|g: int, h: int| 0 <= g < h < groups@.len() implies groups@[g].0.rank() < groups@[h].0.rank() by {
                        assert(groups@[g].0 == before[g].0);
                        assert(groups@[h].0 == before[h].0);
                    }
                }
            } else {
                let mut kinds = Vec::new();
                kinds.push(kind);
                groups.push((category, kinds));
                proof {
                    assert(groups@.drop_last() == before);
                    assert(flatten(groups@) =~= flatten(before) + kinds@);
                    assert(kinds@ == seq![kind]);
                    assert(flatten(groups@) =~= flatten(before).push(kind));
                    if n > 0 {
                        assert(all_kinds()[i - 1].category_spec().rank() <= all_kinds()[i as int].category_spec().rank());
                        assert(before.last().0.rank() < category.rank());
                    }
                    assert forall|g: int, j: int| 0 <= g < groups@.len() && 0 <= j < groups@[g].1@.len()
                        implies #[trigger] groups@[g].1@[j].category_spec() == groups@[g].0 by {
                        if g < n {
                            assert(groups@[g] == before[g]);
                        }
                    }
                    assert forall|g: int| 0 <= g < groups@.len() implies #[trigger] groups@[g].1@.len() > 0 by {
                        if g < n {
                            assert(groups@[g] == before[g]);
                        }
                    }
                    assert forall|g: int, h: int| 0 <= g < h < groups@.len() implies groups@[g].0.rank() < groups@[h].0.rank() by {
                        if h < n {
                            assert(groups@[g] == before[g]);
                            assert(groups@[h] == before[h]);
                        } else {
                            assert(groups@[g] == before[g]);
                            if g < n - 1 {
                                assert(before[g].0.rank() < before[n - 1].0.rank());
                            }
                        }
                    }
                }
            }
            i += 1;
        }
        proof {
            assert(all_kinds().take(19) == all_kinds());
            assert forall|g: int, h: int| 0 <= g < h < groups@.len() implies #[trigger] groups@[g].0 != #[trigger] groups@[h].0 by {
                assert(groups@[g].0.rank() < groups@[h].0.rank());
            }
        }
        groups
    }

    /// The kinds a query finds, in picker order; the query is matched without
    /// regard to case.
    pub fn search(query: &str) -> (found: Vec<PaneKind>)
        ensures
            found@ == all_kinds().filter(|kind: PaneKind| kind.matches_spec(lowercase(query@))),
    {
        let query_lower = to_lowercase(query);
        let all = PaneKind::ALL;
        proof { assert(all@ == all_kinds()); }
        let mut found: Vec<PaneKind> = Vec::new();
        let mut i: usize = 0;
        while i < 19
            invariant
                i <= 19,
                all@ == all_kinds(),
                all_kinds().len() == 19,
                query_lower@ == lowercase(query@),
                found@ == all_kinds().take(i as int).filter(|kind: PaneKind| kind.matches_spec(lowercase(query@))),
            decreases 19 - i,
        {
            reveal_with_fuel(Seq::<_>::filter, 1);
            let kind = all[i];
            proof {
                assert(all_kinds().take(i + 1).drop_last() =~= all_kinds().take(i as int));
                assert(all_kinds().take(i + 1).last() == kind);
            }
            if kind.matches(query_lower.as_str()) {
                found.push(kind);
            }
            i += 1;
        }
        proof { assert(all_kinds().take(19) == all_kinds()); }
        found
    }
}


/// The noun for a count of tracks.
pub fn plural(count: usize) -> (noun: &'static str)
    ensures
        noun@ == if count == 1 { "track"@ } else { "tracks"@ },
{
    if count == 1 {
        "track"
    } else {
        "tracks"
    }
}

/// A running time of whole minutes as minutes, or as hours and minutes from
/// an hour on.
pub open spec fn span_text(minutes: nat) -> Seq<char> {
    if minutes < 60 {
        decimal(minutes) + " min"@
    } else if minutes % 60 == 0 {
        decimal(minutes / 60) + " hr"@
    } else {
        decimal(minutes / 60) + " hr "@ + decimal(minutes % 60) + " min"@
    }
}

/// A running time of whole minutes, such as `1 hr 30 min`.
pub fn span(minutes: u64) -> (text: String)
    ensures
        text@ == span_text(minutes as nat),
{
    let mut text = String::new();
    if minutes < 60 {
        push_decimal(&mut text, minutes);
        text.append(" min");
    } else {
        push_decimal(&mut text, minutes / 60);
        if minutes % 60 == 0 {
            text.append(" hr");
        } else {
            text.append(" hr ");
            push_decimal(&mut text, minutes % 60);
            text.append(" min");
        }
    }
    proof {
        assert(text@ =~= span_text(minutes as nat));
    }
    text
}

/// How a list of tracks is labelled: the count, the noun, and the running
/// time, such as `12 tracks · 1 hr 30 min`.
pub open spec fn summary_text(count: nat, minutes: nat) -> Seq<char> {
    decimal(count) + " "@ + (if count == 1 { "track"@ } else { "tracks"@ }) + " \u{b7} "@ + span_text(minutes)
}

/// How a list of tracks is labelled, from its count and its running time in
/// whole minutes.
pub fn summary(count: usize, minutes: u64) -> (text: String)
    ensures
        text@ == summary_text(count as nat, minutes as nat),
{
    let mut text = String::new();
    push_decimal(&mut text, count as u64);
    text.append(" ");
    text.append(plural(count));
    text.append(" \u{b7} ");
    let tail = span(minutes);
    text.append(tail.as_str());
    proof {
        assert(text@ =~= summary_text(count as nat, minutes as nat));
    }
    text
}

/// A message for one pane's own state.
#[derive(Debug, Clone)]
pub enum PaneMessage<P> {
    Queue(queue::Message),
    Timeline(timeline::Message<P>),
    Collections(collections::PanelMessage),
}

/// What one pane holds of its own: only what two panes of one kind may
/// disagree about. `P` is a position on a timeline's rail, `H` a drawn cover.
#[derive(Debug)]
pub enum PaneState<P, H> {
    Queue(queue::State),
    Timeline(timeline::State<P>),
    Artwork(artwork::State<H>),
    Collections(collections::State),
    Stateless,
}

/// The state a pane of a kind starts with.
pub open spec fn fresh_state<P, H>(kind: PaneKind) -> PaneState<P, H> {
    match kind {
        PaneKind::Queue => PaneState::Queue(queue::State { show_history: false }),
        PaneKind::Timeline => PaneState::Timeline(timeline::State { show_remaining: false, hovered: None }),
        PaneKind::Artwork => PaneState::Artwork(artwork::State { last: None }),
        PaneKind::Collections => PaneState::Collections(collections::State { expanded: None, hovered: None }),
        _ => PaneState::Stateless,
    }
}

impl<P, H> PaneState<P, H> {
    /// The state a pane of `kind` starts with.
    pub fn for_kind(kind: PaneKind) -> (state: Self)
        ensures
            state == fresh_state::<P, H>(kind),
    {
        match kind {
            PaneKind::Queue => PaneState::Queue(queue::State { show_history: false }),
            PaneKind::Timeline => PaneState::Timeline(timeline::State { show_remaining: false, hovered: None }),
            PaneKind::Artwork => PaneState::Artwork(artwork::State { last: None }),
            PaneKind::Collections => PaneState::Collections(collections::State { expanded: None, hovered: None }),
            _ => PaneState::Stateless,
        }
    }
}

/// The state of every pane that has some, by pane.
#[derive(Debug)]
pub struct PaneStates<P, H> {
    states: Vec<(PaneId, PaneState<P, H>)>,
}

impl<P, H> View for PaneStates<P, H> {
    type V = Map<PaneId, PaneState<P, H>>;

    closed spec fn view(&self) -> Map<PaneId, PaneState<P, H>> {
        table(self.states@)
    }
}

impl<P, H> Default for PaneStates<P, H> {
    /// No pane has state.
    fn default() -> (states: Self)
        ensures
            states@ == Map::<PaneId, PaneState<P, H>>::empty(),
    {
        PaneStates { states: Vec::new() }
    }
}

impl<P, H> PaneStates<P, H> {
    /// Where the last pair for `id` stands, if any.
    fn place(&self, id: PaneId) -> (place: Option<usize>)
        ensures
            match place {
                Some(i) => i < self.states@.len() && self.states@[i as int].0 == id && forall|j: int|
                    i < j < self.states@.len() ==> self.states@[j].0 != id,
                None => forall|j: int| 0 <= j < self.states@.len() ==> self.states@[j].0 != id,
            },
    {
        let mut end = self.states.len();
        while end > 0
            invariant
                end <= self.states@.len(),
                forall|j: int| end <= j < self.states@.len() ==> self.states@[j].0 != id,
            decreases end,
        {
            if self.states[end - 1].0 == id {
                return Some(end - 1);
            }
            end -= 1;
        }
        None
    }

    /// The state of pane `id`, if it has any.
    pub fn get(&self, id: PaneId) -> (state: Option<&PaneState<P, H>>)
        ensures
            match state {
                Some(s) => self@.contains_key(id) && *s == self@[id],
                None => !self@.contains_key(id),
            },
    {
        match self.place(id) {
            Some(i) => {
                proof {
                    lemma_table_last(self.states@, i as int);
                }
                Some(&self.states[i].1)
            },
            None => {
                proof {
                    lemma_table_absent(self.states@, id);
                }
                None
            },
        }
    }

    /// The state of pane `id` to change in place, if it has any.
    pub fn get_mut(&mut self, id: PaneId) -> (state: Option<&mut PaneState<P, H>>)
        ensures
            match state {
                Some(s) => {
                    &&& old(self)@.contains_key(id)
                    &&& *s == old(self)@[id]
                    &&& final(self)@ == old(self)@.insert(id, *final(s))
                },
                None => !old(self)@.contains_key(id) && final(self)@ == old(self)@,
            },
    {
        match self.place(id) {
            Some(i) => {
                proof {
                    lemma_table_last(self.states@, i as int);
                }
                Some(&mut self.states[i].1)
            },
            None => {
                proof {
                    lemma_table_absent(self.states@, id);
                }
                None
            },
        }
    }
}


/// Whether `after` is what `message` makes of a pane's state `before`: a
/// message for another kind of pane changes nothing.
pub open spec fn stepped<P, H>(before: PaneState<P, H>, after: PaneState<P, H>, message: PaneMessage<P>) -> bool {
    match (before, message) {
        (PaneState::Queue(state), PaneMessage::Queue(m)) => after == PaneState::<P, H>::Queue(
            queue::updated(state, m),
        ),
        (PaneState::Timeline(state), PaneMessage::Timeline(m)) => after == PaneState::<P, H>::Timeline(
            timeline::updated(state, m),
        ),
        (PaneState::Collections(state), PaneMessage::Collections(m)) => after matches PaneState::Collections(now)
            && (collections::named(now.expanded), collections::named(now.hovered)) == collections::updated(
            collections::named(state.expanded),
            collections::named(state.hovered),
            m,
        ),
        _ => after == before,
    }
}

fn listed(live: &[PaneId], id: PaneId) -> (found: bool)
    ensures
        found == live@.contains(id),
{
    let mut i: usize = 0;
    while i < live.len()
        invariant
            i <= live@.len(),
            forall|j: int| 0 <= j < i ==> live@[j] != id,
        decreases live@.len() - i,
    {
        if live[i] == id {
            return true;
        }
        i += 1;
    }
    false
}

/// Which panes a pass over the states keeps.
enum Keep<'a> {
    AllBut(PaneId),
    Among(&'a [PaneId]),
}

impl<'a> Keep<'a> {
    spec fn set(&self) -> Set<PaneId> {
        match self {
            Keep::AllBut(gone) => Set::new(|id: PaneId| id != *gone),
            Keep::Among(live) => live@.to_set(),
        }
    }

    fn keeps(&self, id: PaneId) -> (keeps: bool)
        ensures
            keeps == self.set().contains(id),
    {
        match self {
            Keep::AllBut(gone) => id != *gone,
            Keep::Among(live) => listed(live, id),
        }
    }
}

impl<P, H> PaneStates<P, H> {
    fn keep_only(&mut self, keep: Keep)
        ensures
            final(self)@ == old(self)@.restrict(keep.set()),
    {
        let mut rest = Vec::new();
        std::mem::swap(&mut rest, &mut self.states);
        let ghost initial = rest@;
        let mut kept_so_far: Vec<(PaneId, PaneState<P, H>)> = Vec::new();
        let mut taken: usize = 0;
        let count = rest.len();
        proof {
            assert(initial.len() == count);
            assert(initial.skip(0) =~= initial);
            assert(initial.take(0) =~= Seq::<(PaneId, PaneState<P, H>)>::empty());
        }
        while rest.len() > 0
            invariant
                taken <= initial.len() <= usize::MAX,
                rest@ == initial.skip(taken as int),
                kept_so_far@ == kept(initial.take(taken as int), keep.set()),
            decreases rest@.len(),
        {
            let entry = rest.remove(0);
            proof {
                assert(initial.take(taken + 1).drop_last() =~= initial.take(taken as int));
                assert(initial.skip(taken as int)[0] == initial[taken as int]);
                assert(rest@ =~= initial.skip(taken + 1));
            }
            if keep.keeps(entry.0) {
                kept_so_far.push(entry);
            }
            taken += 1;
        }
        proof {
            assert(initial.take(taken as int) =~= initial);
            lemma_kept(initial, keep.set());
        }
        self.states = kept_so_far;
    }

    /// Forgets the state of pane `id`.
    pub fn remove(&mut self, id: PaneId)
        ensures
            final(self)@ == old(self)@.remove(id),
    {
        self.keep_only(Keep::AllBut(id));
        proof {
            assert(old(self)@.restrict(Set::new(|k: PaneId| k != id)) =~= old(self)@.remove(id));
        }
    }

    /// Forgets the state of every pane not in `live`.
    pub fn retain(&mut self, live: &[PaneId])
        ensures
            final(self)@ == old(self)@.restrict(live@.to_set()),
    {
        self.keep_only(Keep::Among(live));
    }

    /// Gives pane `id` the state a pane of `kind` starts with, unless it
    /// already has state.
    pub fn ensure(&mut self, id: PaneId, kind: PaneKind)
        ensures
            final(self)@ == if old(self)@.contains_key(id) {
                old(self)@
            } else {
                old(self)@.insert(id, fresh_state::<P, H>(kind))
            },
    {
        if self.get(id).is_none() {
            let ghost before = self.states@;
            self.states.push((id, PaneState::for_kind(kind)));
            proof {
                assert(self.states@.drop_last() =~= before);
            }
        }
    }

    /// Gives pane `id` the state a pane of `kind` starts with, in place of
    /// whatever it had.
    pub fn reset(&mut self, id: PaneId, kind: PaneKind)
        ensures
            final(self)@ == old(self)@.insert(id, fresh_state::<P, H>(kind)),
    {
        self.remove(id);
        let ghost before = self.states@;
        self.states.push((id, PaneState::for_kind(kind)));
        proof {
            assert(self.states@.drop_last() =~= before);
            assert(self@ =~= old(self)@.insert(id, fresh_state::<P, H>(kind)));
        }
    }
}

impl<P: Copy, H> PaneStates<P, H> {
    /// Hands a message to pane `id`'s state, where it has state of the kind
    /// the message is for.
    pub fn update(&mut self, id: PaneId, message: PaneMessage<P>)
        ensures
            if old(self)@.contains_key(id) {
                &&& final(self)@.contains_key(id)
                &&& final(self)@ == old(self)@.insert(id, final(self)@[id])
                &&& stepped(old(self)@[id], final(self)@[id], message)
            } else {
                final(self)@ == old(self)@
            },
    {
        match self.get_mut(id) {
            Some(state) => {
                match state {
                    PaneState::Queue(held) => {
                        if let PaneMessage::Queue(m) = &message {
                            queue::update(held, m);
                        }
                    },
                    PaneState::Timeline(held) => {
                        if let PaneMessage::Timeline(m) = &message {
                            timeline::update(held, m);
                        }
                    },
                    PaneState::Collections(held) => {
                        if let PaneMessage::Collections(m) = &message {
                            collections::update(held, m);
                        }
                    },
                    _ => {},
                }
            },
            None => {},
        }
    }
}


/// The kinds of pane of the earlier, fixed pane set, by title.
#[derive(Debug, Clone, Copy, PartialEq, Eq, Structural)]
pub enum PaneType {
    Controls,
    Queue,
    Library,
    Collections,
    Artwork,
    Timeline,
    Spectrum,
    VUMeters,
    TrackInfo,
    Empty,
}

impl PaneType {
    pub const ALL: [PaneType; 10] = [PaneType::Controls, PaneType::Queue, PaneType::Library, PaneType::Collections, PaneType::Artwork, PaneType::Timeline, PaneType::Spectrum, PaneType::VUMeters, PaneType::TrackInfo, PaneType::Empty];

    pub open spec fn title_spec(self) -> Seq<char> {
        match self {
            PaneType::Controls => "Controls"@,
            PaneType::Queue => "Queue"@,
            PaneType::Library => "Library"@,
            PaneType::Collections => "Collections"@,
            PaneType::Artwork => "Artwork"@,
            PaneType::Timeline => "Timeline"@,
            PaneType::Spectrum => "Spectrum"@,
            PaneType::VUMeters => "VU Meters"@,
            PaneType::TrackInfo => "Track Info"@,
            PaneType::Empty => "Empty"@,
        }
    }

    pub fn title(&self) -> (title: &'static str)
        ensures
            title@ == self.title_spec(),
    {
        match self {
            PaneType::Controls => "Controls",
            PaneType::Queue => "Queue",
            PaneType::Library => "Library",
            PaneType::Collections => "Collections",
            PaneType::Artwork => "Artwork",
            PaneType::Timeline => "Timeline",
            PaneType::Spectrum => "Spectrum",
            PaneType::VUMeters => "VU Meters",
            PaneType::TrackInfo => "Track Info",
            PaneType::Empty => "Empty",
        }
    }
}

/// The pane type whose title has the mark `n`.
pub open spec fn type_marked(n: int) -> PaneType {
    if n == 17889778 {
        PaneType::Controls
    } else if n == 11825893 {
        PaneType::Queue
    } else if n == 15940850 {
        PaneType::Library
    } else if n == 24181219 {
        PaneType::Collections
    } else if n == 15758839 {
        PaneType::Artwork
    } else if n == 18166508 {
        PaneType::Timeline
    } else if n == 18151156 {
        PaneType::Spectrum
    } else if n == 20298213 {
        PaneType::VUMeters
    } else if n == 22362016 {
        PaneType::TrackInfo
    } else if n == 11631856 {
        PaneType::Empty
    } else {
        PaneType::Empty
    }
}

proof fn lemma_type_mark(t: PaneType)
    ensures
        type_marked(name_mark(t.title_spec())) == t,
{
    match t {
        PaneType::Controls => { reveal_strlit("Controls"); },
        PaneType::Queue => { reveal_strlit("Queue"); },
        PaneType::Library => { reveal_strlit("Library"); },
        PaneType::Collections => { reveal_strlit("Collections"); },
        PaneType::Artwork => { reveal_strlit("Artwork"); },
        PaneType::Timeline => { reveal_strlit("Timeline"); },
        PaneType::Spectrum => { reveal_strlit("Spectrum"); },
        PaneType::VUMeters => { reveal_strlit("VU Meters"); },
        PaneType::TrackInfo => { reveal_strlit("Track Info"); },
        PaneType::Empty => { reveal_strlit("Empty"); },
    }
}

/// The pane type titled `s`, or `Empty` where no type is.
pub open spec fn type_titled(s: Seq<char>) -> PaneType {
    if exists|t: PaneType| t.title_spec() == s {
        choose|t: PaneType| t.title_spec() == s
    } else {
        PaneType::Empty
    }
}

proof fn lemma_type_titled(s: Seq<char>, t: PaneType)
    requires
        t.title_spec() == s,
    ensures
        type_titled(s) == t,
{
    let u = choose|u: PaneType| u.title_spec() == s;
    lemma_type_mark(t);
    lemma_type_mark(u);
}

impl PaneType {
    /// The pane type titled `s`, or `Empty` for a title no type has.
    pub fn from_title(s: &str) -> (found: Self)
        ensures
            found == type_titled(s@),
    {
    if same_text(s, "Controls") {
        proof { lemma_type_titled(s@, PaneType::Controls); }
        return PaneType::Controls;
    }
    if same_text(s, "Queue") {
        proof { lemma_type_titled(s@, PaneType::Queue); }
        return PaneType::Queue;
    }
    if same_text(s, "Library") {
        proof { lemma_type_titled(s@, PaneType::Library); }
        return PaneType::Library;
    }
    if same_text(s, "Collections") {
        proof { lemma_type_titled(s@, PaneType::Collections); }
        return PaneType::Collections;
    }
    if same_text(s, "Artwork") {
        proof { lemma_type_titled(s@, PaneType::Artwork); }
        return PaneType::Artwork;
    }
    if same_text(s, "Timeline") {
        proof { lemma_type_titled(s@, PaneType::Timeline); }
        return PaneType::Timeline;
    }
    if same_text(s, "Spectrum") {
        proof { lemma_type_titled(s@, PaneType::Spectrum); }
        return PaneType::Spectrum;
    }
    if same_text(s, "VU Meters") {
        proof { lemma_type_titled(s@, PaneType::VUMeters); }
        return PaneType::VUMeters;
    }
    if same_text(s, "Track Info") {
        proof { lemma_type_titled(s@, PaneType::TrackInfo); }
        return PaneType::TrackInfo;
    }
    if same_text(s, "Empty") {
        proof { lemma_type_titled(s@, PaneType::Empty); }
        return PaneType::Empty;
    }
        PaneType::Empty
    }
}

/// Every pane type comes back from its own title.
pub proof fn lemma_title_round_trip(t: PaneType)
    ensures
        type_titled(t.title_spec()) == t,
{
    lemma_type_titled(t.title_spec(), t);
}

} // verus!

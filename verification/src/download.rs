//! Download state: what has been searched for online, what an album opened
//! from the results holds, and what is downloading.
//!
//! Searches are issued as the query changes and replies can land out of
//! order, so every change moves a [`Generation`] counter on and a reply is
//! only taken when it carries the generation still pending. A search in
//! flight keeps whatever results are already on screen.

use vstd::prelude::*;

use crate::text::{same_text, trim, trimmed};

verus! {

pub const SEARCH_LIMIT: usize = 20;

pub const ALBUM_LIMIT: usize = 12;

#[verifier::external_type_specification]
#[verifier::external_body]
pub struct ExPathBuf(std::path::PathBuf);

/// Which change of the query a search was issued under.
#[derive(Debug, Clone, Copy, PartialEq, Eq, Structural, PartialOrd, Ord, Default)]
pub struct Generation(pub u64);

impl Generation {
    pub open spec fn after(self) -> Generation {
        Generation(if self.0 == u64::MAX { 0 } else { (self.0 + 1) as u64 })
    }

    /// The generation after this one; it wraps rather than stopping.
    pub fn next(self) -> (next: Self)
        ensures
            next == self.after(),
    {
        Generation(self.0.wrapping_add(1))
    }
}

/// A generation is never followed by itself, not even at the end of its
/// range.
pub proof fn lemma_generation_moves(g: Generation)
    ensures
        g.after() != g,
{
}

/// A recording found online.
#[derive(Debug, Clone)]
pub struct Found {
    pub id: String,
    pub title: String,
    pub artist: Option<String>,
    pub album: Option<String>,
    pub album_id: Option<String>,
    pub duration: Option<u32>,
    pub cover_url: Option<String>,
    pub explicit: bool,
}

/// An album found online, with its tracks.
#[derive(Debug, Clone)]
pub struct FoundAlbum {
    pub id: String,
    pub title: String,
    pub artist: Option<String>,
    pub year: Option<u32>,
    pub cover_url: Option<String>,
    pub explicit: bool,
    pub tracks: Vec<Found>,
}

/// What a search answered.
#[derive(Debug, Clone)]
pub struct Results {
    pub albums: Vec<FoundAlbum>,
    pub tracks: Vec<Found>,
}

impl Results {
    pub open spec fn empty_spec(&self) -> bool {
        self.albums@.len() == 0 && self.tracks@.len() == 0
    }

    pub fn is_empty(&self) -> (empty: bool)
        ensures
            empty == self.empty_spec(),
    {
        self.albums.len() == 0 && self.tracks.len() == 0
    }
}

/// An album opened from the results.
#[derive(Debug, Clone)]
pub enum Opened {
    Loading(String),
    Ready(Box<FoundAlbum>),
    Failed(String, String),
}

impl Opened {
    pub open spec fn id_spec(&self) -> Seq<char> {
        match self {
            Opened::Loading(id) => id@,
            Opened::Failed(id, _) => id@,
            Opened::Ready(album) => album.id@,
        }
    }

    pub fn id(&self) -> (id: &str)
        ensures
            id@ == self.id_spec(),
    {
        match self {
            Opened::Loading(id) => id.as_str(),
            Opened::Failed(id, _) => id.as_str(),
            Opened::Ready(album) => album.id.as_str(),
        }
    }

    pub fn album(&self) -> (album: Option<&FoundAlbum>)
        ensures
            match self {
                Opened::Ready(held) => album == Some(&**held),
                _ => album is None,
            },
    {
        match self {
            Opened::Ready(album) => Some(album),
            _ => None,
        }
    }
}

/// Where a search stands.
#[derive(Debug, Clone)]
pub enum Stage {
    Idle,
    Searching,
    Results(Box<Results>),
    Failed(String),
}

impl Stage {
    pub open spec fn tracks_spec(&self) -> Seq<Found> {
        match self {
            Stage::Results(results) => results.tracks@,
            _ => Seq::empty(),
        }
    }

    pub open spec fn albums_spec(&self) -> Seq<FoundAlbum> {
        match self {
            Stage::Results(results) => results.albums@,
            _ => Seq::empty(),
        }
    }

    pub open spec fn holds_results_spec(&self) -> bool {
        match self {
            Stage::Results(results) => !results.empty_spec(),
            _ => false,
        }
    }

    pub fn tracks(&self) -> (tracks: &[Found])
        ensures
            tracks@ == self.tracks_spec(),
    {
        match self {
            Stage::Results(results) => results.tracks.as_slice(),
            _ => &[],
        }
    }

    pub fn albums(&self) -> (albums: &[FoundAlbum])
        ensures
            albums@ == self.albums_spec(),
    {
        match self {
            Stage::Results(results) => results.albums.as_slice(),
            _ => &[],
        }
    }

    pub fn is_busy(&self) -> (busy: bool)
        ensures
            busy == self is Searching,
    {
        matches!(self, Stage::Searching)
    }

    pub fn holds_results(&self) -> (holds: bool)
        ensures
            holds == self.holds_results_spec(),
    {
        match self {
            Stage::Results(results) => !results.is_empty(),
            _ => false,
        }
    }
}

/// One download. `P` is the share of it done so far.
#[derive(Debug, Clone)]
pub enum Download<P> {
    Queued,
    Running(P),
    Done(i64),
    Failed(String),
}

impl<P> Download<P> {
    pub open spec fn settled_spec(&self) -> bool {
        self is Done || self is Failed
    }

    pub fn is_settled(&self) -> (settled: bool)
        ensures
            settled == self.settled_spec(),
    {
        match self {
            Download::Done(_) | Download::Failed(_) => true,
            _ => false,
        }
    }
}


/// Whether `key` is filed in `entries`.
pub open spec fn has_key<P>(entries: Seq<(String, Download<P>)>, key: Seq<char>) -> bool {
    exists|i: int| 0 <= i < entries.len() && entries[i].0@ == key
}

/// Whether no key is filed twice in `entries`.
pub open spec fn keys_unique<P>(entries: Seq<(String, Download<P>)>) -> bool {
    forall|i: int, j: int| 0 <= i < j < entries.len() ==> entries[i].0@ != entries[j].0@
}

/// The state filed under `key` in `entries`.
pub open spec fn state_of<P>(entries: Seq<(String, Download<P>)>, key: Seq<char>) -> Option<Download<P>> {
    if has_key(entries, key) {
        Some(entries[choose|i: int| 0 <= i < entries.len() && entries[i].0@ == key].1)
    } else {
        None
    }
}

proof fn lemma_state_at<P>(entries: Seq<(String, Download<P>)>, i: int)
    requires
        keys_unique(entries),
        0 <= i < entries.len(),
    ensures
        state_of(entries, entries[i].0@) == Some(entries[i].1),
{
    let key = entries[i].0@;
    assert(has_key(entries, key));
    let j = choose|j: int| 0 <= j < entries.len() && entries[j].0@ == key;
    if j < i {
        assert(entries[j].0@ != entries[i].0@);
    } else if i < j {
        assert(entries[i].0@ != entries[j].0@);
    }
}

proof fn lemma_state_push<P>(entries: Seq<(String, Download<P>)>, entry: (String, Download<P>))
    requires
        keys_unique(entries),
        !has_key(entries, entry.0@),
    ensures
        keys_unique(entries.push(entry)),
        forall|key: Seq<char>| #[trigger] state_of(entries.push(entry), key)
            == if key == entry.0@ { Some(entry.1) } else { state_of(entries, key) },
{
    let grown = entries.push(entry);
    assert forall|i: int, j: int| 0 <= i < j < grown.len() implies grown[i].0@ != grown[j].0@ by {
        if j == entries.len() {
            assert(entries[i].0@ != entry.0@);
        }
    }
    assert forall|key: Seq<char>| #[trigger] state_of(grown, key)
        == if key == entry.0@ { Some(entry.1) } else { state_of(entries, key) } by {
        if key == entry.0@ {
            lemma_state_at(grown, entries.len() as int);
        } else if has_key(entries, key) {
            let i = choose|i: int| 0 <= i < entries.len() && entries[i].0@ == key;
            lemma_state_at(entries, i);
            lemma_state_at(grown, i);
        } else {
            assert(!has_key(grown, key)) by {
                if has_key(grown, key) {
                    let i = choose|i: int| 0 <= i < grown.len() && grown[i].0@ == key;
                    assert(entries[i].0@ == key);
                }
            }
        }
    }
}

proof fn lemma_state_update<P>(entries: Seq<(String, Download<P>)>, i: int, state: Download<P>)
    requires
        keys_unique(entries),
        0 <= i < entries.len(),
    ensures
        keys_unique(entries.update(i, (entries[i].0, state))),
        forall|key: Seq<char>| #[trigger] state_of(entries.update(i, (entries[i].0, state)), key)
            == if key == entries[i].0@ { Some(state) } else { state_of(entries, key) },
{
    let changed = entries.update(i, (entries[i].0, state));
    assert forall|key: Seq<char>| #[trigger] state_of(changed, key)
        == if key == entries[i].0@ { Some(state) } else { state_of(entries, key) } by {
        if key == entries[i].0@ {
            lemma_state_at(changed, i);
        } else if has_key(entries, key) {
            let j = choose|j: int| 0 <= j < entries.len() && entries[j].0@ == key;
            lemma_state_at(entries, j);
            lemma_state_at(changed, j);
        } else {
            assert(!has_key(changed, key)) by {
                if has_key(changed, key) {
                    let j = choose|j: int| 0 <= j < changed.len() && changed[j].0@ == key;
                    assert(entries[j].0@ == key);
                }
            }
        }
    }
}

/// Downloads in progress or finished, keyed by the recording's id rather than
/// by the row they were started from, and the files that have landed but not
/// yet been handed to the library.
#[derive(Debug)]
pub struct Downloads<P> {
    by_id: Vec<(String, Download<P>)>,
    landed: Vec<(String, std::path::PathBuf)>,
}

impl<P> Downloads<P> {
    #[verifier::type_invariant]
    closed spec fn inv(self) -> bool {
        keys_unique(self.by_id@)
    }

    /// What is filed for `id`.
    pub closed spec fn state(&self, id: Seq<char>) -> Option<Download<P>> {
        state_of(self.by_id@, id)
    }

    /// The files waiting to be handed over, in the order they landed.
    pub closed spec fn landed_spec(&self) -> Seq<(String, std::path::PathBuf)> {
        self.landed@
    }

    /// How many downloads have not settled.
    pub closed spec fn running_spec(&self) -> nat {
        self.by_id@.filter(|e: (String, Download<P>)| !e.1.settled_spec()).len()
    }
}

impl<P> Default for Downloads<P> {
    fn default() -> (downloads: Self)
        ensures
            forall|id: Seq<char>| #[trigger] downloads.state(id) is None,
            downloads.landed_spec().len() == 0,
            downloads.running_spec() == 0,
    {
        let downloads = Downloads { by_id: Vec::new(), landed: Vec::new() };
        proof {
            reveal_with_fuel(Seq::<_>::filter, 1);
        }
        downloads
    }
}

impl<P> Downloads<P> {
    fn slot(&self, id: &str) -> (found: Option<usize>)
        ensures
            match found {
                Some(i) => i < self.by_id.len() && self.by_id@[i as int].0@ == id@,
                None => !has_key(self.by_id@, id@),
            },
    {
        let mut i: usize = 0;
        while i < self.by_id.len()
            invariant
                i <= self.by_id.len(),
                forall|j: int| 0 <= j < i ==> self.by_id@[j].0@ != id@,
            decreases self.by_id.len() - i,
        {
            if same_text(self.by_id[i].0.as_str(), id) {
                return Some(i);
            }
            i += 1;
        }
        None
    }

    pub fn get(&self, id: &str) -> (state: Option<&Download<P>>)
        ensures
            match state {
                Some(s) => self.state(id@) == Some(*s),
                None => self.state(id@) is None,
            },
    {
        proof { use_type_invariant(self); }
        match self.slot(id) {
            Some(i) => {
                proof { lemma_state_at(self.by_id@, i as int); }
                Some(&self.by_id[i].1)
            },
            None => None,
        }
    }

    pub fn holds(&self, id: &str) -> (held: bool)
        ensures
            held == self.state(id@) is Some,
    {
        self.get(id).is_some()
    }

    /// Files `state` under `id`, replacing whatever was there.
    pub fn set(&mut self, id: &str, state: Download<P>)
        ensures
            forall|key: Seq<char>| #[trigger] final(self).state(key)
                == if key == id@ { Some(state) } else { old(self).state(key) },
            final(self).landed_spec() == old(self).landed_spec(),
    {
        proof { use_type_invariant(&*self); }
        let found = self.slot(id);
        let mut by_id = Vec::new();
        std::mem::swap(&mut by_id, &mut self.by_id);
        let ghost before = by_id@;
        match found {
            Some(i) => {
                let (key, _) = by_id.remove(i);
                by_id.insert(i, (key, state));
                proof {
                    assert(by_id@ == before.update(i as int, (before[i as int].0, state)));
                    lemma_state_update(before, i as int, state);
                }
            },
            None => {
                by_id.push((id.to_owned(), state));
                proof {
                    lemma_state_push(before, by_id@.last());
                    assert(by_id@ == before.push(by_id@.last()));
                }
            },
        }
        self.by_id = by_id;
    }

    /// Records that the file for `id` has finished landing at `path`: it reads
    /// as complete at once, shown by `complete`, and waits to be handed over.
    pub fn landed(&mut self, id: &str, path: std::path::PathBuf, complete: P)
        ensures
            forall|key: Seq<char>| #[trigger] final(self).state(key)
                == if key == id@ { Some(Download::Running(complete)) } else { old(self).state(key) },
            final(self).landed_spec().len() == old(self).landed_spec().len() + 1,
            final(self).landed_spec().drop_last() == old(self).landed_spec(),
            final(self).landed_spec().last().0@ == id@,
            final(self).landed_spec().last().1 == path,
    {
        self.set(id, Download::Running(complete));
        proof { use_type_invariant(&*self); }
        let ghost mid = self.by_id@;
        let ghost after_set = *self;
        let mut landed = Vec::new();
        std::mem::swap(&mut landed, &mut self.landed);
        landed.push((id.to_owned(), path));
        self.landed = landed;
        proof {
            assert(self.landed@.drop_last() == old(self).landed_spec());
            assert(self.by_id@ == mid);
            assert forall|key: Seq<char>| #[trigger] self.state(key)
                == if key == id@ { Some(Download::Running(complete)) } else { old(self).state(key) } by {
                assert(after_set.state(key) == if key == id@ { Some(Download::Running(complete)) } else { old(self).state(key) });
                assert(self.state(key) == after_set.state(key));
            }
        }
    }

    pub fn waiting(&self) -> (waiting: bool)
        ensures
            waiting == (self.landed_spec().len() > 0),
    {
        self.landed.len() > 0
    }

    /// Hands over every file that has landed, once.
    pub fn take_landed(&mut self) -> (taken: Vec<(String, std::path::PathBuf)>)
        ensures
            taken@ == old(self).landed_spec(),
            final(self).landed_spec().len() == 0,
            forall|key: Seq<char>| #[trigger] final(self).state(key) == old(self).state(key),
    {
        proof { use_type_invariant(&*self); }
        let mut taken = Vec::new();
        std::mem::swap(&mut taken, &mut self.landed);
        taken
    }

    /// How many downloads have not settled.
    pub fn running(&self) -> (count: usize)
        ensures
            count == self.running_spec(),
    {
        let ghost all = self.by_id@;
        let mut count: usize = 0;
        let mut i: usize = 0;
        while i < self.by_id.len()
            invariant
                i <= self.by_id.len(),
                all == self.by_id@,
                count == all.take(i as int).filter(|e: (String, Download<P>)| !e.1.settled_spec()).len(),
                count <= i,
            decreases self.by_id.len() - i,
        {
            reveal_with_fuel(Seq::<_>::filter, 1);
            proof {
                assert(all.take(i + 1).drop_last() =~= all.take(i as int));
                assert(all.take(i + 1).last() == all[i as int]);
            }
            if !self.by_id[i].1.is_settled() {
                count += 1;
            }
            i += 1;
        }
        proof { assert(all.take(i as int) == all); }
        count
    }

    /// Forgets every download that has settled, keeping those still running.
    pub fn forget_settled(&mut self)
        ensures
            forall|key: Seq<char>| #[trigger] final(self).state(key) == match old(self).state(key) {
                Some(s) => if s.settled_spec() { None } else { Some(s) },
                None => None,
            },
            final(self).landed_spec() == old(self).landed_spec(),
    {
        proof { use_type_invariant(&*self); }
        let mut rest = Vec::new();
        std::mem::swap(&mut rest, &mut self.by_id);
        let ghost all = rest@;
        proof { assert(all.len() == rest.len()); }
        let mut kept: Vec<(String, Download<P>)> = Vec::new();
        let mut i: usize = 0;
        while rest.len() > 0
            invariant
                i <= all.len(),
                i + rest.len() == all.len(),
                all.len() <= usize::MAX,
                rest@ == all.skip(i as int),
                keys_unique(all),
                keys_unique(kept@),
                forall|key: Seq<char>| has_key(kept@, key) ==> has_key(all.take(i as int), key),
                forall|key: Seq<char>| #[trigger] state_of(kept@, key) == match state_of(all.take(i as int), key) {
                    Some(s) => if s.settled_spec() { None } else { Some(s) },
                    None => None,
                },
            decreases rest.len(),
        {
            let entry = rest.remove(0);
            proof {
                assert(entry == all[i as int]);
                assert(all.take(i + 1) == all.take(i as int).push(entry));
                assert(rest@ == all.skip(i + 1));
                assert(keys_unique(all.take(i as int))) by {
                    assert forall|a: int, b: int| 0 <= a < b < all.take(i as int).len()
                        implies all.take(i as int)[a].0@ != all.take(i as int)[b].0@ by {
                        assert(all[a].0@ != all[b].0@);
                    }
                }
                assert(!has_key(all.take(i as int), entry.0@)) by {
                    if has_key(all.take(i as int), entry.0@) {
                        let a = choose|a: int| 0 <= a < all.take(i as int).len() && all.take(i as int)[a].0@ == entry.0@;
                        assert(all[a].0@ != all[i as int].0@);
                    }
                }
                lemma_state_push(all.take(i as int), entry);
            }
            if !entry.1.is_settled() {
                let ghost before = kept@;
                kept.push(entry);
                proof {
                    lemma_state_push(before, entry);
                    assert forall|key: Seq<char>| has_key(kept@, key) implies has_key(all.take(i + 1), key) by {
                        if key != entry.0@ {
                            let a = choose|a: int| 0 <= a < kept@.len() && kept@[a].0@ == key;
                            assert(before[a].0@ == key);
                            assert(has_key(before, key));
                            let b = choose|b: int| 0 <= b < all.take(i as int).len() && all.take(i as int)[b].0@ == key;
                            assert(all.take(i + 1)[b].0@ == key);
                        } else {
                            assert(all.take(i + 1)[i as int].0@ == key);
                        }
                    }
                }
            } else {
                proof {
                    assert forall|key: Seq<char>| has_key(kept@, key) implies has_key(all.take(i + 1), key) by {
                        let b = choose|b: int| 0 <= b < all.take(i as int).len() && all.take(i as int)[b].0@ == key;
                        assert(all.take(i + 1)[b].0@ == key);
                    }
                    assert(!has_key(kept@, entry.0@));
                }
            }
            i += 1;
        }
        proof {
            assert(all.take(i as int) == all);
        }
        self.by_id = kept;
    }
}


/// Whether `id` is among `ids`.
pub open spec fn listed(ids: Seq<String>, id: Seq<char>) -> bool {
    exists|k: int| 0 <= k < ids.len() && ids[k]@ == id
}

/// Whether one of the first `n` rows is `id` and owned.
pub open spec fn owned_among(rows: Seq<Found>, owned: Seq<bool>, n: int, id: Seq<char>) -> bool {
    exists|j: int| 0 <= j < n && owned[j] && rows[j].id@ == id
}

/// The results the library already owns, answered once per settled listing.
#[derive(Debug)]
pub struct Held {
    ids: Vec<String>,
}

impl Held {
    /// Whether the recording `id` is among those held.
    pub closed spec fn holds_spec(&self, id: Seq<char>) -> bool {
        listed(self.ids@, id)
    }

    pub fn holds(&self, id: &str) -> (held: bool)
        ensures
            held == self.holds_spec(id@),
    {
        let mut i: usize = 0;
        while i < self.ids.len()
            invariant
                i <= self.ids.len(),
                forall|j: int| 0 <= j < i ==> self.ids@[j]@ != id@,
            decreases self.ids.len() - i,
        {
            if same_text(self.ids[i].as_str(), id) {
                return true;
            }
            i += 1;
        }
        false
    }

    /// Refills the set from a listing: `owned[i]` says whether the library
    /// already owns `rows[i]`.
    pub fn rebuild(&mut self, rows: &[Found], owned: &[bool])
        requires
            rows@.len() == owned@.len(),
        ensures
            forall|id: Seq<char>| #[trigger] final(self).holds_spec(id)
                <==> owned_among(rows@, owned@, rows@.len() as int, id),
    {
        let mut ids: Vec<String> = Vec::new();
        let mut i: usize = 0;
        while i < rows.len()
            invariant
                i <= rows@.len(),
                rows@.len() == owned@.len(),
                forall|id: Seq<char>| #[trigger] listed(ids@, id) <==> owned_among(rows@, owned@, i as int, id),
            decreases rows@.len() - i,
        {
            let ghost before = ids@;
            if owned[i] {
                let copy = rows[i].id.clone();
                ids.push(copy);
                proof {
                    assert(ids@ == before.push(copy));
                    assert(copy@ == rows@[i as int].id@);
                }
            }
            proof {
                assert(owned@[i as int] ==> ids@.len() == before.len() + 1 && ids@[before.len() as int]@ == rows@[i as int].id@);
                assert(!owned@[i as int] ==> ids@ == before);
                assert forall|k: int| 0 <= k < before.len() implies ids@[k] == before[k] by {}
                assert forall|id: Seq<char>| #[trigger] listed(ids@, id)
                    <==> owned_among(rows@, owned@, i + 1, id) by {
                    if listed(ids@, id) {
                        let k = choose|k: int| 0 <= k < ids@.len() && ids@[k]@ == id;
                        if k < before.len() {
                            assert(listed(before, id));
                        } else {
                            assert(owned@[i as int] && rows@[i as int].id@ == id);
                        }
                    }
                    if owned_among(rows@, owned@, i + 1, id) {
                        let j = choose|j: int| 0 <= j < i + 1 && owned@[j] && rows@[j].id@ == id;
                        if j < i {
                            assert(owned_among(rows@, owned@, i as int, id));
                            assert(listed(before, id));
                            let k = choose|k: int| 0 <= k < before.len() && before[k]@ == id;
                            assert(ids@[k]@ == id);
                        } else {
                            assert(ids@[before.len() as int]@ == id);
                        }
                    }
                }
            }
            i += 1;
        }
        self.ids = ids;
    }
}

impl Default for Held {
    fn default() -> (held: Self)
        ensures
            forall|id: Seq<char>| !#[trigger] held.holds_spec(id),
    {
        Held { ids: Vec::new() }
    }
}

/// Whether the downloader is installed, as far as is known.
#[derive(Debug, Clone, Copy, PartialEq, Eq, Structural, Default)]
pub enum Fetcher {
    #[default]
    Unknown,
    Ready,
    Missing,
}

impl Fetcher {
    /// A download is offered unless the downloader is known to be missing.
    pub fn can_download(self) -> (can: bool)
        ensures
            can == (self != Fetcher::Missing),
    {
        match self {
            Fetcher::Ready | Fetcher::Unknown => true,
            Fetcher::Missing => false,
        }
    }
}

/// What the user is looking for online and where that search stands.
#[derive(Debug)]
pub struct Search<P> {
    pub query: String,
    pub stage: Stage,
    pub opened: Option<Opened>,
    pub downloads: Downloads<P>,
    pub held: Held,
    pub fetcher: Fetcher,
    /// The generation of the latest change of the query.
    pub generation: Generation,
    /// The generation of the search whose reply is still wanted, if any.
    pub pending: Option<Generation>,
}

impl<P> Default for Search<P> {
    fn default() -> (search: Self)
        ensures
            search.query@ == Seq::<char>::empty(),
            search.stage is Idle,
            search.opened is None,
            search.fetcher == Fetcher::Unknown,
            search.current() == Generation(0),
            search.pending_spec() is None,
            forall|id: Seq<char>| #[trigger] search.downloads.state(id) is None,
            search.downloads.landed_spec().len() == 0,
    {
        Search {
            query: String::new(),
            stage: Stage::Idle,
            opened: None,
            downloads: Downloads::default(),
            held: Held::default(),
            fetcher: Fetcher::Unknown,
            generation: Generation(0),
            pending: None,
        }
    }
}

impl<P> Search<P> {
    /// The generation of the latest change of the query.
    pub open spec fn current(&self) -> Generation {
        self.generation
    }

    /// The generation of the search whose reply is still wanted, if any.
    pub open spec fn pending_spec(&self) -> Option<Generation> {
        self.pending
    }

    pub open spec fn open_on(&self, id: Seq<char>) -> bool {
        self.opened matches Some(open) && open.id_spec() == id
    }

    /// The stage a new search leaves on screen: results already shown stay.
    pub open spec fn kept_stage(stage: Stage) -> Stage {
        if stage.holds_results_spec() { stage } else { Stage::Searching }
    }

    /// Takes a new query. An empty one (after trimming) asks for nothing and
    /// shows nothing; otherwise the trimmed query is to be searched for under
    /// the generation returned, and whatever results are showing stay while it
    /// runs.
    pub fn query_changed(&mut self, query: String) -> (issued: Option<(Generation, String)>)
        ensures
            final(self).query@ == query@,
            final(self).current() == old(self).current().after(),
            trimmed(query@).len() == 0 ==> {
                &&& issued is None
                &&& final(self).stage is Idle
                &&& final(self).pending_spec() is None
            },
            trimmed(query@).len() > 0 ==> {
                &&& issued matches Some((g, text)) && g == final(self).current() && text@ == trimmed(query@)
                &&& final(self).pending_spec() == Some(final(self).current())
                &&& final(self).stage == Self::kept_stage(old(self).stage)
            },
            final(self).opened == old(self).opened,
            final(self).downloads == old(self).downloads,
            final(self).held == old(self).held,
            final(self).fetcher == old(self).fetcher,
    {
        self.query = query;
        self.generation = self.generation.next();
        let trimmed_query = trim(self.query.as_str()).to_owned();
        if trimmed_query.as_str().is_empty() {
            self.stage = Stage::Idle;
            self.pending = None;
            return None;
        }
        proof { assert(trimmed_query@.len() > 0); }
        self.begin_keeping_results();
        Some((self.generation, trimmed_query))
    }

    fn begin_keeping_results(&mut self)
        ensures
            final(self).stage == Self::kept_stage(old(self).stage),
            final(self).pending == Some(old(self).generation),
            final(self).generation == old(self).generation,
            final(self).query == old(self).query,
            final(self).opened == old(self).opened,
            final(self).downloads == old(self).downloads,
            final(self).held == old(self).held,
            final(self).fetcher == old(self).fetcher,
    {
        if !self.stage.holds_results() {
            self.stage = Stage::Searching;
        }
        self.pending = Some(self.generation);
    }

    /// Opens the album `id` from the results, or closes it when it is the one
    /// already open. Answers whether it is now being opened.
    pub fn open(&mut self, id: &str) -> (opening: bool)
        ensures
            old(self).open_on(id@) ==> !opening && final(self).opened is None,
            !old(self).open_on(id@) ==> opening && (final(self).opened matches Some(Opened::Loading(s)) && s@ == id@),
            final(self).query == old(self).query,
            final(self).stage == old(self).stage,
            final(self).current() == old(self).current(),
            final(self).pending_spec() == old(self).pending_spec(),
            final(self).downloads == old(self).downloads,
            final(self).held == old(self).held,
            final(self).fetcher == old(self).fetcher,
    {
        let already = match &self.opened {
            Some(open) => same_text(open.id(), id),
            None => false,
        };
        if already {
            self.opened = None;
            return false;
        }
        self.opened = Some(Opened::Loading(id.to_owned()));
        true
    }

    /// Files what came back for the album `id`, if it is still the one open.
    pub fn opened_settled(&mut self, id: &str, album: Result<FoundAlbum, String>)
        ensures
            old(self).open_on(id@) ==> match album {
                Ok(found) => final(self).opened == Some(Opened::Ready(Box::new(found))),
                Err(reason) => final(self).opened matches Some(Opened::Failed(s, r)) && s@ == id@ && r == reason,
            },
            !old(self).open_on(id@) ==> final(self).opened == old(self).opened,
            final(self).query == old(self).query,
            final(self).stage == old(self).stage,
            final(self).current() == old(self).current(),
            final(self).pending_spec() == old(self).pending_spec(),
            final(self).downloads == old(self).downloads,
            final(self).held == old(self).held,
            final(self).fetcher == old(self).fetcher,
    {
        let current = match &self.opened {
            Some(open) => same_text(open.id(), id),
            None => false,
        };
        if !current {
            return;
        }
        self.opened = Some(match album {
            Ok(album) => Opened::Ready(Box::new(album)),
            Err(reason) => Opened::Failed(id.to_owned(), reason),
        });
    }

    pub fn is_open(&self, id: &str) -> (open: bool)
        ensures
            open == self.open_on(id@),
    {
        match &self.opened {
            Some(open) => same_text(open.id(), id),
            None => false,
        }
    }

    /// Asks the current query again under a new generation; there is nothing
    /// to ask when the query is empty.
    pub fn retry(&mut self) -> (issued: Option<(Generation, String)>)
        ensures
            trimmed(old(self).query@).len() == 0 ==> {
                &&& issued is None
                &&& final(self).current() == old(self).current()
                &&& final(self).pending_spec() == old(self).pending_spec()
                &&& final(self).stage == old(self).stage
            },
            trimmed(old(self).query@).len() > 0 ==> {
                &&& final(self).current() == old(self).current().after()
                &&& issued matches Some((g, text)) && g == final(self).current() && text@ == trimmed(old(self).query@)
                &&& final(self).pending_spec() == Some(final(self).current())
                &&& final(self).stage == Self::kept_stage(old(self).stage)
            },
            final(self).query == old(self).query,
            final(self).opened == old(self).opened,
            final(self).downloads == old(self).downloads,
            final(self).held == old(self).held,
            final(self).fetcher == old(self).fetcher,
    {
        let trimmed_query = trim(self.query.as_str()).to_owned();
        if trimmed_query.as_str().is_empty() {
            return None;
        }
        proof { assert(trimmed_query@.len() > 0); }
        self.generation = self.generation.next();
        self.begin_keeping_results();
        Some((self.generation, trimmed_query))
    }

    pub fn is_searching(&self) -> (searching: bool)
        ensures
            searching == self.pending_spec() is Some,
    {
        self.pending.is_some()
    }

    /// Whether a reply issued under `generation` is the one still wanted.
    pub fn is_current(&self, generation: Generation) -> (current: bool)
        ensures
            current == (self.pending_spec() == Some(generation)),
    {
        match self.pending {
            Some(pending) => pending == generation,
            None => false,
        }
    }

    /// Takes the reply issued under `generation`, if it is the one still
    /// wanted: it replaces the results wholesale, closes any open album and
    /// forgets downloads that have settled. A stale reply changes nothing.
    pub fn settle(&mut self, generation: Generation, stage: Stage) -> (accepted: bool)
        ensures
            accepted == (old(self).pending_spec() == Some(generation)),
            accepted ==> {
                &&& final(self).stage == stage
                &&& final(self).pending_spec() is None
                &&& final(self).opened is None
                &&& forall|key: Seq<char>| #[trigger] final(self).downloads.state(key) == match old(self).downloads.state(key) {
                    Some(s) => if s.settled_spec() { None } else { Some(s) },
                    None => None,
                }
                &&& final(self).downloads.landed_spec() == old(self).downloads.landed_spec()
            },
            !accepted ==> {
                &&& final(self).stage == old(self).stage
                &&& final(self).pending_spec() == old(self).pending_spec()
                &&& final(self).opened == old(self).opened
                &&& final(self).downloads == old(self).downloads
            },
            final(self).query == old(self).query,
            final(self).current() == old(self).current(),
            final(self).held == old(self).held,
            final(self).fetcher == old(self).fetcher,
    {
        if !self.is_current(generation) {
            return false;
        }
        self.stage = stage;
        self.pending = None;
        self.opened = None;
        self.downloads.forget_settled();
        true
    }

    /// The recordings that can be drawn: the listing, then the tracks of the
    /// album that is open.
    pub fn drawable(&self) -> (rows: Vec<&Found>)
        ensures
            rows@.len() == self.stage.tracks_spec().len() + self.open_tracks().len(),
            forall|i: int| 0 <= i < self.stage.tracks_spec().len() ==> *rows@[i] == self.stage.tracks_spec()[i],
            forall|i: int| 0 <= i < self.open_tracks().len()
                ==> *rows@[self.stage.tracks_spec().len() + i] == self.open_tracks()[i],
    {
        let mut rows: Vec<&Found> = Vec::new();
        let listing = self.stage.tracks();
        let mut i: usize = 0;
        while i < listing.len()
            invariant
                i <= listing@.len(),
                listing@ == self.stage.tracks_spec(),
                rows@.len() == i,
                forall|j: int| 0 <= j < i ==> *rows@[j] == listing@[j],
            decreases listing@.len() - i,
        {
            rows.push(&listing[i]);
            i += 1;
        }
        let opened: &[Found] = match &self.opened {
            Some(open) => match open.album() {
                Some(album) => album.tracks.as_slice(),
                None => &[],
            },
            None => &[],
        };
        let base = rows.len();
        let mut k: usize = 0;
        while k < opened.len()
            invariant
                k <= opened@.len(),
                opened@ == self.open_tracks(),
                base == self.stage.tracks_spec().len(),
                rows@.len() == base + k,
                forall|j: int| 0 <= j < base ==> *rows@[j] == self.stage.tracks_spec()[j],
                forall|j: int| 0 <= j < k ==> *rows@[base + j] == opened@[j],
            decreases opened@.len() - k,
        {
            rows.push(&opened[k]);
            k += 1;
        }
        rows
    }

    /// The tracks of the album that is open, if it has arrived.
    pub open spec fn open_tracks(&self) -> Seq<Found> {
        match self.opened {
            Some(Opened::Ready(album)) => album.tracks@,
            _ => Seq::empty(),
        }
    }
}

/// A new search keeps on screen any results that hold at least one album or
/// one track, and only those: results with neither, or no results at all,
/// give way to the search in flight.
pub proof fn lemma_new_search_keeps_results<P>(stage: Stage)
    ensures
        stage matches Stage::Results(results) && (results.albums@.len() > 0 || results.tracks@.len() > 0)
            ==> Search::<P>::kept_stage(stage) == stage,
        stage matches Stage::Results(results) && results.albums@.len() == 0 && results.tracks@.len() == 0
            ==> Search::<P>::kept_stage(stage) is Searching,
        !(stage is Results) ==> Search::<P>::kept_stage(stage) is Searching,
{
}

} // verus!

//! Cover art for recordings that are not on disk yet, filed by URL.
//!
//! Asking for a cover records the want and answers with whatever is ready;
//! the wants are drained once per update and each becomes one fetch. A URL
//! already wanted is not wanted twice, and one that has answered, with an
//! image or with nothing, is never asked for again, so a cover the host will
//! not serve costs one request rather than one per frame.
//!
//! The images themselves are held by whoever draws them, filed under the same
//! URLs: this decides what is asked for, what is kept and what goes.

use std::num::NonZeroUsize;

use lru::LruCache;
use vstd::prelude::*;

use crate::artwork::cache::{holds_key, push_answer, pushed, touched, value_of};
use crate::text::same_text;

verus! {

/// How many answers are kept at most.
pub const CAPACITY: usize = 128;

/// What a store of answers holds: each URL and whether an image came back
/// for it, least recently used first.
pub uninterp spec fn answers(cache: LruCache<String, bool>) -> Seq<(Seq<char>, bool)>;

/// The most a store of answers can hold, as it was made.
pub uninterp spec fn answers_cap(cache: LruCache<String, bool>) -> nat;

/// `LruCache::new`: an empty store that holds at most `CAPACITY` answers.
#[verifier::external_body]
fn answers_new() -> (cache: LruCache<String, bool>)
    ensures
        answers(cache) == Seq::<(Seq<char>, bool)>::empty(),
        answers_cap(cache) == CAPACITY,
{
    LruCache::new(NonZeroUsize::new(CAPACITY).unwrap())
}

/// `LruCache::get`: the answer filed under `url`, which becomes the most
/// recently used.
#[verifier::external_body]
fn answers_get(cache: &mut LruCache<String, bool>, url: &str) -> (answer: Option<bool>)
    ensures
        answers(*final(cache)) == touched(answers(*old(cache)), url@),
        answer == if holds_key(answers(*old(cache)), url@) {
            Some(value_of(answers(*old(cache)), url@))
        } else {
            None
        },
        answers_cap(*final(cache)) == answers_cap(*old(cache)),
{
    cache.get(url).copied()
}

/// `LruCache::push`: as `pushed` and `push_answer` say, the URL taken by its
/// characters.
#[verifier::external_body]
fn answers_push(cache: &mut LruCache<String, bool>, url: String, image: bool) -> (out: Option<(String, bool)>)
    ensures
        answers(*final(cache)) == pushed(answers(*old(cache)), answers_cap(*old(cache)), url@, image),
        match out {
            Some((gone, held)) => push_answer(answers(*old(cache)), answers_cap(*old(cache)), url@) == Some(
                (gone@, held),
            ),
            None => push_answer(answers(*old(cache)), answers_cap(*old(cache)), url@) is None,
        },
        answers_cap(*final(cache)) == answers_cap(*old(cache)),
{
    cache.push(url, image)
}

/// Covers fetched from a host rather than read from disk: the answers kept,
/// the URLs wanted and not yet handed out, and every URL ever asked for.
pub struct Remote {
    ready: Option<LruCache<String, bool>>,
    wanted: Vec<String>,
    asked: Vec<String>,
}

impl Remote {
    /// The answers kept, least recently used first; `None` for a store made
    /// with nowhere to keep them.
    pub closed spec fn ready_seq(&self) -> Option<Seq<(Seq<char>, bool)>> {
        match self.ready {
            Some(cache) => Some(answers(cache)),
            None => None,
        }
    }

    /// The URLs wanted and not yet handed out, in the order asked.
    pub closed spec fn wanted_seq(&self) -> Seq<Seq<char>> {
        self.wanted@.map_values(|url: String| url@)
    }

    /// Every URL ever asked for.
    pub closed spec fn asked_set(&self) -> Set<Seq<char>> {
        Set::new(|url: Seq<char>| exists|i: int| 0 <= i < self.asked@.len() && #[trigger] self.asked@[i]@ == url)
    }

    /// A store made to keep answers keeps at most `CAPACITY`.
    pub closed spec fn wf(&self) -> bool {
        match self.ready {
            Some(cache) => answers_cap(cache) == CAPACITY,
            None => true,
        }
    }

    /// An empty store with room for `CAPACITY` answers.
    pub fn new() -> (remote: Self)
        ensures
            remote.wf(),
            remote.ready_seq() == Some(Seq::<(Seq<char>, bool)>::empty()),
            remote.wanted_seq().len() == 0,
            remote.asked_set() == Set::<Seq<char>>::empty(),
    {
        let remote = Remote { ready: Some(answers_new()), wanted: Vec::new(), asked: Vec::new() };
        proof {
            assert(remote.asked_set() =~= Set::<Seq<char>>::empty());
        }
        remote
    }

    fn was_asked(&self, url: &str) -> (asked: bool)
        ensures
            asked == self.asked_set().contains(url@),
    {
        let mut i: usize = 0;
        while i < self.asked.len()
            invariant
                i <= self.asked@.len(),
                forall|j: int| 0 <= j < i ==> self.asked@[j]@ != url@,
            decreases self.asked@.len() - i,
        {
            if same_text(self.asked[i].as_str(), url) {
                proof {
                    assert(self.asked@[i as int]@ == url@);
                }
                return true;
            }
            i += 1;
        }
        false
    }

    /// Whether an image is ready for `url`; a kept answer becomes the most
    /// recently used. A URL with no answer kept that was never asked for is
    /// wanted, once; one asked for before is not asked again. A store with
    /// nowhere to keep answers answers nothing and wants nothing.
    pub fn request(&mut self, url: &str) -> (image: bool)
        requires
            old(self).wf(),
        ensures
            final(self).wf(),
            match old(self).ready_seq() {
                None => {
                    &&& !image
                    &&& final(self).ready_seq() == old(self).ready_seq()
                    &&& final(self).wanted_seq() == old(self).wanted_seq()
                    &&& final(self).asked_set() == old(self).asked_set()
                },
                Some(kept) => {
                    &&& final(self).ready_seq() == Some(touched(kept, url@))
                    &&& image == (holds_key(kept, url@) && value_of(kept, url@))
                    &&& if holds_key(kept, url@) || old(self).asked_set().contains(url@) {
                        &&& final(self).wanted_seq() == old(self).wanted_seq()
                        &&& final(self).asked_set() == old(self).asked_set()
                    } else {
                        &&& final(self).wanted_seq() == old(self).wanted_seq().push(url@)
                        &&& final(self).asked_set() == old(self).asked_set().insert(url@)
                    }
                },
            },
    {
        let answer = match &mut self.ready {
            None => return false,
            Some(cache) => answers_get(cache, url),
        };
        match answer {
            Some(image) => image,
            None => {
                if self.was_asked(url) {
                    return false;
                }
                let ghost asked = self.asked@;
                let ghost wanted = self.wanted@;
                self.asked.push(url.to_owned());
                self.wanted.push(url.to_owned());
                proof {
                    assert(self.wanted_seq() =~= wanted.map_values(|u: String| u@).push(url@));
                    assert(self.asked_set() =~= Set::new(
                        |u: Seq<char>| exists|i: int| 0 <= i < asked.len() && #[trigger] asked[i]@ == u,
                    ).insert(url@)) by {
                        assert forall|u: Seq<char>| #[trigger] self.asked_set().contains(u) implies Set::new(
                            |u: Seq<char>| exists|i: int| 0 <= i < asked.len() && #[trigger] asked[i]@ == u,
                        ).insert(url@).contains(u) by {
                            let i = choose|i: int| 0 <= i < self.asked@.len() && #[trigger] self.asked@[i]@ == u;
                            if i < asked.len() {
                                assert(asked[i] == self.asked@[i]);
                            }
                        }
                        assert forall|u: Seq<char>| Set::new(
                            |u: Seq<char>| exists|i: int| 0 <= i < asked.len() && #[trigger] asked[i]@ == u,
                        ).insert(url@).contains(u) implies #[trigger] self.asked_set().contains(u) by {
                            if u == url@ {
                                assert(self.asked@[asked.len() as int]@ == u);
                            } else {
                                let i = choose|i: int| 0 <= i < asked.len() && #[trigger] asked[i]@ == u;
                                assert(self.asked@[i] == asked[i]);
                            }
                        }
                    }
                }
                false
            },
        }
    }

    /// Hands out the URLs wanted, in the order asked, and forgets them.
    pub fn take(&mut self) -> (urls: Vec<String>)
        requires
            old(self).wf(),
        ensures
            final(self).wf(),
            urls@.map_values(|url: String| url@) == old(self).wanted_seq(),
            final(self).wanted_seq().len() == 0,
            final(self).ready_seq() == old(self).ready_seq(),
            final(self).asked_set() == old(self).asked_set(),
    {
        let mut urls: Vec<String> = Vec::new();
        std::mem::swap(&mut urls, &mut self.wanted);
        proof {
            assert(self.wanted_seq() =~= Seq::<Seq<char>>::empty());
        }
        urls
    }

    /// Files the answer for `url`: whether an image came back. It becomes the
    /// most recently used; where that leaves no room, the least recently used
    /// answer goes, and its URL is answered. A store with nowhere to keep
    /// answers keeps nothing.
    pub fn insert(&mut self, url: String, image: bool) -> (evicted: Option<String>)
        requires
            old(self).wf(),
        ensures
            final(self).wf(),
            final(self).wanted_seq() == old(self).wanted_seq(),
            final(self).asked_set() == old(self).asked_set(),
            match old(self).ready_seq() {
                None => final(self).ready_seq() == old(self).ready_seq() && evicted is None,
                Some(kept) => {
                    &&& final(self).ready_seq() == Some(pushed(kept, CAPACITY as nat, url@, image))
                    &&& match evicted {
                        Some(gone) => !holds_key(kept, url@) && kept.len() == CAPACITY && gone@ == kept[0].0,
                        None => holds_key(kept, url@) || kept.len() != CAPACITY,
                    }
                },
            },
    {
        let name = url.clone();
        let ghost before = self.ready_seq();
        proof {
            if let Some(kept) = before {
                if kept.len() > 0 && kept[0].0 == url@ {
                    assert(holds_key(kept, url@));
                }
            }
        }
        let mut slot: Option<LruCache<String, bool>> = None;
        std::mem::swap(&mut slot, &mut self.ready);
        match slot {
            None => None,
            Some(mut cache) => {
                let out = answers_push(&mut cache, url, image);
                self.ready = Some(cache);
                match out {
                    Some((gone, _)) => if gone == name {
                        None
                    } else {
                        Some(gone)
                    },
                    None => None,
                }
            },
        }
    }
}

impl Default for Remote {
    /// A store with nowhere to keep answers: it answers nothing and wants
    /// nothing.
    fn default() -> (remote: Self)
        ensures
            remote.wf(),
            remote.ready_seq() is None,
            remote.wanted_seq().len() == 0,
            remote.asked_set() == Set::<Seq<char>>::empty(),
    {
        let remote = Remote { ready: None, wanted: Vec::new(), asked: Vec::new() };
        proof {
            assert(remote.asked_set() =~= Set::<Seq<char>>::empty());
        }
        remote
    }
}

} // verus!

//! Which covers are wanted at which sizes, which are ready, and which have
//! gone stale, for a store whose pictures are decoded by a worker and kept by
//! whoever draws them.
//!
//! A cover is filed by track and size. Asking for one marks it wanted this
//! frame and, unless it is ready or already sent to the worker, answers that
//! it should be sent. A result is kept only if it belongs to the current
//! generation and is still wanted. A cover not wanted for
//! [`EVICT_GRACE_FRAMES`] frames is let go; invalidating forgets everything
//! and starts a new generation, so results still on their way are dropped.

use vstd::prelude::*;

use crate::artwork::cache::{distinct_keys, lemma_kept_distinct};
use crate::table::{kept, lemma_kept, lemma_table_absent, lemma_table_last, lemma_table_push, table};

verus! {

/// How many frames a cover may go unasked for before it is let go.
pub const EVICT_GRACE_FRAMES: u64 = 32;

/// A cover at one size: its track, width and height.
pub type CacheKey = (i64, u32, u32);

/// Covers wanted, sent, and ready, by frame and generation.
pub struct ArtCache {
    ready: Vec<CacheKey>,
    pending: Vec<CacheKey>,
    last_wanted: Vec<(CacheKey, u64)>,
    frame: u64,
    generation: u64,
}

impl ArtCache {
    /// The covers ready, in the order they became ready.
    pub closed spec fn ready_seq(&self) -> Seq<CacheKey> {
        self.ready@
    }

    /// The covers sent to the worker and not yet answered.
    pub closed spec fn pending_set(&self) -> Set<CacheKey> {
        self.pending@.to_set()
    }

    /// The frame each wanted cover was last asked for in.
    pub closed spec fn wanted_map(&self) -> Map<CacheKey, u64> {
        table(self.last_wanted@)
    }

    /// The current frame.
    pub closed spec fn frame_spec(&self) -> u64 {
        self.frame
    }

    /// The current generation.
    pub closed spec fn generation_spec(&self) -> u64 {
        self.generation
    }

    /// No cover is ready or sent twice.
    pub closed spec fn wf(&self) -> bool {
        &&& self.ready@.no_duplicates()
        &&& self.pending@.no_duplicates()
        &&& distinct_keys(self.last_wanted@)
    }

    /// An empty store at frame and generation zero.
    pub fn new() -> (cache: Self)
        ensures
            cache.wf(),
            cache.ready_seq().len() == 0,
            cache.pending_set() == Set::<CacheKey>::empty(),
            cache.wanted_map() == Map::<CacheKey, u64>::empty(),
            cache.frame_spec() == 0,
            cache.generation_spec() == 0,
    {
        let cache = ArtCache { ready: Vec::new(), pending: Vec::new(), last_wanted: Vec::new(), frame: 0, generation: 0 };
        proof {
            assert(cache.pending@.to_set() =~= Set::<CacheKey>::empty());
        }
        cache
    }

    /// The current frame.
    pub fn frame(&self) -> (frame: u64)
        ensures
            frame == self.frame_spec(),
    {
        self.frame
    }

    /// The current generation.
    pub fn generation(&self) -> (generation: u64)
        ensures
            generation == self.generation_spec(),
    {
        self.generation
    }
}

fn listed(keys: &Vec<CacheKey>, key: CacheKey) -> (at: Option<usize>)
    ensures
        match at {
            Some(i) => i < keys@.len() && keys@[i as int] == key,
            None => !keys@.contains(key),
        },
{
    let mut i: usize = 0;
    while i < keys.len()
        invariant
            i <= keys@.len(),
            forall|j: int| 0 <= j < i ==> keys@[j] != key,
        decreases keys@.len() - i,
    {
        let k = keys[i];
        if k.0 == key.0 && k.1 == key.1 && k.2 == key.2 {
            return Some(i);
        }
        i += 1;
    }
    None
}

/// Whether a wanted cover has gone unasked for long enough to let go.
pub open spec fn stale(wanted: Map<CacheKey, u64>, frame: u64, key: CacheKey) -> bool {
    &&& wanted.contains_key(key)
    &&& wanted[key] + EVICT_GRACE_FRAMES <= frame
}

proof fn lemma_distinct_table(s: Seq<(CacheKey, u64)>, i: int)
    requires
        distinct_keys(s),
        0 <= i < s.len(),
    ensures
        table(s).contains_key(s[i].0),
        table(s)[s[i].0] == s[i].1,
{
    assert forall|j: int| i < j < s.len() implies s[j].0 != s[i].0 by {
        assert(s[i].0 != s[j].0);
    }
    lemma_table_last(s, i);
}

impl ArtCache {
    fn mark_wanted(&mut self, key: CacheKey)
        requires
            old(self).wf(),
        ensures
            final(self).wf(),
            final(self).wanted_map() == old(self).wanted_map().insert(key, old(self).frame),
            final(self).ready@ == old(self).ready@,
            final(self).pending@ == old(self).pending@,
            final(self).frame == old(self).frame,
            final(self).generation == old(self).generation,
    {
        let mut end = self.last_wanted.len();
        while end > 0
            invariant
                end <= self.last_wanted@.len(),
                forall|j: int| end <= j < self.last_wanted@.len() ==> self.last_wanted@[j].0 != key,
                self.wf(),
                self.last_wanted@ == old(self).last_wanted@,
                self.ready@ == old(self).ready@,
                self.pending@ == old(self).pending@,
                self.frame == old(self).frame,
                self.generation == old(self).generation,
            decreases end,
        {
            let entry = self.last_wanted[end - 1];
            if entry.0.0 == key.0 && entry.0.1 == key.1 && entry.0.2 == key.2 {
                proof {
                    lemma_table_last(self.last_wanted@, end - 1);
                }
                let ghost before = self.last_wanted@;
                let frame = self.frame;
                self.last_wanted[end - 1] = (key, frame);
                proof {
                    assert(self.last_wanted@ == before.update(end - 1, (before[end - 1].0, frame)));
                    assert forall|a: int, b: int| 0 <= a < b < self.last_wanted@.len() implies #[trigger] self.last_wanted@[a].0
                        != #[trigger] self.last_wanted@[b].0 by {
                        assert(before[a].0 != before[b].0);
                    }
                }
                return;
            }
            end -= 1;
        }
        proof {
            lemma_table_push(self.last_wanted@, (key, self.frame));
            lemma_table_absent(self.last_wanted@, key);
        }
        let ghost before = self.last_wanted@;
        let frame = self.frame;
        self.last_wanted.push((key, frame));
        proof {
            assert forall|a: int, b: int| 0 <= a < b < self.last_wanted@.len() implies #[trigger] self.last_wanted@[a].0
                != #[trigger] self.last_wanted@[b].0 by {
                if b < before.len() {
                    assert(before[a].0 != before[b].0);
                }
            }
        }
    }

    /// Asks for a cover at `width` by `height` for this frame. A cover of no
    /// width or no height asks nothing. Otherwise it is marked wanted now,
    /// and the answer is whether it should go to the worker: not if it is
    /// ready, and not if it was sent already.
    pub fn get_or_queue(&mut self, track_id: i64, width: u32, height: u32) -> (send: bool)
        requires
            old(self).wf(),
        ensures
            final(self).wf(),
            final(self).ready_seq() == old(self).ready_seq(),
            final(self).frame_spec() == old(self).frame_spec(),
            final(self).generation_spec() == old(self).generation_spec(),
            width == 0 || height == 0 ==> {
                &&& !send
                &&& final(self).wanted_map() == old(self).wanted_map()
                &&& final(self).pending_set() == old(self).pending_set()
            },
            width != 0 && height != 0 ==> {
                let key = (track_id, width, height);
                &&& final(self).wanted_map() == old(self).wanted_map().insert(key, old(self).frame_spec())
                &&& send == (!old(self).ready_seq().contains(key) && !old(self).pending_set().contains(key))
                &&& final(self).pending_set() == if send {
                    old(self).pending_set().insert(key)
                } else {
                    old(self).pending_set()
                }
            },
    {
        if width == 0 || height == 0 {
            return false;
        }
        let key = (track_id, width, height);
        self.mark_wanted(key);
        if listed(&self.ready, key).is_some() {
            return false;
        }
        if listed(&self.pending, key).is_some() {
            proof {
                assert(self.pending@.contains(key));
                assert(self.pending@.to_set().contains(key));
            }
            return false;
        }
        let ghost before = self.pending@;
        self.pending.push(key);
        proof {
            assert(!before.to_set().contains(key));
            assert forall|x: CacheKey| #[trigger] self.pending@.to_set().contains(x) == before.to_set().insert(
                key,
            ).contains(x) by {
                vstd::seq_lib::lemma_seq_contains_after_push(before, key, x);
            }
            assert(self.pending@.to_set() =~= before.to_set().insert(key));
            assert forall|a: int, b: int| 0 <= a < b < self.pending@.len() implies self.pending@[a]
                != self.pending@[b] by {
                if b == before.len() {
                    assert(before[a] != key);
                }
            }
        }
        true
    }

    /// Whether the cover at `width` by `height` is ready.
    pub fn get(&self, track_id: i64, width: u32, height: u32) -> (ready: bool)
        ensures
            ready == self.ready_seq().contains((track_id, width, height)),
    {
        listed(&self.ready, (track_id, width, height)).is_some()
    }

    /// The first cover of a track to have become ready, at whatever size.
    pub fn get_any(&self, track_id: i64) -> (found: Option<CacheKey>)
        ensures
            match found {
                Some(key) => exists|i: int|
                    0 <= i < self.ready_seq().len() && #[trigger] self.ready_seq()[i] == key && key.0 == track_id
                        && forall|j: int| 0 <= j < i ==> self.ready_seq()[j].0 != track_id,
                None => forall|i: int| 0 <= i < self.ready_seq().len() ==> self.ready_seq()[i].0 != track_id,
            },
    {
        let mut i: usize = 0;
        while i < self.ready.len()
            invariant
                i <= self.ready@.len(),
                forall|j: int| 0 <= j < i ==> self.ready@[j].0 != track_id,
            decreases self.ready@.len() - i,
        {
            let key = self.ready[i];
            if key.0 == track_id {
                proof {
                    assert(self.ready_seq()[i as int] == key);
                }
                return Some(key);
            }
            i += 1;
        }
        None
    }

    fn unsend(&mut self, key: CacheKey)
        requires
            old(self).wf(),
        ensures
            final(self).wf(),
            final(self).pending_set() == old(self).pending_set().remove(key),
            final(self).ready@ == old(self).ready@,
            final(self).last_wanted@ == old(self).last_wanted@,
            final(self).frame == old(self).frame,
            final(self).generation == old(self).generation,
    {
        match listed(&self.pending, key) {
            Some(i) => {
                let ghost before = self.pending@;
                self.pending.remove(i);
                proof {
                    assert(self.pending@ =~= before.subrange(0, i as int) + before.subrange(i + 1, before.len() as int));
                    assert forall|x: CacheKey| #[trigger] self.pending@.to_set().contains(x) == before.to_set().remove(
                        key,
                    ).contains(x) by {
                        if self.pending@.contains(x) {
                            let at = choose|at: int| 0 <= at < self.pending@.len() && self.pending@[at] == x;
                            if at < i {
                                assert(before[at] == x);
                            } else {
                                assert(before[at + 1] == x);
                                assert(before[i as int] != before[at + 1]);
                            }
                        }
                        if before.contains(x) && x != key {
                            let at = choose|at: int| 0 <= at < before.len() && before[at] == x;
                            if at < i {
                                assert(self.pending@[at] == x);
                            } else {
                                assert(at != i);
                                assert(self.pending@[at - 1] == x);
                            }
                        }
                    }
                    assert(self.pending@.to_set() =~= before.to_set().remove(key));
                    assert forall|a: int, b: int| 0 <= a < b < self.pending@.len() implies self.pending@[a]
                        != self.pending@[b] by {
                        let aa = if a < i { a } else { a + 1 };
                        let bb = if b < i { b } else { b + 1 };
                        assert(self.pending@[a] == before[aa]);
                        assert(self.pending@[b] == before[bb]);
                    }
                }
            },
            None => {
                proof {
                    assert(self.pending@.to_set() =~= self.pending@.to_set().remove(key));
                }
            },
        }
    }

    /// Files what the worker answered for `key`, made in `generation`: it is
    /// no longer in flight, and it is kept, answered `true`, only if it
    /// belongs to the current generation and is still wanted. A cover kept
    /// for the first time joins the ready ones at the end.
    pub fn poll(&mut self, key: CacheKey, generation: u64) -> (keep: bool)
        requires
            old(self).wf(),
        ensures
            final(self).wf(),
            final(self).pending_set() == old(self).pending_set().remove(key),
            keep == (generation == old(self).generation_spec() && old(self).wanted_map().contains_key(key)),
            final(self).ready_seq() == if keep && !old(self).ready_seq().contains(key) {
                old(self).ready_seq().push(key)
            } else {
                old(self).ready_seq()
            },
            final(self).wanted_map() == old(self).wanted_map(),
            final(self).frame_spec() == old(self).frame_spec(),
            final(self).generation_spec() == old(self).generation_spec(),
    {
        self.unsend(key);
        if generation != self.generation || !self.is_wanted(key) {
            return false;
        }
        if listed(&self.ready, key).is_none() {
            let ghost before = self.ready@;
            self.ready.push(key);
            proof {
                assert forall|a: int, b: int| 0 <= a < b < self.ready@.len() implies self.ready@[a] != self.ready@[b] by {
                    if b == before.len() {
                        assert(before[a] != key);
                    }
                }
            }
        }
        true
    }

    fn is_wanted(&self, key: CacheKey) -> (wanted: bool)
        requires
            self.wf(),
        ensures
            wanted == self.wanted_map().contains_key(key),
    {
        let mut i: usize = 0;
        while i < self.last_wanted.len()
            invariant
                i <= self.last_wanted@.len(),
                forall|j: int| 0 <= j < i ==> self.last_wanted@[j].0 != key,
                distinct_keys(self.last_wanted@),
            decreases self.last_wanted@.len() - i,
        {
            let entry = self.last_wanted[i];
            if entry.0.0 == key.0 && entry.0.1 == key.1 && entry.0.2 == key.2 {
                proof {
                    lemma_distinct_table(self.last_wanted@, i as int);
                }
                return true;
            }
            i += 1;
        }
        proof {
            lemma_table_absent(self.last_wanted@, key);
        }
        false
    }

    /// Forgets every cover and starts a new generation, so that answers
    /// still on their way are not kept.
    pub fn invalidate(&mut self)
        requires
            old(self).generation_spec() < u64::MAX,
        ensures
            final(self).wf(),
            final(self).ready_seq().len() == 0,
            final(self).pending_set() == Set::<CacheKey>::empty(),
            final(self).wanted_map() == Map::<CacheKey, u64>::empty(),
            final(self).frame_spec() == old(self).frame_spec(),
            final(self).generation_spec() == old(self).generation_spec() + 1,
    {
        self.ready.clear();
        self.pending.clear();
        self.last_wanted.clear();
        self.generation = self.generation + 1;
        proof {
            assert(self.pending@.to_set() =~= Set::<CacheKey>::empty());
        }
    }
}

/// The covers of `keys` not among `gone`, in order.
fn without_gone(keys: &Vec<CacheKey>, gone: &Vec<CacheKey>) -> (staying: Vec<CacheKey>)
    requires
        keys@.no_duplicates(),
    ensures
        staying@ == keys@.filter(|key: CacheKey| !gone@.contains(key)),
        staying@.no_duplicates(),
{
    let ghost keep = |key: CacheKey| !gone@.contains(key);
    let mut staying: Vec<CacheKey> = Vec::new();
    let mut i: usize = 0;
    while i < keys.len()
        invariant
            i <= keys@.len(),
            keys@.no_duplicates(),
            keep == |key: CacheKey| !gone@.contains(key),
            staying@ == keys@.take(i as int).filter(keep),
            staying@.no_duplicates(),
        decreases keys@.len() - i,
    {
        let key = keys[i];
        let stays = listed(gone, key).is_none();
        proof {
            reveal(Seq::filter);
            let t = keys@.take(i + 1);
            assert(t.drop_last() =~= keys@.take(i as int));
            assert(t.last() == key);
            assert(stays == keep(key));
        }
        if stays {
            let ghost before = staying@;
            proof {
                if before.contains(key) {
                    keys@.take(i as int).lemma_filter_contains_rev(keep, key);
                    let j = choose|j: int| 0 <= j < i && keys@.take(i as int)[j] == key;
                    assert(keys@[j] == keys@[i as int]);
                }
            }
            staying.push(key);
            proof {
                assert forall|a: int, b: int| 0 <= a < b < staying@.len() implies staying@[a] != staying@[b] by {
                    if b == before.len() {
                        assert(before[a] != key);
                    }
                }
            }
        }
        i += 1;
    }
    proof {
        assert(keys@.take(keys@.len() as int) =~= keys@);
    }
    staying
}

impl ArtCache {
    /// Lets go every cover not asked for in the last
    /// [`EVICT_GRACE_FRAMES`] frames: it is no longer wanted, ready or in
    /// flight. Then the frame advances. Answers the covers let go.
    pub fn evict(&mut self) -> (dropped: Vec<CacheKey>)
        requires
            old(self).wf(),
            old(self).frame_spec() < u64::MAX,
        ensures
            final(self).wf(),
            forall|key: CacheKey|
                #[trigger] dropped@.contains(key) == stale(old(self).wanted_map(), old(self).frame_spec(), key),
            dropped@.no_duplicates(),
            final(self).wanted_map() == old(self).wanted_map().restrict(
                Set::new(|key: CacheKey| !stale(old(self).wanted_map(), old(self).frame_spec(), key)),
            ),
            final(self).ready_seq() == old(self).ready_seq().filter(
                |key: CacheKey| !stale(old(self).wanted_map(), old(self).frame_spec(), key),
            ),
            final(self).pending_set() == old(self).pending_set().filter(
                |key: CacheKey| !stale(old(self).wanted_map(), old(self).frame_spec(), key),
            ),
            final(self).frame_spec() == old(self).frame_spec() + 1,
            final(self).generation_spec() == old(self).generation_spec(),
    {
        let frame = self.frame;
        let ghost all = self.last_wanted@;
        let ghost wanted = table(all);
        let ghost keep = Set::new(|key: CacheKey| !stale(wanted, frame, key));
        let mut dropped: Vec<CacheKey> = Vec::new();
        let mut staying: Vec<(CacheKey, u64)> = Vec::new();
        let mut i: usize = 0;
        while i < self.last_wanted.len()
            invariant
                i <= all.len(),
                self.last_wanted@ == all,
                distinct_keys(all),
                wanted == table(all),
                keep == Set::new(|key: CacheKey| !stale(wanted, frame, key)),
                staying@ == kept(all.take(i as int), keep),
                forall|key: CacheKey| #[trigger] dropped@.contains(key) == exists|j: int|
                    0 <= j < i && all[j].0 == key && !keep.contains(key),
                dropped@.no_duplicates(),
                forall|a: int| 0 <= a < dropped@.len() ==> exists|j: int| 0 <= j < i && all[j].0 == #[trigger] dropped@[a],
            decreases all.len() - i,
        {
            let entry = self.last_wanted[i];
            proof {
                lemma_distinct_table(all, i as int);
                let t = all.take(i + 1);
                assert(t.drop_last() =~= all.take(i as int));
                assert(t.last() == entry);
            }
            let gone = frame >= EVICT_GRACE_FRAMES && entry.1 <= frame - EVICT_GRACE_FRAMES;
            proof {
                assert(gone == !keep.contains(entry.0));
            }
            let ghost before = dropped@;
            if gone {
                dropped.push(entry.0);
                proof {
                    assert forall|a: int, b: int| 0 <= a < b < dropped@.len() implies dropped@[a] != dropped@[b] by {
                        if b == before.len() {
                            let j = choose|j: int| 0 <= j < i && all[j].0 == #[trigger] before[a];
                            assert(all[j].0 != all[i as int].0);
                        }
                    }
                    assert forall|key: CacheKey| #[trigger] dropped@.contains(key) == exists|j: int|
                        0 <= j < i + 1 && all[j].0 == key && !keep.contains(key) by {
                        vstd::seq_lib::lemma_seq_contains_after_push(before, entry.0, key);
                        if key == entry.0 && !keep.contains(key) {
                            assert(all[i as int].0 == key);
                        }
                    }
                    assert forall|a: int| 0 <= a < dropped@.len() implies exists|j: int|
                        0 <= j < i + 1 && all[j].0 == #[trigger] dropped@[a] by {
                        if a == before.len() {
                            assert(all[i as int].0 == dropped@[a]);
                        } else {
                            let j = choose|j: int| 0 <= j < i && all[j].0 == #[trigger] before[a];
                            assert(all[j].0 == dropped@[a]);
                        }
                    }
                }
            } else {
                staying.push(entry);
                proof {
                    assert forall|key: CacheKey| #[trigger] dropped@.contains(key) == exists|j: int|
                        0 <= j < i + 1 && all[j].0 == key && !keep.contains(key) by {
                        if exists|j: int| 0 <= j < i + 1 && all[j].0 == key && !keep.contains(key) {
                            let j = choose|j: int| 0 <= j < i + 1 && all[j].0 == key && !keep.contains(key);
                            assert(j != i);
                        }
                    }
                    assert forall|a: int| 0 <= a < dropped@.len() implies exists|j: int|
                        0 <= j < i + 1 && all[j].0 == #[trigger] dropped@[a] by {
                        let j = choose|j: int| 0 <= j < i && all[j].0 == #[trigger] before[a];
                        assert(all[j].0 == dropped@[a]);
                    }
                }
            }
            i += 1;
        }
        proof {
            assert(all.take(all.len() as int) =~= all);
            lemma_kept(all, keep);
            lemma_kept_distinct(all, keep);
            assert forall|key: CacheKey| #[trigger] dropped@.contains(key) == stale(wanted, frame, key) by {
                if stale(wanted, frame, key) {
                    if forall|j: int| 0 <= j < all.len() ==> all[j].0 != key {
                        lemma_table_absent(all, key);
                    }
                    let j = choose|j: int| 0 <= j < all.len() && !(all[j].0 != key);
                    assert(all[j].0 == key && !keep.contains(key));
                }
            }
            assert((|key: CacheKey| !dropped@.contains(key)) =~= (|key: CacheKey| !stale(wanted, frame, key)));
        }
        self.last_wanted = staying;
        let ready = without_gone(&self.ready, &dropped);
        let ghost pending_before = self.pending@;
        let pending = without_gone(&self.pending, &dropped);
        self.ready = ready;
        self.pending = pending;
        self.frame = frame + 1;
        proof {
            let p = |key: CacheKey| !stale(wanted, frame, key);
            assert forall|x: CacheKey| #[trigger] self.pending@.to_set().contains(x) == pending_before.to_set().filter(
                p,
            ).contains(x) by {
                if self.pending@.contains(x) {
                    pending_before.lemma_filter_contains_rev(p, x);
                    pending_before.lemma_filter_pred(p, self.pending@.index_of(x));
                }
                if pending_before.contains(x) && p(x) {
                    let j = choose|j: int| 0 <= j < pending_before.len() && pending_before[j] == x;
                    pending_before.lemma_filter_contains(p, j);
                }
            }
            assert(self.pending@.to_set() =~= pending_before.to_set().filter(p));
        }
        dropped
    }
}

} // verus!

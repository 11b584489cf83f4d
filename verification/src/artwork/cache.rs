//! What cover art is filed under, and the sizes it is cut at.
//!
//! Pixels are keyed on a hash of the encoded picture bytes, so tracks from one
//! album collapse to one entry without anything deciding they are one album.
//! Requests are rounded up to a ladder of sizes, so that dragging a divider
//! does not resample on every pixel; the ladder is capped down to the
//! source's own longest edge, so nothing is enlarged and one image is never
//! filed under two sizes.

use std::collections::hash_map::DefaultHasher;
use std::hash::Hasher;
use std::num::NonZeroUsize;
use std::sync::Arc;

use lru::LruCache;
use vstd::prelude::*;

use crate::table::{kept, lemma_kept, lemma_table_absent, lemma_table_last, lemma_table_push, table};
use vstd::std_specs::hash::DefaultHasherAdditionalSpecFns;

verus! {

/// The sizes covers are cut at, smallest first.
pub open spec fn ladder() -> Seq<u32> {
    seq![64, 128, 256, 512, 1024, 2048]
}

/// The key a picture is filed under.
#[derive(Debug, Clone, Copy, PartialEq, Eq, Structural, Hash, PartialOrd, Ord)]
pub struct ArtKey(pub u64);

/// The key of a picture with these encoded bytes: the standard hasher's
/// digest of them.
pub open spec fn key_of(bytes: Seq<u8>) -> ArtKey {
    ArtKey(DefaultHasher::spec_finish(seq![bytes]))
}

impl ArtKey {
    /// The key of a picture, from its encoded bytes alone: identical bytes
    /// share a key, whatever track they came from.
    pub fn of(bytes: &[u8]) -> (key: Self)
        ensures
            key == key_of(bytes@),
    {
        let mut hasher = DefaultHasher::new();
        hasher.write(bytes);
        proof {
            assert(hasher@ =~= seq![bytes@]);
        }
        ArtKey(hasher.finish())
    }
}

/// A decoded picture: `pixels` holds `width` by `height` RGBA pixels.
#[derive(Debug)]
pub struct Picture {
    pub width: u32,
    pub height: u32,
    pub pixels: Vec<u8>,
}

/// A decoded picture kept to cut further sizes from, shared rather than
/// copied, with the bytes it is counted at.
#[derive(Debug, Clone)]
pub struct Master {
    pub image: Arc<Picture>,
    pub bytes: usize,
}

/// The bytes a picture is counted at: four for each pixel.
pub open spec fn picture_bytes(image: Picture) -> int {
    image.width * image.height * 4
}

/// A cover to be read: the track it belongs to, its file, and the size wanted.
#[derive(Debug)]
pub struct Job {
    pub track: i64,
    pub path: std::path::PathBuf,
    pub bucket: u32,
}

/// A cover cut to one size: `pixels` holds `width` by `height` RGBA pixels,
/// and `source_edge` is the longest edge of the picture it was cut from. A
/// track with no art has no key.
#[derive(Debug, Clone)]
pub struct Art {
    pub track: i64,
    pub key: Option<ArtKey>,
    pub bucket: u32,
    pub width: u32,
    pub height: u32,
    pub pixels: Vec<u8>,
    pub source_edge: u32,
}

/// The smallest size of the ladder that holds `edge`, or the largest.
pub open spec fn quantised(edge: u32) -> u32 {
    if edge <= 64 {
        64
    } else if edge <= 128 {
        128
    } else if edge <= 256 {
        256
    } else if edge <= 512 {
        512
    } else if edge <= 1024 {
        1024
    } else {
        2048
    }
}

/// The largest size of the ladder `extent` holds, or the smallest.
pub open spec fn capped(extent: u32) -> u32 {
    if extent >= 2048 {
        2048
    } else if extent >= 1024 {
        1024
    } else if extent >= 512 {
        512
    } else if extent >= 256 {
        256
    } else if extent >= 128 {
        128
    } else {
        64
    }
}

/// The size a cover is cut at for a request of `edge` pixels, capped by the
/// source's longest edge where that is known.
pub open spec fn bucket_spec(edge: u32, extent: Option<u32>) -> u32 {
    match extent {
        Some(e) => if quantised(edge) < capped(e) {
            quantised(edge)
        } else {
            capped(e)
        },
        None => quantised(edge),
    }
}

/// The size a request for `edge` pixels is served at: the smallest size of
/// the ladder that holds it, or the largest where none does.
pub fn quantise_edge(edge: u32) -> (bucket: u32)
    ensures
        bucket == quantised(edge),
        ladder().contains(bucket),
        edge <= 2048 ==> edge <= bucket,
        edge > 2048 ==> bucket == 2048,
        forall|step: u32| #[trigger] ladder().contains(step) && edge <= step ==> bucket <= step,
{
    proof {
        assert(ladder()[0] == 64 && ladder()[1] == 128 && ladder()[2] == 256 && ladder()[3] == 512 && ladder()[4]
            == 1024 && ladder()[5] == 2048);
    }
    if edge <= 64 {
        64
    } else if edge <= 128 {
        128
    } else if edge <= 256 {
        256
    } else if edge <= 512 {
        512
    } else if edge <= 1024 {
        1024
    } else {
        2048
    }
}

/// The largest size a source whose longest edge is `extent` can be cut at:
/// the largest size of the ladder it holds, or the smallest where it holds
/// none.
pub fn cap(extent: u32) -> (size: u32)
    ensures
        size == capped(extent),
        ladder().contains(size),
        extent >= 64 ==> size <= extent,
        extent < 64 ==> size == 64,
        forall|step: u32| #[trigger] ladder().contains(step) && step <= extent ==> step <= size,
{
    proof {
        assert(ladder()[0] == 64 && ladder()[1] == 128 && ladder()[2] == 256 && ladder()[3] == 512 && ladder()[4]
            == 1024 && ladder()[5] == 2048);
    }
    if extent >= 2048 {
        2048
    } else if extent >= 1024 {
        1024
    } else if extent >= 512 {
        512
    } else if extent >= 256 {
        256
    } else if extent >= 128 {
        128
    } else {
        64
    }
}

/// The size a cover is cut at for a request of `edge` pixels: the request's
/// size, capped by the source's when that is known.
pub fn bucket_for(edge: u32, extent: Option<u32>) -> (bucket: u32)
    ensures
        bucket == bucket_spec(edge, extent),
        ladder().contains(bucket),
        extent matches Some(e) ==> bucket <= e || bucket == 64,
        bucket <= 2048,
{
    let wanted = quantise_edge(edge);
    match extent {
        Some(extent) => {
            let most = cap(extent);
            if wanted < most {
                wanted
            } else {
                most
            }
        },
        None => wanted,
    }
}

/// How close a held size comes to the one wanted, for choosing what to draw
/// meanwhile: any size at least as large beats any smaller one, and among
/// either the nearer wins. Compared first by the flag, then by the distance.
pub fn rank(candidate: u32, wanted: u32) -> (order: (u8, u32))
    ensures
        candidate >= wanted ==> order == (0u8, (candidate - wanted) as u32),
        candidate < wanted ==> order == (1u8, (wanted - candidate) as u32),
{
    if candidate >= wanted {
        (0, candidate - wanted)
    } else {
        (1, wanted - candidate)
    }
}

/// No cover is ever filed above its own size: a bucket capped by a source is
/// at most the source's longest edge, or the smallest size where the source
/// is smaller still.
pub proof fn lemma_never_enlarged(bucket: u32, extent: u32)
    requires
        ladder().contains(bucket),
        bucket <= extent || bucket == 64,
    ensures
        bucket <= if extent > 64 { extent } else { 64 },
{
}


/// Whether an entry of `s` has key `k`.
pub open spec fn holds_key<K, V>(s: Seq<(K, V)>, k: K) -> bool {
    exists|i: int| 0 <= i < s.len() && #[trigger] s[i].0 == k
}

/// The value filed under `k` in `s`.
pub open spec fn value_of<K, V>(s: Seq<(K, V)>, k: K) -> V {
    s[choose|i: int| 0 <= i < s.len() && #[trigger] s[i].0 == k].1
}

/// The entries of `s` other than the one with key `k`, in order.
pub open spec fn without_key<K, V>(s: Seq<(K, V)>, k: K) -> Seq<(K, V)>
    decreases s.len(),
{
    if s.len() == 0 {
        s
    } else if s.last().0 == k {
        without_key(s.drop_last(), k)
    } else {
        without_key(s.drop_last(), k).push(s.last())
    }
}

/// No two entries of `s` share a key.
pub open spec fn distinct_keys<K, V>(s: Seq<(K, V)>) -> bool {
    forall|i: int, j: int| 0 <= i < j < s.len() ==> #[trigger] s[i].0 != #[trigger] s[j].0
}

/// What `LruCache::push` makes of the entries `s`, least recently used
/// first, of a cache holding at most `cap`: an entry for `k` already there
/// is replaced and becomes the most recent; otherwise the new entry is the
/// most recent, and the least recent goes where the cache was full.
pub open spec fn pushed<K, V>(s: Seq<(K, V)>, cap: nat, k: K, v: V) -> Seq<(K, V)> {
    if holds_key(s, k) {
        without_key(s, k).push((k, v))
    } else if s.len() == cap {
        s.drop_first().push((k, v))
    } else {
        s.push((k, v))
    }
}

/// What `LruCache::push` answers: the entry replaced, or the one evicted.
pub open spec fn push_answer<K, V>(s: Seq<(K, V)>, cap: nat, k: K) -> Option<(K, V)> {
    if holds_key(s, k) {
        Some((k, value_of(s, k)))
    } else if s.len() == cap {
        Some(s[0])
    } else {
        None
    }
}

/// What `LruCache::get` makes of the entries: the one for `k`, if any,
/// becomes the most recent.
pub open spec fn touched<K, V>(s: Seq<(K, V)>, k: K) -> Seq<(K, V)> {
    if holds_key(s, k) {
        without_key(s, k).push((k, value_of(s, k)))
    } else {
        s
    }
}

#[verifier::external_type_specification]
#[verifier::external_body]
#[verifier::reject_recursive_types(K)]
#[verifier::reject_recursive_types(V)]
#[verifier::reject_recursive_types(S)]
pub struct ExLruCache<K, V, S>(lru::LruCache<K, V, S>);

#[verifier::external_type_specification]
#[verifier::external_body]
pub struct ExLruHasher(lru::DefaultHasher);

/// What a cache of decoded pictures holds: each picture's key and its entry,
/// least recently used first.
pub uninterp spec fn master_entries(cache: LruCache<u64, Master>) -> Seq<(u64, Master)>;

/// The most a cache of decoded pictures can hold, as it was made.
pub uninterp spec fn master_cap(cache: LruCache<u64, Master>) -> nat;

/// What a cache of cut sizes holds: each picture's key and size, least
/// recently used first.
pub uninterp spec fn scaled_entries(cache: LruCache<(u64, u32), ()>) -> Seq<((u64, u32), ())>;

/// The most a cache of cut sizes can hold, as it was made.
pub uninterp spec fn scaled_cap(cache: LruCache<(u64, u32), ()>) -> nat;

/// `LruCache::unbounded`: an empty cache that never evicts on its own; its
/// limit is the largest `usize`.
#[verifier::external_body]
fn masters_new() -> (masters: LruCache<u64, Master>)
    ensures
        master_entries(masters) == Seq::<(u64, Master)>::empty(),
        master_cap(masters) == usize::MAX,
{
    LruCache::unbounded()
}

/// `LruCache::push` on the decoded pictures: as `pushed` and `push_answer`
/// say, from the crate's `capturing_put` and `replace_or_create_node`.
#[verifier::external_body]
fn masters_push(masters: &mut LruCache<u64, Master>, key: u64, master: Master) -> (out: Option<(u64, Master)>)
    ensures
        master_entries(*final(masters)) == pushed(master_entries(*old(masters)), master_cap(*old(masters)), key, master),
        out == push_answer(master_entries(*old(masters)), master_cap(*old(masters)), key),
        master_cap(*final(masters)) == master_cap(*old(masters)),
        distinct_keys(master_entries(*final(masters))),
{
    masters.push(key, master)
}

/// `LruCache::get` on the decoded pictures: the picture filed under `key`,
/// which becomes the most recently used, handed out as a clone of its entry,
/// which shares the picture rather than copying it.
#[verifier::external_body]
fn masters_get(masters: &mut LruCache<u64, Master>, key: u64) -> (master: Option<Master>)
    ensures
        master_entries(*final(masters)) == touched(master_entries(*old(masters)), key),
        master == if holds_key(master_entries(*old(masters)), key) {
            Some(value_of(master_entries(*old(masters)), key))
        } else {
            None
        },
        master_cap(*final(masters)) == master_cap(*old(masters)),
        distinct_keys(master_entries(*final(masters))),
{
    masters.get(&key).cloned()
}

/// `LruCache::pop` on the decoded pictures: the entry for `key` leaves, and
/// is answered.
#[verifier::external_body]
fn masters_pop(masters: &mut LruCache<u64, Master>, key: u64) -> (master: Option<Master>)
    ensures
        master_entries(*final(masters)) == without_key(master_entries(*old(masters)), key),
        master == if holds_key(master_entries(*old(masters)), key) {
            Some(value_of(master_entries(*old(masters)), key))
        } else {
            None
        },
        master_cap(*final(masters)) == master_cap(*old(masters)),
        distinct_keys(master_entries(*final(masters))),
{
    masters.pop(&key)
}

/// `LruCache::pop_lru` on the decoded pictures: the least recently used entry
/// leaves and is answered.
#[verifier::external_body]
fn masters_pop_lru(masters: &mut LruCache<u64, Master>) -> (entry: Option<(u64, Master)>)
    ensures
        master_entries(*old(masters)).len() == 0 ==> entry is None && master_entries(*final(masters))
            == master_entries(*old(masters)),
        master_entries(*old(masters)).len() > 0 ==> entry == Some(master_entries(*old(masters))[0])
            && master_entries(*final(masters)) == master_entries(*old(masters)).drop_first(),
        master_cap(*final(masters)) == master_cap(*old(masters)),
        distinct_keys(master_entries(*final(masters))),
{
    masters.pop_lru()
}

/// `LruCache::iter` on the decoded pictures, keeping each key: the keys from
/// the most recently used to the least.
#[verifier::external_body]
fn masters_keys(masters: &LruCache<u64, Master>) -> (keys: Vec<u64>)
    ensures
        keys@ == master_entries(*masters).map_values(|entry: (u64, Master)| entry.0).reverse(),
{
    masters.iter().map(|(key, _)| *key).collect()
}

/// `LruCache::new`: an empty cache that holds at most `cap` entries.
#[verifier::external_body]
fn scaled_new(cap: usize) -> (scaled: LruCache<(u64, u32), ()>)
    requires
        cap > 0,
    ensures
        scaled_entries(scaled) == Seq::<((u64, u32), ())>::empty(),
        scaled_cap(scaled) == cap,
{
    LruCache::new(NonZeroUsize::new(cap).unwrap())
}

/// `LruCache::push` on the cut sizes: as `pushed` and `push_answer` say.
#[verifier::external_body]
fn scaled_push(scaled: &mut LruCache<(u64, u32), ()>, entry: (u64, u32)) -> (out: Option<((u64, u32), ())>)
    ensures
        scaled_entries(*final(scaled)) == pushed(scaled_entries(*old(scaled)), scaled_cap(*old(scaled)), entry, ()),
        out == push_answer(scaled_entries(*old(scaled)), scaled_cap(*old(scaled)), entry),
        scaled_cap(*final(scaled)) == scaled_cap(*old(scaled)),
        distinct_keys(scaled_entries(*final(scaled))),
{
    scaled.push(entry, ())
}

/// `LruCache::get` on the cut sizes: whether `entry` is held; a held one
/// becomes the most recently used.
#[verifier::external_body]
fn scaled_get(scaled: &mut LruCache<(u64, u32), ()>, entry: (u64, u32)) -> (held: bool)
    ensures
        scaled_entries(*final(scaled)) == touched(scaled_entries(*old(scaled)), entry),
        held == holds_key(scaled_entries(*old(scaled)), entry),
        scaled_cap(*final(scaled)) == scaled_cap(*old(scaled)),
        distinct_keys(scaled_entries(*final(scaled))),
{
    scaled.get(&entry).is_some()
}

/// `LruCache::pop` on the cut sizes: `entry` leaves, if it was held.
#[verifier::external_body]
fn scaled_pop(scaled: &mut LruCache<(u64, u32), ()>, entry: (u64, u32)) -> (held: bool)
    ensures
        scaled_entries(*final(scaled)) == without_key(scaled_entries(*old(scaled)), entry),
        held == holds_key(scaled_entries(*old(scaled)), entry),
        scaled_cap(*final(scaled)) == scaled_cap(*old(scaled)),
        distinct_keys(scaled_entries(*final(scaled))),
{
    scaled.pop(&entry).is_some()
}

/// `LruCache::iter` on the cut sizes, keeping each entry: from the most
/// recently used to the least.
#[verifier::external_body]
fn scaled_keys(scaled: &LruCache<(u64, u32), ()>) -> (entries: Vec<(u64, u32)>)
    ensures
        entries@ == scaled_entries(*scaled).map_values(|entry: ((u64, u32), ())| entry.0).reverse(),
{
    scaled.iter().map(|(entry, _)| *entry).collect()
}


/// How many bytes of decoded pictures are kept at most.
pub const MASTER_BUDGET: usize = 96 * 1024 * 1024;

/// How many cut sizes are kept at most.
pub const SCALED_CAPACITY: usize = 64;

/// The bytes the entries hold between them.
pub open spec fn total_bytes(s: Seq<(u64, Master)>) -> nat
    decreases s.len(),
{
    if s.len() == 0 {
        0
    } else {
        total_bytes(s.drop_last()) + s.last().1.bytes as nat
    }
}

/// How many of the least recently used entries go before `bytes` more fit
/// the budget: the fewest whose leaving brings what stays, with `bytes`,
/// within it.
pub open spec fn evictions(s: Seq<(u64, Master)>, bytes: nat) -> nat
    decreases s.len(),
{
    if total_bytes(s) + bytes <= MASTER_BUDGET || s.len() == 0 {
        0
    } else {
        1 + evictions(s.drop_first(), bytes)
    }
}


/// The cut sizes wanted after asking for `track` at `bucket`: unchanged if
/// that cover is in flight or already wanted, else with it added.
pub open spec fn wanting(wanted: Seq<(i64, u32)>, pending: Seq<(i64, u32)>, track: i64, bucket: u32) -> Seq<
    (i64, u32),
> {
    if pending.contains((track, bucket)) || wanted.contains((track, bucket)) {
        wanted
    } else {
        wanted.push((track, bucket))
    }
}

/// Whether a held size `a` is at least as good a stand-in for `wanted` as
/// `b`: larger sizes beat smaller ones, and within either the nearer wins.
pub open spec fn nearer_or_same(a: u32, b: u32, wanted: u32) -> bool {
    if a >= wanted && b < wanted {
        true
    } else if a < wanted && b >= wanted {
        false
    } else if a >= wanted {
        a - wanted <= b - wanted
    } else {
        wanted - a <= wanted - b
    }
}

/// Whether `bucket` is the size of `key` held that stands in best for
/// `wanted`.
pub open spec fn best_held(scaled: Seq<((u64, u32), ())>, key: u64, bucket: u32, wanted: u32) -> bool {
    &&& holds_key(scaled, (key, bucket))
    &&& forall|other: u32| #[trigger] holds_key(scaled, (key, other)) ==> nearer_or_same(bucket, other, wanted)
}

/// `PathBuf::clone` from std: a copy of the path for the job to carry. The
/// copy is claimed to be the same path, as `Clone` documents it to be.
#[verifier::external_body]
fn copy_path(path: &std::path::PathBuf) -> (copy: std::path::PathBuf)
    ensures
        copy == *path,
{
    path.clone()
}

/// Where covers are at: which picture each track carries, the longest edge
/// of each picture, the decoded pictures kept to cut new sizes from, the cut
/// sizes kept to draw, and the covers wanted and in flight.
///
/// The pixels themselves are held by whoever draws them, filed under the
/// same keys: this decides what is kept, what is read, and what goes.
pub struct Cache {
    sources: Vec<(i64, Option<u64>)>,
    extents: Vec<(u64, u32)>,
    masters: LruCache<u64, Master>,
    master_bytes: usize,
    scaled: LruCache<(u64, u32), ()>,
    wanted: Vec<Job>,
    pending: Vec<(i64, u32)>,
}

/// The track and size of each job.
pub open spec fn job_keys(jobs: Seq<Job>) -> Seq<(i64, u32)> {
    jobs.map_values(|job: Job| (job.track, job.bucket))
}


proof fn lemma_total_first(s: Seq<(u64, Master)>)
    requires
        s.len() > 0,
    ensures
        total_bytes(s) == s[0].1.bytes + total_bytes(s.drop_first()),
    decreases s.len(),
{
    if s.len() > 1 {
        lemma_total_first(s.drop_last());
        assert(s.drop_first().drop_last() =~= s.drop_last().drop_first());
        assert(s.drop_first().last() == s.last());
        assert(total_bytes(s.drop_first()) == total_bytes(s.drop_first().drop_last()) + s.drop_first().last().1.bytes as nat);
        assert(s.drop_last()[0] == s[0]);
    } else {
        assert(s.drop_first().len() == 0);
        assert(s.drop_last().len() == 0);
        assert(total_bytes(s.drop_last()) == 0);
        assert(total_bytes(s.drop_first()) == 0);
        assert(s.last() == s[0]);
    }
}

proof fn lemma_evictions(s: Seq<(u64, Master)>, bytes: nat)
    requires
        bytes <= MASTER_BUDGET,
    ensures
        evictions(s, bytes) <= s.len(),
        total_bytes(s.skip(evictions(s, bytes) as int)) + bytes <= MASTER_BUDGET,
    decreases s.len(),
{
    if !(total_bytes(s) + bytes <= MASTER_BUDGET || s.len() == 0) {
        lemma_evictions(s.drop_first(), bytes);
        assert(s.skip(evictions(s, bytes) as int) =~= s.drop_first().skip(evictions(s.drop_first(), bytes) as int));
    } else if s.len() == 0 {
        assert(s.skip(0) =~= s);
    } else {
        assert(s.skip(0) =~= s);
    }
}

proof fn lemma_without_absent<V>(s: Seq<(u64, V)>, k: u64)
    requires
        !holds_key(s, k),
    ensures
        without_key(s, k) == s,
    decreases s.len(),
{
    if s.len() > 0 {
        assert(!holds_key(s.drop_last(), k)) by {
            if holds_key(s.drop_last(), k) {
                let i = choose|i: int| 0 <= i < s.drop_last().len() && #[trigger] s.drop_last()[i].0 == k;
                assert(s[i].0 == k);
            }
        }
        lemma_without_absent(s.drop_last(), k);
        assert(s.last().0 != k) by {
            if s.last().0 == k {
                assert(s[s.len() - 1].0 == k);
            }
        }
        assert(s.drop_last().push(s.last()) =~= s);
    }
}

proof fn lemma_value_of_last<V>(s: Seq<(u64, V)>, i: int)
    requires
        distinct_keys(s),
        0 <= i < s.len(),
    ensures
        holds_key(s, s[i].0),
        value_of(s, s[i].0) == s[i].1,
{
    let k = s[i].0;
    assert(s[i].0 == k);
    let j = choose|j: int| 0 <= j < s.len() && #[trigger] s[j].0 == k;
    if j != i {
        if j < i {
            assert(s[j].0 != s[i].0);
        } else {
            assert(s[i].0 != s[j].0);
        }
    }
}

proof fn lemma_without_total(s: Seq<(u64, Master)>, k: u64)
    requires
        distinct_keys(s),
    ensures
        total_bytes(without_key(s, k)) + (if holds_key(s, k) { value_of(s, k).bytes as nat } else { 0 }) == total_bytes(s),
        distinct_keys(without_key(s, k)),
        forall|j: int| 0 <= j < without_key(s, k).len() ==> without_key(s, k)[j].0 != k,
    decreases s.len(),
{
    if s.len() > 0 {
        let rest = s.drop_last();
        assert(distinct_keys(rest));
        lemma_without_total(rest, k);
        let e = s.last();
        if e.0 == k {
            assert(!holds_key(rest, k)) by {
                if holds_key(rest, k) {
                    let i = choose|i: int| 0 <= i < rest.len() && #[trigger] rest[i].0 == k;
                    assert(s[i].0 != s[s.len() - 1].0);
                }
            }
            lemma_without_absent(rest, k);
            lemma_value_of_last(s, s.len() - 1);
        } else {
            assert(holds_key(s, k) == holds_key(rest, k)) by {
                if holds_key(s, k) {
                    let i = choose|i: int| 0 <= i < s.len() && #[trigger] s[i].0 == k;
                    assert(rest[i].0 == k);
                }
                if holds_key(rest, k) {
                    let i = choose|i: int| 0 <= i < rest.len() && #[trigger] rest[i].0 == k;
                    assert(s[i].0 == k);
                }
            }
            if holds_key(rest, k) {
                let i = choose|i: int| 0 <= i < rest.len() && #[trigger] rest[i].0 == k;
                lemma_value_of_last(rest, i);
                assert(s[i] == rest[i]);
                lemma_value_of_last(s, i);
            }
            let w = without_key(rest, k);
            assert(without_key(s, k) == w.push(e));
            assert(w.push(e).drop_last() =~= w);
            assert forall|a: int, b: int| 0 <= a < b < w.push(e).len() implies #[trigger] w.push(e)[a].0
                != #[trigger] w.push(e)[b].0 by {
                if b == w.len() {
                    assert(w[a].0 != e.0) by {
                        lemma_without_members(rest, k, a);
                    }
                }
            }
        }
    }
}

proof fn lemma_without_members(s: Seq<(u64, Master)>, k: u64, a: int)
    requires
        distinct_keys(s),
        0 <= a < without_key(s, k).len(),
        s.len() > 0,
    ensures
        exists|i: int| 0 <= i < s.len() && s[i] == without_key(s, k)[a],
    decreases s.len(),
{
    let rest = s.drop_last();
    if s.last().0 == k {
        if rest.len() > 0 {
            lemma_without_members(rest, k, a);
            let i = choose|i: int| 0 <= i < rest.len() && rest[i] == without_key(rest, k)[a];
            assert(s[i] == rest[i]);
        } else {
            assert(without_key(rest, k).len() == 0);
        }
    } else {
        let w = without_key(rest, k);
        if a < w.len() {
            lemma_without_members(rest, k, a);
            let i = choose|i: int| 0 <= i < rest.len() && rest[i] == w[a];
            assert(s[i] == rest[i]);
        } else {
            assert(s[s.len() - 1] == without_key(s, k)[a]);
        }
    }
}

proof fn lemma_touched_total(s: Seq<(u64, Master)>, k: u64)
    requires
        distinct_keys(s),
    ensures
        total_bytes(touched(s, k)) == total_bytes(s),
        holds_key(touched(s, k), k) == holds_key(s, k),
{
    lemma_without_total(s, k);
    if holds_key(s, k) {
        let t = touched(s, k);
        assert(t.drop_last() =~= without_key(s, k));
        assert(t[t.len() - 1].0 == k);
    }
}

proof fn lemma_pushed_total(s: Seq<(u64, Master)>, cap: nat, k: u64, v: Master)
    requires
        distinct_keys(s),
        cap > 0,
    ensures
        total_bytes(pushed(s, cap, k, v)) + (match push_answer(s, cap, k) {
            Some(out) => out.1.bytes as nat,
            None => 0,
        }) == total_bytes(s) + v.bytes,
{
    if holds_key(s, k) {
        lemma_without_total(s, k);
        assert(without_key(s, k).push((k, v)).drop_last() =~= without_key(s, k));
    } else if s.len() == cap {
        if s.len() > 0 {
            lemma_total_first(s);
            assert(s.drop_first().push((k, v)).drop_last() =~= s.drop_first());
        } else {
            assert(s.drop_first().push((k, v)).drop_last() =~= s.drop_first());
        }
    } else {
        assert(s.push((k, v)).drop_last() =~= s);
    }
}

/// Taking out the entry for `k` keeps every other key and only those.
proof fn lemma_holds_without<K, V>(s: Seq<(K, V)>, k: K, x: K)
    ensures
        holds_key(without_key(s, k), x) == (x != k && holds_key(s, x)),
    decreases s.len(),
{
    if s.len() > 0 {
        let rest = s.drop_last();
        lemma_holds_without(rest, k, x);
        assert(holds_key(s, x) == (holds_key(rest, x) || s.last().0 == x)) by {
            if holds_key(s, x) {
                let i = choose|i: int| 0 <= i < s.len() && #[trigger] s[i].0 == x;
                if i < s.len() - 1 {
                    assert(rest[i].0 == x);
                }
            }
            if holds_key(rest, x) {
                let i = choose|i: int| 0 <= i < rest.len() && #[trigger] rest[i].0 == x;
                assert(s[i].0 == x);
            }
            if s.last().0 == x {
                assert(s[s.len() - 1].0 == x);
            }
        }
        if s.last().0 != k {
            let w = without_key(rest, k);
            assert(holds_key(w.push(s.last()), x) == (holds_key(w, x) || s.last().0 == x)) by {
                let p = w.push(s.last());
                if holds_key(p, x) {
                    let i = choose|i: int| 0 <= i < p.len() && #[trigger] p[i].0 == x;
                    if i < w.len() {
                        assert(w[i].0 == x);
                    }
                }
                if holds_key(w, x) {
                    let i = choose|i: int| 0 <= i < w.len() && #[trigger] w[i].0 == x;
                    assert(p[i].0 == x);
                }
                if s.last().0 == x {
                    assert(p[w.len() as int].0 == x);
                }
            }
        }
    }
}

/// Making an entry the most recent keeps the same keys.
proof fn lemma_holds_touched<K, V>(s: Seq<(K, V)>, k: K, x: K)
    ensures
        holds_key(touched(s, k), x) == holds_key(s, x),
{
    lemma_holds_without(s, k, x);
    if holds_key(s, k) {
        let w = without_key(s, k);
        let p = w.push((k, value_of(s, k)));
        if holds_key(p, x) {
            let i = choose|i: int| 0 <= i < p.len() && #[trigger] p[i].0 == x;
            if i < w.len() {
                assert(w[i].0 == x);
            }
        }
        if holds_key(w, x) {
            let i = choose|i: int| 0 <= i < w.len() && #[trigger] w[i].0 == x;
            assert(p[i].0 == x);
        }
        assert(p[w.len() as int].0 == k);
    }
}

/// The decoded pictures after looking up, in turn, the picture of each track
/// handed out (`None` for a track not known to carry one).
pub open spec fn touch_sources(s: Seq<(u64, Master)>, picks: Seq<Option<u64>>) -> Seq<(u64, Master)>
    decreases picks.len(),
{
    if picks.len() == 0 {
        s
    } else {
        let before = touch_sources(s, picks.drop_last());
        match picks.last() {
            Some(k) => touched(before, k),
            None => before,
        }
    }
}

proof fn lemma_touch_sources(s: Seq<(u64, Master)>, picks: Seq<Option<u64>>, x: u64)
    requires
        distinct_keys(s),
    ensures
        holds_key(touch_sources(s, picks), x) == holds_key(s, x),
        distinct_keys(touch_sources(s, picks)),
        holds_key(s, x) ==> value_of(touch_sources(s, picks), x) == value_of(s, x),
    decreases picks.len(),
{
    if picks.len() > 0 {
        lemma_touch_sources(s, picks.drop_last(), x);
        if let Some(k) = picks.last() {
            let before = touch_sources(s, picks.drop_last());
            lemma_holds_touched(before, k, x);
            lemma_touched_value(before, k, x);
        }
    }
}

/// Making an entry the most recent keeps the keys distinct and every value
/// where it was filed.
proof fn lemma_touched_value(s: Seq<(u64, Master)>, k: u64, x: u64)
    requires
        distinct_keys(s),
    ensures
        distinct_keys(touched(s, k)),
        holds_key(s, x) ==> value_of(touched(s, k), x) == value_of(s, x),
{
    if holds_key(s, k) {
        lemma_without_total(s, k);
        let w = without_key(s, k);
        let p = w.push((k, value_of(s, k)));
        assert forall|a: int, b: int| 0 <= a < b < p.len() implies #[trigger] p[a].0 != #[trigger] p[b].0 by {
            if b == w.len() {
                assert(w[a].0 != k);
            } else {
                assert(p[a] == w[a] && p[b] == w[b]);
            }
        }
        if holds_key(s, x) {
            if x == k {
                lemma_value_of_last(p, w.len() as int);
            } else {
                lemma_holds_without(s, k, x);
                let a = choose|a: int| 0 <= a < w.len() && #[trigger] w[a].0 == x;
                lemma_without_members(s, k, a);
                let i = choose|i: int| 0 <= i < s.len() && s[i] == w[a];
                lemma_value_of_last(s, i);
                assert(p[a] == w[a]);
                lemma_value_of_last(p, a);
            }
        }
    }
}

impl Cache {
    /// Which picture each track read carries; `None` for a track read to
    /// carry none.
    pub closed spec fn sources_map(&self) -> Map<i64, Option<u64>> {
        table(self.sources@)
    }

    /// The longest edge of each picture cut so far.
    pub closed spec fn extents_map(&self) -> Map<u64, u32> {
        table(self.extents@)
    }

    /// The decoded pictures kept, with their sizes, least recently used first.
    pub closed spec fn masters_seq(&self) -> Seq<(u64, Master)> {
        master_entries(self.masters)
    }

    /// The bytes the decoded pictures kept take.
    pub closed spec fn master_total(&self) -> nat {
        self.master_bytes as nat
    }

    /// The cut sizes kept, least recently used first.
    pub closed spec fn scaled_seq(&self) -> Seq<((u64, u32), ())> {
        scaled_entries(self.scaled)
    }

    /// The covers wanted and not yet handed out, by track and size.
    pub open spec fn wanted_seq(&self) -> Seq<(i64, u32)> {
        job_keys(self.wanted_jobs())
    }

    /// The jobs wanted and not yet handed out, in the order asked.
    pub closed spec fn wanted_jobs(&self) -> Seq<Job> {
        self.wanted@
    }

    /// The covers handed out and not yet filed, by track and size.
    pub closed spec fn pending_seq(&self) -> Seq<(i64, u32)> {
        self.pending@
    }

    /// The bookkeeping agrees with itself: the bytes counted are the bytes
    /// kept and within the budget, no picture or size is kept twice, and a
    /// cover is wanted at most once and never while it is in flight.
    pub closed spec fn wf(&self) -> bool {
        &&& distinct_keys(self.sources@)
        &&& self.master_bytes == total_bytes(master_entries(self.masters))
        &&& self.master_bytes <= MASTER_BUDGET
        &&& distinct_keys(master_entries(self.masters))
        &&& master_cap(self.masters) == usize::MAX
        &&& distinct_keys(scaled_entries(self.scaled))
        &&& scaled_cap(self.scaled) == SCALED_CAPACITY
        &&& self.wanted_seq().no_duplicates()
        &&& forall|i: int| 0 <= i < self.wanted_seq().len() ==> !self.pending@.contains(#[trigger] self.wanted_seq()[i])
    }

    /// The picture a track carries, if it has been read to carry one.
    pub open spec fn source_spec(&self, track: i64) -> Option<u64> {
        if self.sources_map().contains_key(track) {
            self.sources_map()[track]
        } else {
            None
        }
    }

    /// An empty cache with nothing wanted.
    pub fn new() -> (cache: Self)
        ensures
            cache.wf(),
            cache.sources_map() == Map::<i64, Option<u64>>::empty(),
            cache.extents_map() == Map::<u64, u32>::empty(),
            cache.masters_seq().len() == 0,
            cache.scaled_seq().len() == 0,
            cache.wanted_seq().len() == 0,
            cache.pending_seq().len() == 0,
    {
        let cache = Cache {
            sources: Vec::new(),
            extents: Vec::new(),
            masters: masters_new(),
            master_bytes: 0,
            scaled: scaled_new(SCALED_CAPACITY),
            wanted: Vec::new(),
            pending: Vec::new(),
        };
        proof {
            assert(cache.wanted_seq() =~= Seq::<(i64, u32)>::empty());
        }
        cache
    }

    fn source_place(&self, track: i64) -> (place: Option<usize>)
        ensures
            match place {
                Some(i) => i < self.sources@.len() && self.sources@[i as int].0 == track && forall|j: int|
                    i < j < self.sources@.len() ==> self.sources@[j].0 != track,
                None => forall|j: int| 0 <= j < self.sources@.len() ==> self.sources@[j].0 != track,
            },
    {
        let mut end = self.sources.len();
        while end > 0
            invariant
                end <= self.sources@.len(),
                forall|j: int| end <= j < self.sources@.len() ==> self.sources@[j].0 != track,
            decreases end,
        {
            if self.sources[end - 1].0 == track {
                return Some(end - 1);
            }
            end -= 1;
        }
        None
    }

    /// What is known of a track: `None` if it has not been read,
    /// `Some(None)` if it was read to carry no picture.
    fn source(&self, track: i64) -> (known: Option<Option<u64>>)
        ensures
            known == if self.sources_map().contains_key(track) {
                Some(self.sources_map()[track])
            } else {
                None
            },
    {
        match self.source_place(track) {
            Some(i) => {
                proof {
                    lemma_table_last(self.sources@, i as int);
                }
                Some(self.sources[i].1)
            },
            None => {
                proof {
                    lemma_table_absent(self.sources@, track);
                }
                None
            },
        }
    }

    /// Whether a track has been read and found to carry no picture.
    pub fn resolved_empty(&self, track: i64) -> (empty: bool)
        ensures
            empty == (self.sources_map().contains_key(track) && self.sources_map()[track] is None),
    {
        match self.source(track) {
            Some(None) => true,
            _ => false,
        }
    }

    /// Whether nothing is waiting to be read.
    pub fn is_idle(&self) -> (idle: bool)
        ensures
            idle == (self.wanted_seq().len() == 0),
    {
        self.wanted.len() == 0
    }

    /// The decoded picture `key`, shared, where it is kept; a kept one becomes
    /// the most recently used.
    pub fn master(&mut self, key: ArtKey) -> (kept: Option<Arc<Picture>>)
        requires
            old(self).wf(),
        ensures
            final(self).wf(),
            kept == if holds_key(old(self).masters_seq(), key.0) {
                Some(value_of(old(self).masters_seq(), key.0).image)
            } else {
                None
            },
            final(self).masters_seq() == touched(old(self).masters_seq(), key.0),
            final(self).sources_map() == old(self).sources_map(),
            final(self).extents_map() == old(self).extents_map(),
            final(self).scaled_seq() == old(self).scaled_seq(),
            final(self).wanted_seq() == old(self).wanted_seq(),
            final(self).pending_seq() == old(self).pending_seq(),
    {
        let ghost before = master_entries(self.masters);
        let kept = match masters_get(&mut self.masters, key.0) {
            Some(master) => Some(master.image),
            None => None,
        };
        proof {
            lemma_touched_total(before, key.0);
        }
        kept
    }

    /// Keeps the decoded picture `key`, counted at four bytes a pixel, making
    /// room by letting the least recently used pictures go until it fits the
    /// budget. A picture larger than the whole budget is refused. Answers
    /// whether it was kept, and the pictures let go.
    pub fn keep_master(&mut self, key: ArtKey, image: Arc<Picture>) -> (outcome: (bool, Vec<ArtKey>))
        requires
            old(self).wf(),
            picture_bytes(*image) <= usize::MAX,
        ensures
            final(self).wf(),
            outcome.0 == (picture_bytes(*image) <= MASTER_BUDGET),
            !outcome.0 ==> outcome.1@.len() == 0 && final(self).masters_seq() == old(self).masters_seq(),
            outcome.0 ==> {
                let bytes = picture_bytes(*image);
                let n = evictions(old(self).masters_seq(), bytes as nat);
                &&& outcome.1@ == old(self).masters_seq().take(n as int).map_values(|entry: (u64, Master)| ArtKey(entry.0))
                &&& final(self).masters_seq() == pushed(
                    old(self).masters_seq().skip(n as int),
                    usize::MAX as nat,
                    key.0,
                    Master { image, bytes: bytes as usize },
                )
            },
            final(self).sources_map() == old(self).sources_map(),
            final(self).extents_map() == old(self).extents_map(),
            final(self).scaled_seq() == old(self).scaled_seq(),
            final(self).wanted_seq() == old(self).wanted_seq(),
            final(self).pending_seq() == old(self).pending_seq(),
    {
        let bytes = image.width as usize * image.height as usize * 4;
        let mut evicted: Vec<ArtKey> = Vec::new();
        if bytes > MASTER_BUDGET {
            return (false, evicted);
        }
        let ghost start = master_entries(self.masters);
        let ghost n = evictions(start, bytes as nat);
        let ghost mut gone: int = 0;
        proof {
            lemma_evictions(start, bytes as nat);
            assert(start.skip(0) =~= start);
            assert(start.take(0) =~= Seq::<(u64, Master)>::empty());
        }
        while self.master_bytes > MASTER_BUDGET - bytes
            invariant
                bytes <= MASTER_BUDGET,
                0 <= gone <= n <= start.len(),
                master_entries(self.masters) == start.skip(gone),
                self.master_bytes == total_bytes(master_entries(self.masters)),
                self.master_bytes <= MASTER_BUDGET,
                distinct_keys(master_entries(self.masters)),
                master_cap(self.masters) == usize::MAX,
                evicted@ == start.take(gone).map_values(|entry: (u64, Master)| ArtKey(entry.0)),
                evictions(start.skip(gone), bytes as nat) == n - gone,
                self.wanted_seq().no_duplicates(),
                forall|i: int| 0 <= i < self.wanted_seq().len() ==> !self.pending@.contains(#[trigger] self.wanted_seq()[i]),
                distinct_keys(scaled_entries(self.scaled)),
                scaled_cap(self.scaled) == SCALED_CAPACITY,
                self.sources@ == old(self).sources@,
                self.extents@ == old(self).extents@,
                self.scaled == old(self).scaled,
                self.wanted@ == old(self).wanted@,
                self.pending@ == old(self).pending@,
            decreases master_entries(self.masters).len(),
        {
            let ghost here = master_entries(self.masters);
            proof {
                if here.len() == 0 {
                    assert(total_bytes(here) == 0);
                }
            }
            match masters_pop_lru(&mut self.masters) {
                Some((gone_key, gone_master)) => {
                    proof {
                        lemma_total_first(here);
                        assert(start.skip(gone).drop_first() =~= start.skip(gone + 1));
                        assert(start.take(gone + 1) =~= start.take(gone).push(start[gone]));
                        assert(start[gone] == here[0]);
                        gone = gone + 1;
                    }
                    self.master_bytes = self.master_bytes - gone_master.bytes;
                    evicted.push(ArtKey(gone_key));
                    proof {
                        assert(evicted@ =~= start.take(gone).map_values(|entry: (u64, Master)| ArtKey(entry.0)));
                    }
                },
                None => {},
            }
        }
        proof {
            assert(evictions(start.skip(gone), bytes as nat) == 0);
            assert(gone == n);
        }
        let ghost fitted = master_entries(self.masters);
        let master = Master { image, bytes };
        let ghost kept = master;
        let out = masters_push(&mut self.masters, key.0, master);
        proof {
            lemma_pushed_total(fitted, usize::MAX as nat, key.0, kept);
        }
        match out {
            Some((_, dropped)) => {
                self.master_bytes = self.master_bytes - dropped.bytes;
            },
            None => {},
        }
        self.master_bytes = self.master_bytes + bytes;
        (true, evicted)
    }
}


impl Cache {
    /// The longest edge recorded for picture `key`.
    pub open spec fn extent_spec(&self, key: u64) -> Option<u32> {
        if self.extents_map().contains_key(key) {
            Some(self.extents_map()[key])
        } else {
            None
        }
    }

    fn extent(&self, key: u64) -> (extent: Option<u32>)
        ensures
            extent == self.extent_spec(key),
    {
        let mut end = self.extents.len();
        while end > 0
            invariant
                end <= self.extents@.len(),
                forall|j: int| end <= j < self.extents@.len() ==> self.extents@[j].0 != key,
            decreases end,
        {
            if self.extents[end - 1].0 == key {
                proof {
                    lemma_table_last(self.extents@, end - 1);
                }
                return Some(self.extents[end - 1].1);
            }
            end -= 1;
        }
        proof {
            lemma_table_absent(self.extents@, key);
        }
        None
    }

    /// Whether `candidate` is wanted or in flight already.
    fn asked(&self, track: i64, bucket: u32) -> (asked: bool)
        ensures
            asked == (self.pending@.contains((track, bucket)) || self.wanted_seq().contains((track, bucket))),
    {
        let mut i: usize = 0;
        while i < self.pending.len()
            invariant
                i <= self.pending@.len(),
                forall|j: int| 0 <= j < i ==> self.pending@[j] != (track, bucket),
            decreases self.pending@.len() - i,
        {
            if self.pending[i].0 == track && self.pending[i].1 == bucket {
                proof {
                    assert(self.pending@[i as int] == (track, bucket));
                }
                return true;
            }
            i += 1;
        }
        let mut j: usize = 0;
        while j < self.wanted.len()
            invariant
                j <= self.wanted@.len(),
                self.wanted_seq().len() == self.wanted@.len(),
                forall|m: int| 0 <= m < j ==> self.wanted_seq()[m] != (track, bucket),
            decreases self.wanted@.len() - j,
        {
            if self.wanted[j].track == track && self.wanted[j].bucket == bucket {
                proof {
                    assert(self.wanted_seq()[j as int] == (track, bucket));
                }
                return true;
            }
            j += 1;
        }
        false
    }

    /// The held size of `key` that stands in best for `wanted`, if any size
    /// of it is held.
    fn nearest_ready(&self, key: u64, wanted: u32) -> (bucket: Option<u32>)
        requires
            self.wf(),
        ensures
            match bucket {
                Some(b) => best_held(self.scaled_seq(), key, b, wanted),
                None => forall|other: u32| !holds_key(self.scaled_seq(), (key, other)),
            },
    {
        let held = scaled_keys(&self.scaled);
        let ghost entries = scaled_entries(self.scaled);
        let ghost order = held@;
        proof {
            assert forall|j: int| 0 <= j < order.len() implies #[trigger] order[j] == entries[entries.len() - 1 - j].0 by {
            }
        }
        let mut best: Option<u32> = None;
        let mut i: usize = 0;
        while i < held.len()
            invariant
                i <= held@.len(),
                held@ == order,
                order.len() == entries.len(),
                entries == scaled_entries(self.scaled),
                forall|j: int| 0 <= j < order.len() ==> #[trigger] order[j] == entries[entries.len() - 1 - j].0,
                match best {
                    Some(b) => {
                        &&& holds_key(entries, (key, b))
                        &&& forall|j: int| 0 <= j < i && (#[trigger] order[j]).0 == key ==> nearer_or_same(b, order[j].1, wanted)
                    },
                    None => forall|j: int| 0 <= j < i ==> (#[trigger] order[j]).0 != key,
                },
            decreases held@.len() - i,
        {
            let (k, b) = held[i];
            if k == key {
                proof {
                    let at = entries.len() - 1 - i;
                    assert(order[i as int] == entries[at].0);
                    assert(entries[at].0 == (key, b));
                }
                let better = match best {
                    None => true,
                    Some(current) => {
                        if b >= wanted && current < wanted {
                            true
                        } else if b < wanted && current >= wanted {
                            false
                        } else if b >= wanted {
                            b - wanted < current - wanted
                        } else {
                            wanted - b < wanted - current
                        }
                    },
                };
                if better {
                    best = Some(b);
                }
            }
            i += 1;
        }
        proof {
            assert forall|other: u32| #[trigger] holds_key(entries, (key, other)) implies match best {
                Some(b) => nearer_or_same(b, other, wanted),
                None => false,
            } by {
                let at = choose|at: int| 0 <= at < entries.len() && #[trigger] entries[at].0 == (key, other);
                let j = entries.len() - 1 - at;
                assert(order[j] == entries[entries.len() - 1 - j].0);
            }
        }
        best
    }

    /// What drawing `track` at `edge` pixels asks of the cache, and what to
    /// draw meanwhile. A track read to carry no picture draws nothing and
    /// asks nothing. Otherwise the size is the request's, capped by the
    /// picture's own where that is known; a held cut of it is drawn and
    /// becomes the most recently used. When none is held the cover is wanted,
    /// once, and the held size of the same picture that stands in best is
    /// drawn meanwhile.
    #[verifier::spinoff_prover]
    pub fn request(&mut self, track: i64, path: &std::path::PathBuf, edge: u32) -> (drawn: Option<(ArtKey, u32)>)
        requires
            old(self).wf(),
        ensures
            final(self).wf(),
            final(self).sources_map() == old(self).sources_map(),
            final(self).extents_map() == old(self).extents_map(),
            final(self).masters_seq() == old(self).masters_seq(),
            final(self).pending_seq() == old(self).pending_seq(),
            ({
                let known = old(self).sources_map().contains_key(track);
                let key = old(self).source_spec(track);
                let bucket = match key {
                    Some(k) => bucket_spec(edge, old(self).extent_spec(k)),
                    None => quantised(edge),
                };
                if known && key is None {
                    &&& drawn is None
                    &&& final(self).scaled_seq() == old(self).scaled_seq()
                    &&& final(self).wanted_jobs() == old(self).wanted_jobs()
                } else if key matches Some(k) && holds_key(old(self).scaled_seq(), (k, bucket)) {
                    &&& drawn == Some((ArtKey(key->0), bucket))
                    &&& final(self).scaled_seq() == touched(old(self).scaled_seq(), (key->0, bucket))
                    &&& final(self).wanted_jobs() == old(self).wanted_jobs()
                } else {
                    &&& final(self).scaled_seq() == old(self).scaled_seq()
                    &&& final(self).wanted_seq() == wanting(old(self).wanted_seq(), old(self).pending_seq(), track, bucket)
                    &&& final(self).wanted_jobs() == if old(self).pending_seq().contains((track, bucket))
                        || old(self).wanted_seq().contains((track, bucket)) {
                        old(self).wanted_jobs()
                    } else {
                        old(self).wanted_jobs().push(Job { track, path: *path, bucket })
                    }
                    &&& match key {
                        Some(k) => match drawn {
                            Some((shown, b)) => shown == ArtKey(k) && best_held(old(self).scaled_seq(), k, b, bucket),
                            None => forall|other: u32| !holds_key(old(self).scaled_seq(), (k, other)),
                        },
                        None => drawn is None,
                    }
                }
            }),
    {
        let source = self.source(track);
        if let Some(None) = source {
            return None;
        }
        let key = match source {
            Some(Some(k)) => Some(k),
            _ => None,
        };
        let bucket = match key {
            Some(k) => bucket_for(edge, self.extent(k)),
            None => quantise_edge(edge),
        };
        if let Some(k) = key {
            if scaled_get(&mut self.scaled, (k, bucket)) {
                return Some((ArtKey(k), bucket));
            }
        }
        let ghost waiting = self.wanted_seq();
        if !self.asked(track, bucket) {
            let job = Job { track, path: copy_path(path), bucket };
            let ghost before = self.wanted@;
            self.wanted.push(job);
            proof {
                let w = self.wanted_seq();
                assert(w =~= job_keys(before).push((track, bucket)));
                assert forall|a: int, b: int| 0 <= a < w.len() && 0 <= b < w.len() && a != b implies w[a] != w[b] by {
                    if a < w.len() - 1 {
                        assert(w[a] == job_keys(before)[a]);
                    }
                    if b < w.len() - 1 {
                        assert(w[b] == job_keys(before)[b]);
                    }
                }
                assert forall|i: int| 0 <= i < w.len() implies !self.pending@.contains(#[trigger] w[i]) by {
                    if i < w.len() - 1 {
                        assert(job_keys(before)[i] == w[i]);
                    }
                }
                assert(w == wanting(waiting, self.pending@, track, bucket));
            }
        } else {
            proof {
                assert(self.wanted_seq() == wanting(waiting, self.pending@, track, bucket));
            }
        }
        match key {
            Some(k) => match self.nearest_ready(k, bucket) {
                Some(b) => Some((ArtKey(k), b)),
                None => None,
            },
            None => None,
        }
    }
}


impl Cache {
    /// The decoded picture handed out with a job for `track`: the track's
    /// picture, where it is kept.
    pub open spec fn handed_master(&self, track: i64) -> Option<(ArtKey, Arc<Picture>)> {
        match self.source_spec(track) {
            Some(k) => if holds_key(self.masters_seq(), k) {
                Some((ArtKey(k), value_of(self.masters_seq(), k).image))
            } else {
                None
            },
            None => None,
        }
    }

    /// Hands out every cover wanted, each with the decoded picture to cut it
    /// from where one is kept, and counts them as in flight. Each picture
    /// handed out becomes the most recently used.
    pub fn take(&mut self) -> (handed: Vec<(Job, Option<(ArtKey, Arc<Picture>)>)>)
        requires
            old(self).wf(),
        ensures
            final(self).wf(),
            final(self).wanted_seq().len() == 0,
            final(self).pending_seq() == old(self).pending_seq() + old(self).wanted_seq(),
            handed@.len() == old(self).wanted_seq().len(),
            forall|i: int|
                0 <= i < handed@.len() ==> {
                    &&& (#[trigger] handed@[i]).0 == old(self).wanted_jobs()[i]
                    &&& handed@[i].0.track == old(self).wanted_seq()[i].0
                    &&& handed@[i].0.bucket == old(self).wanted_seq()[i].1
                    &&& handed@[i].1 == old(self).handed_master(handed@[i].0.track)
                },
            final(self).masters_seq() == touch_sources(
                old(self).masters_seq(),
                old(self).wanted_seq().map_values(|w: (i64, u32)| old(self).source_spec(w.0)),
            ),
            final(self).sources_map() == old(self).sources_map(),
            final(self).extents_map() == old(self).extents_map(),
            final(self).scaled_seq() == old(self).scaled_seq(),
    {
        let mut jobs: Vec<Job> = Vec::new();
        std::mem::swap(&mut jobs, &mut self.wanted);
        let ghost all = jobs@;
        let ghost keys = job_keys(all);
        let ghost picks = keys.map_values(|w: (i64, u32)| old(self).source_spec(w.0));
        let ghost start = master_entries(self.masters);
        let ghost pend = self.pending@;
        let mut handed: Vec<(Job, Option<(ArtKey, Arc<Picture>)>)> = Vec::new();
        proof {
            assert(all.skip(0) =~= all);
            assert(keys.take(0) =~= Seq::<(i64, u32)>::empty());
            assert(pend + keys.take(0) =~= pend);
            assert(picks.take(0) =~= Seq::<Option<u64>>::empty());
            assert(job_keys(self.wanted@) =~= Seq::<(i64, u32)>::empty());
        }
        while jobs.len() > 0
            invariant
                self.wf(),
                self.wanted@.len() == 0,
                handed@.len() + jobs@.len() == all.len(),
                keys.len() == all.len(),
                picks.len() == all.len(),
                jobs@ == all.skip(handed@.len() as int),
                self.pending@ == pend + keys.take(handed@.len() as int),
                master_entries(self.masters) == touch_sources(start, picks.take(handed@.len() as int)),
                start == old(self).masters_seq(),
                distinct_keys(start),
                keys == old(self).wanted_seq(),
                pend == old(self).pending_seq(),
                picks == keys.map_values(|w: (i64, u32)| old(self).source_spec(w.0)),
                forall|i: int|
                    0 <= i < handed@.len() ==> {
                        &&& (#[trigger] handed@[i]).0 == all[i]
                        &&& handed@[i].0.track == keys[i].0
                        &&& handed@[i].0.bucket == keys[i].1
                        &&& handed@[i].1 == old(self).handed_master(handed@[i].0.track)
                    },
                keys == job_keys(all),
                self.sources_map() == old(self).sources_map(),
                self.extents_map() == old(self).extents_map(),
                self.scaled_seq() == old(self).scaled_seq(),
            decreases jobs@.len(),
        {
            let ghost n = handed@.len() as int;
            let job = jobs.remove(0);
            proof {
                assert(job == all[n]);
                assert(keys[n] == (job.track, job.bucket));
                assert(jobs@ =~= all.skip(n + 1));
            }
            let master = match self.source(job.track) {
                Some(Some(k)) => {
                    proof {
                        lemma_touch_sources(start, picks.take(n), k);
                    }
                    match self.master(ArtKey(k)) {
                        Some(image) => Some((ArtKey(k), image)),
                        None => None,
                    }
                },
                _ => None,
            };
            proof {
                assert(picks.take(n + 1).drop_last() =~= picks.take(n));
                assert(picks[n] == old(self).source_spec(job.track));
                assert(keys.take(n + 1) =~= keys.take(n).push(keys[n]));
            }
            self.pending.push((job.track, job.bucket));
            handed.push((job, master));
            proof {
                assert(self.pending@ =~= pend + keys.take(n + 1));
            }
        }
        proof {
            assert(keys.take(all.len() as int) =~= keys);
            assert(picks.take(all.len() as int) =~= picks);
        }
        handed
    }
}


/// Whether a cover in flight, `entry`, is settled by filing picture `key` at
/// `bucket` once `sources` records what each track carries.
pub open spec fn settled(sources: Map<i64, Option<u64>>, key: u64, bucket: u32, entry: (i64, u32)) -> bool {
    &&& sources.contains_key(entry.0)
    &&& sources[entry.0] == Some(key)
    &&& entry.1 == bucket
}

impl Cache {
    fn set_source(&mut self, track: i64, key: Option<u64>)
        requires
            old(self).wf(),
        ensures
            final(self).wf(),
            final(self).sources_map() == old(self).sources_map().insert(track, key),
            final(self).extents@ == old(self).extents@,
            final(self).masters == old(self).masters,
            final(self).master_bytes == old(self).master_bytes,
            final(self).scaled == old(self).scaled,
            final(self).wanted@ == old(self).wanted@,
            final(self).pending@ == old(self).pending@,
    {
        match self.source_place(track) {
            Some(i) => {
                proof {
                    lemma_table_last(self.sources@, i as int);
                }
                let ghost before = self.sources@;
                self.sources[i] = (track, key);
                proof {
                    assert(self.sources@ == before.update(i as int, (before[i as int].0, key)));
                }
            },
            None => {
                proof {
                    lemma_table_push(self.sources@, (track, key));
                }
                self.sources.push((track, key));
            },
        }
    }

    fn set_extent(&mut self, key: u64, extent: u32)
        requires
            old(self).wf(),
        ensures
            final(self).wf(),
            final(self).extents_map() == old(self).extents_map().insert(key, extent),
            final(self).sources@ == old(self).sources@,
            final(self).masters == old(self).masters,
            final(self).master_bytes == old(self).master_bytes,
            final(self).scaled == old(self).scaled,
            final(self).wanted@ == old(self).wanted@,
            final(self).pending@ == old(self).pending@,
    {
        let mut end = self.extents.len();
        while end > 0
            invariant
                end <= self.extents@.len(),
                forall|j: int| end <= j < self.extents@.len() ==> self.extents@[j].0 != key,
                self.wf(),
                self.extents@ == old(self).extents@,
                self.sources@ == old(self).sources@,
                self.masters == old(self).masters,
                self.master_bytes == old(self).master_bytes,
                self.scaled == old(self).scaled,
                self.wanted@ == old(self).wanted@,
                self.pending@ == old(self).pending@,
            decreases end,
        {
            if self.extents[end - 1].0 == key {
                proof {
                    lemma_table_last(self.extents@, end - 1);
                }
                let ghost before = self.extents@;
                self.extents[end - 1] = (key, extent);
                proof {
                    assert(self.extents@ == before.update(end - 1, (before[end - 1].0, extent)));
                }
                return;
            }
            end -= 1;
        }
        proof {
            lemma_table_push(self.extents@, (key, extent));
        }
        self.extents.push((key, extent));
    }
}


impl Cache {
    /// Files a cover read for `art.track`: records the picture it carries,
    /// or that it carries none. A track with no art leaves flight whatever
    /// size was asked. Otherwise every cover in flight that this picture at
    /// this size settles leaves flight, the picture's longest edge is
    /// recorded, and the cut size is kept as the most recently used. Answers
    /// the cut size let go to make room, if one was.
    pub fn insert(&mut self, art: &Art) -> (evicted: Option<(ArtKey, u32)>)
        requires
            old(self).wf(),
        ensures
            final(self).wf(),
            final(self).sources_map() == old(self).sources_map().insert(
                art.track,
                match art.key {
                    Some(k) => Some(k.0),
                    None => None,
                },
            ),
            final(self).masters_seq() == old(self).masters_seq(),
            final(self).wanted_seq() == old(self).wanted_seq(),
            match art.key {
                None => {
                    &&& final(self).pending_seq() == old(self).pending_seq().filter(
                        |entry: (i64, u32)| entry.0 != art.track,
                    )
                    &&& final(self).extents_map() == old(self).extents_map()
                    &&& final(self).scaled_seq() == old(self).scaled_seq()
                    &&& evicted is None
                },
                Some(k) => {
                    &&& final(self).pending_seq() == old(self).pending_seq().filter(
                        |entry: (i64, u32)| !settled(final(self).sources_map(), k.0, art.bucket, entry),
                    )
                    &&& final(self).extents_map() == old(self).extents_map().insert(k.0, art.source_edge)
                    &&& final(self).scaled_seq() == pushed(
                        old(self).scaled_seq(),
                        SCALED_CAPACITY as nat,
                        (k.0, art.bucket),
                        (),
                    )
                    &&& evicted == if !holds_key(old(self).scaled_seq(), (k.0, art.bucket))
                        && old(self).scaled_seq().len() == SCALED_CAPACITY {
                        Some((ArtKey(old(self).scaled_seq()[0].0.0), old(self).scaled_seq()[0].0.1))
                    } else {
                        None
                    }
                },
            },
    {
        let key = match art.key {
            Some(k) => Some(k.0),
            None => None,
        };
        self.set_source(art.track, key);
        let ghost sources = self.sources_map();
        let ghost keep = match art.key {
            None => |entry: (i64, u32)| entry.0 != art.track,
            Some(k) => |entry: (i64, u32)| !settled(sources, k.0, art.bucket, entry),
        };
        let ghost before = self.pending@;
        let mut staying: Vec<(i64, u32)> = Vec::new();
        let mut i: usize = 0;
        while i < self.pending.len()
            invariant
                i <= self.pending@.len(),
                self.pending@ == before,
                self.sources_map() == sources,
                staying@ == before.take(i as int).filter(keep),
                keep == match art.key {
                    None => |entry: (i64, u32)| entry.0 != art.track,
                    Some(k) => |entry: (i64, u32)| !settled(sources, k.0, art.bucket, entry),
                },
            decreases self.pending@.len() - i,
        {
            let entry = self.pending[i];
            let stays = match art.key {
                None => entry.0 != art.track,
                Some(k) => match self.source(entry.0) {
                    Some(Some(carried)) => !(carried == k.0 && entry.1 == art.bucket),
                    _ => true,
                },
            };
            proof {
                reveal(Seq::filter);
                let t = before.take(i + 1);
                assert(t.drop_last() =~= before.take(i as int));
                assert(t.last() == entry);
                assert(stays == keep(entry));
                assert(t.filter(keep) == if keep(entry) {
                    t.drop_last().filter(keep).push(entry)
                } else {
                    t.drop_last().filter(keep)
                });
            }
            if stays {
                staying.push(entry);
            }
            i += 1;
        }
        proof {
            assert(before.take(before.len() as int) =~= before);
            let w = self.wanted_seq();
            assert forall|j: int| 0 <= j < w.len() implies !staying@.contains(#[trigger] w[j]) by {
                if staying@.contains(w[j]) {
                    before.lemma_filter_contains_rev(keep, w[j]);
                }
            }
        }
        self.pending = staying;
        match art.key {
            None => None,
            Some(k) => {
                self.set_extent(k.0, art.source_edge);
                let out = scaled_push(&mut self.scaled, (k.0, art.bucket));
                match out {
                    Some((entry, _)) => if entry.0 == k.0 && entry.1 == art.bucket {
                        None
                    } else {
                        Some((ArtKey(entry.0), entry.1))
                    },
                    None => None,
                }
            },
        }
    }
}


/// Whether some track of `sources` carries picture `key`.
pub open spec fn carried(sources: Map<i64, Option<u64>>, key: u64) -> bool {
    exists|track: i64| sources.contains_key(track) && #[trigger] sources[track] == Some(key)
}

/// The pictures some track of `sources` carries.
pub open spec fn carried_keys(sources: Map<i64, Option<u64>>) -> Set<u64> {
    Set::new(|key: u64| carried(sources, key))
}

/// The cut sizes of pictures some track of `sources` carries.
pub open spec fn carried_cuts(sources: Map<i64, Option<u64>>) -> Set<(u64, u32)> {
    Set::new(|entry: (u64, u32)| carried(sources, entry.0))
}

proof fn lemma_kept_all<K, V>(s: Seq<(K, V)>, keep: Set<K>)
    requires
        forall|i: int| 0 <= i < s.len() ==> keep.contains(#[trigger] s[i].0),
    ensures
        kept(s, keep) == s,
    decreases s.len(),
{
    if s.len() > 0 {
        let rest = s.drop_last();
        assert forall|i: int| 0 <= i < rest.len() implies keep.contains(#[trigger] rest[i].0) by {
            assert(rest[i] == s[i]);
        }
        lemma_kept_all(rest, keep);
        assert(keep.contains(s[s.len() - 1].0));
        assert(rest.push(s.last()) =~= s);
    }
}

proof fn lemma_kept_agree<K, V>(s: Seq<(K, V)>, a: Set<K>, b: Set<K>)
    requires
        forall|i: int| 0 <= i < s.len() ==> a.contains(#[trigger] s[i].0) == b.contains(s[i].0),
    ensures
        kept(s, a) == kept(s, b),
    decreases s.len(),
{
    if s.len() > 0 {
        let rest = s.drop_last();
        assert forall|i: int| 0 <= i < rest.len() implies a.contains(#[trigger] rest[i].0) == b.contains(
            rest[i].0,
        ) by {
            assert(rest[i] == s[i]);
        }
        lemma_kept_agree(rest, a, b);
        assert(a.contains(s[s.len() - 1].0) == b.contains(s[s.len() - 1].0));
    }
}

proof fn lemma_without_kept<K, V>(s: Seq<(K, V)>, keep: Set<K>, k: K)
    ensures
        without_key(kept(s, keep), k) == kept(s, keep.remove(k)),
    decreases s.len(),
{
    if s.len() > 0 {
        let rest = s.drop_last();
        lemma_without_kept(rest, keep, k);
        let e = s.last();
        let kr = kept(rest, keep);
        if keep.contains(e.0) {
            assert(kr.push(e).drop_last() =~= kr);
            assert(kr.push(e).last() == e);
        }
    }
}

proof fn lemma_kept_members<K, V>(s: Seq<(K, V)>, keep: Set<K>, a: int)
    requires
        0 <= a < kept(s, keep).len(),
    ensures
        exists|i: int| 0 <= i < s.len() && s[i] == kept(s, keep)[a],
    decreases s.len(),
{
    let rest = s.drop_last();
    let kr = kept(rest, keep);
    if a < kr.len() {
        lemma_kept_members(rest, keep, a);
        let i = choose|i: int| 0 <= i < rest.len() && rest[i] == kr[a];
        assert(s[i] == rest[i]);
        if keep.contains(s.last().0) {
            assert(kr.push(s.last())[a] == kr[a]);
        }
    } else {
        assert(s[s.len() - 1] == kept(s, keep)[a]);
    }
}

pub(crate) proof fn lemma_kept_distinct<K, V>(s: Seq<(K, V)>, keep: Set<K>)
    requires
        distinct_keys(s),
    ensures
        distinct_keys(kept(s, keep)),
    decreases s.len(),
{
    if s.len() > 0 {
        let rest = s.drop_last();
        assert(distinct_keys(rest)) by {
            assert forall|i: int, j: int| 0 <= i < j < rest.len() implies #[trigger] rest[i].0
                != #[trigger] rest[j].0 by {
                assert(rest[i] == s[i] && rest[j] == s[j]);
            }
        }
        lemma_kept_distinct(rest, keep);
        let kr = kept(rest, keep);
        let e = s.last();
        if keep.contains(e.0) {
            let p = kr.push(e);
            assert forall|i: int, j: int| 0 <= i < j < p.len() implies #[trigger] p[i].0 != #[trigger] p[j].0 by {
                if j == kr.len() {
                    lemma_kept_members(rest, keep, i);
                    let m = choose|m: int| 0 <= m < rest.len() && rest[m] == kr[i];
                    assert(s[m].0 != s[s.len() - 1].0);
                } else {
                    assert(p[i] == kr[i] && p[j] == kr[j]);
                }
            }
        }
    }
}

proof fn lemma_carried(s: Seq<(i64, Option<u64>)>, key: u64)
    requires
        distinct_keys(s),
    ensures
        carried(table(s), key) <==> exists|j: int| 0 <= j < s.len() && #[trigger] s[j].1 == Some(key),
{
    if exists|j: int| 0 <= j < s.len() && #[trigger] s[j].1 == Some(key) {
        let j = choose|j: int| 0 <= j < s.len() && #[trigger] s[j].1 == Some(key);
        lemma_table_last(s, j);
        assert(table(s)[s[j].0] == Some(key));
    }
    if carried(table(s), key) {
        let t = choose|t: i64| table(s).contains_key(t) && #[trigger] table(s)[t] == Some(key);
        if forall|j: int| 0 <= j < s.len() ==> s[j].0 != t {
            lemma_table_absent(s, t);
        }
        let j = choose|j: int| 0 <= j < s.len() && !(s[j].0 != t);
        lemma_table_last(s, j);
        assert(s[j].1 == Some(key));
    }
}

fn listed(live: &[i64], track: i64) -> (found: bool)
    ensures
        found == live@.contains(track),
{
    let mut i: usize = 0;
    while i < live.len()
        invariant
            i <= live@.len(),
            forall|j: int| 0 <= j < i ==> live@[j] != track,
        decreases live@.len() - i,
    {
        if live[i] == track {
            proof {
                assert(live@[i as int] == track);
            }
            return true;
        }
        i += 1;
    }
    false
}

fn reaches(reach: &Vec<u64>, key: u64) -> (found: bool)
    ensures
        found == reach@.contains(key),
{
    let mut i: usize = 0;
    while i < reach.len()
        invariant
            i <= reach@.len(),
            forall|j: int| 0 <= j < i ==> reach@[j] != key,
        decreases reach@.len() - i,
    {
        if reach[i] == key {
            proof {
                assert(reach@[i as int] == key);
            }
            return true;
        }
        i += 1;
    }
    false
}

impl Cache {
    fn keep_live_sources(&mut self, live: &[i64])
        requires
            old(self).wf(),
        ensures
            final(self).wf(),
            final(self).sources@ == kept(old(self).sources@, Set::new(|track: i64| live@.contains(track))),
            final(self).extents@ == old(self).extents@,
            final(self).masters == old(self).masters,
            final(self).master_bytes == old(self).master_bytes,
            final(self).scaled == old(self).scaled,
            final(self).wanted@ == old(self).wanted@,
            final(self).pending@ == old(self).pending@,
    {
        let ghost liveset = Set::new(|track: i64| live@.contains(track));
        let ghost all = self.sources@;
        let mut staying: Vec<(i64, Option<u64>)> = Vec::new();
        let mut i: usize = 0;
        while i < self.sources.len()
            invariant
                i <= all.len(),
                self.sources@ == all,
                staying@ == kept(all.take(i as int), liveset),
                liveset == Set::new(|track: i64| live@.contains(track)),
            decreases all.len() - i,
        {
            let entry = self.sources[i];
            let stays = listed(live, entry.0);
            proof {
                let t = all.take(i + 1);
                assert(t.drop_last() =~= all.take(i as int));
                assert(t.last() == entry);
            }
            if stays {
                staying.push(entry);
            }
            i += 1;
        }
        proof {
            assert(all.take(all.len() as int) =~= all);
            lemma_kept_distinct(all, liveset);
        }
        self.sources = staying;
    }

    fn carried_list(&self) -> (reach: Vec<u64>)
        requires
            self.wf(),
        ensures
            forall|key: u64| reach@.contains(key) == carried(self.sources_map(), key),
    {
        let mut reach: Vec<u64> = Vec::new();
        let mut j: usize = 0;
        while j < self.sources.len()
            invariant
                j <= self.sources@.len(),
                forall|key: u64|
                    reach@.contains(key) == exists|m: int| 0 <= m < j && #[trigger] self.sources@[m].1 == Some(key),
            decreases self.sources@.len() - j,
        {
            let ghost before = reach@;
            if let Some(key) = self.sources[j].1 {
                reach.push(key);
            }
            proof {
                assert forall|key: u64| reach@.contains(key) == exists|m: int|
                    0 <= m < j + 1 && #[trigger] self.sources@[m].1 == Some(key) by {
                    if reach@.contains(key) {
                        let at = choose|at: int| 0 <= at < reach@.len() && reach@[at] == key;
                        if at < before.len() {
                            assert(before[at] == key);
                            assert(before.contains(key));
                        } else {
                            assert(self.sources@[j as int].1 == Some(key));
                        }
                    }
                    if exists|m: int| 0 <= m < j + 1 && #[trigger] self.sources@[m].1 == Some(key) {
                        let m = choose|m: int| 0 <= m < j + 1 && #[trigger] self.sources@[m].1 == Some(key);
                        if m < j {
                            assert(before.contains(key));
                            let at = choose|at: int| 0 <= at < before.len() && before[at] == key;
                            assert(reach@[at] == key);
                        } else {
                            assert(reach@[reach@.len() - 1] == key);
                        }
                    }
                }
            }
            j += 1;
        }
        proof {
            assert forall|key: u64| reach@.contains(key) == carried(self.sources_map(), key) by {
                lemma_carried(self.sources@, key);
            }
        }
        reach
    }
}


impl Cache {
    fn keep_carried_extents(&mut self, reach: &Vec<u64>)
        requires
            old(self).wf(),
        ensures
            final(self).wf(),
            final(self).extents@ == kept(old(self).extents@, Set::new(|key: u64| reach@.contains(key))),
            final(self).sources@ == old(self).sources@,
            final(self).masters == old(self).masters,
            final(self).master_bytes == old(self).master_bytes,
            final(self).scaled == old(self).scaled,
            final(self).wanted@ == old(self).wanted@,
            final(self).pending@ == old(self).pending@,
    {
        let ghost keep = Set::new(|key: u64| reach@.contains(key));
        let ghost all = self.extents@;
        let mut staying: Vec<(u64, u32)> = Vec::new();
        let mut i: usize = 0;
        while i < self.extents.len()
            invariant
                i <= all.len(),
                self.extents@ == all,
                staying@ == kept(all.take(i as int), keep),
                keep == Set::new(|key: u64| reach@.contains(key)),
            decreases all.len() - i,
        {
            let entry = self.extents[i];
            let stays = reaches(reach, entry.0);
            proof {
                let t = all.take(i + 1);
                assert(t.drop_last() =~= all.take(i as int));
                assert(t.last() == entry);
            }
            if stays {
                staying.push(entry);
            }
            i += 1;
        }
        proof {
            assert(all.take(all.len() as int) =~= all);
        }
        self.extents = staying;
    }

    #[verifier::spinoff_prover]
    #[verifier::rlimit(30)]
    fn drop_stale_masters(&mut self, reach: &Vec<u64>) -> (dropped: Vec<ArtKey>)
        requires
            old(self).wf(),
        ensures
            final(self).wf(),
            final(self).masters_seq() == kept(old(self).masters_seq(), Set::new(|key: u64| reach@.contains(key))),
            forall|key: u64|
                #[trigger] dropped@.contains(ArtKey(key)) == (holds_key(old(self).masters_seq(), key)
                    && !reach@.contains(key)),
            final(self).sources@ == old(self).sources@,
            final(self).extents@ == old(self).extents@,
            final(self).scaled == old(self).scaled,
            final(self).wanted@ == old(self).wanted@,
            final(self).pending@ == old(self).pending@,
    {
        let keys = masters_keys(&self.masters);
        let ghost start = master_entries(self.masters);
        let ghost keep = Set::new(|key: u64| reach@.contains(key));
        proof {
            assert forall|a: int| 0 <= a < keys@.len() implies #[trigger] keys@[a] == start[start.len() - 1 - a].0 by {
            }
            assert forall|i: int| 0 <= i < start.len() implies Set::new(
                |x: u64| reach@.contains(x) || !keys@.take(0).contains(x),
            ).contains(#[trigger] start[i].0) by {
            }
            lemma_kept_all(start, Set::new(|x: u64| reach@.contains(x) || !keys@.take(0).contains(x)));
        }
        let mut dropped: Vec<ArtKey> = Vec::new();
        let mut i: usize = 0;
        while i < keys.len()
            invariant
                i <= keys@.len(),
                keys@.len() == start.len(),
                forall|a: int| 0 <= a < keys@.len() ==> #[trigger] keys@[a] == start[start.len() - 1 - a].0,
                start == old(self).masters_seq(),
                keep == Set::new(|key: u64| reach@.contains(key)),
                master_entries(self.masters) == kept(
                    start,
                    Set::new(|x: u64| reach@.contains(x) || !keys@.take(i as int).contains(x)),
                ),
                self.master_bytes == total_bytes(master_entries(self.masters)),
                self.master_bytes <= MASTER_BUDGET,
                distinct_keys(master_entries(self.masters)),
                master_cap(self.masters) == usize::MAX,
                forall|key: u64|
                    #[trigger] dropped@.contains(ArtKey(key)) == (keys@.take(i as int).contains(key) && !reach@.contains(
                        key,
                    )),
                self.sources@ == old(self).sources@,
                self.extents@ == old(self).extents@,
                self.scaled == old(self).scaled,
                self.wanted@ == old(self).wanted@,
                self.pending@ == old(self).pending@,
                old(self).wf(),
            decreases keys@.len() - i,
        {
            let key = keys[i];
            let ghost here = master_entries(self.masters);
            let ghost before = dropped@;
            let ghost now = Set::new(|x: u64| reach@.contains(x) || !keys@.take(i as int).contains(x));
            let ghost next = Set::new(|x: u64| reach@.contains(x) || !keys@.take(i + 1).contains(x));
            let ghost upto = keys@.take(i + 1);
            let ghost prev = keys@.take(i as int);
            proof {
                assert(upto =~= prev.push(key));
                assert forall|x: u64| upto.contains(x) == (prev.contains(x) || x == key) by {
                    if upto.contains(x) {
                        let at = choose|at: int| 0 <= at < upto.len() && #[trigger] upto[at] == x;
                        if at < prev.len() {
                            assert(prev[at] == x);
                        }
                    }
                    if prev.contains(x) {
                        let at = choose|at: int| 0 <= at < prev.len() && #[trigger] prev[at] == x;
                        assert(upto[at] == x);
                    }
                    if x == key {
                        assert(upto[prev.len() as int] == x);
                    }
                }
            }
            if !reaches(reach, key) {
                proof {
                    lemma_without_total(here, key);
                    lemma_without_kept(start, now, key);
                    assert(now.remove(key) =~= next);
                }
                match masters_pop(&mut self.masters, key) {
                    Some(master) => {
                        self.master_bytes = self.master_bytes - master.bytes;
                    },
                    None => {},
                }
                dropped.push(ArtKey(key));
                proof {
                    assert forall|k: u64| dropped@.contains(ArtKey(k)) == (upto.contains(k) && !reach@.contains(k)) by {
                        vstd::seq_lib::lemma_seq_contains_after_push(before, ArtKey(key), ArtKey(k));
                    }
                }
            } else {
                proof {
                    assert(now =~= next);
                    assert forall|k: u64| dropped@.contains(ArtKey(k)) == (upto.contains(k) && !reach@.contains(k)) by {
                        assert(dropped@ == before);
                        assert(before.contains(ArtKey(k)) == (prev.contains(k) && !reach@.contains(k)));
                        assert(upto.contains(k) == (prev.contains(k) || k == key));
                    }
                }
            }
            i += 1;
        }
        proof {
            assert(keys@.take(keys@.len() as int) =~= keys@);
            assert forall|x: u64| keys@.contains(x) == holds_key(start, x) by {
                if keys@.contains(x) {
                    let a = choose|a: int| 0 <= a < keys@.len() && keys@[a] == x;
                    assert(start[start.len() - 1 - a].0 == x);
                }
                if holds_key(start, x) {
                    let b = choose|b: int| 0 <= b < start.len() && #[trigger] start[b].0 == x;
                    assert(keys@[start.len() - 1 - b] == x);
                }
            }
            let last = Set::new(|x: u64| reach@.contains(x) || !keys@.contains(x));
            assert forall|j: int| 0 <= j < start.len() implies last.contains(#[trigger] start[j].0) == keep.contains(
                start[j].0,
            ) by {
                assert(holds_key(start, start[j].0));
            }
            lemma_kept_agree(start, last, keep);
        }
        dropped
    }
}


impl Cache {
    fn drop_stale_scaled(&mut self, reach: &Vec<u64>) -> (dropped: Vec<(ArtKey, u32)>)
        requires
            old(self).wf(),
        ensures
            final(self).wf(),
            final(self).scaled_seq() == kept(
                old(self).scaled_seq(),
                Set::new(|entry: (u64, u32)| reach@.contains(entry.0)),
            ),
            forall|entry: (u64, u32)|
                #[trigger] dropped@.contains((ArtKey(entry.0), entry.1)) == (holds_key(old(self).scaled_seq(), entry)
                    && !reach@.contains(entry.0)),
            final(self).sources@ == old(self).sources@,
            final(self).extents@ == old(self).extents@,
            final(self).masters == old(self).masters,
            final(self).master_bytes == old(self).master_bytes,
            final(self).wanted@ == old(self).wanted@,
            final(self).pending@ == old(self).pending@,
    {
        let keys = scaled_keys(&self.scaled);
        let ghost start = scaled_entries(self.scaled);
        let ghost keep = Set::new(|entry: (u64, u32)| reach@.contains(entry.0));
        proof {
            assert forall|a: int| 0 <= a < keys@.len() implies #[trigger] keys@[a] == start[start.len() - 1 - a].0 by {
            }
            lemma_kept_all(start, Set::new(|x: (u64, u32)| reach@.contains(x.0) || !keys@.take(0).contains(x)));
        }
        let mut dropped: Vec<(ArtKey, u32)> = Vec::new();
        let mut i: usize = 0;
        while i < keys.len()
            invariant
                i <= keys@.len(),
                keys@.len() == start.len(),
                forall|a: int| 0 <= a < keys@.len() ==> #[trigger] keys@[a] == start[start.len() - 1 - a].0,
                start == old(self).scaled_seq(),
                keep == Set::new(|entry: (u64, u32)| reach@.contains(entry.0)),
                scaled_entries(self.scaled) == kept(
                    start,
                    Set::new(|x: (u64, u32)| reach@.contains(x.0) || !keys@.take(i as int).contains(x)),
                ),
                distinct_keys(scaled_entries(self.scaled)),
                scaled_cap(self.scaled) == SCALED_CAPACITY,
                forall|entry: (u64, u32)|
                    #[trigger] dropped@.contains((ArtKey(entry.0), entry.1)) == (keys@.take(i as int).contains(entry)
                        && !reach@.contains(entry.0)),
                self.sources@ == old(self).sources@,
                self.extents@ == old(self).extents@,
                self.masters == old(self).masters,
                self.master_bytes == old(self).master_bytes,
                self.wanted@ == old(self).wanted@,
                self.pending@ == old(self).pending@,
                old(self).wf(),
            decreases keys@.len() - i,
        {
            let entry = keys[i];
            let ghost before = dropped@;
            let ghost now = Set::new(|x: (u64, u32)| reach@.contains(x.0) || !keys@.take(i as int).contains(x));
            let ghost next = Set::new(|x: (u64, u32)| reach@.contains(x.0) || !keys@.take(i + 1).contains(x));
            let ghost upto = keys@.take(i + 1);
            let ghost prev = keys@.take(i as int);
            proof {
                assert(upto =~= prev.push(entry));
                assert forall|x: (u64, u32)| upto.contains(x) == (prev.contains(x) || x == entry) by {
                    vstd::seq_lib::lemma_seq_contains_after_push(prev, entry, x);
                }
            }
            if !reaches(reach, entry.0) {
                proof {
                    lemma_without_kept(start, now, entry);
                    assert(now.remove(entry) =~= next);
                }
                scaled_pop(&mut self.scaled, entry);
                dropped.push((ArtKey(entry.0), entry.1));
                proof {
                    assert forall|e: (u64, u32)| dropped@.contains((ArtKey(e.0), e.1)) == (upto.contains(e)
                        && !reach@.contains(e.0)) by {
                        vstd::seq_lib::lemma_seq_contains_after_push(
                            before,
                            (ArtKey(entry.0), entry.1),
                            (ArtKey(e.0), e.1),
                        );
                    }
                }
            } else {
                proof {
                    assert(now =~= next);
                    assert forall|e: (u64, u32)| dropped@.contains((ArtKey(e.0), e.1)) == (upto.contains(e)
                        && !reach@.contains(e.0)) by {
                        assert(upto.contains(e) == (prev.contains(e) || e == entry));
                    }
                }
            }
            i += 1;
        }
        proof {
            assert(keys@.take(keys@.len() as int) =~= keys@);
            assert forall|x: (u64, u32)| keys@.contains(x) == holds_key(start, x) by {
                if keys@.contains(x) {
                    let a = choose|a: int| 0 <= a < keys@.len() && keys@[a] == x;
                    assert(start[start.len() - 1 - a].0 == x);
                }
                if holds_key(start, x) {
                    let b = choose|b: int| 0 <= b < start.len() && #[trigger] start[b].0 == x;
                    assert(keys@[start.len() - 1 - b] == x);
                }
            }
            let last = Set::new(|x: (u64, u32)| reach@.contains(x.0) || !keys@.contains(x));
            assert forall|j: int| 0 <= j < start.len() implies last.contains(#[trigger] start[j].0) == keep.contains(
                start[j].0,
            ) by {
                assert(holds_key(start, start[j].0));
            }
            lemma_kept_agree(start, last, keep);
        }
        dropped
    }

    /// Forgets every track not in `live`, and with them the pictures no
    /// remaining track carries: their longest edges, their decoded pictures
    /// and their cut sizes. What stays keeps its order of use. Answers the
    /// decoded pictures and the cut sizes let go.
    pub fn forget(&mut self, live: &[i64]) -> (dropped: (Vec<ArtKey>, Vec<(ArtKey, u32)>))
        requires
            old(self).wf(),
        ensures
            final(self).wf(),
            final(self).sources_map() == old(self).sources_map().restrict(Set::new(|track: i64| live@.contains(track))),
            final(self).extents_map() == old(self).extents_map().restrict(carried_keys(final(self).sources_map())),
            final(self).masters_seq() == kept(old(self).masters_seq(), carried_keys(final(self).sources_map())),
            final(self).scaled_seq() == kept(old(self).scaled_seq(), carried_cuts(final(self).sources_map())),
            final(self).wanted_seq() == old(self).wanted_seq(),
            final(self).pending_seq() == old(self).pending_seq(),
            forall|key: u64|
                #[trigger] dropped.0@.contains(ArtKey(key)) == (holds_key(old(self).masters_seq(), key) && !carried(
                    final(self).sources_map(),
                    key,
                )),
            forall|entry: (u64, u32)|
                #[trigger] dropped.1@.contains((ArtKey(entry.0), entry.1)) == (holds_key(
                    old(self).scaled_seq(),
                    entry,
                ) && !carried(final(self).sources_map(), entry.0)),
    {
        let ghost first = self.sources@;
        self.keep_live_sources(live);
        proof {
            lemma_kept(first, Set::new(|track: i64| live@.contains(track)));
        }
        let reach = self.carried_list();
        let ghost sources = self.sources_map();
        let ghost extents = self.extents@;
        self.keep_carried_extents(&reach);
        proof {
            lemma_kept(extents, Set::new(|key: u64| reach@.contains(key)));
            assert(Set::new(|key: u64| reach@.contains(key)) =~= carried_keys(sources));
        }
        let masters = self.drop_stale_masters(&reach);
        proof {
            assert(Set::new(|key: u64| reach@.contains(key)) =~= carried_keys(sources));
        }
        let scaled = self.drop_stale_scaled(&reach);
        proof {
            assert(Set::new(|entry: (u64, u32)| reach@.contains(entry.0)) =~= carried_cuts(sources));
        }
        (masters, scaled)
    }
}


/// Keeping the entries whose key is in `keep` holds a key exactly when it was
/// held and is in `keep`: after a rescan a picture stays exactly when it was
/// kept and some remaining track carries it.
pub proof fn lemma_holds_kept<K, V>(s: Seq<(K, V)>, keep: Set<K>, x: K)
    ensures
        holds_key(kept(s, keep), x) == (keep.contains(x) && holds_key(s, x)),
    decreases s.len(),
{
    if s.len() > 0 {
        let rest = s.drop_last();
        lemma_holds_kept(rest, keep, x);
        let kr = kept(rest, keep);
        let e = s.last();
        assert(holds_key(s, x) == (holds_key(rest, x) || e.0 == x)) by {
            if holds_key(s, x) {
                let i = choose|i: int| 0 <= i < s.len() && #[trigger] s[i].0 == x;
                if i < rest.len() {
                    assert(rest[i].0 == x);
                }
            }
            if holds_key(rest, x) {
                let i = choose|i: int| 0 <= i < rest.len() && #[trigger] rest[i].0 == x;
                assert(s[i].0 == x);
            }
            if e.0 == x {
                assert(s[s.len() - 1].0 == x);
            }
        }
        if keep.contains(e.0) {
            let p = kr.push(e);
            assert(holds_key(p, x) == (holds_key(kr, x) || e.0 == x)) by {
                if holds_key(p, x) {
                    let i = choose|i: int| 0 <= i < p.len() && #[trigger] p[i].0 == x;
                    if i < kr.len() {
                        assert(kr[i].0 == x);
                    }
                }
                if holds_key(kr, x) {
                    let i = choose|i: int| 0 <= i < kr.len() && #[trigger] kr[i].0 == x;
                    assert(p[i].0 == x);
                }
                if e.0 == x {
                    assert(p[kr.len() as int].0 == x);
                }
            }
        }
    }
}

/// Whatever was done to a cache, the decoded pictures it keeps take the bytes
/// it counts, and never more than the budget.
pub proof fn lemma_within_budget(cache: &Cache)
    requires
        cache.wf(),
    ensures
        cache.master_total() == total_bytes(cache.masters_seq()),
        cache.master_total() <= MASTER_BUDGET,
{
}


impl Default for Cache {
    fn default() -> (cache: Self)
        ensures
            cache.wf(),
            cache.sources_map() == Map::<i64, Option<u64>>::empty(),
            cache.extents_map() == Map::<u64, u32>::empty(),
            cache.masters_seq().len() == 0,
            cache.scaled_seq().len() == 0,
            cache.wanted_seq().len() == 0,
            cache.pending_seq().len() == 0,
    {
        Cache::new()
    }
}

impl Cache {
    /// How many covers are in flight.
    pub fn in_flight(&self) -> (count: usize)
        ensures
            count == self.pending_seq().len(),
    {
        self.pending.len()
    }

    /// Whether a track has been read, with or without art.
    pub fn knows(&self, track: i64) -> (known: bool)
        ensures
            known == self.sources_map().contains_key(track),
    {
        match self.source(track) {
            Some(_) => true,
            None => false,
        }
    }

    /// The bytes the decoded pictures kept take.
    pub fn master_bytes(&self) -> (bytes: usize)
        ensures
            bytes == self.master_total(),
    {
        self.master_bytes
    }

    /// The longest edge recorded for a picture.
    pub fn extent_of(&self, key: ArtKey) -> (extent: Option<u32>)
        ensures
            extent == self.extent_spec(key.0),
    {
        self.extent(key.0)
    }

    /// How many cut sizes are kept.
    pub fn held_cuts(&self) -> (count: usize)
        requires
            self.wf(),
        ensures
            count == self.scaled_seq().len(),
    {
        scaled_keys(&self.scaled).len()
    }

    /// Whether picture `key` is kept cut at `bucket`; nothing is touched.
    pub fn holds_cut(&self, key: ArtKey, bucket: u32) -> (held: bool)
        ensures
            held == holds_key(self.scaled_seq(), (key.0, bucket)),
    {
        let held = scaled_keys(&self.scaled);
        let ghost entries = scaled_entries(self.scaled);
        let mut i: usize = 0;
        while i < held.len()
            invariant
                i <= held@.len(),
                held@ == entries.map_values(|entry: ((u64, u32), ())| entry.0).reverse(),
                entries == scaled_entries(self.scaled),
                forall|j: int| 0 <= j < i ==> held@[j] != (key.0, bucket),
            decreases held@.len() - i,
        {
            if held[i].0 == key.0 && held[i].1 == bucket {
                proof {
                    let at = entries.len() - 1 - i;
                    assert(held@[i as int] == entries[at].0);
                }
                return true;
            }
            i += 1;
        }
        proof {
            if holds_key(entries, (key.0, bucket)) {
                let at = choose|at: int| 0 <= at < entries.len() && #[trigger] entries[at].0 == (key.0, bucket);
                assert(held@[entries.len() - 1 - at] == entries[at].0);
            }
        }
        false
    }
}

} // verus!

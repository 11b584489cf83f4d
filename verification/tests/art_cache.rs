use verse::art_cache::{ArtCache, EVICT_GRACE_FRAMES};

#[test]
fn a_cover_is_sent_once_until_it_answers() {
    let mut cache = ArtCache::new();
    assert!(cache.get_or_queue(1, 64, 64));
    assert!(!cache.get_or_queue(1, 64, 64), "a cover in flight was sent again");
    assert!(cache.get_or_queue(1, 128, 128), "another size is another cover");
}

#[test]
fn a_cover_of_no_size_asks_nothing() {
    let mut cache = ArtCache::new();
    assert!(!cache.get_or_queue(1, 0, 64));
    assert!(!cache.get_or_queue(1, 64, 0));
    assert!(!cache.poll((1, 0, 64), 0), "a cover never asked for was kept");
}

#[test]
fn an_answer_for_a_wanted_cover_is_kept() {
    let mut cache = ArtCache::new();
    cache.get_or_queue(1, 64, 64);
    assert!(cache.poll((1, 64, 64), cache.generation()));
    assert!(cache.get(1, 64, 64));
    assert!(!cache.get_or_queue(1, 64, 64), "a ready cover was sent again");
}

#[test]
fn an_answer_from_an_old_generation_is_dropped() {
    let mut cache = ArtCache::new();
    cache.get_or_queue(1, 64, 64);
    let sent = cache.generation();
    cache.invalidate();
    cache.get_or_queue(1, 64, 64);
    assert!(!cache.poll((1, 64, 64), sent));
    assert!(!cache.get(1, 64, 64));
    assert!(cache.get_or_queue(1, 64, 64), "the stale answer left the cover looking in flight");
}

#[test]
fn any_size_of_a_track_stands_in_first_come_first_served() {
    let mut cache = ArtCache::new();
    assert_eq!(cache.get_any(1), None);
    cache.get_or_queue(1, 128, 128);
    cache.get_or_queue(1, 64, 64);
    cache.get_or_queue(2, 64, 64);
    let generation = cache.generation();
    cache.poll((2, 64, 64), generation);
    cache.poll((1, 64, 64), generation);
    cache.poll((1, 128, 128), generation);
    assert_eq!(cache.get_any(1), Some((1, 64, 64)));
    assert_eq!(cache.get_any(2), Some((2, 64, 64)));
    assert_eq!(cache.get_any(3), None);
}

#[test]
fn a_cover_unasked_for_long_enough_is_let_go() {
    let mut cache = ArtCache::new();
    cache.get_or_queue(1, 64, 64);
    cache.poll((1, 64, 64), cache.generation());
    cache.get_or_queue(2, 64, 64);
    for _ in 0..EVICT_GRACE_FRAMES {
        assert!(cache.evict().is_empty());
        cache.get_or_queue(2, 64, 64);
    }
    assert_eq!(cache.frame(), EVICT_GRACE_FRAMES);
    assert_eq!(cache.evict(), vec![(1, 64, 64)]);
    assert!(!cache.get(1, 64, 64));
    assert!(cache.get_or_queue(1, 64, 64), "a let-go cover could not be asked for again");
    assert!(!cache.get_or_queue(2, 64, 64), "a cover kept wanted was let go");
}

#[test]
fn invalidating_forgets_everything() {
    let mut cache = ArtCache::new();
    cache.get_or_queue(1, 64, 64);
    cache.poll((1, 64, 64), cache.generation());
    cache.invalidate();
    assert_eq!(cache.generation(), 1);
    assert!(!cache.get(1, 64, 64));
    assert_eq!(cache.get_any(1), None);
    assert!(cache.evict().is_empty());
}

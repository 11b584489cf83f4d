use std::path::PathBuf;
use std::sync::Arc;

use verse::artwork::cache::{quantise_edge, Art, ArtKey, Cache, Picture, MASTER_BUDGET};

const A: &str = "a.mp3";
const B: &str = "b.mp3";

fn path(name: &str) -> PathBuf {
    PathBuf::from(name)
}

fn art(track: i64, key: ArtKey, bucket: u32) -> Art {
    Art {
        track,
        key: Some(key),
        bucket,
        width: bucket,
        height: bucket,
        pixels: vec![0; bucket as usize * bucket as usize * 4],
        source_edge: 3000,
    }
}

fn nothing(track: i64, bucket: u32) -> Art {
    Art { track, key: None, bucket, width: 0, height: 0, pixels: Vec::new(), source_edge: 0 }
}

fn image(width: u32, height: u32) -> Arc<Picture> {
    Arc::new(Picture { width, height, pixels: vec![0; width as usize * height as usize * 4] })
}

#[test]
fn a_miss_is_only_queued_once_while_it_is_in_flight() {
    let mut cache = Cache::new();

    for _ in 0..60 {
        let _ = cache.request(1, &path(A), 200);
    }
    assert_eq!(cache.take().len(), 1, "sixty frames queued more than one job");

    for _ in 0..60 {
        let _ = cache.request(1, &path(A), 200);
    }
    assert!(cache.take().is_empty(), "a job in flight was queued again");
}

#[test]
fn a_filed_result_answers_the_next_request() {
    let mut cache = Cache::new();
    let key = ArtKey::of(&[1]);

    let _ = cache.request(1, &path(A), 200);
    let _ = cache.take();
    cache.insert(&art(1, key, 256));

    assert!(cache.request(1, &path(A), 200).is_some());
    assert!(cache.take().is_empty(), "a cached size was queued again");
}

#[test]
fn a_further_size_is_cut_from_the_master_rather_than_re_read() {
    let mut cache = Cache::new();
    let key = ArtKey::of(&[1]);

    let _ = cache.request(1, &path(A), 200);
    let _ = cache.take();
    cache.insert(&art(1, key, 256));
    cache.keep_master(key, image(1000, 1000));

    let _ = cache.request(1, &path(A), 900);
    let handed = cache.take();

    assert_eq!(handed.len(), 1);
    assert!(handed[0].1.is_some(), "a size for an image already decoded was not cut from its master");
}

#[test]
fn a_handed_master_is_shared_rather_than_copied() {
    let mut cache = Cache::new();
    let key = ArtKey::of(&[1]);
    cache.insert(&art(1, key, 256));
    cache.keep_master(key, image(64, 64));

    let held = cache.master(key).expect("just kept");
    let again = cache.master(key).expect("still kept");

    assert!(Arc::ptr_eq(&held, &again), "handing out a master copied it, which for a large cover costs a frame");
}

#[test]
fn a_track_sharing_a_cover_draws_it_without_any_work() {
    let mut cache = Cache::new();
    let key = ArtKey::of(&[1]);

    let _ = cache.request(1, &path(A), 200);
    let _ = cache.take();
    cache.insert(&art(1, key, 256));
    cache.insert(&art(2, key, 256));

    assert!(cache.request(2, &path(B), 200).is_some(), "the second track did not reuse a cover already decoded");
    assert!(cache.take().is_empty(), "it queued work for art already held");
}

#[test]
fn filing_one_cover_answers_every_track_waiting_on_it() {
    let mut cache = Cache::new();
    let key = ArtKey::of(&[1]);

    let _ = cache.request(1, &path(A), 200);
    let _ = cache.request(2, &path(B), 200);
    assert_eq!(cache.take().len(), 2);

    cache.insert(&art(1, key, 256));
    cache.insert(&art(2, key, 256));

    assert!(cache.request(2, &path(B), 200).is_some());
    assert!(cache.take().is_empty());
}

#[test]
fn a_queued_cover_reports_itself_as_work_to_do() {
    let mut cache = Cache::new();
    assert!(cache.is_idle(), "an untouched cache claimed work");

    let _ = cache.request(1, &path(A), 200);

    assert!(!cache.is_idle(), "a queued cover left the cache looking idle");
}

#[test]
fn draining_returns_the_cache_to_idle() {
    let mut cache = Cache::new();
    let _ = cache.request(1, &path(A), 200);
    let _ = cache.take();

    assert!(cache.is_idle(), "a drained cache still claimed work");
}

#[test]
fn a_failed_decode_does_not_wedge_the_track() {
    let mut cache = Cache::new();

    let _ = cache.request(1, &path(A), 200);
    assert_eq!(cache.take().len(), 1);
    cache.insert(&nothing(1, 256));

    assert_eq!(cache.in_flight(), 0, "a track left in flight would never be asked for again");
}

#[test]
fn a_track_with_no_art_is_read_once() {
    let mut cache = Cache::new();

    let _ = cache.request(1, &path(A), 200);
    let _ = cache.take();
    cache.insert(&nothing(1, 256));

    assert!(cache.request(1, &path(A), 200).is_none());
    assert!(cache.take().is_empty(), "a track known to carry no art was read again");
    assert!(cache.resolved_empty(1));
}

#[test]
fn an_unread_track_is_not_mistaken_for_one_without_art() {
    let cache = Cache::new();
    assert!(!cache.resolved_empty(1));
}

#[test]
fn one_image_at_two_sizes_keeps_both() {
    let mut cache = Cache::new();
    let key = ArtKey::of(&[1]);

    cache.insert(&art(1, key, 128));
    cache.insert(&art(1, key, 512));

    let _ = cache.request(1, &path(A), 100);
    let _ = cache.request(1, &path(A), 500);

    assert!(cache.take().is_empty(), "two held sizes both queued work");
    assert_eq!(cache.held_cuts(), 2);
}

#[test]
fn a_pending_size_still_draws_a_size_already_held() {
    let mut cache = Cache::new();
    let key = ArtKey::of(&[1]);
    cache.insert(&art(1, key, 128));

    assert!(cache.request(1, &path(A), 500).is_some(), "a pane growing past its cached size fell back to nothing");
}

#[test]
fn the_master_budget_is_not_exceeded() {
    let mut cache = Cache::new();

    for n in 0..8u8 {
        cache.keep_master(ArtKey::of(&[n]), image(2048, 2048));
    }

    assert!(cache.master_bytes() <= MASTER_BUDGET, "masters grew past the budget");
}

#[test]
fn an_oversized_master_is_refused_rather_than_emptying_the_cache() {
    let mut cache = Cache::new();
    cache.keep_master(ArtKey::of(&[1]), image(8192, 8192));

    assert!(cache.master_bytes() <= MASTER_BUDGET);
}

#[test]
fn evicting_a_master_keeps_the_handles_cut_from_it() {
    let mut cache = Cache::new();
    let key = ArtKey::of(&[1]);

    cache.insert(&art(1, key, 256));
    cache.keep_master(key, image(64, 64));

    for n in 1..8u8 {
        cache.keep_master(ArtKey::of(&[n + 10]), image(2048, 2048));
    }

    assert!(cache.request(1, &path(A), 200).is_some(), "evicting the master took the drawable handle with it");
}

#[test]
fn a_rescan_forgets_tracks_that_are_gone() {
    let mut cache = Cache::new();
    cache.insert(&art(1, ArtKey::of(&[1]), 256));
    cache.insert(&art(2, ArtKey::of(&[2]), 256));

    cache.forget(&[1]);

    assert!(cache.knows(1));
    assert!(!cache.knows(2));
}

#[test]
fn a_rescan_releases_the_pixels_of_tracks_that_are_gone() {
    let mut cache = Cache::new();
    let (kept, gone) = (ArtKey::of(&[1]), ArtKey::of(&[2]));

    cache.insert(&art(1, kept, 256));
    cache.insert(&art(2, gone, 256));
    cache.keep_master(kept, image(64, 64));
    cache.keep_master(gone, image(2048, 2048));

    let before = cache.master_bytes();
    cache.forget(&[1]);

    assert!(cache.master_bytes() < before, "a rescan left the masters of departed tracks resident");
    assert!(cache.master(gone).is_none());
    assert!(cache.extent_of(gone).is_none());
    assert!(!cache.holds_cut(gone, 256), "a rescan left drawable copies of art no track claims");

    assert!(cache.master(kept).is_some(), "it dropped art still in use");
    assert!(cache.holds_cut(kept, 256));
}

#[test]
fn a_shared_cover_survives_one_of_its_tracks_leaving() {
    let mut cache = Cache::new();
    let key = ArtKey::of(&[1]);

    cache.insert(&art(1, key, 256));
    cache.insert(&art(2, key, 256));
    cache.keep_master(key, image(64, 64));

    cache.forget(&[1]);

    assert!(
        cache.master(key).is_some() && cache.holds_cut(key, 256),
        "art still carried by a living track was dropped with its sibling"
    );
}

#[test]
fn a_rescan_answers_what_it_let_go() {
    let mut cache = Cache::new();
    let (kept, gone) = (ArtKey::of(&[1]), ArtKey::of(&[2]));
    cache.insert(&art(1, kept, 256));
    cache.insert(&art(2, gone, 128));
    cache.keep_master(gone, image(64, 64));

    let (masters, cuts) = cache.forget(&[1]);

    assert_eq!(masters, vec![gone]);
    assert_eq!(cuts, vec![(gone, 128)]);
}

#[test]
fn a_kept_master_evicts_the_least_recently_used_first() {
    let mut cache = Cache::new();
    let (a, b, c) = (ArtKey::of(&[1]), ArtKey::of(&[2]), ArtKey::of(&[3]));
    assert_eq!(cache.keep_master(a, image(2048, 5120)), (true, vec![]));
    assert_eq!(cache.keep_master(b, image(2048, 5120)), (true, vec![]));
    assert!(cache.master(a).is_some());
    assert_eq!(cache.keep_master(c, image(2048, 5120)), (true, vec![b]));
    assert_eq!(cache.master_bytes(), 2 * 2048 * 5120 * 4);
    assert!(4096 * 8192 * 4 > MASTER_BUDGET);
    assert_eq!(cache.keep_master(c, image(4096, 8192)), (false, vec![]));
}

#[test]
fn a_full_set_of_cuts_lets_the_oldest_go() {
    let mut cache = Cache::new();
    for n in 0..64i64 {
        assert_eq!(cache.insert(&art(n, ArtKey::of(&[n as u8, 7]), 64)), None);
    }
    let first = ArtKey::of(&[0, 7]);
    assert_eq!(cache.insert(&art(99, ArtKey::of(&[99]), 64)), Some((first, 64)));
    assert_eq!(cache.held_cuts(), 64);
}

#[test]
fn a_request_for_an_unread_track_wants_it_at_the_rounded_size() {
    let mut cache = Cache::new();
    assert!(cache.request(5, &path(A), 300).is_none());
    let handed = cache.take();
    assert_eq!(handed.len(), 1);
    assert_eq!(handed[0].0.track, 5);
    assert_eq!(handed[0].0.bucket, quantise_edge(300));
    assert_eq!(handed[0].0.path, path(A));
    assert!(handed[0].1.is_none());
    assert_eq!(cache.in_flight(), 1);
}

#[test]
fn the_nearest_larger_size_stands_in_while_the_wanted_one_is_read() {
    let mut cache = Cache::new();
    let key = ArtKey::of(&[1]);
    cache.insert(&art(1, key, 128));
    cache.insert(&art(1, key, 1024));
    cache.insert(&art(1, key, 2048));
    assert_eq!(cache.request(1, &path(A), 300), Some((key, 1024)));
}

#[test]
fn a_job_is_handed_the_very_picture_kept() {
    let mut cache = Cache::new();
    let key = ArtKey::of(&[1]);
    cache.insert(&art(1, key, 256));
    let kept = image(64, 64);
    cache.keep_master(key, kept.clone());

    let _ = cache.request(1, &path(A), 900);
    let handed = cache.take();

    let (handed_key, picture) = handed[0].1.clone().expect("a kept picture is handed out");
    assert_eq!(handed_key, key);
    assert!(Arc::ptr_eq(&picture, &kept));
}

use std::path::PathBuf;

use verse::download::{Download, Downloads, Found, Generation, Results, Search, Stage};

fn found(id: &str) -> Found {
    Found {
        id: id.to_owned(),
        title: format!("Track {id}"),
        artist: Some("Someone".to_owned()),
        album: None,
        album_id: None,
        duration: Some(100),
        cover_url: None,
        explicit: false,
    }
}

fn results(tracks: Vec<Found>) -> Stage {
    Stage::Results(Box::new(Results { albums: Vec::new(), tracks }))
}

#[test]
fn typing_a_query_asks_for_a_search() {
    let mut search = Search::<f32>::default();
    let issued = search.query_changed("radiohead".to_owned());

    let (generation, query) = issued.expect("a search is issued");
    assert_eq!(query, "radiohead");
    assert!(search.is_current(generation));
    assert!(search.stage.is_busy());
}

#[test]
fn a_reply_fills_the_pane() {
    let mut search = Search::<f32>::default();
    let (generation, _) = search.query_changed("a".to_owned()).expect("issued");

    assert!(search.settle(generation, results(vec![found("x")])));
    assert_eq!(search.stage.tracks().len(), 1);
    assert!(!search.stage.is_busy());
}

#[test]
fn typing_again_keeps_the_results_already_on_screen() {
    let mut search = Search::<f32>::default();
    let (first, _) = search.query_changed("rad".to_owned()).expect("issued");
    search.settle(first, results(vec![found("showing")]));

    search.query_changed("radiohead".to_owned()).expect("issued");

    assert_eq!(search.stage.tracks().len(), 1, "the grid the user was reading was thrown away mid-keystroke");
    assert!(search.is_searching(), "the new search is still in flight");
}

#[test]
fn a_first_search_with_nothing_to_keep_shows_that_it_is_working() {
    let mut search = Search::<f32>::default();
    search.query_changed("radiohead".to_owned()).expect("issued");

    assert!(
        matches!(search.stage, Stage::Searching),
        "a cold search has no results to hold, so the body says so"
    );
}

#[test]
fn a_search_that_finds_nothing_stops_showing_the_previous_results() {
    let mut search = Search::<f32>::default();
    let (first, _) = search.query_changed("rad".to_owned()).expect("issued");
    search.settle(first, results(vec![found("old")]));

    let (second, _) = search.query_changed("zzzz".to_owned()).expect("issued");
    search.settle(second, results(Vec::new()));

    assert!(search.stage.tracks().is_empty(), "stale results outlived the search that replaced them");
}

#[test]
fn a_stale_reply_is_dropped() {
    let mut search = Search::<f32>::default();
    let (first, _) = search.query_changed("rad".to_owned()).expect("issued");
    let (second, _) = search.query_changed("radiohead".to_owned()).expect("issued");

    assert!(!search.settle(first, results(vec![found("stale")])));
    assert!(search.stage.is_busy(), "the newer search is still running");

    assert!(search.settle(second, results(vec![found("fresh")])));
    assert_eq!(search.stage.tracks()[0].id, "fresh");
}

#[test]
fn retyping_the_same_text_does_not_accept_the_older_reply() {
    let mut search = Search::<f32>::default();
    let (first, _) = search.query_changed("nine".to_owned()).expect("issued");
    search.query_changed(String::new());
    let (third, _) = search.query_changed("nine".to_owned()).expect("issued");

    assert_ne!(first, third, "the same text is a different generation");
    assert!(!search.settle(first, results(vec![found("old")])));
    assert!(search.settle(third, results(vec![found("new")])));
}

#[test]
fn clearing_the_query_asks_for_nothing_and_shows_nothing() {
    let mut search = Search::<f32>::default();
    search.query_changed("radiohead".to_owned());

    assert!(search.query_changed(String::new()).is_none());
    assert!(matches!(search.stage, Stage::Idle));
}

#[test]
fn a_query_of_only_spaces_is_not_a_search() {
    let mut search = Search::<f32>::default();
    assert!(search.query_changed("   ".to_owned()).is_none());
    assert!(matches!(search.stage, Stage::Idle));
}

#[test]
fn a_reply_that_lands_after_clearing_is_dropped() {
    let mut search = Search::<f32>::default();
    let (generation, _) = search.query_changed("a".to_owned()).expect("issued");
    search.query_changed(String::new());

    assert!(!search.settle(generation, results(vec![found("late")])));
    assert!(matches!(search.stage, Stage::Idle));
}

#[test]
fn a_failure_is_reported_rather_than_left_spinning() {
    let mut search = Search::<f32>::default();
    let (generation, _) = search.query_changed("a".to_owned()).expect("issued");

    search.settle(generation, Stage::Failed("offline".to_owned()));

    assert!(!search.stage.is_busy());
    assert!(matches!(search.stage, Stage::Failed(_)));
}

#[test]
fn retrying_a_failure_asks_the_same_question_again() {
    let mut search = Search::<f32>::default();
    let (first, _) = search.query_changed("radiohead".to_owned()).expect("issued");
    search.settle(first, Stage::Failed("offline".to_owned()));

    let (second, query) = search.retry().expect("a failed search can be retried");

    assert_eq!(query, "radiohead", "the retry asked something else");
    assert_ne!(first, second, "the reply to the first attempt is now stale");
    assert!(search.is_current(second));
}

#[test]
fn there_is_nothing_to_retry_without_a_query() {
    let mut search = Search::<f32>::default();

    assert!(search.retry().is_none(), "an empty field has no question to ask again");
    assert!(!search.is_searching());
}

#[test]
fn opening_an_album_leaves_the_listing_in_place() {
    let mut search = Search::<f32>::default();
    let (generation, _) = search.query_changed("a".to_owned()).expect("issued");
    search.settle(generation, results(vec![found("t")]));

    assert!(search.open("MPRE1"));
    assert!(search.is_open("MPRE1"));
    assert_eq!(search.stage.tracks().len(), 1, "the grid the album was opened from must stay on screen");
}

#[test]
fn opening_the_same_album_again_closes_it() {
    let mut search = Search::<f32>::default();

    assert!(search.open("MPRE1"));
    assert!(!search.open("MPRE1"), "a second click closes the panel");
    assert!(!search.is_open("MPRE1"));
}

#[test]
fn a_new_listing_closes_whatever_was_open() {
    let mut search = Search::<f32>::default();
    search.open("MPRE1");

    let (generation, _) = search.query_changed("b".to_owned()).expect("issued");
    search.settle(generation, results(vec![found("x")]));

    assert!(!search.is_open("MPRE1"));
}

#[test]
fn an_album_that_arrives_after_being_closed_is_dropped() {
    let mut search = Search::<f32>::default();
    search.open("MPRE1");
    search.open("MPRE1");

    search.opened_settled(
        "MPRE1",
        Ok(verse::download::FoundAlbum {
            id: "MPRE1".to_owned(),
            title: "Album".to_owned(),
            artist: None,
            year: None,
            cover_url: None,
            explicit: false,
            tracks: vec![found("t")],
        }),
    );

    assert!(search.opened.is_none());
}

#[test]
fn a_download_is_tracked_by_recording_rather_than_by_row() {
    let mut downloads = Downloads::<f32>::default();
    downloads.set("abc", Download::Queued);
    downloads.set("abc", Download::Running(0.5));

    assert!(matches!(downloads.get("abc"), Some(Download::Running(share)) if *share == 0.5));
    assert_eq!(downloads.running(), 1);
    assert!(downloads.holds("abc"));
}

#[test]
fn a_settled_download_no_longer_counts_as_running() {
    let mut downloads = Downloads::<f32>::default();
    downloads.set("a", Download::Running(0.2));
    downloads.set("b", Download::Done(7));
    downloads.set("c", Download::Failed("nope".to_owned()));

    assert_eq!(downloads.running(), 1);
}

#[test]
fn forgetting_settled_downloads_keeps_the_running_ones() {
    let mut downloads = Downloads::<f32>::default();
    downloads.set("a", Download::Running(0.2));
    downloads.set("b", Download::Done(7));

    downloads.forget_settled();

    assert!(downloads.holds("a"));
    assert!(!downloads.holds("b"));
}

#[test]
fn a_finished_download_reads_as_complete_before_it_reaches_the_library() {
    let mut downloads = Downloads::<f32>::default();
    downloads.landed("a", PathBuf::from("/music/a.m4a"), 1.0);

    assert!(matches!(downloads.get("a"), Some(Download::Running(share)) if *share == 1.0));
    assert!(downloads.waiting());
}

#[test]
fn draining_hands_over_every_landed_file_once() {
    let mut downloads = Downloads::<f32>::default();
    downloads.landed("a", PathBuf::from("/music/a.m4a"), 1.0);
    downloads.landed("b", PathBuf::from("/music/b.m4a"), 1.0);

    let drained = downloads.take_landed();

    assert_eq!(drained.len(), 2, "an album's tracks drain together");
    assert!(!downloads.waiting(), "a drained batch is not drained twice");
    assert!(downloads.take_landed().is_empty());
}

#[test]
fn nothing_waiting_is_nothing_to_drain() {
    let mut downloads = Downloads::<f32>::default();
    downloads.set("a", Download::Running(0.4));

    assert!(!downloads.waiting());
    assert!(downloads.take_landed().is_empty());
}

#[test]
fn a_new_listing_forgets_downloads_that_have_finished() {
    let mut search = Search::<f32>::default();
    let (generation, _) = search.query_changed("a".to_owned()).expect("issued");

    search.downloads.set("done", Download::Done(7));
    search.downloads.set("live", Download::Running(0.3));

    assert!(search.settle(generation, results(vec![found("x")])));

    assert!(!search.downloads.holds("done"), "a settled row was kept");
    assert!(search.downloads.holds("live"), "a download still running was forgotten mid-flight");
}

#[test]
fn a_generation_keeps_moving_even_at_the_end_of_its_range() {
    let last = Generation(u64::MAX);
    assert_ne!(last.next(), last);
}

#[test]
fn a_burst_of_keystrokes_leaves_only_the_last_showing() {
    let mut search = Search::<f32>::default();

    let issued: Vec<Generation> = ["r", "ra", "rad", "radi", "radiohead"]
        .into_iter()
        .filter_map(|prefix| search.query_changed(prefix.to_owned()).map(|(generation, _)| generation))
        .collect();

    assert_eq!(issued.len(), 5, "each keystroke asks");

    let (last, superseded) = issued.split_last().expect("five generations");

    for (index, stale) in superseded.iter().enumerate() {
        assert!(
            !search.settle(*stale, results(vec![found(&index.to_string())])),
            "reply {index} is stale and must not show"
        );
    }

    assert!(search.settle(*last, results(vec![found("radiohead")])));
    assert_eq!(search.stage.tracks()[0].id, "radiohead");
}

#[test]
fn replies_arriving_backwards_still_leave_the_newest_showing() {
    let mut search = Search::<f32>::default();
    let (first, _) = search.query_changed("a".to_owned()).expect("issued");
    let (second, _) = search.query_changed("ab".to_owned()).expect("issued");

    assert!(search.settle(second, results(vec![found("newest")])));
    assert!(
        !search.settle(first, results(vec![found("oldest")])),
        "the older reply arrives last and must still be refused"
    );

    assert_eq!(search.stage.tracks()[0].id, "newest");
}

use verse::layout::PaneId;
use verse::pane::collections::{self, Id, Kind, PanelMessage};
use verse::pane::{plural, span, summary, PaneCategory, PaneKind, PaneMessage, PaneState, PaneStates, PaneType};
use verse::pane::{queue, timeline};

#[test]
fn one_track_is_not_pluralized() {
    assert_eq!(plural(1), "track");
    assert_eq!(plural(0), "tracks");
    assert_eq!(plural(9), "tracks");
}

#[test]
fn every_kind_appears_exactly_once_in_all() {
    for kind in PaneKind::ALL {
        let count = PaneKind::ALL.iter().filter(|k| **k == kind).count();
        assert_eq!(count, 1, "{kind:?} listed {count} times in ALL");
    }
}

#[test]
fn categories_are_contiguous_in_all() {
    let groups = PaneKind::by_category();
    let mut seen: Vec<PaneCategory> = Vec::new();
    for (category, _) in &groups {
        assert!(!seen.contains(category), "{category:?} appears in two separate groups");
        seen.push(*category);
    }
}

#[test]
fn by_category_covers_all_kinds() {
    let grouped: Vec<PaneKind> = PaneKind::by_category().into_iter().flat_map(|(_, kinds)| kinds).collect();
    assert_eq!(grouped, PaneKind::ALL.to_vec());
}

#[test]
fn empty_query_matches_everything() {
    assert_eq!(PaneKind::search("").len(), PaneKind::ALL.len());
}

#[test]
fn search_matches_title_case_insensitively() {
    assert_eq!(PaneKind::search("NOW PLAY"), vec![PaneKind::NowPlaying]);
}

#[test]
fn search_matches_keywords() {
    assert!(PaneKind::search("metadata").contains(&PaneKind::TrackInfo));
    assert!(PaneKind::search("spectrum").contains(&PaneKind::Visualizer));
    assert!(PaneKind::search("equalizer").contains(&PaneKind::Equalizer));
}

#[test]
fn search_matches_category_name() {
    let browse = PaneKind::search("browse");
    assert!(browse.contains(&PaneKind::Albums));
    assert!(!browse.contains(&PaneKind::Lyrics));
}

#[test]
fn search_returns_nothing_for_nonsense() {
    assert!(PaneKind::search("zzzznotathing").is_empty());
}

#[test]
fn search_preserves_all_ordering() {
    let results = PaneKind::search("s");
    let mut expected = results.clone();
    expected.sort_by_key(|kind| PaneKind::ALL.iter().position(|k| k == kind).expect("kind is in ALL"));
    assert_eq!(results, expected);
}

#[test]
fn a_pane_type_comes_back_from_its_title() {
    for kind in PaneType::ALL {
        assert_eq!(PaneType::from_title(kind.title()), kind);
    }
    assert_eq!(PaneType::from_title("VU Meters"), PaneType::VUMeters);
    assert_eq!(PaneType::from_title("nonsense"), PaneType::Empty);
}

fn album_id(name: &str) -> Id {
    Id::Album(collections::AlbumKey { name: name.to_owned(), artist: None })
}

#[test]
fn a_pane_is_given_the_state_of_its_kind_once() {
    let mut states = PaneStates::<f32, u32>::default();
    states.ensure(PaneId(1), PaneKind::Queue);
    states.update(PaneId(1), PaneMessage::Queue(queue::Message::ToggleHistory));
    states.ensure(PaneId(1), PaneKind::Queue);

    match states.get(PaneId(1)) {
        Some(PaneState::Queue(state)) => assert!(state.show_history, "ensuring again reset the pane"),
        other => panic!("expected queue state, got {other:?}"),
    }
}

#[test]
fn resetting_a_pane_starts_it_over() {
    let mut states = PaneStates::<f32, u32>::default();
    states.ensure(PaneId(1), PaneKind::Timeline);
    states.update(PaneId(1), PaneMessage::Timeline(timeline::Message::ToggleRemaining));
    states.reset(PaneId(1), PaneKind::Timeline);

    match states.get(PaneId(1)) {
        Some(PaneState::Timeline(state)) => assert!(!state.show_remaining),
        other => panic!("expected timeline state, got {other:?}"),
    }
}

#[test]
fn a_message_for_another_kind_changes_nothing() {
    let mut states = PaneStates::<f32, u32>::default();
    states.ensure(PaneId(3), PaneKind::Queue);
    states.update(PaneId(3), PaneMessage::Timeline(timeline::Message::Hovered(Some(0.5))));

    match states.get(PaneId(3)) {
        Some(PaneState::Queue(state)) => assert!(!state.show_history),
        other => panic!("expected queue state, got {other:?}"),
    }
}

#[test]
fn two_panes_of_one_kind_keep_their_own_state() {
    let mut states = PaneStates::<f32, u32>::default();
    states.ensure(PaneId(1), PaneKind::Collections);
    states.ensure(PaneId(2), PaneKind::Collections);
    states.update(PaneId(1), PaneMessage::Collections(PanelMessage::Toggle(album_id("Mezzanine"))));

    match (states.get(PaneId(1)), states.get(PaneId(2))) {
        (Some(PaneState::Collections(one)), Some(PaneState::Collections(two))) => {
            assert!(one.is_open(&album_id("Mezzanine")));
            assert!(!two.is_open(&album_id("Mezzanine")));
        }
        _ => panic!("expected two collections states"),
    }
}

#[test]
fn removed_and_unlisted_panes_lose_their_state() {
    let mut states = PaneStates::<f32, u32>::default();
    states.ensure(PaneId(1), PaneKind::Queue);
    states.ensure(PaneId(2), PaneKind::Artwork);
    states.ensure(PaneId(3), PaneKind::Library);

    states.remove(PaneId(1));
    assert!(states.get(PaneId(1)).is_none());

    states.retain(&[PaneId(3)]);
    assert!(states.get(PaneId(2)).is_none());
    assert!(matches!(states.get(PaneId(3)), Some(PaneState::Stateless)));
}

#[test]
fn a_pane_state_can_be_changed_in_place() {
    let mut states = PaneStates::<f32, u32>::default();
    states.ensure(PaneId(4), PaneKind::Queue);
    if let Some(PaneState::Queue(state)) = states.get_mut(PaneId(4)) {
        state.show_history = true;
    }
    assert!(matches!(states.get(PaneId(4)), Some(PaneState::Queue(state)) if state.show_history));
    assert!(states.get_mut(PaneId(9)).is_none());
}

#[test]
fn the_two_grids_are_numbered_apart() {
    assert_ne!(Kind::Album, Kind::Playlist);
}

/// A run time in seconds as the whole minutes a span is read in: the nearest
/// minute, and none for a time that is not a positive number.
fn whole_minutes(seconds: f32) -> u64 {
    if !seconds.is_finite() || seconds <= 0.0 {
        0
    } else {
        (seconds / 60.0).round() as u64
    }
}

#[test]
fn a_short_list_reads_in_minutes() {
    assert_eq!(span(whole_minutes(0.0)), "0 min");
    assert_eq!(span(whole_minutes(90.0)), "2 min");
    assert_eq!(span(whole_minutes(59.0 * 60.0)), "59 min");
}

#[test]
fn a_long_list_reads_in_hours() {
    assert_eq!(span(whole_minutes(60.0 * 60.0)), "1 hr");
    assert_eq!(span(whole_minutes(90.0 * 60.0)), "1 hr 30 min");
    assert_eq!(span(whole_minutes(3.0 * 60.0 * 60.0)), "3 hr");
}

#[test]
fn mod_a_nonsense_total_still_reads_as_a_span() {
    assert_eq!(span(whole_minutes(f32::NAN)), "0 min");
    assert_eq!(span(whole_minutes(-500.0)), "0 min");
}

#[test]
fn a_summary_names_the_count_and_the_run_time() {
    assert_eq!(summary(1, whole_minutes(90.0)), "1 track \u{b7} 2 min");
    assert_eq!(summary(12, whole_minutes(90.0 * 60.0)), "12 tracks \u{b7} 1 hr 30 min");
}

#[test]
fn a_short_queue_reads_in_minutes() {
    assert_eq!(span(whole_minutes(0.0)), "0 min");
    assert_eq!(span(whole_minutes(90.0)), "2 min");
    assert_eq!(span(whole_minutes(59.0 * 60.0)), "59 min");
}

#[test]
fn a_long_queue_reads_in_hours() {
    assert_eq!(span(whole_minutes(60.0 * 60.0)), "1 hr");
    assert_eq!(span(whole_minutes(90.0 * 60.0)), "1 hr 30 min");
    assert_eq!(span(whole_minutes(3.0 * 60.0 * 60.0)), "3 hr");
}

#[test]
fn queue_a_nonsense_total_still_reads_as_a_span() {
    assert_eq!(span(whole_minutes(f32::NAN)), "0 min");
    assert_eq!(span(whole_minutes(-500.0)), "0 min");
}

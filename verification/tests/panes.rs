use verse::pane::artwork;
use verse::pane::download::{self, clock, credit, PanelMessage};
use verse::pane::queue::{self, plural};
use verse::pane::timeline;
use verse::pane::track_info::{self as track_info, channels, joined};

#[test]
fn history_stays_hidden_until_toggled() {
    let mut state = queue::State::default();
    assert!(!state.show_history);

    queue::update(&mut state, &queue::Message::ToggleHistory);
    assert!(state.show_history);
}

#[test]
fn one_track_is_not_pluralised() {
    assert_eq!(plural(1), "track");
    assert_eq!(plural(0), "tracks");
    assert_eq!(plural(9), "tracks");
}

#[test]
fn the_remaining_clock_toggles_and_the_hover_follows_the_pointer() {
    let mut state = timeline::State::<f32>::default();
    timeline::update(&mut state, &timeline::Message::ToggleRemaining);
    timeline::update(&mut state, &timeline::Message::Hovered(Some(0.25)));
    assert!(state.show_remaining);
    assert_eq!(state.hovered, Some(0.25));
    timeline::update(&mut state, &timeline::Message::Hovered(None));
    assert_eq!(state.hovered, None);
}

#[test]
fn a_gap_while_the_next_track_resolves_keeps_the_last_cover() {
    let mut state = artwork::State::default();
    let _ = state.bridge(Some(1u32), true);

    assert_eq!(state.bridge(None, true), Some(1), "a frame with nothing ready blinked to the placeholder");
}

#[test]
fn a_new_cover_replaces_the_held_one() {
    let mut state = artwork::State::default();
    let _ = state.bridge(Some(1u32), true);
    let _ = state.bridge(Some(2), true);

    assert_eq!(state.bridge(None, true), Some(2), "it held a stale cover");
}

#[test]
fn stopping_playback_drops_the_held_cover() {
    let mut state = artwork::State::default();
    let _ = state.bridge(Some(1u32), true);

    assert_eq!(state.bridge(None, false), None);
    assert_eq!(state.bridge(None, true), None, "the cover from before a stop came back for the next track");
}

#[test]
fn a_track_known_to_have_no_art_shows_the_placeholder() {
    let mut state = artwork::State::default();
    let _ = state.bridge(Some(1u32), true);

    state.clear();

    assert_eq!(state.bridge(None, true), None, "an art-less track kept showing the cover before it");
}

#[test]
fn two_panes_hold_their_own_covers() {
    let (mut wide, mut narrow) = (artwork::State::default(), artwork::State::default());

    let _ = wide.bridge(Some(1u32), true);
    let _ = narrow.bridge(Some(2u32), true);

    assert_eq!(wide.bridge(None, true), Some(1));
    assert_eq!(narrow.bridge(None, true), Some(2));
}

#[test]
fn hovering_one_tile_does_not_light_another() {
    let mut state = download::State::default();

    download::update(&mut state, &PanelMessage::Hovered("a".to_owned()));
    assert!(state.is_hovered("a"));
    assert!(!state.is_hovered("b"));

    download::update(&mut state, &PanelMessage::Hovered("b".to_owned()));
    assert!(state.is_hovered("b"));
    assert!(!state.is_hovered("a"));
}

#[test]
fn leaving_a_tile_that_is_no_longer_hovered_keeps_the_current_one() {
    let mut state = download::State::default();

    download::update(&mut state, &PanelMessage::Hovered("b".to_owned()));
    download::update(&mut state, &PanelMessage::Unhovered("a".to_owned()));

    assert!(state.is_hovered("b"), "a late exit from the tile the cursor already left must not clear the new one");
}

#[test]
fn download_a_duration_reads_as_minutes_and_seconds() {
    assert_eq!(clock(Some(200)), "3:20");
    assert_eq!(clock(Some(59)), "0:59");
}

#[test]
fn a_track_of_unknown_length_shows_no_clock() {
    assert_eq!(clock(None), "");
}

#[test]
fn a_missing_artist_still_reads_as_something() {
    assert_eq!(credit(None), "Unknown artist");
    assert_eq!(credit(Some("Someone")), "Someone");
}

#[test]
fn the_common_channel_layouts_are_named() {
    assert_eq!(channels(Some(1)).as_deref(), Some("Mono"));
    assert_eq!(channels(Some(2)).as_deref(), Some("Stereo"));
    assert_eq!(channels(Some(6)).as_deref(), Some("6 channels"));
}

#[test]
fn an_absent_channel_count_is_absent_rather_than_a_dash() {
    assert_eq!(channels(None), None);
}

#[test]
fn joining_keeps_only_what_is_there() {
    assert_eq!(joined(&vec![Some("Album"), None, Some("Genre")]).as_deref(), Some("Album \u{2022} Genre"));
}

#[test]
fn joining_nothing_is_nothing_rather_than_an_empty_line() {
    assert_eq!(joined(&vec![None, None]), None);
}

#[test]
fn a_blank_tag_is_treated_as_absent() {
    assert_eq!(joined(&vec![Some("  "), Some("Genre")]).as_deref(), Some("Genre"));
    assert_eq!(joined(&vec![Some(""), Some("")]), None);
}

#[test]
fn a_single_part_carries_no_separator() {
    let joined = joined(&vec![Some("Album"), None]).expect("one part is still a line");
    assert!(!joined.contains(" \u{2022} "), "{joined:?} has a dangling separator");
}

/// A running time in seconds as the whole seconds the pane shows, or none
/// for a time that cannot be read.
fn read_seconds(seconds: f32) -> Option<u64> {
    if !seconds.is_finite() || seconds < 0.0 {
        None
    } else {
        Some(seconds.round() as u64)
    }
}

#[test]
fn track_info_a_duration_reads_as_minutes_and_seconds() {
    assert_eq!(track_info::clock(read_seconds(0.0)), "0:00");
    assert_eq!(track_info::clock(read_seconds(9.0)), "0:09");
    assert_eq!(track_info::clock(read_seconds(75.0)), "1:15");
    assert_eq!(track_info::clock(read_seconds(3600.0)), "60:00");
}

#[test]
fn a_duration_rounds_to_the_nearest_second() {
    assert_eq!(track_info::clock(read_seconds(74.6)), "1:15");
    assert_eq!(track_info::clock(read_seconds(74.4)), "1:14");
}

#[test]
fn a_nonsense_duration_reads_as_a_dash() {
    assert_eq!(track_info::clock(read_seconds(f32::NAN)), "\u{2014}");
    assert_eq!(track_info::clock(read_seconds(-1.0)), "\u{2014}");
    assert_eq!(track_info::clock(read_seconds(f32::INFINITY)), "\u{2014}");
}

#[test]
fn a_drawn_cover_is_what_is_shown() {
    let mut state = artwork::State::default();
    assert_eq!(state.bridge(Some(1u32), true), Some(1), "the pane drew something other than the art it was given");
}

#[test]
fn an_absent_rate_is_absent_rather_than_a_dash() {
    assert_eq!(channels(None), None);
}

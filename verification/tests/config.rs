use verse::config::{active_slot, default_true, fill_slots};
use verse::layout::{default_presets, lock_glyph, Layout, LockIcon, Locks, PaneId};
use verse::pane::library::menu_labels;
use verse::pane::PaneKind;

#[test]
fn a_short_list_of_layouts_is_padded_from_the_defaults() {
    assert_eq!(fill_slots(vec!["mine"], vec!["a", "b"]), vec!["mine", "b"]);
    assert_eq!(fill_slots(Vec::new(), vec!["a", "b"]), vec!["a", "b"]);
    assert_eq!(fill_slots(vec!["x", "y", "z"], vec!["a", "b"]), vec!["x", "y", "z"]);
}

#[test]
fn a_long_list_of_layouts_is_cut_to_the_slots() {
    let saved: Vec<u32> = (0..14).collect();
    assert_eq!(fill_slots(saved, vec![100, 101]), (0..10).collect::<Vec<u32>>());
}

#[test]
fn the_active_layout_stays_within_the_list() {
    assert_eq!(active_slot(1, 2), 1);
    assert_eq!(active_slot(7, 2), 1);
    assert!(default_true());
}

#[test]
fn the_presets_are_browsing_then_the_library() {
    let presets: Vec<Layout<f32, f32>> = default_presets(0.62, 320.0);
    assert_eq!(presets.len(), 2);
    assert_eq!(presets[0].name, "Browsing");
    assert_eq!(presets[0].kind(PaneId(1)), Some(PaneKind::Queue));
    assert_eq!(presets[0].locks(PaneId(1)).width, Some(320.0));
    assert_eq!(presets[1].name, "Library");
    assert_eq!(presets[1].kind(PaneId(0)), Some(PaneKind::Library));
}

fn lock_label(locks: Locks<f32>) -> &'static str {
    lock_glyph(&locks).1
}

#[test]
fn every_lock_state_has_its_own_icon() {
    let states = [
        Locks::default(),
        Locks { width: Some(320.0), height: None },
        Locks { width: None, height: Some(180.0) },
        Locks { width: Some(320.0), height: Some(180.0) },
    ];

    for (i, a) in states.iter().enumerate() {
        for b in &states[i + 1..] {
            assert_ne!(
                lock_glyph(a).0,
                lock_glyph(b).0,
                "{:?} and {:?} share an icon",
                lock_label(*a),
                lock_label(*b)
            );
        }
    }
    assert_eq!(lock_glyph(&states[0]).0, LockIcon::Unlock);
}

#[test]
fn the_lock_label_names_every_state() {
    assert_eq!(lock_label(Locks::default()), "Free");
    assert_eq!(lock_label(Locks { width: Some(320.0), height: None }), "Width locked");
    assert_eq!(lock_label(Locks { width: None, height: Some(180.0) }), "Height locked");
    assert_eq!(lock_label(Locks { width: Some(320.0), height: Some(180.0) }), "Width and height locked");
}

#[test]
fn a_single_track_menu_does_not_announce_a_count() {
    for selected in [0, 1] {
        assert!(
            menu_labels(selected).iter().all(|label| !label.contains("tracks")),
            "a {selected}-track menu counted its tracks"
        );
    }
}

#[test]
fn a_multi_track_menu_says_how_many_it_will_act_on() {
    let labels = menu_labels(3);
    assert!(labels.iter().any(|label| label.contains("(3 tracks)")), "{labels:?}");
}

#[test]
fn the_menu_offers_the_three_playback_actions() {
    let labels = menu_labels(1);
    assert!(labels.iter().any(|label| label.starts_with("Play")));
    assert!(labels.iter().any(|label| label.starts_with("Play next")));
    assert!(labels.iter().any(|label| label.starts_with("Add to queue")));
}

#[test]
fn a_saved_theme_is_found_by_its_exact_name() {
    let names: Vec<String> = ["Light", "Dark", "Kanagawa Dragon", "Dark"].iter().map(|name| name.to_string()).collect();
    assert_eq!(verse::config::theme_from_str(&names, "Dark"), Some(1));
    assert_eq!(verse::config::theme_from_str(&names, "Kanagawa Dragon"), Some(2));
    assert_eq!(verse::config::theme_from_str(&names, "dark"), None);
    assert_eq!(verse::config::theme_from_str(&names, ""), None);
}

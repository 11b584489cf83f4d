use verse::pane::collections::{clock, update, AlbumKey, Id, PanelMessage, State};

/// The number each tile carries, which is its index into the visible list
/// the click is resolved against, rebuilt from the row and the place in it.
fn numbering(collections: usize, columns: usize) -> Vec<usize> {
    (0..collections)
        .collect::<Vec<usize>>()
        .chunks(columns)
        .enumerate()
        .flat_map(|(line, chunk)| {
            let first = line * columns;
            (0..chunk.len()).map(move |offset| first + offset)
        })
        .collect()
}

fn album_id(name: &str) -> Id {
    Id::Album(AlbumKey { name: name.to_owned(), artist: None })
}

#[test]
fn a_tile_is_numbered_by_its_place_in_the_visible_list() {
    for columns in 1..6 {
        assert_eq!(
            numbering(11, columns),
            (0..11).collect::<Vec<usize>>(),
            "in {columns} columns a tile would play the wrong album"
        );
    }
}

#[test]
fn filtering_does_not_shift_what_a_cover_plays() {
    let library = ["Blue Lines", "Mezzanine", "Protection"];
    let visible: Vec<&str> = library.iter().copied().filter(|name| *name != "Blue Lines").collect();

    for (shown, name) in numbering(visible.len(), 2).into_iter().zip(&visible) {
        assert_eq!(visible[shown], *name);
    }

    assert_ne!(library[numbering(visible.len(), 2)[0]], visible[0], "the filter dropped nothing, so this proves nothing");
}

#[test]
fn clicking_a_tile_opens_it_and_clicking_it_again_closes_it() {
    let mut state = State::default();
    let id = album_id("Mezzanine");

    update(&mut state, &PanelMessage::Toggle(id.clone()));
    assert!(state.is_open(&id));

    update(&mut state, &PanelMessage::Toggle(id.clone()));
    assert!(!state.is_open(&id), "the tile that opened the panel could not dismiss it");
}

#[test]
fn opening_a_second_collection_closes_the_first() {
    let mut state = State::default();
    let (first, second) = (album_id("Mezzanine"), album_id("Protection"));

    update(&mut state, &PanelMessage::Toggle(first.clone()));
    update(&mut state, &PanelMessage::Toggle(second.clone()));

    assert!(state.is_open(&second));
    assert!(!state.is_open(&first), "two panels were open at once, so the grid held two displaced rows");
}

#[test]
fn an_album_and_a_playlist_are_never_the_same_panel() {
    let mut state = State::default();
    update(&mut state, &PanelMessage::Toggle(Id::Playlist(1)));

    assert!(!state.is_open(&album_id("Mezzanine")));
    assert!(state.is_open(&Id::Playlist(1)));
}

#[test]
fn a_panel_follows_its_collection_rather_than_its_position() {
    let before = ["Blue Lines", "Mezzanine", "Protection"];
    let after = ["Mezzanine", "Protection"];

    let mut state = State::default();
    update(&mut state, &PanelMessage::Toggle(album_id(before[1])));

    let still_open = after
        .iter()
        .position(|name| state.is_open(&album_id(name)))
        .expect("the album is still in the filtered grid");

    assert_eq!(after[still_open], "Mezzanine", "the panel moved to the album that took its old slot");
    assert_ne!(still_open, 1, "the filter shifted nothing, so this proves nothing");
}

#[test]
fn a_collection_filtered_out_of_the_grid_draws_no_panel() {
    let mut state = State::default();
    update(&mut state, &PanelMessage::Toggle(album_id("Blue Lines")));

    let shown = ["Mezzanine", "Protection"];
    assert!(
        !shown.iter().any(|name| state.is_open(&album_id(name))),
        "a panel drew for an album no longer in the grid"
    );
}

#[test]
fn pointing_at_a_tile_lights_it() {
    let mut state = State::default();
    let id = album_id("Mezzanine");

    update(&mut state, &PanelMessage::Hovered(id.clone()));

    assert!(state.is_hovered(&id));
}

#[test]
fn leaving_a_tile_puts_it_out() {
    let mut state = State::default();
    let id = album_id("Mezzanine");

    update(&mut state, &PanelMessage::Hovered(id.clone()));
    update(&mut state, &PanelMessage::Unhovered(id.clone()));

    assert!(state.hovered.is_none());
}

#[test]
fn a_late_departure_does_not_blank_the_tile_just_entered() {
    let mut state = State::default();
    let (left, entered) = (album_id("Blue Lines"), album_id("Mezzanine"));

    update(&mut state, &PanelMessage::Hovered(left.clone()));
    update(&mut state, &PanelMessage::Hovered(entered.clone()));
    update(&mut state, &PanelMessage::Unhovered(left));

    assert!(
        state.is_hovered(&entered),
        "the tile the pointer moved onto went dark when the old one reported leaving"
    );
}

#[test]
fn hovering_is_independent_of_what_is_expanded() {
    let mut state = State::default();
    let (open, pointed) = (album_id("Mezzanine"), album_id("Protection"));

    update(&mut state, &PanelMessage::Toggle(open.clone()));
    update(&mut state, &PanelMessage::Hovered(pointed.clone()));

    assert!(state.is_open(&open), "pointing elsewhere closed the panel");
    assert!(state.is_hovered(&pointed));
}

#[test]
fn albums_are_told_apart_by_their_artist_too() {
    let plain = album_id("Greatest Hits");
    let credited = Id::Album(AlbumKey { name: "Greatest Hits".to_owned(), artist: Some("Queen".to_owned()) });
    assert!(!plain.same(&credited));
    assert!(credited.same(&credited.clone()));
}

#[test]
fn whole_seconds_format_as_minutes_and_seconds() {
    assert_eq!(clock(0), "0:00");
    assert_eq!(clock(61), "1:01");
    assert_eq!(clock(599), "9:59");
}

/// A running time in seconds as the whole seconds a tile shows: the nearest
/// second, and none for a time that is not a positive number.
fn tile_seconds(seconds: f32) -> u64 {
    if seconds.is_finite() && seconds > 0.0 {
        seconds.round() as u64
    } else {
        0
    }
}

#[test]
fn durations_format_as_minutes_and_seconds() {
    assert_eq!(clock(tile_seconds(0.0)), "0:00");
    assert_eq!(clock(tile_seconds(61.0)), "1:01");
    assert_eq!(clock(tile_seconds(599.0)), "9:59");
    assert_eq!(clock(tile_seconds(f32::NAN)), "0:00");
}
